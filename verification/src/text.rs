//! Small text utilities: decimal rendering of numbers and appending characters to strings.

use vstd::prelude::*;
use crate::order::{
    lemma_lex_antisym, lemma_lex_refl, lemma_lex_skip, lemma_lex_total, lemma_lex_total_ordering,
    lemma_lex_trans, lex_le, Order, TotalPreorder,
};

verus! {

/// The ASCII digit for a value below ten.
pub open spec fn digit_char(d: nat) -> char {
    if d == 0 { '0' }
    else if d == 1 { '1' }
    else if d == 2 { '2' }
    else if d == 3 { '3' }
    else if d == 4 { '4' }
    else if d == 5 { '5' }
    else if d == 6 { '6' }
    else if d == 7 { '7' }
    else if d == 8 { '8' }
    else { '9' }
}

/// The decimal representation of a natural number, most significant digit first and with no
/// leading zeros.
pub open spec fn decimal(n: nat) -> Seq<char>
    decreases n,
{
    if n < 10 {
        seq![digit_char(n)]
    } else {
        decimal(n / 10).push(digit_char(n % 10))
    }
}

/// Appends one character to the end of a `String` (`String::push` from std).
#[verifier::external_body]
pub fn push_char(s: &mut String, c: char)
    ensures
        final(s)@ == old(s)@.push(c),
{
    s.push(c);
}

fn digit(d: usize) -> (c: char)
    requires
        d < 10,
    ensures
        c == digit_char(d as nat),
{
    if d == 0 { '0' }
    else if d == 1 { '1' }
    else if d == 2 { '2' }
    else if d == 3 { '3' }
    else if d == 4 { '4' }
    else if d == 5 { '5' }
    else if d == 6 { '6' }
    else if d == 7 { '7' }
    else if d == 8 { '8' }
    else { '9' }
}

/// Appends the decimal representation of `n` to `s`.
pub fn push_decimal(s: &mut String, n: usize)
    ensures
        final(s)@ == old(s)@ + decimal(n as nat),
    decreases n,
{
    if n >= 10 {
        push_decimal(s, n / 10);
    }
    push_char(s, digit(n % 10));
    proof {
        if n >= 10 {
            assert(decimal(n as nat) == decimal((n / 10) as nat).push(digit_char((n % 10) as nat)));
            assert(old(s)@ + decimal(n as nat) =~= old(s)@ + decimal((n / 10) as nat) + seq![digit_char((n % 10) as nat)]);
        } else {
            assert(old(s)@ + decimal(n as nat) =~= old(s)@.push(digit_char(n as nat)));
        }
    }
}

/// Appends the decimal representation of `n + 1` to `s` (which need not fit in a `usize`).
pub fn push_decimal_succ(s: &mut String, n: usize)
    ensures
        final(s)@ == old(s)@ + decimal(n as nat + 1),
    decreases n,
{
    let q = n / 10;
    let r = n % 10;
    if r == 9 {
        // n + 1 is a multiple of ten: the digits of q + 1, then a zero
        push_decimal_succ(s, q);
        push_char(s, '0');
        proof {
            assert((n as nat + 1) / 10 == q as nat + 1);
            assert((n as nat + 1) % 10 == 0);
            assert(decimal(n as nat + 1) == decimal(q as nat + 1).push(digit_char(0)));
            assert(final(s)@ =~= old(s)@ + decimal(n as nat + 1));
        }
    } else {
        // Only the last digit changes
        if q > 0 {
            push_decimal(s, q);
        }
        push_char(s, digit(r + 1));
        proof {
            if q > 0 {
                assert((n as nat + 1) / 10 == q as nat);
                assert((n as nat + 1) % 10 == r as nat + 1);
                assert(decimal(n as nat + 1) == decimal(q as nat).push(digit_char(r as nat + 1)));
                assert(final(s)@ =~= old(s)@ + decimal(n as nat + 1));
            } else {
                assert(final(s)@ =~= old(s)@ + decimal(n as nat + 1));
            }
        }
    }
}

/// Whether two strings hold the same characters.
pub fn str_eq(a: &str, b: &str) -> (r: bool)
    ensures
        r == (a@ == b@),
{
    let n = a.unicode_len();
    if n != b.unicode_len() {
        return false;
    }
    let mut i: usize = 0;
    while i < n
        invariant
            i <= n,
            n == a@.len(),
            n == b@.len(),
            forall|j: int| 0 <= j < i ==> a@[j] == b@[j],
        decreases n - i,
    {
        if a.get_char(i) != b.get_char(i) {
            return false;
        }
        i += 1;
    }
    assert(a@ =~= b@);
    true
}

/// Characters are ordered by their code points.
pub open spec fn char_le_fn() -> spec_fn(char, char) -> bool {
    |x: char, y: char| (x as int) <= (y as int)
}

/// The order of characters is a total order.
pub proof fn lemma_char_total_ordering()
    ensures
        vstd::relations::total_ordering(char_le_fn()),
{
    let l = char_le_fn();
    assert forall|x: char, y: char| #[trigger] l(x, y) && #[trigger] l(y, x) implies x == y by {
        assert((x as int) == (y as int));
    }
}

/// Compares two strings lexicographically by the code points of their characters.
pub fn compare_strs(a: &str, b: &str) -> (o: Order)
    ensures
        o == Order::Less <==> (lex_le(a@, b@, char_le_fn()) && !lex_le(b@, a@, char_le_fn())),
        o == Order::Equal <==> (lex_le(a@, b@, char_le_fn()) && lex_le(b@, a@, char_le_fn())),
        o == Order::Greater <==> (!lex_le(a@, b@, char_le_fn()) && lex_le(b@, a@, char_le_fn())),
{
    proof {
        lemma_char_total_ordering();
        lemma_lex_total_ordering(char_le_fn());
        lemma_lex_total(a@, b@, char_le_fn());
        if lex_le(a@, b@, char_le_fn()) && lex_le(b@, a@, char_le_fn()) {
            lemma_lex_antisym(a@, b@, char_le_fn());
        }
    }
    let la = a.unicode_len();
    let lb = b.unicode_len();
    let n: usize = if la < lb { la } else { lb };
    let mut i: usize = 0;
    while i < n
        invariant
            i <= n,
            la == a@.len(),
            lb == b@.len(),
            n <= la,
            n <= lb,
            n == la || n == lb,
            forall|k: int| 0 <= k < i ==> a@[k] == b@[k],
        decreases n - i,
    {
        let x = a.get_char(i);
        let y = b.get_char(i);
        if x != y {
            proof {
                lemma_lex_skip(a@, b@, char_le_fn(), i as int);
                lemma_lex_skip(b@, a@, char_le_fn(), i as int);
                assert(a@.skip(i as int)[0] == a@[i as int]);
                assert(b@.skip(i as int)[0] == b@[i as int]);
                assert((x as u32) != (y as u32));
            }
            if (x as u32) < (y as u32) {
                return Order::Less;
            } else {
                return Order::Greater;
            }
        }
        i += 1;
    }
    proof {
        lemma_lex_skip(a@, b@, char_le_fn(), n as int);
        lemma_lex_skip(b@, a@, char_le_fn(), n as int);
    }
    if la < lb {
        Order::Less
    } else if la == lb {
        proof {
            assert(a@ =~= b@);
            lemma_lex_refl(a@, char_le_fn());
        }
        Order::Equal
    } else {
        Order::Greater
    }
}

impl TotalPreorder for String {
    /// Strings are ordered lexicographically by the code points of their characters.
    open spec fn le(self, other: Self) -> bool {
        lex_le(self@, other@, char_le_fn())
    }

    proof fn lemma_total_preorder(a: Self, b: Self, c: Self) {
        lemma_char_total_ordering();
        lemma_lex_total_ordering(char_le_fn());
        lemma_lex_total(a@, b@, char_le_fn());
        if lex_le(a@, b@, char_le_fn()) && lex_le(b@, c@, char_le_fn()) {
            lemma_lex_trans(a@, b@, c@, char_le_fn());
        }
    }

    fn compare(&self, other: &Self) -> (o: Order) {
        compare_strs(self.as_str(), other.as_str())
    }
}

} // verus!
