//! Orderings used to sort rows and row locations: a three-way comparison result, a trait for
//! types with a total preorder, and the lexicographic order on sequences.

use vstd::prelude::*;
use vstd::relations::{sorted_by, total_ordering};

verus! {

/// The result of comparing two values.
#[derive(Debug, Clone, Copy, PartialEq, Eq, Structural)]
pub enum Order {
    Less,
    Equal,
    Greater,
}

/// A type whose values are ordered by a total preorder `le` (values may compare equal without
/// being identical), with an executable comparison that agrees with it.
pub trait TotalPreorder: Sized {
    spec fn le(self, other: Self) -> bool;

    /// `le` is total and transitive.
    proof fn lemma_total_preorder(a: Self, b: Self, c: Self)
        ensures
            a.le(b) || b.le(a),
            a.le(b) && b.le(c) ==> a.le(c),
    ;

    fn compare(&self, other: &Self) -> (o: Order)
        ensures
            o == Order::Less <==> (self.le(*other) && !other.le(*self)),
            o == Order::Equal <==> (self.le(*other) && other.le(*self)),
            o == Order::Greater <==> (!self.le(*other) && other.le(*self)),
    ;
}

/// The order `le` of a [`TotalPreorder`] type as a spec function value.
pub open spec fn le_fn<T: TotalPreorder>() -> spec_fn(T, T) -> bool {
    |a: T, b: T| a.le(b)
}

/// `s` is sorted in ascending order by the preorder of its element type.
pub open spec fn is_sorted<T: TotalPreorder>(s: Seq<T>) -> bool {
    sorted_by(s, le_fn::<T>())
}

/// The lexicographic order on sequences built from an order `le` on their elements: the first
/// place where the sequences differ decides, and a proper prefix comes first.
pub open spec fn lex_le<A>(a: Seq<A>, b: Seq<A>, le: spec_fn(A, A) -> bool) -> bool
    decreases a.len(),
{
    if a.len() == 0 {
        true
    } else if b.len() == 0 {
        false
    } else if a[0] == b[0] {
        lex_le(a.drop_first(), b.drop_first(), le)
    } else {
        le(a[0], b[0])
    }
}

pub proof fn lemma_lex_refl<A>(a: Seq<A>, le: spec_fn(A, A) -> bool)
    ensures
        lex_le(a, a, le),
    decreases a.len(),
{
    if a.len() > 0 {
        lemma_lex_refl(a.drop_first(), le);
    }
}

pub proof fn lemma_lex_total<A>(a: Seq<A>, b: Seq<A>, le: spec_fn(A, A) -> bool)
    requires
        total_ordering(le),
    ensures
        lex_le(a, b, le) || lex_le(b, a, le),
    decreases a.len(),
{
    if a.len() > 0 && b.len() > 0 {
        if a[0] == b[0] {
            lemma_lex_total(a.drop_first(), b.drop_first(), le);
        } else {
            assert(le(a[0], b[0]) || le(b[0], a[0]));
        }
    }
}

pub proof fn lemma_lex_antisym<A>(a: Seq<A>, b: Seq<A>, le: spec_fn(A, A) -> bool)
    requires
        total_ordering(le),
        lex_le(a, b, le),
        lex_le(b, a, le),
    ensures
        a =~= b,
    decreases a.len(),
{
    if a.len() > 0 && b.len() > 0 {
        if a[0] == b[0] {
            lemma_lex_antisym(a.drop_first(), b.drop_first(), le);
            assert(a =~= seq![a[0]] + a.drop_first());
            assert(b =~= seq![b[0]] + b.drop_first());
        } else {
            assert(le(a[0], b[0]) && le(b[0], a[0]));
        }
    }
}

pub proof fn lemma_lex_trans<A>(a: Seq<A>, b: Seq<A>, c: Seq<A>, le: spec_fn(A, A) -> bool)
    requires
        total_ordering(le),
        lex_le(a, b, le),
        lex_le(b, c, le),
    ensures
        lex_le(a, c, le),
    decreases a.len(),
{
    if a.len() > 0 && b.len() > 0 && c.len() > 0 {
        if a[0] == b[0] && b[0] == c[0] {
            lemma_lex_trans(a.drop_first(), b.drop_first(), c.drop_first(), le);
        } else if a[0] == b[0] {
            assert(le(b[0], c[0]));
        } else if b[0] == c[0] {
            assert(le(a[0], b[0]));
        } else {
            assert(le(a[0], b[0]) && le(b[0], c[0]));
            if a[0] == c[0] {
                assert(b[0] == a[0]);
            }
        }
    }
}

/// With equal prefixes of length `k`, the comparison is decided by what follows.
pub proof fn lemma_lex_skip<A>(a: Seq<A>, b: Seq<A>, le: spec_fn(A, A) -> bool, k: int)
    requires
        0 <= k <= a.len(),
        k <= b.len(),
        forall|i: int| 0 <= i < k ==> a[i] == b[i],
    ensures
        lex_le(a, b, le) == lex_le(a.skip(k), b.skip(k), le),
    decreases k,
{
    if k > 0 {
        lemma_lex_skip(a.drop_first(), b.drop_first(), le, k - 1);
        assert(a.drop_first().skip(k - 1) =~= a.skip(k));
        assert(b.drop_first().skip(k - 1) =~= b.skip(k));
    } else {
        assert(a.skip(0) =~= a);
        assert(b.skip(0) =~= b);
    }
}

pub proof fn lemma_lex_total_ordering<A>(le: spec_fn(A, A) -> bool)
    requires
        total_ordering(le),
    ensures
        total_ordering(|a: Seq<A>, b: Seq<A>| lex_le(a, b, le)),
{
    let l = |a: Seq<A>, b: Seq<A>| lex_le(a, b, le);
    assert forall|a: Seq<A>| #[trigger] l(a, a) by {
        lemma_lex_refl(a, le);
    }
    assert forall|a: Seq<A>, b: Seq<A>| #[trigger] l(a, b) && #[trigger] l(b, a) implies a == b by {
        lemma_lex_antisym(a, b, le);
    }
    assert forall|a: Seq<A>, b: Seq<A>, c: Seq<A>| #[trigger] l(a, b) && #[trigger] l(b, c) implies l(a, c) by {
        lemma_lex_trans(a, b, c, le);
    }
    assert forall|a: Seq<A>, b: Seq<A>| #[trigger] l(a, b) || #[trigger] l(b, a) by {
        lemma_lex_total(a, b, le);
    }
}

} // verus!
