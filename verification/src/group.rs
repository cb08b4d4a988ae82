//! Facts about permutations of `0..n`, written as sequences of integers: composition, inverses,
//! powers, and the existence of an order (some positive power is the identity).

use vstd::prelude::*;
use vstd::set_lib::{lemma_int_range, lemma_len_subset, lemma_subset_equality, set_int_range};

verus! {

/// Every entry of `s` lies in `0..n`.
pub open spec fn in_range(s: Seq<int>, n: int) -> bool {
    forall|i: int| 0 <= i < s.len() ==> 0 <= #[trigger] s[i] < n
}

/// No two entries of `s` are equal.
pub open spec fn distinct(s: Seq<int>) -> bool {
    forall|i: int, j: int|
        0 <= i < s.len() && 0 <= j < s.len() && i != j ==> #[trigger] s[i] != #[trigger] s[j]
}

/// `s` is a permutation of `0..s.len()`.
pub open spec fn is_perm(s: Seq<int>) -> bool {
    in_range(s, s.len() as int) && distinct(s)
}

/// The identity permutation `0, 1, ..., n - 1`.
pub open spec fn identity(n: nat) -> Seq<int> {
    Seq::new(n, |i: int| i)
}

/// `a` permuted by `b`: the `i`th entry is `a[b[i]]`.
pub open spec fn compose(a: Seq<int>, b: Seq<int>) -> Seq<int> {
    Seq::new(b.len(), |i: int| a[b[i]])
}

/// The `k`th power of `p`: the identity permuted `k` times by `p`.
pub open spec fn power(p: Seq<int>, k: nat) -> Seq<int>
    decreases k,
{
    if k == 0 {
        identity(p.len())
    } else {
        compose(power(p, (k - 1) as nat), p)
    }
}

/// The inverse of a permutation: the entry at `v` is the position at which `v` occurs in `s`.
pub open spec fn inverse(s: Seq<int>) -> Seq<int> {
    Seq::new(s.len(), |v: int| choose|i: int| 0 <= i < s.len() && s[i] == v)
}

/// `x` sent through `p` `k` times.
pub open spec fn iterate(p: Seq<int>, x: int, k: nat) -> int
    decreases k,
{
    if k == 0 {
        x
    } else {
        iterate(p, p[x], (k - 1) as nat)
    }
}

/// A sequence of distinct values drawn from `0..n` has at most `n` entries, and if it has exactly
/// `n` then every value of `0..n` occurs in it.
pub proof fn lemma_distinct_in_range(s: Seq<int>, n: int)
    requires
        distinct(s),
        in_range(s, n),
        n >= 0,
    ensures
        s.len() <= n,
        s.len() == n ==> forall|v: int| 0 <= v < n ==> s.contains(v),
{
    assert(s.no_duplicates());
    s.unique_seq_to_set();
    lemma_int_range(0, n);
    assert(s.to_set().subset_of(set_int_range(0, n)));
    lemma_len_subset(s.to_set(), set_int_range(0, n));
    if s.len() == n {
        lemma_subset_equality(s.to_set(), set_int_range(0, n));
        assert forall|v: int| 0 <= v < n implies s.contains(v) by {
            assert(set_int_range(0, n).contains(v));
            assert(s.to_set().contains(v));
        }
    }
}

/// Every value of `0..n` occurs in a permutation of length `n`.
pub proof fn lemma_perm_surjective(s: Seq<int>)
    requires
        is_perm(s),
    ensures
        forall|v: int| 0 <= v < s.len() ==> s.contains(v),
{
    lemma_distinct_in_range(s, s.len() as int);
}

/// The composition of two permutations of the same length is a permutation.
pub proof fn lemma_compose_perm(a: Seq<int>, b: Seq<int>)
    requires
        is_perm(a),
        is_perm(b),
        a.len() == b.len(),
    ensures
        is_perm(compose(a, b)),
{
    let c = compose(a, b);
    assert forall|i: int, j: int|
        0 <= i < c.len() && 0 <= j < c.len() && i != j implies #[trigger] c[i] != #[trigger] c[j] by {
        assert(b[i] != b[j]);
    }
}

/// Composing with the identity (on either side) changes nothing.
pub proof fn lemma_compose_identity(a: Seq<int>)
    requires
        in_range(a, a.len() as int),
    ensures
        compose(a, identity(a.len())) == a,
        compose(identity(a.len()), a) == a,
{
    assert(compose(a, identity(a.len())) =~= a);
    assert(compose(identity(a.len()), a) =~= a);
}

/// The inverse of a permutation is a permutation, and composing a permutation with its inverse
/// (either way round) gives the identity.
pub proof fn lemma_inverse(s: Seq<int>)
    requires
        is_perm(s),
    ensures
        is_perm(inverse(s)),
        compose(s, inverse(s)) == identity(s.len()),
        compose(inverse(s), s) == identity(s.len()),
        forall|i: int| 0 <= i < s.len() ==> #[trigger] inverse(s)[s[i]] == i,
{
    let n = s.len() as int;
    let inv = inverse(s);
    lemma_perm_surjective(s);
    assert forall|v: int| 0 <= v < n implies 0 <= #[trigger] inv[v] < n && s[inv[v]] == v by {
        assert(s.contains(v));
    }
    assert forall|i: int| 0 <= i < n implies #[trigger] inv[s[i]] == i by {
        let v = s[i];
        assert(s.contains(v));
        let k = inv[v];
        assert(s[k] == v);
    }
    assert forall|a: int, b: int| 0 <= a < n && 0 <= b < n && a != b implies #[trigger] inv[a]
        != #[trigger] inv[b] by {
        assert(s[inv[a]] == a);
        assert(s[inv[b]] == b);
    }
    assert(compose(s, inv) =~= identity(s.len()));
    assert(compose(inv, s) =~= identity(s.len()));
}

/// A sequence `r` with `r[s[i]] == i` everywhere is the inverse of the permutation `s`.
pub proof fn lemma_inverse_unique(s: Seq<int>, r: Seq<int>)
    requires
        is_perm(s),
        r.len() == s.len(),
        forall|i: int| 0 <= i < s.len() ==> #[trigger] r[s[i]] == i,
    ensures
        r == inverse(s),
{
    lemma_inverse(s);
    lemma_perm_surjective(s);
    assert forall|v: int| 0 <= v < s.len() implies r[v] == inverse(s)[v] by {
        assert(s.contains(v));
        let i = choose|i: int| 0 <= i < s.len() && s[i] == v;
        assert(r[s[i]] == i);
        assert(inverse(s)[s[i]] == i);
    }
    assert(r =~= inverse(s));
}

/// Every power of a permutation is a permutation of the same length.
pub proof fn lemma_power_perm(p: Seq<int>, k: nat)
    requires
        is_perm(p),
    ensures
        is_perm(power(p, k)),
        power(p, k).len() == p.len(),
    decreases k,
{
    if k > 0 {
        lemma_power_perm(p, (k - 1) as nat);
        lemma_compose_perm(power(p, (k - 1) as nat), p);
    }
}

/// The first power of a permutation is the permutation itself.
/// Every power of `p` is as long as `p`.
pub proof fn lemma_power_len(p: Seq<int>, k: nat)
    ensures
        power(p, k).len() == p.len(),
{
}

pub proof fn lemma_power_one(p: Seq<int>)
    requires
        is_perm(p),
    ensures
        power(p, 1) == p,
{
    lemma_compose_identity(p);
    assert(power(p, 0) == identity(p.len()));
    assert(power(p, 1) == compose(power(p, 0), p));
}

proof fn lemma_iterate_in_range(p: Seq<int>, x: int, k: nat)
    requires
        is_perm(p),
        0 <= x < p.len(),
    ensures
        0 <= iterate(p, x, k) < p.len(),
    decreases k,
{
    if k > 0 {
        lemma_iterate_in_range(p, p[x], (k - 1) as nat);
    }
}

proof fn lemma_power_iterate(p: Seq<int>, k: nat)
    requires
        is_perm(p),
    ensures
        power(p, k).len() == p.len(),
        forall|x: int| 0 <= x < p.len() ==> #[trigger] power(p, k)[x] == iterate(p, x, k),
    decreases k,
{
    if k > 0 {
        lemma_power_iterate(p, (k - 1) as nat);
        assert forall|x: int| 0 <= x < p.len() implies #[trigger] power(p, k)[x] == iterate(
            p,
            x,
            k,
        ) by {
            assert(0 <= p[x] < p.len());
        }
    }
}

proof fn lemma_iterate_add(p: Seq<int>, x: int, a: nat, b: nat)
    requires
        is_perm(p),
        0 <= x < p.len(),
    ensures
        iterate(p, x, a + b) == iterate(p, iterate(p, x, a), b),
    decreases a,
{
    if a > 0 {
        lemma_iterate_add(p, p[x], (a - 1) as nat, b);
        assert((a + b - 1) as nat == ((a - 1) as nat + b) as nat);
    }
}

proof fn lemma_iterate_injective(p: Seq<int>, x: int, y: int, a: nat)
    requires
        is_perm(p),
        0 <= x < p.len(),
        0 <= y < p.len(),
        iterate(p, x, a) == iterate(p, y, a),
    ensures
        x == y,
    decreases a,
{
    if a > 0 {
        lemma_iterate_injective(p, p[x], p[y], (a - 1) as nat);
    }
}

/// Every point lies on a cycle of length at most `p.len()`.
proof fn lemma_cycle_exists(p: Seq<int>, x: int) -> (c: nat)
    requires
        is_perm(p),
        0 <= x < p.len(),
    ensures
        1 <= c <= p.len(),
        iterate(p, x, c) == x,
{
    let n = p.len() as int;
    let q = Seq::new((n + 1) as nat, |k: int| iterate(p, x, k as nat));
    assert forall|k: int| 0 <= k < q.len() implies 0 <= #[trigger] q[k] < n by {
        lemma_iterate_in_range(p, x, k as nat);
    }
    if distinct(q) {
        lemma_distinct_in_range(q, n);
        assert(false);
    }
    let (i, j) = choose|i: int, j: int|
        0 <= i < q.len() && 0 <= j < q.len() && i != j && #[trigger] q[i] == #[trigger] q[j];
    let a: nat = if i < j { i as nat } else { j as nat };
    let b: nat = if i < j { j as nat } else { i as nat };
    let d: nat = (b - a) as nat;
    lemma_iterate_add(p, x, d, a);
    assert(d + a == b);
    let y = iterate(p, x, d);
    lemma_iterate_in_range(p, x, d);
    assert(iterate(p, y, a) == iterate(p, x, a));
    lemma_iterate_injective(p, y, x, a);
    d
}

proof fn lemma_iterate_multiple(p: Seq<int>, x: int, c: nat, m: nat)
    requires
        is_perm(p),
        0 <= x < p.len(),
        iterate(p, x, c) == x,
    ensures
        iterate(p, x, m * c) == x,
    decreases m,
{
    if m > 0 {
        let mm: nat = (m - 1) as nat;
        let rest: nat = mm * c;
        lemma_iterate_multiple(p, x, c, mm);
        lemma_iterate_add(p, x, c, rest);
        assert(m * c == c + rest) by (nonlinear_arith)
            requires
                mm == m - 1,
                rest == mm * c,
        ;
    } else {
        assert(m * c == 0) by (nonlinear_arith)
            requires
                m == 0,
        ;
    }
}

/// A chosen cycle length of `x` under `p`.
spec fn cycle_len(p: Seq<int>, x: int) -> nat {
    choose|c: nat| 1 <= c <= p.len() && iterate(p, x, c) == x
}

/// The product of the chosen cycle lengths of `0..k`.
spec fn cycle_product(p: Seq<int>, k: nat) -> nat
    decreases k,
{
    if k == 0 {
        1
    } else {
        cycle_product(p, (k - 1) as nat) * cycle_len(p, (k - 1) as int)
    }
}

proof fn lemma_cycle_len(p: Seq<int>, x: int)
    requires
        is_perm(p),
        0 <= x < p.len(),
    ensures
        1 <= cycle_len(p, x) <= p.len(),
        iterate(p, x, cycle_len(p, x)) == x,
{
    let c = lemma_cycle_exists(p, x);
    assert(1 <= c <= p.len() && iterate(p, x, c) == x);
}

proof fn lemma_cycle_product(p: Seq<int>, k: nat)
    requires
        is_perm(p),
        k <= p.len(),
    ensures
        cycle_product(p, k) >= 1,
        forall|x: int| 0 <= x < k ==> iterate(p, x, #[trigger] cycle_product(p, k)) == x,
    decreases k,
{
    if k > 0 {
        let km = (k - 1) as nat;
        lemma_cycle_product(p, km);
        lemma_cycle_len(p, km as int);
        let prev = cycle_product(p, km);
        let c = cycle_len(p, km as int);
        assert(prev * c >= 1) by (nonlinear_arith)
            requires
                prev >= 1,
                c >= 1,
        ;
        assert forall|x: int| 0 <= x < k implies iterate(p, x, #[trigger] cycle_product(p, k))
            == x by {
            if x == km {
                lemma_iterate_multiple(p, x, c, prev);
            } else {
                lemma_iterate_multiple(p, x, prev, c);
                assert(c * prev == prev * c) by (nonlinear_arith);
            }
        }
    }
}

/// Some positive power of every permutation is the identity.
pub proof fn lemma_order_exists(p: Seq<int>) -> (order: nat)
    requires
        is_perm(p),
    ensures
        order >= 1,
        power(p, order) == identity(p.len()),
{
    let order = cycle_product(p, p.len());
    lemma_cycle_product(p, p.len());
    lemma_power_iterate(p, order);
    assert(power(p, order) =~= identity(p.len()));
    order
}

} // verus!
