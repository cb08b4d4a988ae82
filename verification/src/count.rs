//! Counting the elements of a sequence that satisfy a predicate, and how such counts behave under
//! concatenation and reordering.

use vstd::prelude::*;
use vstd::multiset::Multiset;

verus! {

broadcast use vstd::seq_lib::group_to_multiset_ensures;

/// The number of elements of `s` that satisfy `p`.
pub open spec fn count_where<A>(s: Seq<A>, p: spec_fn(A) -> bool) -> nat
    decreases s.len(),
{
    if s.len() == 0 {
        0
    } else {
        count_where(s.drop_last(), p) + if p(s.last()) {
            1nat
        } else {
            0nat
        }
    }
}

pub proof fn lemma_count_le_len<A>(s: Seq<A>, p: spec_fn(A) -> bool)
    ensures
        count_where(s, p) <= s.len(),
    decreases s.len(),
{
    if s.len() > 0 {
        lemma_count_le_len(s.drop_last(), p);
    }
}

pub proof fn lemma_count_concat<A>(a: Seq<A>, b: Seq<A>, p: spec_fn(A) -> bool)
    ensures
        count_where(a + b, p) == count_where(a, p) + count_where(b, p),
    decreases b.len(),
{
    if b.len() == 0 {
        assert(a + b =~= a);
    } else {
        lemma_count_concat(a, b.drop_last(), p);
        assert((a + b).drop_last() =~= a + b.drop_last());
    }
}

/// No element satisfies the predicate: the count is zero; every element does: it is the length.
pub proof fn lemma_count_none_all<A>(s: Seq<A>, p: spec_fn(A) -> bool)
    ensures
        (forall|i: int| 0 <= i < s.len() ==> !p(#[trigger] s[i])) ==> count_where(s, p) == 0,
        (forall|i: int| 0 <= i < s.len() ==> p(#[trigger] s[i])) ==> count_where(s, p) == s.len(),
    decreases s.len(),
{
    if s.len() > 0 {
        lemma_count_none_all(s.drop_last(), p);
        assert(forall|i: int| 0 <= i < s.len() - 1 ==> s.drop_last()[i] == s[i]);
        assert(s.last() == s[s.len() - 1]);
    }
}

/// A positive count has a witness.
pub proof fn lemma_count_pos<A>(s: Seq<A>, p: spec_fn(A) -> bool)
    requires
        count_where(s, p) > 0,
    ensures
        exists|i: int| 0 <= i < s.len() && p(#[trigger] s[i]),
{
    lemma_count_none_all(s, p);
}

/// Predicates that agree on the elements of `s` count the same.
pub proof fn lemma_count_agree<A>(s: Seq<A>, p: spec_fn(A) -> bool, q: spec_fn(A) -> bool)
    requires
        forall|i: int| 0 <= i < s.len() ==> p(#[trigger] s[i]) == q(s[i]),
    ensures
        count_where(s, p) == count_where(s, q),
    decreases s.len(),
{
    if s.len() > 0 {
        assert(forall|i: int| 0 <= i < s.len() - 1 ==> s.drop_last()[i] == s[i]);
        lemma_count_agree(s.drop_last(), p, q);
        assert(s.last() == s[s.len() - 1]);
    }
}

/// The multiplicity of `x` in `s` counts the elements equal to `x`.
pub proof fn lemma_count_multiset<A>(s: Seq<A>, x: A, p: spec_fn(A) -> bool)
    requires
        forall|y: A| #[trigger] p(y) == (y == x),
    ensures
        s.to_multiset().count(x) == count_where(s, p),
    decreases s.len(),
{
    if s.len() == 0 {
        assert(s.to_multiset() =~= Multiset::empty());
    } else {
        lemma_count_multiset(s.drop_last(), x, p);
        assert(s =~= s.drop_last().push(s.last()));
        assert(p(s.last()) == (s.last() == x));
    }
}

/// Removing the element at `j` lowers the count by one exactly when it satisfies `p`.
pub proof fn lemma_count_remove<A>(s: Seq<A>, j: int, p: spec_fn(A) -> bool)
    requires
        0 <= j < s.len(),
    ensures
        count_where(s, p) == count_where(s.remove(j), p) + if p(s[j]) {
            1nat
        } else {
            0nat
        },
{
    let a = s.subrange(0, j);
    let b = s.subrange(j + 1, s.len() as int);
    assert(s =~= a + seq![s[j]] + b);
    assert(s.remove(j) =~= a + b);
    lemma_count_concat(a + seq![s[j]], b, p);
    lemma_count_concat(a, seq![s[j]], p);
    lemma_count_concat(a, b, p);
    let one = seq![s[j]];
    assert(one.drop_last() =~= Seq::<A>::empty());
    assert(one.last() == s[j]);
    assert(count_where(one.drop_last(), p) == 0);
}

/// Counts do not depend on the order of the elements.
pub proof fn lemma_count_perm<A>(s: Seq<A>, t: Seq<A>, p: spec_fn(A) -> bool)
    requires
        s.to_multiset() == t.to_multiset(),
    ensures
        count_where(s, p) == count_where(t, p),
    decreases t.len(),
{
    broadcast use vstd::multiset::group_multiset_axioms;
    if t.len() == 0 {
        assert(t.to_multiset().len() == 0);
        assert(s.to_multiset().len() == s.len());
        assert(s.len() == 0);
    } else {
        let x = t.last();
        let t1 = t.drop_last();
        assert(t =~= t1.push(x));
        assert(t.to_multiset().count(x) > 0);
        assert(s.to_multiset().count(x) > 0);
        assert(s.contains(x));
        let j = choose|j: int| 0 <= j < s.len() && s[j] == x;
        let s1 = s.remove(j);
        assert(s1.to_multiset() =~= t1.to_multiset());
        lemma_count_perm(s1, t1, p);
        lemma_count_remove(s, j, p);
    }
}

/// Reordering is preserved by applying a function to every element.
pub proof fn lemma_perm_map<A, B>(s: Seq<A>, t: Seq<A>, f: spec_fn(A) -> B)
    requires
        s.to_multiset() == t.to_multiset(),
    ensures
        s.map_values(f).to_multiset() == t.map_values(f).to_multiset(),
    decreases t.len(),
{
    broadcast use vstd::multiset::group_multiset_axioms;
    if t.len() == 0 {
        assert(t.to_multiset().len() == 0);
        assert(s.to_multiset().len() == s.len());
        assert(s.len() == 0);
        assert(s.map_values(f) =~= t.map_values(f));
    } else {
        let x = t.last();
        let t1 = t.drop_last();
        assert(t =~= t1.push(x));
        assert(t.to_multiset().count(x) > 0);
        assert(s.contains(x));
        let j = choose|j: int| 0 <= j < s.len() && s[j] == x;
        let s1 = s.remove(j);
        assert(s1.to_multiset() =~= t1.to_multiset());
        lemma_perm_map(s1, t1, f);
        assert(t.map_values(f) =~= t1.map_values(f).push(f(x)));
        assert(s.map_values(f).remove(j) =~= s1.map_values(f));
        assert(s.map_values(f)[j] == f(x));
        assert(s.map_values(f).to_multiset() =~= s1.map_values(f).to_multiset().insert(f(x)));
    }
}

/// Counting the images of the elements counts the elements whose image satisfies the predicate.
pub proof fn lemma_count_map<A, B>(s: Seq<A>, f: spec_fn(A) -> B, q: spec_fn(B) -> bool, p: spec_fn(A) -> bool)
    requires
        forall|x: A| #[trigger] p(x) == q(f(x)),
    ensures
        count_where(s.map_values(f), q) == count_where(s, p),
    decreases s.len(),
{
    if s.len() > 0 {
        lemma_count_map(s.drop_last(), f, q, p);
        assert(s.map_values(f).drop_last() =~= s.drop_last().map_values(f));
        assert(p(s.last()) == q(f(s.last())));
    } else {
        assert(s.map_values(f).len() == 0);
    }
}

} // verus!
