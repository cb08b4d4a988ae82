//! Sorting vectors by the order of their element type, with the standard library's sort.

use vstd::prelude::*;
use std::cmp::Ordering;
use crate::order::{is_sorted, Order, TotalPreorder};

verus! {

/// The standard library's ordering with the same meaning as an [`Order`].
pub fn to_ordering(o: Order) -> (r: Ordering)
    ensures
        (o == Order::Less) == (r == Ordering::Less),
        (o == Order::Equal) == (r == Ordering::Equal),
        (o == Order::Greater) == (r == Ordering::Greater),
{
    match o {
        Order::Less => Ordering::Less,
        Order::Equal => Ordering::Equal,
        Order::Greater => Ordering::Greater,
    }
}

/// Sorts `v` into ascending order with `slice::sort_by`, comparing elements with
/// [`TotalPreorder::compare`].  The standard library documents that `sort_by` sorts the slice in
/// ascending order of a comparison function that is a total order; the comparison here is verified
/// to agree with a total preorder.  So the contract claims that the result holds the same elements
/// as before, each as often, and that every element is `le` every later one.  Which of several
/// equal elements comes first is left unsaid.
#[verifier::external_body]
pub(crate) fn sort_vec<T: TotalPreorder>(v: &mut Vec<T>)
    ensures
        final(v)@.to_multiset() == old(v)@.to_multiset(),
        is_sorted(final(v)@),
{
    v.sort_by(|a, b| to_ordering(a.compare(b)));
}

} // verus!
