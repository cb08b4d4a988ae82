//! Proving a composition: finding the rows that occur more than once, grouping them by the row
//! they repeat, and arranging those groups into ranges for display.

use vstd::prelude::*;
use crate::bellcore::bell::Bell;
use crate::bellcore::row::{compare_bells, row_le, bell_le_fn, Row};
use crate::count::{
    count_where, lemma_count_agree, lemma_count_concat, lemma_count_le_len, lemma_count_map,
    lemma_count_multiset, lemma_count_none_all, lemma_count_perm, lemma_count_pos, lemma_perm_map,
};
use crate::order::{
    is_sorted, le_fn, lemma_lex_antisym, lemma_lex_total, lemma_lex_total_ordering, lemma_lex_trans,
    Order, TotalPreorder,
};
use crate::sorting::sort_vec;
use std::ops::Range;
use std::collections::HashMap;
use super::derived_state::{flat_view, RowLocation, RowOrigin};
use crate::order::{lex_le, lemma_lex_refl};

verus! {

broadcast use vstd::seq_lib::group_to_multiset_ensures;

/* ========== ORDERS ========== */

impl<'a> TotalPreorder for (RowOrigin, &'a Row) {
    /// Rows paired with their origins are ordered by their rows alone.
    open spec fn le(self, other: Self) -> bool {
        row_le(self.1@, other.1@)
    }

    proof fn lemma_total_preorder(a: Self, b: Self, c: Self) {
        lemma_lex_total_ordering(bell_le_fn());
        lemma_lex_total(a.1@, b.1@, bell_le_fn());
        if row_le(a.1@, b.1@) && row_le(b.1@, c.1@) {
            lemma_lex_trans(a.1@, b.1@, c.1@, bell_le_fn());
        }
    }

    fn compare(&self, other: &Self) -> (o: Order) {
        compare_bells(self.1.slice(), other.1.slice())
    }
}

impl TotalPreorder for RowLocation {
    /// Locations are ordered by fragment and then by row.
    open spec fn le(self, other: Self) -> bool {
        self.frag < other.frag || (self.frag == other.frag && self.row <= other.row)
    }

    proof fn lemma_total_preorder(a: Self, b: Self, c: Self) {
    }

    fn compare(&self, other: &Self) -> (o: Order) {
        if self.frag < other.frag {
            Order::Less
        } else if self.frag > other.frag {
            Order::Greater
        } else if self.row < other.row {
            Order::Less
        } else if self.row > other.row {
            Order::Greater
        } else {
            Order::Equal
        }
    }
}

/// The order of locations is a total order.
pub proof fn lemma_location_total_ordering()
    ensures
        vstd::relations::total_ordering(le_fn::<RowLocation>()),
{
}

/* ========== MATHEMATICAL MODEL ========== */

/// The location of a row, forgetting its part.
pub open spec fn loc_of(o: RowOrigin) -> RowLocation {
    RowLocation { frag: o.frag, row: o.row }
}

/// A row paired with its origin, by value.
pub open spec fn entry_view<'a>(e: (RowOrigin, &'a Row)) -> (RowOrigin, Seq<Bell>) {
    (e.0, e.1@)
}

/// The row (with its origin) is `v`.
pub open spec fn is_row(v: Seq<Bell>) -> spec_fn((RowOrigin, Seq<Bell>)) -> bool {
    |e: (RowOrigin, Seq<Bell>)| e.1 == v
}

/// The row (with its origin) is `v` and comes from location `l`.
pub open spec fn is_row_at(v: Seq<Bell>, l: RowLocation) -> spec_fn((RowOrigin, Seq<Bell>)) -> bool {
    |e: (RowOrigin, Seq<Bell>)| e.1 == v && loc_of(e.0) == l
}

/// The row (with its origin) occurs more than once among the rows `t`.
pub open spec fn is_false_in(t: Seq<(RowOrigin, Seq<Bell>)>) -> spec_fn((RowOrigin, Seq<Bell>)) -> bool {
    |e: (RowOrigin, Seq<Bell>)| row_mult(t, e.1) >= 2
}

/// A row paired with its origin, by value, as a function.
pub open spec fn entry_fn<'a>() -> spec_fn((RowOrigin, &'a Row)) -> (RowOrigin, Seq<Bell>) {
    |e: (RowOrigin, &'a Row)| entry_view(e)
}

/// How many of the rows `t` are `v`.
pub open spec fn row_mult(t: Seq<(RowOrigin, Seq<Bell>)>, v: Seq<Bell>) -> nat {
    count_where(t, is_row(v))
}

/// How many of the rows `t` are `v` and come from location `l`.
pub open spec fn loc_mult(t: Seq<(RowOrigin, Seq<Bell>)>, v: Seq<Bell>, l: RowLocation) -> nat {
    count_where(t, is_row_at(v, l))
}

/// `g` lists the locations of the rows of `t` that are `v`, each as often as such a row comes from
/// it, in ascending order.
pub open spec fn is_group_of(t: Seq<(RowOrigin, Seq<Bell>)>, v: Seq<Bell>, g: Seq<RowLocation>) -> bool {
    &&& is_sorted(g)
    &&& forall|l: RowLocation| #[trigger] g.to_multiset().count(l) == loc_mult(t, v, l)
}

/// `g` is the group of some false row of `t`.
pub open spec fn is_false_group(t: Seq<(RowOrigin, Seq<Bell>)>, g: Seq<RowLocation>) -> bool {
    exists|v: Seq<Bell>| row_mult(t, v) >= 2 && #[trigger] is_group_of(t, v, g)
}

/// One of `groups` is the group of the row `v` of `t`.
pub open spec fn lists_group_of(groups: Seq<Vec<RowLocation>>, t: Seq<(RowOrigin, Seq<Bell>)>, v: Seq<Bell>) -> bool {
    exists|k: int| 0 <= k < groups.len() && is_group_of(t, v, #[trigger] groups[k]@)
}

/// `groups` lists the false groups of the rows `t`, each once.
pub open spec fn lists_false_groups(t: Seq<(RowOrigin, Seq<Bell>)>, groups: Seq<Vec<RowLocation>>) -> bool {
    &&& forall|k: int| 0 <= k < groups.len() ==> is_false_group(t, #[trigger] groups[k]@)
    &&& forall|v: Seq<Bell>| #[trigger] row_mult(t, v) >= 2 ==> lists_group_of(groups, t, v)
    &&& forall|k1: int, k2: int| 0 <= k1 < k2 < groups.len() ==> groups[k1]@ != groups[k2]@
}

/// The number of rows of `t` that are false: that occur more than once.
pub open spec fn num_false(t: Seq<(RowOrigin, Seq<Bell>)>) -> nat {
    count_where(t, is_false_in(t))
}

/// The rows of `s` are in ascending order.
pub open spec fn rows_ascending(s: Seq<(RowOrigin, Seq<Bell>)>) -> bool {
    forall|i: int, j: int| 0 <= i < j < s.len() ==> row_le(#[trigger] s[i].1, #[trigger] s[j].1)
}

/// `[a, b)` is a maximal run of equal rows in `s`.
pub open spec fn is_run(s: Seq<(RowOrigin, Seq<Bell>)>, a: int, b: int) -> bool {
    &&& 0 <= a < b <= s.len()
    &&& forall|j: int| a <= j < b ==> (#[trigger] s[j]).1 == s[a].1
    &&& (a == 0 || s[a - 1].1 != s[a].1)
    &&& (b == s.len() || s[b].1 != s[a].1)
}

/// The location of a row with its origin.
pub open spec fn loc_fn() -> spec_fn((RowOrigin, Seq<Bell>)) -> RowLocation {
    |e: (RowOrigin, Seq<Bell>)| loc_of(e.0)
}

/// The locations of the rows `s`, in the same order.
pub open spec fn locations(s: Seq<(RowOrigin, Seq<Bell>)>) -> Seq<RowLocation> {
    s.map_values(loc_fn())
}

/// The location is `l`.
pub open spec fn is_loc(l: RowLocation) -> spec_fn(RowLocation) -> bool {
    |x: RowLocation| x == l
}

/* ========== LEMMAS ========== */

/// In ascending rows, a maximal run of a row holds every occurrence of that row.
proof fn lemma_run_holds_all(s: Seq<(RowOrigin, Seq<Bell>)>, a: int, b: int)
    requires
        rows_ascending(s),
        is_run(s, a, b),
    ensures
        forall|j: int| 0 <= j < s.len() && !(a <= j < b) ==> (#[trigger] s[j]).1 != s[a].1,
{
    lemma_lex_total_ordering(bell_le_fn());
    let v = s[a].1;
    assert forall|j: int| 0 <= j < s.len() && !(a <= j < b) implies (#[trigger] s[j]).1 != v by {
        if s[j].1 == v {
            if j < a {
                if j < a - 1 {
                    assert(row_le(s[j].1, s[a - 1].1));
                }
                assert(row_le(s[a - 1].1, s[a].1));
                lemma_lex_antisym(s[a - 1].1, v, bell_le_fn());
            } else {
                if j > b {
                    assert(row_le(s[b].1, s[j].1));
                }
                assert(row_le(s[a].1, s[b].1));
                lemma_lex_antisym(s[b].1, v, bell_le_fn());
            }
        }
    }
}

/// Counting over a run: the row occurs as often as the run is long, and at each location as often
/// as the run's locations hold it.
proof fn lemma_run_counts(s: Seq<(RowOrigin, Seq<Bell>)>, a: int, b: int)
    requires
        rows_ascending(s),
        is_run(s, a, b),
    ensures
        row_mult(s, s[a].1) == b - a,
        forall|l: RowLocation| #[trigger] locations(s.subrange(a, b)).to_multiset().count(l) == loc_mult(s, s[a].1, l),
{
    let v = s[a].1;
    lemma_run_holds_all(s, a, b);
    let pre = s.subrange(0, a);
    let run = s.subrange(a, b);
    let post = s.subrange(b, s.len() as int);
    assert(s =~= pre + run + post);
    let pv = is_row(v);
    lemma_count_concat(pre + run, post, pv);
    lemma_count_concat(pre, run, pv);
    assert(forall|i: int| 0 <= i < pre.len() ==> #[trigger] pre[i] == s[i]);
    assert(forall|i: int| 0 <= i < post.len() ==> #[trigger] post[i] == s[b + i]);
    assert(forall|i: int| 0 <= i < run.len() ==> #[trigger] run[i] == s[a + i]);
    assert(forall|i: int| 0 <= i < pre.len() ==> !pv(#[trigger] pre[i]));
    assert(forall|i: int| 0 <= i < post.len() ==> !pv(#[trigger] post[i]));
    assert(forall|i: int| 0 <= i < run.len() ==> pv(#[trigger] run[i]));
    lemma_count_none_all(pre, pv);
    lemma_count_none_all(post, pv);
    lemma_count_none_all(run, pv);
    assert forall|l: RowLocation| #[trigger] locations(run).to_multiset().count(l) == loc_mult(s, v, l) by {
        let pl = is_row_at(v, l);
        lemma_count_concat(pre + run, post, pl);
        lemma_count_concat(pre, run, pl);
        assert(forall|i: int| 0 <= i < pre.len() ==> !pl(#[trigger] pre[i]));
        assert(forall|i: int| 0 <= i < post.len() ==> !pl(#[trigger] post[i]));
        lemma_count_none_all(pre, pl);
        lemma_count_none_all(post, pl);
        lemma_count_multiset(locations(run), l, is_loc(l));
        let pm = |e: (RowOrigin, Seq<Bell>)| is_loc(l)(loc_fn()(e));
        lemma_count_map(run, loc_fn(), is_loc(l), pm);
        assert(forall|i: int| 0 <= i < run.len() ==> pm(#[trigger] run[i]) == pl(run[i]));
        lemma_count_agree(run, pm, pl);
    }
}

/// The counts of rows do not depend on the order of the rows.
proof fn lemma_counts_perm(s: Seq<(RowOrigin, Seq<Bell>)>, t: Seq<(RowOrigin, Seq<Bell>)>)
    requires
        s.to_multiset() == t.to_multiset(),
    ensures
        forall|v: Seq<Bell>| #[trigger] row_mult(s, v) == row_mult(t, v),
        forall|v: Seq<Bell>, l: RowLocation| #[trigger] loc_mult(s, v, l) == loc_mult(t, v, l),
        num_false(s) == num_false(t),
{
    assert forall|v: Seq<Bell>| #[trigger] row_mult(s, v) == row_mult(t, v) by {
        lemma_count_perm(s, t, is_row(v));
    }
    assert forall|v: Seq<Bell>, l: RowLocation| #[trigger] loc_mult(s, v, l) == loc_mult(t, v, l) by {
        lemma_count_perm(s, t, is_row_at(v, l));
    }
    let ps = is_false_in(s);
    let pt = is_false_in(t);
    assert(forall|i: int| 0 <= i < s.len() ==> #[trigger] ps(s[i]) == pt(s[i]));
    lemma_count_agree(s, ps, pt);
    lemma_count_perm(s, t, pt);
}

/* ========== FINDING FALSE ROWS ========== */

/// Whether two lists of locations are the same.
fn same_locations(a: &[RowLocation], b: &[RowLocation]) -> (r: bool)
    ensures
        r == (a@ == b@),
{
    if a.len() != b.len() {
        return false;
    }
    let mut i: usize = 0;
    while i < a.len()
        invariant
            i <= a@.len(),
            a@.len() == b@.len(),
            forall|k: int| 0 <= k < i ==> a@[k] == b@[k],
        decreases a@.len() - i,
    {
        if a[i] != b[i] {
            return false;
        }
        i += 1;
    }
    proof {
        assert(a@ =~= b@);
    }
    true
}

/// Whether `groups` already holds `g`.
fn holds_group(groups: &Vec<Vec<RowLocation>>, g: &Vec<RowLocation>) -> (r: bool)
    ensures
        r == exists|k: int| 0 <= k < groups@.len() && (#[trigger] groups@[k])@ == g@,
{
    let mut k: usize = 0;
    while k < groups.len()
        invariant
            k <= groups@.len(),
            forall|j: int| 0 <= j < k ==> (#[trigger] groups@[j])@ != g@,
        decreases groups@.len() - k,
    {
        if same_locations(groups[k].as_slice(), g.as_slice()) {
            return true;
        }
        k += 1;
    }
    false
}

/// What holds of the false row groups found among the first `start` rows of the ascending rows
/// `s`.
pub open spec fn groups_so_far(s: Seq<(RowOrigin, Seq<Bell>)>, groups: Seq<Vec<RowLocation>>, start: int) -> bool {
    &&& forall|k: int| 0 <= k < groups.len() ==> is_false_group(s, #[trigger] groups[k]@)
    &&& forall|j: int| 0 <= j < start && row_mult(s, (#[trigger] s[j]).1) >= 2 ==> exists|k: int| 0 <= k < groups.len() && is_group_of(s, s[j].1, #[trigger] groups[k]@)
    &&& forall|k1: int, k2: int| 0 <= k1 < k2 < groups.len() ==> groups[k1]@ != groups[k2]@
}

/// Closes the run `[a, b)` of equal rows, whose locations are `group`: if the row is false, count
/// its rows and record its (sorted) locations unless an equal group is already recorded.
fn close_group(
    false_rows: &mut Vec<Vec<RowLocation>>,
    num_false_rows: &mut usize,
    group: Vec<RowLocation>,
    Ghost(s): Ghost<Seq<(RowOrigin, Seq<Bell>)>>,
    Ghost(a): Ghost<int>,
    Ghost(b): Ghost<int>,
)
    requires
        rows_ascending(s),
        is_run(s, a, b),
        s.len() <= usize::MAX,
        group@ == locations(s.subrange(a, b)),
        groups_so_far(s, old(false_rows)@, a),
        *old(num_false_rows) == count_where(s.take(a), is_false_in(s)),
    ensures
        groups_so_far(s, final(false_rows)@, b),
        *final(num_false_rows) == count_where(s.take(b), is_false_in(s)),
{
    let ghost v = s[a].1;
    let ghost p = is_false_in(s);
    proof {
        lemma_run_counts(s, a, b);
        let run = s.subrange(a, b);
        assert(s.take(b) =~= s.take(a) + run);
        lemma_count_concat(s.take(a), run, p);
        assert(forall|i: int| 0 <= i < run.len() ==> run[i] == s[a + i]);
        assert(forall|i: int| 0 <= i < run.len() ==> (#[trigger] run[i]).1 == v);
        lemma_count_none_all(run, p);
        lemma_count_le_len(s.take(b), p);
        assert(group@.len() == b - a);
    }
    if group.len() > 1 {
        *num_false_rows = *num_false_rows + group.len();
        let mut g = group;
        let ghost before = g@;
        sort_vec(&mut g);
        proof {
            assert forall|l: RowLocation| #[trigger] g@.to_multiset().count(l) == loc_mult(s, v, l) by {
                assert(locations(s.subrange(a, b)).to_multiset().count(l) == loc_mult(s, v, l));
            }
            assert(is_group_of(s, v, g@));
        }
        if !holds_group(false_rows, &g) {
            let ghost old_groups = false_rows@;
            false_rows.push(g);
            proof {
                assert(false_rows@[old_groups.len() as int] == g);
                assert forall|k1: int, k2: int| 0 <= k1 < k2 < false_rows@.len() implies false_rows@[k1]@ != false_rows@[k2]@ by {
                    if k2 < old_groups.len() {
                        assert(false_rows@[k1] == old_groups[k1]);
                        assert(false_rows@[k2] == old_groups[k2]);
                    } else {
                        assert(false_rows@[k1] == old_groups[k1]);
                    }
                }
                assert forall|k: int| 0 <= k < false_rows@.len() implies is_false_group(s, #[trigger] false_rows@[k]@) by {
                    if k < old_groups.len() {
                        assert(false_rows@[k] == old_groups[k]);
                    } else {
                        assert(is_group_of(s, v, false_rows@[k]@));
                    }
                }
                assert forall|j: int| 0 <= j < b && row_mult(s, (#[trigger] s[j]).1) >= 2 implies exists|k: int| 0 <= k < false_rows@.len() && is_group_of(s, s[j].1, #[trigger] false_rows@[k]@) by {
                    if j < a {
                        let k = choose|k: int| 0 <= k < old_groups.len() && is_group_of(s, s[j].1, #[trigger] old_groups[k]@);
                        assert(false_rows@[k] == old_groups[k]);
                    } else {
                        assert(s[j].1 == v);
                        assert(is_group_of(s, s[j].1, false_rows@[old_groups.len() as int]@));
                    }
                }
            }
        } else {
            proof {
                let k0 = choose|k: int| 0 <= k < false_rows@.len() && (#[trigger] false_rows@[k])@ == g@;
                assert forall|j: int| 0 <= j < b && row_mult(s, (#[trigger] s[j]).1) >= 2 implies exists|k: int| 0 <= k < false_rows@.len() && is_group_of(s, s[j].1, #[trigger] false_rows@[k]@) by {
                    if j >= a {
                        assert(s[j].1 == v);
                        assert(is_group_of(s, s[j].1, false_rows@[k0]@));
                    }
                }
            }
        }
    } else {
        proof {
            assert forall|j: int| 0 <= j < b && row_mult(s, (#[trigger] s[j]).1) >= 2 implies exists|k: int| 0 <= k < false_rows@.len() && is_group_of(s, s[j].1, #[trigger] false_rows@[k]@) by {
                if j >= a {
                    assert(s[j].1 == v);
                }
            }
        }
    }
}

/// Given the flattened rows of a composition, group them into false row groups: for each row that
/// occurs more than once, the (sorted) locations that it occurs at.  Groups are listed once each,
/// in no particular order.  This also returns the number of false rows: the rows that occur more
/// than once, each counted as often as it occurs.
pub fn gen_false_row_groups(flattened_rows: Vec<(RowOrigin, &Row)>) -> (r: (Vec<Vec<RowLocation>>, usize))
    ensures
        r.1 == num_false(flat_view(flattened_rows@)),
        forall|k: int| 0 <= k < r.0@.len() ==> is_false_group(flat_view(flattened_rows@), #[trigger] r.0@[k]@),
        forall|v: Seq<Bell>| #[trigger] row_mult(flat_view(flattened_rows@), v) >= 2 ==> lists_group_of(r.0@, flat_view(flattened_rows@), v),
        forall|k1: int, k2: int| 0 <= k1 < k2 < r.0@.len() ==> r.0@[k1]@ != r.0@[k2]@,
{
    let ghost t = flat_view(flattened_rows@);
    let ghost input = flattened_rows@;
    let mut rows = flattened_rows;
    // Sort the rows by the rows alone, so that equal rows are next to each other
    sort_vec(&mut rows);
    let ghost s = flat_view(rows@);
    proof {
        assert(s =~= rows@.map_values(entry_fn()));
        assert(t =~= input.map_values(entry_fn()));
        lemma_perm_map(rows@, input, entry_fn());
        assert forall|i: int, j: int| 0 <= i < j < s.len() implies row_le(#[trigger] s[i].1, #[trigger] s[j].1) by {
            assert(le_fn::<(RowOrigin, &Row)>()(rows@[i], rows@[j]));
        }
    }
    let n = rows.len();
    let mut false_rows: Vec<Vec<RowLocation>> = Vec::new();
    let mut current: Vec<RowLocation> = Vec::new();
    let mut num_false_rows: usize = 0;
    let mut start: usize = 0;
    let mut i: usize = 0;
    while i < n
        invariant
            n == rows@.len(),
            s == flat_view(rows@),
            rows_ascending(s),
            start <= i <= n,
            i > 0 ==> start < i,
            start == 0 || s[start - 1].1 != s[start as int].1,
            forall|j: int| start <= j < i ==> (#[trigger] s[j]).1 == s[start as int].1,
            current@ == locations(s.subrange(start as int, i as int)),
            groups_so_far(s, false_rows@, start as int),
            num_false_rows == count_where(s.take(start as int), is_false_in(s)),
        decreases n - i,
    {
        if i > 0 {
            let o = compare_bells(rows[i - 1].1.slice(), rows[i].1.slice());
            proof {
                assert(s[i - 1].1 == rows@[i - 1].1@);
                assert(s[i as int].1 == rows@[i as int].1@);
            }
            if o != Order::Equal {
                // A new row starts here, so the run of the last one is complete
                proof {
                    assert(s[i - 1].1 == s[start as int].1);
                }
                let mut group: Vec<RowLocation> = Vec::new();
                std::mem::swap(&mut group, &mut current);
                close_group(&mut false_rows, &mut num_false_rows, group, Ghost(s), Ghost(start as int), Ghost(i as int));
                start = i;
                proof {
                    assert(locations(s.subrange(start as int, i as int)) =~= Seq::<RowLocation>::empty());
                }
            }
        }
        current.push(RowLocation::from_origin(rows[i].0));
        proof {
            assert(locations(s.subrange(start as int, i + 1)) =~= locations(s.subrange(start as int, i as int)).push(loc_of(s[i as int].0)));
        }
        i += 1;
    }
    if n > 0 {
        // Make sure that the last run is not missed
        close_group(&mut false_rows, &mut num_false_rows, current, Ghost(s), Ghost(start as int), Ghost(n as int));
    }
    proof {
        assert(s.take(n as int) =~= s);
        lemma_groups_perm(s, t, false_rows@);
    }
    (false_rows, num_false_rows)
}

/// A group of the sorted rows is a group of the rows in their first order.
proof fn lemma_group_perm(s: Seq<(RowOrigin, Seq<Bell>)>, t: Seq<(RowOrigin, Seq<Bell>)>, v: Seq<Bell>, g: Seq<RowLocation>)
    requires
        s.to_multiset() == t.to_multiset(),
        row_mult(s, v) >= 2,
        is_group_of(s, v, g),
    ensures
        row_mult(t, v) >= 2,
        is_group_of(t, v, g),
{
    lemma_count_perm(s, t, is_row(v));
    assert forall|l: RowLocation| #[trigger] g.to_multiset().count(l) == loc_mult(t, v, l) by {
        lemma_count_perm(s, t, is_row_at(v, l));
    }
}

/// Moves what holds of the false row groups of the sorted rows to the rows in their first order.
proof fn lemma_groups_perm(s: Seq<(RowOrigin, Seq<Bell>)>, t: Seq<(RowOrigin, Seq<Bell>)>, groups: Seq<Vec<RowLocation>>)
    requires
        s.to_multiset() == t.to_multiset(),
        groups_so_far(s, groups, s.len() as int),
    ensures
        num_false(s) == num_false(t),
        forall|k: int| 0 <= k < groups.len() ==> is_false_group(t, #[trigger] groups[k]@),
        forall|v: Seq<Bell>| #[trigger] row_mult(t, v) >= 2 ==> lists_group_of(groups, t, v),
{
    assert(num_false(s) == num_false(t)) by {
        lemma_counts_perm(s, t);
    }
    assert forall|k: int| 0 <= k < groups.len() implies is_false_group(t, #[trigger] groups[k]@) by {
        assert(is_false_group(s, groups[k]@));
        let v = choose|v: Seq<Bell>| row_mult(s, v) >= 2 && #[trigger] is_group_of(s, v, groups[k]@);
        lemma_group_perm(s, t, v, groups[k]@);
    }
    assert forall|v: Seq<Bell>| #[trigger] row_mult(t, v) >= 2 implies lists_group_of(groups, t, v) by {
        lemma_count_perm(s, t, is_row(v));
        lemma_count_pos(s, is_row(v));
        let j = choose|j: int| 0 <= j < s.len() && is_row(v)(#[trigger] s[j]);
        assert(row_mult(s, s[j].1) >= 2);
        let k = choose|k: int| 0 <= k < groups.len() && is_group_of(s, s[j].1, #[trigger] groups[k]@);
        lemma_group_perm(s, t, v, groups[k]@);
    }
}

/* ========== GROUPING FALSE ROWS FOR DISPLAY ========== */

impl TotalPreorder for Vec<RowLocation> {
    /// Groups of locations are ordered lexicographically by their locations.
    open spec fn le(self, other: Self) -> bool {
        lex_le(self@, other@, le_fn::<RowLocation>())
    }

    proof fn lemma_total_preorder(a: Self, b: Self, c: Self) {
        lemma_location_total_ordering();
        lemma_lex_total(a@, b@, le_fn::<RowLocation>());
        if lex_le(a@, b@, le_fn::<RowLocation>()) && lex_le(b@, c@, le_fn::<RowLocation>()) {
            lemma_lex_trans(a@, b@, c@, le_fn::<RowLocation>());
        }
    }

    fn compare(&self, other: &Self) -> (o: Order) {
        proof {
            lemma_location_total_ordering();
            lemma_lex_total(self@, other@, le_fn::<RowLocation>());
        }
        let n: usize = if self.len() < other.len() { self.len() } else { other.len() };
        let mut i: usize = 0;
        while i < n
            invariant
                i <= n,
                n <= self@.len(),
                n <= other@.len(),
                n == self@.len() || n == other@.len(),
                forall|k: int| 0 <= k < i ==> self@[k] == other@[k],
            decreases n - i,
        {
            let o = self[i].compare(&other[i]);
            if o != Order::Equal {
                proof {
                    crate::order::lemma_lex_skip(self@, other@, le_fn::<RowLocation>(), i as int);
                    crate::order::lemma_lex_skip(other@, self@, le_fn::<RowLocation>(), i as int);
                    assert(self@.skip(i as int)[0] == self@[i as int]);
                    assert(other@.skip(i as int)[0] == other@[i as int]);
                }
                return o;
            }
            i += 1;
        }
        proof {
            crate::order::lemma_lex_skip(self@, other@, le_fn::<RowLocation>(), n as int);
            crate::order::lemma_lex_skip(other@, self@, le_fn::<RowLocation>(), n as int);
        }
        if self.len() < other.len() {
            Order::Less
        } else if self.len() == other.len() {
            proof {
                assert(self@ =~= other@);
                lemma_lex_refl(self@, le_fn::<RowLocation>());
            }
            Order::Equal
        } else {
            Order::Greater
        }
    }
}

/// A range of rows of a fragment which should be highlighted as false in the same way.
#[derive(Debug)]
pub struct FalseRowRange {
    pub range: Range<usize>,
    pub group: usize,
}

/// Two groups of locations are adjacent: they are as long, and each location of one is in the same
/// fragment as the location in the same place of the other, one row before or after it.
pub open spec fn adjacent(g: Seq<RowLocation>, h: Seq<RowLocation>) -> bool {
    &&& g.len() == h.len()
    &&& forall|k: int| 0 <= k < g.len() ==> (#[trigger] g[k]).frag == h[k].frag
        && (g[k].row == h[k].row + 1 || h[k].row == g[k].row + 1)
}

/// Two groups of locations are as long and in the same fragments place by place.
pub open spec fn same_shape(g: Seq<RowLocation>, h: Seq<RowLocation>) -> bool {
    &&& g.len() == h.len()
    &&& forall|k: int| 0 <= k < g.len() ==> (#[trigger] g[k]).frag == h[k].frag
}

/// The `i`th of the sorted groups starts a new meta-group: it is not adjacent to the one before.
pub open spec fn starts_meta(sorted: Seq<Seq<RowLocation>>, i: int) -> bool {
    i == 0 || !adjacent(sorted[i - 1], sorted[i])
}

/// The `i`th of the sorted groups ends its meta-group.
pub open spec fn ends_meta(sorted: Seq<Seq<RowLocation>>, i: int) -> bool {
    i == sorted.len() - 1 || starts_meta(sorted, i + 1)
}

/// The first group of the meta-group of the `i`th group.
pub open spec fn meta_start(sorted: Seq<Seq<RowLocation>>, i: int) -> int
    decreases i,
{
    if i <= 0 || starts_meta(sorted, i) {
        i
    } else {
        meta_start(sorted, i - 1)
    }
}

/// The number of the meta-group of the `i`th group, counting from zero.
pub open spec fn meta_id(sorted: Seq<Seq<RowLocation>>, i: int) -> nat
    decreases i,
{
    if i <= 0 {
        0
    } else if starts_meta(sorted, i) {
        meta_id(sorted, i - 1) + 1
    } else {
        meta_id(sorted, i - 1)
    }
}

/// The range of rows from one location to another (in either order), both included.
pub open spec fn range_between(a: RowLocation, b: RowLocation, group: nat) -> FalseRowRange {
    let lo = if a.row <= b.row { a.row } else { b.row };
    let hi = if a.row <= b.row { b.row } else { a.row };
    FalseRowRange { range: Range { start: lo, end: (hi + 1) as usize }, group: group as usize }
}

/// The ranges between the first `n` locations of `first` and of `last` that lie in fragment `f`.
pub open spec fn ranges_between(first: Seq<RowLocation>, last: Seq<RowLocation>, group: nat, f: usize, n: nat) -> Seq<FalseRowRange>
    decreases n,
{
    if n == 0 {
        seq![]
    } else {
        ranges_between(first, last, group, f, (n - 1) as nat) + if first[n - 1].frag == f {
            seq![range_between(first[n - 1], last[n - 1], group)]
        } else {
            seq![]
        }
    }
}

/// The ranges in fragment `f` of the meta-groups that end among the first `n` sorted groups, in
/// order: for each meta-group, one range per location, from its location in the first group of the
/// meta-group to that in the last.
pub open spec fn meta_ranges(sorted: Seq<Seq<RowLocation>>, n: nat, f: usize) -> Seq<FalseRowRange>
    decreases n,
{
    if n == 0 {
        seq![]
    } else {
        let i = n - 1;
        meta_ranges(sorted, (n - 1) as nat, f) + if ends_meta(sorted, i) {
            let first = sorted[meta_start(sorted, i)];
            ranges_between(first, sorted[i], meta_id(sorted, i), f, first.len())
        } else {
            seq![]
        }
    }
}

/// The ranges of fragment `f` in a map from fragments to their ranges (none if `f` is not a key).
pub open spec fn ranges_of(m: Map<usize, Vec<FalseRowRange>>, f: usize) -> Seq<FalseRowRange> {
    if m.contains_key(f) {
        m[f]@
    } else {
        seq![]
    }
}

/// Adds `range` to the ranges of fragment `f`.
fn push_range(m: &mut HashMap<usize, Vec<FalseRowRange>>, f: usize, range: FalseRowRange)
    ensures
        ranges_of(final(m)@, f) == ranges_of(old(m)@, f).push(range),
        forall|g: usize| g != f ==> #[trigger] ranges_of(final(m)@, g) == ranges_of(old(m)@, g),
{
    broadcast use vstd::std_specs::hash::group_hash_axioms;
    let mut ranges = match m.remove(&f) {
        Some(v) => v,
        None => Vec::new(),
    };
    proof {
        assert(ranges@ == ranges_of(old(m)@, f));
    }
    ranges.push(range);
    m.insert(f, ranges);
    proof {
        assert forall|g: usize| g != f implies #[trigger] ranges_of(m@, g) == ranges_of(old(m)@, g) by {
            if old(m)@.contains_key(g) {
                assert(m@[g] == old(m)@[g]);
            }
        }
    }
}

/// Adds the ranges between two groups of false rows to the ranges of their fragments: one range per
/// location, from the location in `start` to that in the same place in `end` (in whichever order
/// they come), all with the given group number.  The groups must be as long as each other and in
/// the same fragments place by place, and no row may be the last `usize`.
pub fn add_ranges(ranges_per_frag: &mut HashMap<usize, Vec<FalseRowRange>>, start: &[RowLocation], end: &[RowLocation], group_id: usize)
    requires
        same_shape(start@, end@),
        forall|k: int| 0 <= k < start@.len() ==> (#[trigger] start@[k]).row < usize::MAX && end@[k].row < usize::MAX,
    ensures
        forall|f: usize| #[trigger] ranges_of(final(ranges_per_frag)@, f)
            == ranges_of(old(ranges_per_frag)@, f) + ranges_between(start@, end@, group_id as nat, f, start@.len()),
{
    let ghost m0 = ranges_per_frag@;
    let mut k: usize = 0;
    while k < start.len()
        invariant
            k <= start@.len(),
            same_shape(start@, end@),
            forall|j: int| 0 <= j < start@.len() ==> (#[trigger] start@[j]).row < usize::MAX && end@[j].row < usize::MAX,
            forall|f: usize| #[trigger] ranges_of(ranges_per_frag@, f)
                == ranges_of(m0, f) + ranges_between(start@, end@, group_id as nat, f, k as nat),
        decreases start@.len() - k,
    {
        let start_loc = start[k];
        let end_loc = end[k];
        let lo = if start_loc.row <= end_loc.row { start_loc.row } else { end_loc.row };
        let hi = if start_loc.row <= end_loc.row { end_loc.row } else { start_loc.row };
        let false_row_range = FalseRowRange { range: lo..hi + 1, group: group_id };
        let ghost before = ranges_per_frag@;
        push_range(ranges_per_frag, start_loc.frag, false_row_range);
        proof {
            assert(false_row_range == range_between(start@[k as int], end@[k as int], group_id as nat));
            assert forall|f: usize| #[trigger] ranges_of(ranges_per_frag@, f)
                == ranges_of(m0, f) + ranges_between(start@, end@, group_id as nat, f, (k + 1) as nat) by {
                assert(ranges_of(before, f) == ranges_of(m0, f) + ranges_between(start@, end@, group_id as nat, f, k as nat));
                if f == start_loc.frag {
                    assert(ranges_of(m0, f) + ranges_between(start@, end@, group_id as nat, f, (k + 1) as nat)
                        =~= (ranges_of(m0, f) + ranges_between(start@, end@, group_id as nat, f, k as nat)).push(false_row_range));
                } else {
                    assert(ranges_of(m0, f) + ranges_between(start@, end@, group_id as nat, f, (k + 1) as nat)
                        =~= ranges_of(m0, f) + ranges_between(start@, end@, group_id as nat, f, k as nat));
                }
            }
        }
        k += 1;
    }
}

/// A group of locations by value, as a function.
pub open spec fn group_view_fn() -> spec_fn(Vec<RowLocation>) -> Seq<RowLocation> {
    |g: Vec<RowLocation>| g@
}

/// The lexicographic order of groups of locations, as a function.
pub open spec fn group_le_fn() -> spec_fn(Seq<RowLocation>, Seq<RowLocation>) -> bool {
    |a: Seq<RowLocation>, b: Seq<RowLocation>| lex_le(a, b, le_fn::<RowLocation>())
}

/// The groups of locations, in ascending lexicographic order.
pub open spec fn sorted_groups(v: Seq<Vec<RowLocation>>) -> Seq<Seq<RowLocation>> {
    v.map_values(group_view_fn()).sort_by(group_le_fn())
}

/// The number of meta-groups of the sorted groups (zero when there are no groups).
pub open spec fn num_meta_groups(sorted: Seq<Seq<RowLocation>>) -> nat {
    if sorted.len() == 0 {
        0
    } else {
        meta_id(sorted, sorted.len() - 1) + 1
    }
}

proof fn lemma_group_le_total_ordering()
    ensures
        vstd::relations::total_ordering(group_le_fn()),
{
    lemma_location_total_ordering();
    lemma_lex_total_ordering(le_fn::<RowLocation>());
    let l = |a: Seq<RowLocation>, b: Seq<RowLocation>| lex_le(a, b, le_fn::<RowLocation>());
    assert(group_le_fn() =~= l);
}

proof fn lemma_meta_id_bound(sorted: Seq<Seq<RowLocation>>, i: int)
    ensures
        meta_id(sorted, i) <= if i < 0 { 0 } else { i },
    decreases i,
{
    if i > 0 {
        lemma_meta_id_bound(sorted, i - 1);
    }
}

/// Whether two groups of locations are adjacent.
fn is_adjacent(g: &[RowLocation], h: &[RowLocation]) -> (r: bool)
    ensures
        r == adjacent(g@, h@),
{
    if g.len() != h.len() {
        return false;
    }
    let mut k: usize = 0;
    while k < g.len()
        invariant
            k <= g@.len(),
            g@.len() == h@.len(),
            forall|j: int| 0 <= j < k ==> (#[trigger] g@[j]).frag == h@[j].frag
                && (g@[j].row == h@[j].row + 1 || h@[j].row == g@[j].row + 1),
        decreases g@.len() - k,
    {
        let a = g[k];
        let b = h[k];
        let one_apart = (a.row > b.row && a.row - b.row == 1) || (b.row > a.row && b.row - a.row == 1);
        if a.frag != b.frag || !one_apart {
            return false;
        }
        k += 1;
    }
    true
}

/// Combine adjacent false row groups so that fewer colours are used.  The groups are sorted; then
/// each maximal run of groups, each adjacent to the one before, becomes one meta-group, whose
/// ranges run from the locations of its first group to those of its last.  Returns the ranges of
/// each fragment (keyed by fragment) and the number of meta-groups, which is zero when
/// there are no groups.  No row may be the last `usize`.
pub fn coalesce_false_row_groups(false_rows: Vec<Vec<RowLocation>>) -> (r: (HashMap<usize, Vec<FalseRowRange>>, usize))
    requires
        forall|k: int, j: int| 0 <= k < false_rows@.len() && 0 <= j < false_rows@[k]@.len()
            ==> (#[trigger] false_rows@[k]@[j]).row < usize::MAX,
    ensures
        forall|f: usize| #[trigger] ranges_of(r.0@, f) == meta_ranges(sorted_groups(false_rows@), false_rows@.len(), f),
        r.1 == num_meta_groups(sorted_groups(false_rows@)),
{
    let ghost input = false_rows@;
    let mut groups = false_rows;
    sort_vec(&mut groups);
    let ghost sorted = groups@.map_values(group_view_fn());
    let n = groups.len();
    proof {
        lemma_group_le_total_ordering();
        lemma_perm_map(groups@, input, group_view_fn());
        input.map_values(group_view_fn()).lemma_sort_by_ensures(group_le_fn());
        assert forall|i: int, j: int| 0 <= i < j < sorted.len() implies #[trigger] group_le_fn()(sorted[i], sorted[j]) by {
            assert(le_fn::<Vec<RowLocation>>()(groups@[i], groups@[j]));
        }
        vstd::seq_lib::lemma_sorted_unique(sorted, sorted_groups(input), group_le_fn());
        assert forall|k: int, j: int| 0 <= k < n && 0 <= j < sorted[k].len() implies (#[trigger] sorted[k][j]).row < usize::MAX by {
            assert(sorted.to_multiset().count(sorted[k]) > 0);
            assert(input.map_values(group_view_fn()).contains(sorted[k]));
            let k2 = choose|k2: int| 0 <= k2 < input.len() && input.map_values(group_view_fn())[k2] == sorted[k];
            assert(input[k2]@ == sorted[k]);
            assert(input[k2]@[j] == sorted[k][j]);
        }
    }
    let mut ranges_by_frag: HashMap<usize, Vec<FalseRowRange>> = HashMap::new();
    let mut group_id: usize = 0;
    if n > 0 {
        let mut first: usize = 0;
        let mut i: usize = 1;
        while i < n
            invariant
                n == groups@.len(),
                n == sorted.len(),
                sorted == groups@.map_values(group_view_fn()),
                forall|k: int, j: int| 0 <= k < n && 0 <= j < sorted[k].len() ==> (#[trigger] sorted[k][j]).row < usize::MAX,
                1 <= i <= n,
                first < i,
                first == meta_start(sorted, i - 1),
                group_id == meta_id(sorted, i - 1),
                same_shape(sorted[first as int], sorted[i - 1]),
                forall|f: usize| #[trigger] ranges_of(ranges_by_frag@, f) == meta_ranges(sorted, (i - 1) as nat, f),
            decreases n - i,
        {
            proof {
                lemma_meta_id_bound(sorted, i - 1);
            }
            if !is_adjacent(groups[i - 1].as_slice(), groups[i].as_slice()) {
                // This group starts a new meta-group, so the last one is complete
                let ghost before = ranges_by_frag@;
                add_ranges(&mut ranges_by_frag, groups[first].as_slice(), groups[i - 1].as_slice(), group_id);
                proof {
                    assert(ends_meta(sorted, i - 1));
                    assert forall|f: usize| #[trigger] ranges_of(ranges_by_frag@, f) == meta_ranges(sorted, i as nat, f) by {
                        assert(((i as nat) - 1) as nat == (i - 1) as nat);
                    }
                }
                first = i;
                group_id += 1;
            } else {
                proof {
                    assert(!ends_meta(sorted, i - 1));
                    assert forall|f: usize| #[trigger] ranges_of(ranges_by_frag@, f) == meta_ranges(sorted, i as nat, f) by {
                        assert(meta_ranges(sorted, i as nat, f) =~= meta_ranges(sorted, (i - 1) as nat, f));
                    }
                    assert(adjacent(sorted[i - 1], sorted[i as int]));
                }
            }
            i += 1;
        }
        let ghost before = ranges_by_frag@;
        add_ranges(&mut ranges_by_frag, groups[first].as_slice(), groups[n - 1].as_slice(), group_id);
        proof {
            assert(ends_meta(sorted, n - 1));
            assert forall|f: usize| #[trigger] ranges_of(ranges_by_frag@, f) == meta_ranges(sorted, n as nat, f) by {
                assert(((n as nat) - 1) as nat == (n - 1) as nat);
            }
            lemma_meta_id_bound(sorted, n - 1);
        }
    } else {
        proof {
            assert forall|f: usize| #[trigger] ranges_of(ranges_by_frag@, f) == meta_ranges(sorted, 0, f) by {
                assert(ranges_of(ranges_by_frag@, f) =~= Seq::<FalseRowRange>::empty());
            }
        }
    }
    proof {
        assert(input.len() == n) by {
            assert(groups@.to_multiset().len() == input.to_multiset().len());
        }
    }
    // When there are groups, the final group number is the number of meta-groups less one
    let num_groups: usize = if n == 0 { 0 } else { group_id + 1 };
    (ranges_by_frag, num_groups)
}

/* ========== LAWS ========== */

/// Two different rows of `t` are equal.
pub open spec fn has_repeat(t: Seq<(RowOrigin, Seq<Bell>)>) -> bool {
    exists|i: int, j: int| 0 <= i < j < t.len() && #[trigger] t[i].1 == #[trigger] t[j].1
}

/// A composition is true (no row occurs twice) exactly when it has no false rows.
pub proof fn law_true_iff_no_false_rows(t: Seq<(RowOrigin, Seq<Bell>)>)
    ensures
        num_false(t) == 0 <==> !has_repeat(t),
{
    if has_repeat(t) {
        let (i, j) = choose|i: int, j: int| 0 <= i < j < t.len() && #[trigger] t[i].1 == #[trigger] t[j].1;
        let v = t[i].1;
        // Row `v` occurs at both `i` and `j`, so at least twice
        crate::count::lemma_count_remove(t, j, is_row(v));
        let t1 = t.remove(j);
        assert(t1[i] == t[i]);
        crate::count::lemma_count_remove(t1, i, is_row(v));
        assert(row_mult(t, v) >= 2);
        // So the row at `i` is false
        crate::count::lemma_count_remove(t, i, is_false_in(t));
    } else {
        assert forall|k: int| 0 <= k < t.len() implies !is_false_in(t)(#[trigger] t[k]) by {
            let v = t[k].1;
            assert forall|m: int| 0 <= m < t.len() && m != k implies !is_row(v)(#[trigger] t[m]) by {
                if m < k {
                    assert(!(t[m].1 == t[k].1));
                } else {
                    assert(!(t[k].1 == t[m].1));
                }
            }
            crate::count::lemma_count_remove(t, k, is_row(v));
            let t1 = t.remove(k);
            assert forall|m: int| 0 <= m < t1.len() implies !is_row(v)(#[trigger] t1[m]) by {
                if m < k {
                    assert(t1[m] == t[m]);
                } else {
                    assert(t1[m] == t[m + 1]);
                }
            }
            lemma_count_none_all(t1, is_row(v));
        }
        lemma_count_none_all(t, is_false_in(t));
    }
}


/// The groups from the start of the meta-group of the `i`th sorted group up to it are each adjacent
/// to the one before.
proof fn lemma_meta_chain(sorted: Seq<Seq<RowLocation>>, i: int)
    requires
        0 <= i < sorted.len(),
    ensures
        0 <= meta_start(sorted, i) <= i,
        forall|t: int| meta_start(sorted, i) < t <= i ==> !#[trigger] starts_meta(sorted, t),
    decreases i,
{
    if !(i <= 0 || starts_meta(sorted, i)) {
        lemma_meta_chain(sorted, i - 1);
    }
}

/// Along a chain of adjacent groups, each group is as long as the first and has its locations in
/// the same fragments.
proof fn lemma_chain_shape(sorted: Seq<Seq<RowLocation>>, s: int, i: int)
    requires
        0 <= s <= i < sorted.len(),
        forall|t: int| s < t <= i ==> !#[trigger] starts_meta(sorted, t),
    ensures
        same_shape(sorted[s], sorted[i]),
    decreases i - s,
{
    if s < i {
        lemma_chain_shape(sorted, s, i - 1);
        assert(!starts_meta(sorted, i));
        assert forall|k: int| 0 <= k < sorted[s].len() implies (#[trigger] sorted[s][k]).frag == sorted[i][k].frag by {
            assert(sorted[s][k].frag == sorted[i - 1][k].frag);
            assert(sorted[i - 1][k].frag == sorted[i][k].frag);
        }
    }
}

/// Along a chain of adjacent groups, the locations in one place step one row at a time, so every
/// row between the location in the first group and that in the last is the location, in that
/// place, of some group of the chain.
proof fn lemma_chain_covers(sorted: Seq<Seq<RowLocation>>, s: int, i: int, j: int, x: int)
    requires
        0 <= s <= i < sorted.len(),
        forall|t: int| s < t <= i ==> !#[trigger] starts_meta(sorted, t),
        0 <= j < sorted[s].len(),
        sorted[s][j].row <= x <= sorted[i][j].row || sorted[i][j].row <= x <= sorted[s][j].row,
    ensures
        exists|t: int| s <= t <= i && 0 <= j < sorted[t].len() && (#[trigger] sorted[t][j]).frag == sorted[s][j].frag
            && sorted[t][j].row == x,
    decreases i - s,
{
    lemma_chain_shape(sorted, s, i);
    if s == i {
        assert(sorted[s][j].row == x);
    } else if sorted[i][j].row == x {
        assert(sorted[i][j].frag == sorted[s][j].frag);
    } else {
        lemma_chain_shape(sorted, s, i - 1);
        assert(!starts_meta(sorted, i));
        assert(adjacent(sorted[i - 1], sorted[i]));
        assert(sorted[i - 1][j].frag == sorted[i][j].frag);
        let a = sorted[s][j].row as int;
        let b = sorted[i][j].row as int;
        let c = sorted[i - 1][j].row as int;
        assert(b == c + 1 || c == b + 1);
        assert(a <= x <= c || c <= x <= a);
        lemma_chain_covers(sorted, s, i - 1, j, x);
    }
}

/// Each range between two groups is the range, in fragment `f`, between their locations in one
/// place.
proof fn lemma_ranges_between_elem(first: Seq<RowLocation>, last: Seq<RowLocation>, group: nat, f: usize, m: nat, idx: int)
    requires
        0 <= idx < ranges_between(first, last, group, f, m).len(),
    ensures
        exists|j: int| 0 <= j < m && (#[trigger] first[j]).frag == f
            && ranges_between(first, last, group, f, m)[idx] == range_between(first[j], last[j], group),
    decreases m,
{
    let prev = ranges_between(first, last, group, f, (m - 1) as nat);
    if idx < prev.len() {
        lemma_ranges_between_elem(first, last, group, f, (m - 1) as nat, idx);
        let j = choose|j: int| 0 <= j < m - 1 && (#[trigger] first[j]).frag == f
            && prev[idx] == range_between(first[j], last[j], group);
        assert(ranges_between(first, last, group, f, m)[idx] == prev[idx]);
    } else {
        assert(first[m - 1].frag == f);
    }
}

/// Each range of fragment `f` among the meta-groups is the range between the locations in one place
/// of the first and the last group of a meta-group.
proof fn lemma_meta_ranges_elem(sorted: Seq<Seq<RowLocation>>, n: nat, f: usize, idx: int)
    requires
        n <= sorted.len(),
        0 <= idx < meta_ranges(sorted, n, f).len(),
    ensures
        exists|i: int, j: int| 0 <= i < n && 0 <= j < sorted[meta_start(sorted, i)].len()
            && (#[trigger] sorted[meta_start(sorted, i)][j]).frag == f
            && meta_ranges(sorted, n, f)[idx] == range_between(sorted[meta_start(sorted, i)][j], #[trigger] sorted[i][j], meta_id(sorted, i)),
    decreases n,
{
    let prev = meta_ranges(sorted, (n - 1) as nat, f);
    let i = n - 1;
    if idx < prev.len() {
        lemma_meta_ranges_elem(sorted, (n - 1) as nat, f, idx);
        let (i2, j2) = choose|i2: int, j2: int| 0 <= i2 < n - 1 && 0 <= j2 < sorted[meta_start(sorted, i2)].len()
            && (#[trigger] sorted[meta_start(sorted, i2)][j2]).frag == f
            && prev[idx] == range_between(sorted[meta_start(sorted, i2)][j2], #[trigger] sorted[i2][j2], meta_id(sorted, i2));
        assert(meta_ranges(sorted, n, f)[idx] == prev[idx]);
    } else {
        let first = sorted[meta_start(sorted, i)];
        let rb = ranges_between(first, sorted[i], meta_id(sorted, i), f, first.len());
        assert(ends_meta(sorted, i));
        assert(meta_ranges(sorted, n, f)[idx] == rb[idx - prev.len()]);
        lemma_ranges_between_elem(first, sorted[i], meta_id(sorted, i), f, first.len(), idx - prev.len());
        let j = choose|j: int| 0 <= j < first.len() && (#[trigger] first[j]).frag == f
            && rb[idx - prev.len()] == range_between(first[j], sorted[i][j], meta_id(sorted, i));
        assert(sorted[meta_start(sorted, i)][j] == first[j]);
    }
}

/// The sorted groups are the input groups, each as a sequence of locations.
proof fn lemma_sorted_groups_from_input(v: Seq<Vec<RowLocation>>, t: int)
    requires
        0 <= t < sorted_groups(v).len(),
    ensures
        sorted_groups(v).len() == v.len(),
        exists|k: int| 0 <= k < v.len() && (#[trigger] v[k])@ == sorted_groups(v)[t],
{
    let input = v.map_values(group_view_fn());
    lemma_group_le_total_ordering();
    input.lemma_sort_by_ensures(group_le_fn());
    assert(input.to_multiset().len() == sorted_groups(v).to_multiset().len());
    assert(sorted_groups(v).contains(sorted_groups(v)[t]));
    assert(input.contains(sorted_groups(v)[t]));
    let k = choose|k: int| 0 <= k < input.len() && input[k] == sorted_groups(v)[t];
    assert(v[k]@ == input[k]);
}

/// The coalesced ranges mark only false rows: every row that a range of fragment `f` covers is the
/// location, in fragment `f`, of one of the input false groups.  So two groups fall into one
/// meta-group only when, place by place, they are in the same fragment and exactly one row apart;
/// true rows between false groups are never shown as false.
pub proof fn law_coalesced_ranges_only_false_rows(v: Seq<Vec<RowLocation>>, f: usize, r: int, x: usize)
    requires
        0 <= r < meta_ranges(sorted_groups(v), v.len(), f).len(),
        meta_ranges(sorted_groups(v), v.len(), f)[r].range.start <= x,
        x < meta_ranges(sorted_groups(v), v.len(), f)[r].range.end,
    ensures
        exists|k: int, j: int| 0 <= k < v.len() && 0 <= j < v[k]@.len()
            && #[trigger] v[k]@[j] == (RowLocation { frag: f, row: x }),
{
    let sorted = sorted_groups(v);
    assert(sorted.len() == v.len()) by {
        lemma_group_le_total_ordering();
        v.map_values(group_view_fn()).lemma_sort_by_ensures(group_le_fn());
        assert(v.map_values(group_view_fn()).to_multiset().len() == sorted.to_multiset().len());
    }
    lemma_meta_ranges_elem(sorted, v.len(), f, r);
    let (i, j) = choose|i: int, j: int| 0 <= i < v.len() && 0 <= j < sorted[meta_start(sorted, i)].len()
        && (#[trigger] sorted[meta_start(sorted, i)][j]).frag == f
        && meta_ranges(sorted, v.len(), f)[r] == range_between(sorted[meta_start(sorted, i)][j], #[trigger] sorted[i][j], meta_id(sorted, i));
    let s = meta_start(sorted, i);
    lemma_meta_chain(sorted, i);
    let a = sorted[s][j].row;
    let b = sorted[i][j].row;
    let lo = if a <= b { a } else { b };
    let hi = if a <= b { b } else { a };
    assert(lo <= x <= hi) by {
        if hi < usize::MAX {
            assert(((hi + 1) as usize) as int == hi + 1);
        }
    }
    lemma_chain_covers(sorted, s, i, j, x as int);
    let t = choose|t: int| s <= t <= i && 0 <= j < sorted[t].len() && (#[trigger] sorted[t][j]).frag == sorted[s][j].frag
        && sorted[t][j].row == x;
    lemma_sorted_groups_from_input(v, t);
    let k = choose|k: int| 0 <= k < v.len() && (#[trigger] v[k])@ == sorted[t];
    assert(v[k]@[j] == sorted[t][j]);
}


/// Meta-group numbers count up from zero along the sorted groups: a later group never has a smaller
/// number, and two groups share a number exactly when each group after the first of them, up to
/// the second, is adjacent to the one before it.
pub proof fn law_meta_ids(sorted: Seq<Seq<RowLocation>>, i: int, j: int)
    requires
        0 <= i <= j < sorted.len(),
    ensures
        meta_id(sorted, 0) == 0,
        meta_id(sorted, i) <= meta_id(sorted, j),
        meta_id(sorted, i) == meta_id(sorted, j)
            <==> forall|t: int| i < t <= j ==> #[trigger] adjacent(sorted[t - 1], sorted[t]),
    decreases j - i,
{
    if i < j {
        law_meta_ids(sorted, i, j - 1);
        if adjacent(sorted[j - 1], sorted[j]) {
            assert(meta_id(sorted, j) == meta_id(sorted, j - 1));
            if meta_id(sorted, i) == meta_id(sorted, j) {
                assert forall|t: int| i < t <= j implies #[trigger] adjacent(sorted[t - 1], sorted[t]) by {
                    if t < j {
                        assert(forall|t2: int| i < t2 <= j - 1 ==> #[trigger] adjacent(sorted[t2 - 1], sorted[t2]));
                    }
                }
            } else {
                assert(!(forall|t2: int| i < t2 <= j - 1 ==> #[trigger] adjacent(sorted[t2 - 1], sorted[t2])));
                let t2 = choose|t2: int| i < t2 <= j - 1 && !#[trigger] adjacent(sorted[t2 - 1], sorted[t2]);
                assert(i < t2 <= j && !adjacent(sorted[t2 - 1], sorted[t2]));
            }
        } else {
            assert(meta_id(sorted, j) == meta_id(sorted, j - 1) + 1);
            assert(!adjacent(sorted[j - 1], sorted[j]));
        }
    }
}

/// The meta-group of the `t`th sorted group ends at some group at or after it.
proof fn lemma_meta_end(sorted: Seq<Seq<RowLocation>>, t: int) -> (e: int)
    requires
        0 <= t < sorted.len(),
    ensures
        t <= e < sorted.len(),
        ends_meta(sorted, e),
        meta_start(sorted, e) == meta_start(sorted, t),
        forall|u: int| t < u <= e ==> !#[trigger] starts_meta(sorted, u),
    decreases sorted.len() - t,
{
    if ends_meta(sorted, t) {
        t
    } else {
        assert(meta_start(sorted, t + 1) == meta_start(sorted, t));
        lemma_meta_end(sorted, t + 1)
    }
}

/// The range between two groups holds, for each place whose location in the first is in fragment
/// `f`, the range between their locations in that place.
proof fn lemma_ranges_between_has(first: Seq<RowLocation>, last: Seq<RowLocation>, group: nat, f: usize, m: nat, j: int)
    requires
        0 <= j < m,
        first[j].frag == f,
    ensures
        exists|idx: int| 0 <= idx < ranges_between(first, last, group, f, m).len()
            && #[trigger] ranges_between(first, last, group, f, m)[idx] == range_between(first[j], last[j], group),
    decreases m,
{
    let prev = ranges_between(first, last, group, f, (m - 1) as nat);
    if j < m - 1 {
        lemma_ranges_between_has(first, last, group, f, (m - 1) as nat, j);
        let idx = choose|idx: int| 0 <= idx < prev.len() && #[trigger] prev[idx] == range_between(first[j], last[j], group);
        assert(ranges_between(first, last, group, f, m)[idx] == prev[idx]);
    } else {
        assert(ranges_between(first, last, group, f, m)[prev.len() as int] == range_between(first[j], last[j], group));
    }
}

/// The ranges of fragment `f` hold, for each meta-group ending among the first `n` groups and each
/// place whose location in its first group is in `f`, the range between the locations in that
/// place of its first and last group.
proof fn lemma_meta_ranges_has(sorted: Seq<Seq<RowLocation>>, n: nat, f: usize, e: int, j: int)
    requires
        n <= sorted.len(),
        0 <= e < n,
        ends_meta(sorted, e),
        0 <= j < sorted[meta_start(sorted, e)].len(),
        sorted[meta_start(sorted, e)][j].frag == f,
    ensures
        exists|idx: int| 0 <= idx < meta_ranges(sorted, n, f).len()
            && #[trigger] meta_ranges(sorted, n, f)[idx]
                == range_between(sorted[meta_start(sorted, e)][j], sorted[e][j], meta_id(sorted, e)),
    decreases n,
{
    let prev = meta_ranges(sorted, (n - 1) as nat, f);
    let target = range_between(sorted[meta_start(sorted, e)][j], sorted[e][j], meta_id(sorted, e));
    if e < n - 1 {
        lemma_meta_ranges_has(sorted, (n - 1) as nat, f, e, j);
        let idx = choose|idx: int| 0 <= idx < prev.len() && #[trigger] prev[idx] == target;
        assert(meta_ranges(sorted, n, f)[idx] == prev[idx]);
    } else {
        let first = sorted[meta_start(sorted, e)];
        let rb = ranges_between(first, sorted[e], meta_id(sorted, e), f, first.len());
        lemma_ranges_between_has(first, sorted[e], meta_id(sorted, e), f, first.len(), j);
        let idx = choose|idx: int| 0 <= idx < rb.len() && #[trigger] rb[idx] == target;
        assert(meta_ranges(sorted, n, f)[prev.len() + idx] == rb[idx]);
    }
}

/// In sorted groups, along a chain of adjacent groups the first location steps down one row at a
/// time: it is one row further on in each group than in the one before.
proof fn lemma_chain_first_place(sorted: Seq<Seq<RowLocation>>, s: int, t: int)
    requires
        0 <= s <= t < sorted.len(),
        vstd::relations::sorted_by(sorted, group_le_fn()),
        forall|u: int| s < u <= t ==> !#[trigger] starts_meta(sorted, u),
        sorted[s].len() > 0,
    ensures
        sorted[t].len() == sorted[s].len(),
        sorted[t][0].frag == sorted[s][0].frag,
        sorted[t][0].row == sorted[s][0].row + (t - s),
    decreases t - s,
{
    if s < t {
        lemma_chain_first_place(sorted, s, t - 1);
        assert(!starts_meta(sorted, t));
        let a = sorted[t - 1];
        let b = sorted[t];
        assert(adjacent(a, b));
        assert(a[0].frag == b[0].frag);
        assert(group_le_fn()(a, b));
        assert(a[0] != b[0]);
        assert(le_fn::<RowLocation>()(a[0], b[0]));
    }
}

/// Every false group's first location is shown: its row lies inside one of the coalesced ranges of
/// its fragment, numbered with the meta-group of that group.  No row may be the last `usize`.
pub proof fn law_coalesced_ranges_cover_groups(v: Seq<Vec<RowLocation>>, k: int)
    requires
        0 <= k < v.len(),
        v[k]@.len() > 0,
        forall|k2: int, j: int| 0 <= k2 < v.len() && 0 <= j < v[k2]@.len() ==> (#[trigger] v[k2]@[j]).row < usize::MAX,
    ensures
        exists|r: int| 0 <= r < meta_ranges(sorted_groups(v), v.len(), v[k]@[0].frag).len()
            && (#[trigger] meta_ranges(sorted_groups(v), v.len(), v[k]@[0].frag)[r]).range.start <= v[k]@[0].row
            && v[k]@[0].row < meta_ranges(sorted_groups(v), v.len(), v[k]@[0].frag)[r].range.end,
{
    let sorted = sorted_groups(v);
    let input = v.map_values(group_view_fn());
    let f = v[k]@[0].frag;
    lemma_group_le_total_ordering();
    input.lemma_sort_by_ensures(group_le_fn());
    assert(input.to_multiset().len() == sorted.to_multiset().len());
    assert(input[k] == v[k]@);
    assert(input.to_multiset().count(v[k]@) > 0);
    assert(sorted.to_multiset().count(v[k]@) > 0);
    assert(sorted.contains(v[k]@));
    let t = choose|t: int| 0 <= t < sorted.len() && sorted[t] == v[k]@;
    let e = lemma_meta_end(sorted, t);
    let s = meta_start(sorted, t);
    lemma_meta_chain(sorted, t);
    assert forall|u: int| s < u <= e implies !#[trigger] starts_meta(sorted, u) by {}
    lemma_chain_shape(sorted, s, t);
    lemma_chain_first_place(sorted, s, t);
    lemma_chain_first_place(sorted, s, e);
    lemma_meta_ranges_has(sorted, v.len(), f, e, 0);
    let target = range_between(sorted[s][0], sorted[e][0], meta_id(sorted, e));
    let r = choose|r: int| 0 <= r < meta_ranges(sorted, v.len(), f).len()
        && #[trigger] meta_ranges(sorted, v.len(), f)[r] == target;
    // The last location is a location of an input group, so its row is not the last `usize`
    lemma_sorted_groups_from_input(v, e);
    let k2 = choose|k2: int| 0 <= k2 < v.len() && (#[trigger] v[k2])@ == sorted[e];
    assert(v[k2]@[0] == sorted[e][0]);
    assert(sorted[e][0].row < usize::MAX);
    assert(((sorted[e][0].row + 1) as usize) as int == sorted[e][0].row + 1);
    assert(meta_ranges(sorted, v.len(), f)[r] == target);
}

} // verus!
