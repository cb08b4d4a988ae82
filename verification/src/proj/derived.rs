//! The full derived state of a composition: everything the editor needs to display it, built from
//! its specification.

use vstd::prelude::*;
use std::collections::HashMap;
use std::ops::Range;
use crate::bellcore::bell::Bell;
use crate::bellcore::row::Row;
use super::derived_state::{
    call_row_count, call_rows_total, derive_calls, derive_methods, flat_all, flat_frag, flatten_proved_rows,
    fold_scan, get_fold_ranges, get_line_ranges, line_range_matches, line_ranges_spec, is_display_line, lemma_proved_rows_len, method_label_count,
    method_row_count, method_rows_total, num_proved, origins_of, proved_rows, DerivedCall, DerivedMethod,
    DisplayRow, ExpandedRow, LineRange, RowLocation,
};
use super::falseness::{
    lists_false_groups,
    coalesce_false_row_groups, gen_false_row_groups, is_false_group, is_group_of, loc_mult,
    meta_ranges, num_false, num_meta_groups, ranges_of, row_mult, sorted_groups, is_row_at,
    FalseRowRange,
};
use super::links::{firsts, gen_frag_links, last_group, leftovers, linked_pairs, links_match, from_frag, to_frag, FragLink, FragLinkGroups};
use super::spec::{annots_ok, is_expansion, is_row_expansion, method_ok, PartHeads, Spec};

verus! {

/* ========== LEMMAS ABOUT EXPANDED FRAGMENTS ========== */

/// The number of rows (counting leftover rows) of the first `n` fragments.
pub open spec fn total_rows(frags: Seq<super::spec::Frag>, n: nat) -> nat
    decreases n,
{
    if n == 0 {
        0
    } else {
        total_rows(frags, (n - 1) as nat) + frags[n - 1].block@.len()
    }
}

/// Without fold points, every expanded row has a display line of its own.
proof fn lemma_fold_scan_unfolded(rows: Seq<ExpandedRow>, k: nat)
    requires
        k <= rows.len(),
        forall|i: int| 0 <= i < rows.len() ==> (#[trigger] rows[i]).fold is None,
    ensures
        fold_scan(rows, k).1 is None,
        fold_scan(rows, k).0 == Seq::new(k, |i: int| (i, i + 1)),
    decreases k,
{
    if k > 0 {
        lemma_fold_scan_unfolded(rows, (k - 1) as nat);
        assert(fold_scan(rows, k).0 =~= Seq::new(k, |i: int| (i, i + 1)));
    }
}

/// The counts of a method or call in a fragment are at most its rows times the number of parts.
proof fn lemma_counts_bounded(frag: Seq<ExpandedRow>, parts: nat, m: int)
    requires
        forall|k: int| 0 <= k < frag.len() ==> (#[trigger] frag[k]).rows@.len() == parts,
    ensures
        method_row_count(frag, m, false) <= frag.len() * parts,
        call_row_count(frag, m, false) <= frag.len() * parts,
    decreases frag.len(),
{
    if frag.len() > 0 {
        assert forall|k: int| 0 <= k < frag.len() - 1 implies (#[trigger] frag.drop_last()[k]).rows@.len() == parts by {
            assert(frag.drop_last()[k] == frag[k]);
        }
        lemma_counts_bounded(frag.drop_last(), parts, m);
        assert(frag.last() == frag[frag.len() - 1]);
        assert((frag.len() - 1) * parts + parts == frag.len() * parts) by (nonlinear_arith);
    }
}

/// The number of expanded rows of the first `n` fragments.
pub open spec fn exp_total(gen: Seq<Vec<ExpandedRow>>, n: nat) -> nat
    decreases n,
{
    if n == 0 {
        0
    } else {
        exp_total(gen, (n - 1) as nat) + gen[n - 1]@.len()
    }
}

proof fn lemma_exp_total_mono(gen: Seq<Vec<ExpandedRow>>, a: nat, b: nat)
    requires
        a <= b,
    ensures
        exp_total(gen, a) <= exp_total(gen, b),
        b <= gen.len() && a < b ==> gen[a as int]@.len() <= exp_total(gen, b),
    decreases b - a,
{
    if a < b {
        lemma_exp_total_mono(gen, a, (b - 1) as nat);
        if a < b - 1 {
            lemma_exp_total_mono(gen, (a + 1) as nat, (b - 1) as nat);
        }
    }
}

proof fn lemma_totals_bounded(gen: Seq<Vec<ExpandedRow>>, n: nat, parts: nat, m: int)
    requires
        n <= gen.len(),
        forall|f: int, k: int| 0 <= f < gen.len() && 0 <= k < gen[f]@.len() ==> (#[trigger] gen[f]@[k]).rows@.len() == parts,
    ensures
        method_rows_total(gen, n, m, false) <= exp_total(gen, n) * parts,
        call_rows_total(gen, n, m, false) <= exp_total(gen, n) * parts,
        num_proved(gen, n) <= exp_total(gen, n),
    decreases n,
{
    if n > 0 {
        lemma_totals_bounded(gen, (n - 1) as nat, parts, m);
        let frag = gen[n - 1]@;
        assert forall|k: int| 0 <= k < frag.len() implies (#[trigger] frag[k]).rows@.len() == parts by {
            assert(gen[n - 1]@[k] == frag[k]);
        }
        lemma_counts_bounded(frag, parts, m);
        lemma_proved_rows_len(frag);
        let a = exp_total(gen, (n - 1) as nat);
        let b = frag.len();
        assert(a * parts + b * parts == (a + b) * parts) by (nonlinear_arith);
    }
}

/// Every row of the first `k` proved rows of a fragment has a row index below `k`.
proof fn lemma_flat_frag_rows(proved: Seq<ExpandedRow>, f: int, k: nat)
    requires
        k <= usize::MAX,
    ensures
        forall|i: int| 0 <= i < flat_frag(proved, f, k).len() ==> (#[trigger] flat_frag(proved, f, k)[i]).0.row < k,
    decreases k,
{
    if k > 0 {
        lemma_flat_frag_rows(proved, f, (k - 1) as nat);
        let a = flat_frag(proved, f, (k - 1) as nat);
        let b = origins_of(proved[k - 1], f, k - 1);
        assert forall|i: int| 0 <= i < flat_frag(proved, f, k).len() implies (#[trigger] flat_frag(proved, f, k)[i]).0.row < k by {
            if i < a.len() {
                assert(flat_frag(proved, f, k)[i] == a[i]);
            } else {
                assert(flat_frag(proved, f, k)[i] == b[i - a.len()]);
            }
        }
    }
}

/// Every flattened row has a row index below the largest `usize`.
proof fn lemma_flat_all_rows(gen: Seq<Vec<ExpandedRow>>, n: nat)
    requires
        n <= gen.len(),
        forall|f: int| 0 <= f < gen.len() ==> (#[trigger] gen[f])@.len() <= usize::MAX,
    ensures
        forall|i: int| 0 <= i < flat_all(gen, n).len() ==> (#[trigger] flat_all(gen, n)[i]).0.row < usize::MAX,
    decreases n,
{
    if n > 0 {
        lemma_flat_all_rows(gen, (n - 1) as nat);
        let proved = proved_rows(gen[n - 1]@);
        lemma_proved_rows_len(gen[n - 1]@);
        lemma_flat_frag_rows(proved, n - 1, proved.len());
        let a = flat_all(gen, (n - 1) as nat);
        let b = flat_frag(proved, n - 1, proved.len());
        assert forall|i: int| 0 <= i < flat_all(gen, n).len() implies (#[trigger] flat_all(gen, n)[i]).0.row < usize::MAX by {
            if i < a.len() {
                assert(flat_all(gen, n)[i] == a[i]);
            } else {
                assert(flat_all(gen, n)[i] == b[i - a.len()]);
            }
        }
    }
}

/// The locations in the false groups of rows whose row indices are below the largest `usize` are
/// below it too.
proof fn lemma_group_rows_bounded(t: Seq<(super::derived_state::RowOrigin, Seq<Bell>)>, groups: Seq<Vec<RowLocation>>)
    requires
        forall|i: int| 0 <= i < t.len() ==> (#[trigger] t[i]).0.row < usize::MAX,
        forall|k: int| 0 <= k < groups.len() ==> is_false_group(t, #[trigger] groups[k]@),
    ensures
        forall|k: int, j: int| 0 <= k < groups.len() && 0 <= j < groups[k]@.len()
            ==> (#[trigger] groups[k]@[j]).row < usize::MAX,
{
    broadcast use vstd::seq_lib::group_to_multiset_ensures;
    assert forall|k: int, j: int| 0 <= k < groups.len() && 0 <= j < groups[k]@.len()
        implies (#[trigger] groups[k]@[j]).row < usize::MAX by {
        let g = groups[k]@;
        assert(is_false_group(t, g));
        let v = choose|v: Seq<Bell>| row_mult(t, v) >= 2 && #[trigger] is_group_of(t, v, g);
        let l = g[j];
        assert(g.contains(l));
        assert(g.to_multiset().count(l) > 0);
        assert(loc_mult(t, v, l) > 0);
        crate::count::lemma_count_pos(t, is_row_at(v, l));
        let i = choose|i: int| 0 <= i < t.len() && is_row_at(v, l)(#[trigger] t[i]);
        assert(t[i].0.row < usize::MAX);
    }
}

/* ========== DERIVED STATE ========== */

/// Everything needed to display one fragment.
#[derive(Debug)]
pub struct DerivedFrag {
    /// All the expanded rows of the fragment, including those not shown
    pub expanded_rows: Vec<ExpandedRow>,
    /// The lines of the display
    pub display_rows: Vec<DisplayRow>,
    /// The ranges of rows highlighted as false, with their groups
    pub false_row_ranges: Vec<FalseRowRange>,
    /// The link groups of the top and bottom of the fragment
    pub link_groups: FragLinkGroups,
    /// Where blue-lines are drawn
    pub line_ranges: Vec<LineRange>,
    /// Whether the fragment is proved (not muted)
    pub is_proved: bool,
}

/// General statistics about the composition.
#[derive(Debug, Clone, Copy)]
pub struct DerivedStats {
    pub part_len: usize,
    pub num_false_rows: usize,
    pub num_false_groups: usize,
}

/// The full derived state of a composition: everything needed to display it.
#[derive(Debug)]
pub struct DerivedState {
    pub frags: Vec<DerivedFrag>,
    pub frag_links: Vec<FragLink>,
    pub stats: DerivedStats,
    pub part_heads: PartHeads,
    pub methods: Vec<DerivedMethod>,
    pub calls: Vec<DerivedCall>,
    pub stage: usize,
}

/// The expanded rows of each derived fragment.
pub open spec fn expanded_of(frags: Seq<DerivedFrag>) -> Seq<Vec<ExpandedRow>> {
    Seq::new(frags.len(), |f: int| frags[f].expanded_rows)
}

/// The display lines of a fragment with no fold points: one per expanded row.
pub open spec fn unit_ranges(n: nat) -> Seq<Range<usize>> {
    Seq::new(n, |i: int| Range { start: i as usize, end: (i + 1) as usize })
}

/// Takes the ranges of fragment `f` out of a map from fragments to their ranges.
fn take_ranges(m: &mut HashMap<usize, Vec<FalseRowRange>>, f: usize) -> (r: Vec<FalseRowRange>)
    ensures
        r@ == ranges_of(old(m)@, f),
        forall|g: usize| g != f ==> #[trigger] ranges_of(final(m)@, g) == ranges_of(old(m)@, g),
{
    broadcast use vstd::std_specs::hash::group_hash_axioms;
    let r = match m.remove(&f) {
        Some(v) => v,
        None => Vec::new(),
    };
    proof {
        assert forall|g: usize| g != f implies #[trigger] ranges_of(m@, g) == ranges_of(old(m)@, g) by {
            if old(m)@.contains_key(g) {
                assert(m@[g] == old(m)@[g]);
            }
        }
    }
    r
}

/// Whether display line `k` lies inside one of the line ranges.
pub open spec fn in_line_range(line_ranges: Seq<LineRange>, k: int) -> bool {
    exists|l: int| 0 <= l < line_ranges.len() && (#[trigger] line_ranges[l]).range.start <= k < line_ranges[l].range.end
}

/// Builds the display lines of a fragment: one per expanded row, with bell names shown except
/// where blue-lines are drawn.
fn display_rows_of(expanded_rows: &Vec<ExpandedRow>, line_ranges: &Vec<LineRange>) -> (d: Vec<DisplayRow>)
    requires
        expanded_rows@.len() < usize::MAX,
        forall|k: int| 0 <= k < expanded_rows@.len() ==> ((#[trigger] expanded_rows@[k]).call_label matches Some(cl)
            ==> cl.labels@.len() <= expanded_rows@[k].rows@.len()),
    ensures
        d@.len() == expanded_rows@.len(),
        forall|k: int| 0 <= k < d@.len() ==> is_display_line(#[trigger] d@[k], expanded_rows@, unit_ranges(expanded_rows@.len())[k])
            && (d@[k].use_bell_names <==> !in_line_range(line_ranges@, k)),
{
    let n = expanded_rows.len();
    let mut display_rows: Vec<DisplayRow> = Vec::new();
    let mut k: usize = 0;
    while k < n
        invariant
            n == expanded_rows@.len(),
            n < usize::MAX,
            k <= n,
            forall|j: int| 0 <= j < n ==> ((#[trigger] expanded_rows@[j]).call_label matches Some(cl)
                ==> cl.labels@.len() <= expanded_rows@[j].rows@.len()),
            display_rows@.len() == k,
            forall|j: int| 0 <= j < k ==> is_display_line(#[trigger] display_rows@[j], expanded_rows@, unit_ranges(n as nat)[j])
                && (display_rows@[j].use_bell_names <==> !in_line_range(line_ranges@, j)),
        decreases n - k,
    {
        proof {
            assert(method_label_count(expanded_rows@, k as int, k as int) == 0);
            assert(method_label_count(expanded_rows@, k as int, (k + 1) as int) <= 1);
        }
        let mut row = DisplayRow::from_range(expanded_rows.as_slice(), k..k + 1);
        // No bell names are drawn where there are blue-lines
        let mut l: usize = 0;
        let mut in_range = false;
        while l < line_ranges.len()
            invariant
                l <= line_ranges@.len(),
                in_range == exists|m: int| 0 <= m < l && (#[trigger] line_ranges@[m]).range.start <= k < line_ranges@[m].range.end,
            decreases line_ranges@.len() - l,
        {
            if line_ranges[l].range.start <= k && k < line_ranges[l].range.end {
                in_range = true;
            }
            l += 1;
        }
        if in_range {
            row.use_bell_names = false;
        }
        proof {
            assert(unit_ranges(n as nat)[k as int] == (Range { start: k, end: (k + 1) as usize }));
        }
        display_rows.push(row);
        k += 1;
    }
    display_rows
}

/// Facts about the expanded rows of a well-formed specification that the steps of deriving its
/// state need.
proof fn lemma_expansion_facts(spec: Spec, gen: Seq<Vec<ExpandedRow>>)
    requires
        spec.wf(),
        gen.len() == spec.frags@.len(),
        forall|f: int| 0 <= f < gen.len() ==> is_expansion(spec.frags@[f], spec.part_heads.rows_view(), spec.methods@,
            spec.calls@, (#[trigger] gen[f])@),
        total_rows(spec.frags@, spec.frags@.len()) * spec.part_heads.rows_view().len() < usize::MAX,
    ensures
        forall|f: int| 0 <= f < gen.len() ==> 2 <= (#[trigger] gen[f])@.len() < usize::MAX,
        forall|f: int, k: int| 0 <= f < gen.len() && 0 <= k < gen[f]@.len() ==> {
            let er = #[trigger] gen[f]@[k];
            &&& er.rows@.len() == spec.part_heads.rows_view().len()
            &&& er.rows@.len() >= 1
            &&& er.rows@[0]@.len() == spec.part_heads.rows_view()[0]@.len()
            &&& er.fold is None
            &&& (er.method_ref matches Some(mr) ==> mr.method_index < spec.methods@.len())
            &&& (er.call_label matches Some(cl) ==> cl.call_index < spec.calls@.len() && cl.labels@.len() == er.rows@.len())
        },
        num_proved(gen, gen.len()) <= usize::MAX,
        forall|m: int| #[trigger] method_rows_total(gen, gen.len(), m, false) <= usize::MAX,
        forall|c: int| #[trigger] call_rows_total(gen, gen.len(), c, false) <= usize::MAX,
{
    let n = gen.len();
    let parts = spec.part_heads.rows_view().len();
    let ph = spec.part_heads.rows_view();
    lemma_exp_total_is_total_rows(spec, gen, n);
    assert(parts >= 1);
    let t = total_rows(spec.frags@, n);
    assert(t <= t * parts) by (nonlinear_arith)
        requires parts >= 1;
    assert forall|f: int| 0 <= f < gen.len() implies 2 <= (#[trigger] gen[f])@.len() < usize::MAX by {
        assert(spec.frags@[f].wf());
        lemma_exp_total_mono(gen, f as nat, n);
    }
    assert forall|f: int, k: int| 0 <= f < gen.len() && 0 <= k < gen[f]@.len() implies {
        let er = #[trigger] gen[f]@[k];
        &&& er.rows@.len() == parts
        &&& er.rows@.len() >= 1
        &&& er.rows@[0]@.len() == ph[0]@.len()
        &&& er.fold is None
        &&& (er.method_ref matches Some(mr) ==> mr.method_index < spec.methods@.len())
        &&& (er.call_label matches Some(cl) ==> cl.call_index < spec.calls@.len() && cl.labels@.len() == er.rows@.len())
    } by {
        let frag = spec.frags@[f];
        assert(frag.wf());
        assert(annots_ok(frag, spec.methods@, spec.calls@));
        assert(is_row_expansion(frag, ph, spec.methods@, spec.calls@, k, gen[f]@[k]));
        let er = gen[f]@[k];
        assert(super::derived_state::row_views(er.rows@).len() == er.rows@.len());
        assert(er.rows@[0]@ == super::derived_state::row_views(er.rows@)[0]);
        assert(frag.block@[k].0.len() == frag.block@[0].0.len());
        if let Some(mr) = er.method_ref {
            assert(frag.block@[k].1.method == Some(mr));
            assert(method_ok(spec.methods@, mr));
        }
    }
    lemma_totals_bounded(gen, n, parts, 0);
    assert forall|m: int| #[trigger] method_rows_total(gen, n, m, false) <= usize::MAX by {
        lemma_totals_bounded(gen, n, parts, m);
    }
    assert forall|c: int| #[trigger] call_rows_total(gen, n, c, false) <= usize::MAX by {
        lemma_totals_bounded(gen, n, parts, c);
    }
}

proof fn lemma_exp_total_is_total_rows(spec: Spec, gen: Seq<Vec<ExpandedRow>>, k: nat)
    requires
        k <= gen.len(),
        gen.len() == spec.frags@.len(),
        forall|f: int| 0 <= f < gen.len() ==> is_expansion(spec.frags@[f], spec.part_heads.rows_view(), spec.methods@,
            spec.calls@, (#[trigger] gen[f])@),
    ensures
        exp_total(gen, k) == total_rows(spec.frags@, k),
    decreases k,
{
    if k > 0 {
        lemma_exp_total_is_total_rows(spec, gen, (k - 1) as nat);
        assert(is_expansion(spec.frags@[k - 1], spec.part_heads.rows_view(), spec.methods@, spec.calls@, gen[k - 1]@));
    }
}

/// `df` is the derived state of fragment `f` (whose expanded rows are `df.expanded_rows`), given
/// the links and the false row ranges.
pub open spec fn is_derived_frag(df: DerivedFrag, f: int, muted: bool, links: Seq<FragLink>, false_ranges: Seq<FalseRowRange>) -> bool {
    let exp = df.expanded_rows@;
    let lines = unit_ranges(exp.len());
    &&& df.is_proved == !muted
    &&& df.false_row_ranges@ == false_ranges
    &&& df.link_groups.bottom == last_group(links, from_frag(f))
    &&& df.link_groups.top == last_group(links, to_frag(f))
    &&& df.display_rows@.len() == exp.len()
    &&& forall|k: int| 0 <= k < exp.len() ==> is_display_line(#[trigger] df.display_rows@[k], exp, lines[k])
        && (df.display_rows@[k].use_bell_names <==> !in_line_range(df.line_ranges@, k))
    &&& df.line_ranges@.len() == line_ranges_spec(lines, exp.len() as int).len()
    &&& forall|j: int| 0 <= j < df.line_ranges@.len() ==> line_range_matches(#[trigger] df.line_ranges@[j],
        line_ranges_spec(lines, exp.len() as int)[j], exp)
}

/// `d` is the derived state of the composition `spec`: see [`DerivedState::from_spec`].
pub open spec fn derives(d: DerivedState, spec: Spec) -> bool {
    &&& d.frags@.len() == spec.frags@.len()
    &&& forall|f: int| 0 <= f < spec.frags@.len() ==> is_expansion(spec.frags@[f], spec.part_heads.rows_view(),
            spec.methods@, spec.calls@, (#[trigger] d.frags@[f]).expanded_rows@)
    &&& links_match(d.frag_links@, leftovers(expanded_of(d.frags@)),
            linked_pairs(leftovers(expanded_of(d.frags@)), firsts(expanded_of(d.frags@)), spec.part_heads.rows_view(), spec.frags@.len(), 0))
    &&& d.stats.part_len == num_proved(expanded_of(d.frags@), spec.frags@.len())
    &&& d.stats.num_false_rows == num_false(flat_all(expanded_of(d.frags@), spec.frags@.len()))
    &&& exists|groups: Seq<Vec<RowLocation>>| {
            &&& lists_false_groups(flat_all(expanded_of(d.frags@), spec.frags@.len()), groups)
            &&& d.stats.num_false_groups == num_meta_groups(sorted_groups(groups))
            &&& forall|f: int| 0 <= f < spec.frags@.len() ==> #[trigger] is_derived_frag(d.frags@[f], f,
                spec.frags@[f].is_muted, d.frag_links@, meta_ranges(sorted_groups(groups), groups.len(), f as usize))
        }
    &&& d.methods@.len() == spec.methods@.len()
    &&& forall|m: int| 0 <= m < spec.methods@.len() ==> {
            &&& (#[trigger] d.methods@[m]).name@ == spec.methods@[m].method.name_view()
            &&& d.methods@[m].shorthand@ == spec.methods@[m].shorthand@
            &&& d.methods@[m].place_not_string@ == spec.methods@[m].place_not_string@
            &&& d.methods@[m].num_rows == method_rows_total(expanded_of(d.frags@), spec.frags@.len(), m, false)
            &&& d.methods@[m].num_proved_rows == method_rows_total(expanded_of(d.frags@), spec.frags@.len(), m, true)
        }
    &&& d.calls@.len() == spec.calls@.len()
    &&& forall|c: int| 0 <= c < spec.calls@.len() ==> {
            &&& (#[trigger] d.calls@[c]).notation == spec.calls@[c].call.notation_view()
            &&& d.calls@[c].location@ == spec.calls@[c].call.location_view()
            &&& d.calls@[c].count == call_rows_total(expanded_of(d.frags@), spec.frags@.len(), c, false)
            &&& d.calls@[c].proved_count == call_rows_total(expanded_of(d.frags@), spec.frags@.len(), c, true)
        }
    &&& d.part_heads.spec_view() == spec.part_heads.spec_view()
    &&& d.part_heads.rows_view().len() == spec.part_heads.rows_view().len()
    &&& forall|i: int| 0 <= i < d.part_heads.rows_view().len() ==> (#[trigger] d.part_heads.rows_view()[i])@
            == spec.part_heads.rows_view()[i]@
    &&& d.stage == spec.stage.num_bells
}

impl DerivedState {
    /// Derives the full state of a composition from its specification: expands every fragment,
    /// proves the rows (finding and grouping the false ones), finds which fragments link onto which,
    /// counts how each method and call is used, and lays out the lines of each fragment (one per
    /// expanded row, as fragments carry no fold points), with blue-lines where rows follow on.  The
    /// composition, with all its parts, must have fewer than the largest `usize` rows.
    pub fn from_spec(spec: &Spec) -> (d: DerivedState)
        requires
            spec.wf(),
            total_rows(spec.frags@, spec.frags@.len()) * spec.part_heads.rows_view().len() < usize::MAX,
        ensures
            derives(d, *spec),
    {
        // Fully expand the composition
        let generated_rows = spec.expand();
        let ghost gen = generated_rows@;
        let n = generated_rows.len();
        proof {
            lemma_expansion_facts(*spec, gen);
        }
        // Prove the composition
        let (flat_proved_rows, part_len) = flatten_proved_rows(generated_rows.as_slice(), 0);
        let ghost t = flat_all(gen, n as nat);
        let (false_rows, num_false_rows) = gen_false_row_groups(flat_proved_rows);
        let ghost groups = false_rows@;
        proof {
            lemma_flat_all_rows(gen, n as nat);
            lemma_group_rows_bounded(t, groups);
        }
        let (mut ranges_by_frag, num_false_groups) = coalesce_false_row_groups(false_rows);
        // Find how the fragments link together
        let (frag_links, frag_link_groups) = gen_frag_links(generated_rows.as_slice(), &spec.part_heads);
        // Count how the methods and calls are used
        let der_methods = derive_methods(spec.methods.as_slice(), generated_rows.as_slice());
        let der_calls = derive_calls(spec.calls.as_slice(), generated_rows.as_slice());
        // Lay out each fragment
        let mut frags: Vec<DerivedFrag> = Vec::new();
        let mut i: usize = 0;
        for expanded_rows in it: generated_rows
            invariant
                it.seq() == gen,
                i == it.index(),
                n == gen.len(),
                n == spec.frags@.len(),
                frag_link_groups@.len() == n,
                forall|f: int| 0 <= f < gen.len() ==> 2 <= (#[trigger] gen[f])@.len() < usize::MAX,
                forall|f: int, k: int| 0 <= f < gen.len() && 0 <= k < gen[f]@.len() ==> {
                    let er = #[trigger] gen[f]@[k];
                    &&& er.fold is None
                    &&& (er.call_label matches Some(cl) ==> cl.labels@.len() == er.rows@.len())
                },
                forall|f: int| 0 <= f < n ==> (#[trigger] frag_link_groups@[f]).bottom == last_group(frag_links@, from_frag(f))
                    && frag_link_groups@[f].top == last_group(frag_links@, to_frag(f)),
                forall|f: usize| i <= f ==> #[trigger] ranges_of(ranges_by_frag@, f)
                    == meta_ranges(sorted_groups(groups), groups.len(), f),
                frags@.len() == i,
                forall|f: int| 0 <= f < i ==> (#[trigger] frags@[f]).expanded_rows == gen[f]
                    && is_derived_frag(frags@[f], f, spec.frags@[f].is_muted, frag_links@,
                        meta_ranges(sorted_groups(groups), groups.len(), f as usize)),
        {
            proof {
                assert(expanded_rows == gen[i as int]);
                lemma_fold_scan_unfolded(expanded_rows@, expanded_rows@.len());
            }
            let fold_regions = get_fold_ranges(expanded_rows.as_slice());
            proof {
                assert(fold_regions@ =~= unit_ranges(expanded_rows@.len()));
            }
            let line_ranges = get_line_ranges(fold_regions.as_slice(), expanded_rows.as_slice());
            let display_rows = display_rows_of(&expanded_rows, &line_ranges);
            let false_row_ranges = take_ranges(&mut ranges_by_frag, i);
            let is_muted = match spec.is_frag_muted(i) {
                Some(m) => m,
                None => false,
            };
            let df = DerivedFrag {
                false_row_ranges,
                display_rows,
                line_ranges,
                expanded_rows,
                is_proved: !is_muted,
                link_groups: frag_link_groups[i],
            };
            let ghost fi = frags@;
            frags.push(df);
            proof {
                assert(is_derived_frag(frags@[i as int], i as int, spec.frags@[i as int].is_muted, frag_links@,
                    meta_ranges(sorted_groups(groups), groups.len(), i)));
                assert forall|f: int| 0 <= f < i + 1 implies (#[trigger] frags@[f]).expanded_rows == gen[f]
                    && is_derived_frag(frags@[f], f, spec.frags@[f].is_muted, frag_links@,
                        meta_ranges(sorted_groups(groups), groups.len(), f as usize)) by {
                    if f < i {
                        assert(frags@[f] == fi[f]);
                    }
                }
            }
            i += 1;
        }
        proof {
            assert(expanded_of(frags@) =~= gen);
            assert(lists_false_groups(t, groups));
        }
        DerivedState {
            frags,
            frag_links,
            stats: DerivedStats { part_len, num_false_rows, num_false_groups },
            part_heads: spec.part_heads.clone(),
            methods: der_methods,
            calls: der_calls,
            stage: spec.stage.as_usize(),
        }
    }
}

impl DerivedState {
    /// The row at a given location (part, fragment and expanded row), or `None` if there is no
    /// such row.
    pub fn get_row(&self, part_ind: usize, frag_ind: usize, row_ind: usize) -> (r: Option<&Row>)
        ensures
            (frag_ind < self.frags@.len() && row_ind < self.frags@[frag_ind as int].expanded_rows@.len()
                && part_ind < self.frags@[frag_ind as int].expanded_rows@[row_ind as int].rows@.len())
                ==> r == Some(&self.frags@[frag_ind as int].expanded_rows@[row_ind as int].rows@[part_ind as int]),
            !(frag_ind < self.frags@.len() && row_ind < self.frags@[frag_ind as int].expanded_rows@.len()
                && part_ind < self.frags@[frag_ind as int].expanded_rows@[row_ind as int].rows@.len()) ==> r is None,
    {
        if frag_ind < self.frags.len() {
            let frag = &self.frags[frag_ind];
            if row_ind < frag.expanded_rows.len() {
                let er = &frag.expanded_rows[row_ind];
                if part_ind < er.rows.len() {
                    return Some(&er.rows[part_ind]);
                }
            }
        }
        None
    }

    /// Whether a method is used anywhere in the composition (even where muted), or `None` if there
    /// is no such method.
    pub fn is_method_used(&self, method_ind: usize) -> (r: Option<bool>)
        ensures
            method_ind < self.methods@.len() ==> r == Some(self.methods@[method_ind as int].num_rows > 0),
            method_ind >= self.methods@.len() ==> r is None,
    {
        if method_ind < self.methods.len() {
            Some(self.methods[method_ind].num_rows > 0)
        } else {
            None
        }
    }

    /// The part head at a given index, or `None` if there are not that many parts.
    pub fn get_part_head(&self, part_ind: usize) -> (r: Option<&Row>)
        ensures
            part_ind < self.part_heads.rows_view().len() ==> r == Some(&self.part_heads.rows_view()[part_ind as int]),
            part_ind >= self.part_heads.rows_view().len() ==> r is None,
    {
        let rows = self.part_heads.rows();
        if part_ind < rows.len() {
            Some(&rows[part_ind])
        } else {
            None
        }
    }

    /// The index of the first expanded row of a display line of a fragment.
    pub fn source_row_ind(&self, frag_ind: usize, row_ind: usize) -> (r: usize)
        requires
            frag_ind < self.frags@.len(),
            row_ind < self.frags@[frag_ind as int].display_rows@.len(),
        ensures
            r == self.frags@[frag_ind as int].display_rows@[row_ind as int].range.start,
    {
        self.frags[frag_ind].display_rows[row_ind].range.start
    }
}

} // verus!
