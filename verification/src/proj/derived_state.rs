//! The state derived from a composition for display: where each expanded row comes from, labels for
//! method splices and calls, and statistics about methods and calls.

use vstd::prelude::*;
use std::ops::Range;
use crate::bellcore::bell::Bell;
use crate::bellcore::row::Row;
use crate::bellcore::stage::Stage;
use crate::text::push_char;
use super::spec::{CallSpec, MethodRef, MethodSpec};

verus! {

/// Where a given row comes from in the composition: which part, which fragment, and which row of
/// that fragment.
#[derive(Copy, Clone, Debug, Eq, PartialEq, Structural, Hash)]
pub struct RowOrigin {
    /// The index of the part that this row came from
    pub part: usize,
    /// The index of the fragment that this row came from
    pub frag: usize,
    /// The index of the row within the fragment that this row came from
    pub row: usize,
}

impl RowOrigin {
    /// Creates a new `RowOrigin` from its parts.
    pub fn new(part: usize, frag: usize, row: usize) -> (o: RowOrigin)
        ensures
            o == (RowOrigin { part, frag, row }),
    {
        RowOrigin { part, frag, row }
    }
}

/// Where a given row comes from in the composition, without knowing which part it comes from.
/// These are ordered by fragment index and then by row index.
#[derive(Copy, Clone, Debug, Eq, PartialEq, Structural, Ord, PartialOrd, Hash)]
pub struct RowLocation {
    /// The index of the fragment that this row came from
    pub frag: usize,
    /// The index of the row within the fragment that this row came from
    pub row: usize,
}

impl RowLocation {
    /// The location of a row, forgetting its part.
    pub fn from_origin(o: RowOrigin) -> (l: RowLocation)
        ensures
            l == (RowLocation { frag: o.frag, row: o.row }),
    {
        RowLocation { frag: o.frag, row: o.row }
    }
}

/// A method splice label.
#[derive(Debug, Clone, Eq, PartialEq, Hash)]
pub struct MethodLabel {
    pub name: String,
    pub shorthand: String,
}

impl MethodLabel {
    /// Creates a label from the method's name and shorthand.
    pub fn new(name: String, shorthand: String) -> (l: MethodLabel)
        ensures
            l.name@ == name@,
            l.shorthand@ == shorthand@,
    {
        MethodLabel { name, shorthand }
    }
}

/// A point in the composition where a call is labelled.
#[derive(Debug, Clone)]
pub struct CallLabel {
    /// The label this call is given in each part
    pub labels: Vec<String>,
    /// The index of the call, used to generate statistics about how calls are used.
    pub call_index: usize,
}

impl CallLabel {
    /// Creates the label of a call with a given notation made at the given calling position in
    /// each part: each label is the notation followed by the position.
    pub fn new(call_index: usize, notation: char, positions: &[&str]) -> (l: CallLabel)
        ensures
            l.call_index == call_index,
            l.labels@.len() == positions@.len(),
            forall|i: int| 0 <= i < positions@.len() ==> (#[trigger] l.labels@[i])@ == seq![notation] + positions@[i]@,
    {
        let mut labels: Vec<String> = Vec::new();
        let mut i: usize = 0;
        while i < positions.len()
            invariant
                i <= positions@.len(),
                labels@.len() == i,
                forall|j: int| 0 <= j < i ==> (#[trigger] labels@[j])@ == seq![notation] + positions@[j]@,
            decreases positions@.len() - i,
        {
            let mut label = String::new();
            push_char(&mut label, notation);
            label.append(positions[i]);
            labels.push(label);
            proof {
                assert(labels@[i as int]@ =~= seq![notation] + positions@[i as int]@);
            }
            i += 1;
        }
        CallLabel { labels, call_index }
    }
}

/// Whether a folding point is open.
#[derive(Debug, Clone, Copy, PartialEq, Eq, Structural)]
pub struct DerivedFold {
    pub is_open: bool,
}

impl DerivedFold {
    /// Creates a fold with the given openness.
    pub fn new(is_open: bool) -> (f: DerivedFold)
        ensures
            f.is_open == is_open,
    {
        DerivedFold { is_open }
    }
}

/// Statistics about how often a call is used.
#[derive(Debug, Clone)]
pub struct DerivedCall {
    pub notation: char,
    pub location: String,
    pub count: usize,
    pub proved_count: usize,
}

impl DerivedCall {
    /// Creates a new `DerivedCall` with no instances.
    pub fn new(notation: char, location: String) -> (c: DerivedCall)
        ensures
            c.notation == notation,
            c.location@ == location@,
            c.count == 0,
            c.proved_count == 0,
    {
        DerivedCall { notation, location, count: 0, proved_count: 0 }
    }
}

/* ========== MUSIC HIGHLIGHTING ========== */

/// The number of adjacent pairs at the front of `s` whose bells are next to each other (in either
/// direction), stopping at the first pair that is not.
pub open spec fn run_steps(s: Seq<Bell>) -> nat
    decreases s.len(),
{
    if s.len() < 2 {
        0
    } else if s[0].index == s[1].index + 1 || s[1].index == s[0].index + 1 {
        1 + run_steps(s.drop_first())
    } else {
        0
    }
}

/// The length of the run of bells at the front of `s` (1 for an empty or one-bell sequence).
pub open spec fn run_len_spec(s: Seq<Bell>) -> nat {
    run_steps(s) + 1
}

proof fn lemma_run_steps_bound(s: Seq<Bell>)
    ensures
        run_steps(s) <= if s.len() == 0 { 0 } else { s.len() - 1 },
    decreases s.len(),
{
    if s.len() >= 2 {
        lemma_run_steps_bound(s.drop_first());
    }
}

/// Two bells are next to each other: their indices differ by one.
pub open spec fn bells_next_to(a: Bell, b: Bell) -> bool {
    a.index == b.index + 1 || b.index == a.index + 1
}

/// The bells at `j` and `j + 1` of `s` are next to each other.
pub open spec fn next_pair(s: Seq<Bell>, j: int) -> bool {
    bells_next_to(s[j], s[j + 1])
}

/// A run counts every bell up to the first pair that is not next to each other, however long it
/// is: if each of the first `k` bells is next to the one after it, the run is at least `k` long.
pub proof fn law_run_len_covers_steps(s: Seq<Bell>, k: int)
    requires
        1 <= k <= s.len(),
        forall|j: int| 0 <= j < k - 1 ==> #[trigger] next_pair(s, j),
    ensures
        run_len_spec(s) >= k,
    decreases k,
{
    if k >= 2 {
        let t = s.drop_first();
        assert(next_pair(s, 0));
        assert forall|j: int| 0 <= j < k - 2 implies #[trigger] next_pair(t, j) by {
            assert(next_pair(s, j + 1));
        }
        law_run_len_covers_steps(t, k - 1);
    }
}

/// The run at the front of a sequence is exactly as long as its longest prefix of bells each next
/// to the one after: it is at least one bell and no longer than the sequence (if that has any
/// bells), every pair inside it is next to each other, and the pair where it stops is not.
pub proof fn law_run_len_maximal(s: Seq<Bell>)
    ensures
        1 <= run_len_spec(s),
        s.len() >= 1 ==> run_len_spec(s) <= s.len(),
        forall|j: int| 0 <= j < run_len_spec(s) - 1 ==> #[trigger] next_pair(s, j),
        run_len_spec(s) < s.len() ==> !next_pair(s, run_len_spec(s) - 1),
    decreases s.len(),
{
    lemma_run_steps_bound(s);
    if s.len() >= 2 && bells_next_to(s[0], s[1]) {
        let t = s.drop_first();
        law_run_len_maximal(t);
        assert forall|j: int| 0 <= j < run_len_spec(s) - 1 implies #[trigger] next_pair(s, j) by {
            if j > 0 {
                assert(next_pair(t, j - 1));
            }
        }
        if run_len_spec(s) < s.len() {
            assert(next_pair(t, run_len_spec(t) - 1) == next_pair(s, run_len_spec(s) - 1));
        }
    }
}

/// The length of the run of consecutive bells (ascending or descending, in any mixture) at the
/// front of a sequence of bells.  An empty or single bell counts as a run of length 1.
pub fn run_len(bells: &[Bell]) -> (r: usize)
    ensures
        r == run_len_spec(bells@),
{
    proof {
        lemma_run_steps_bound(bells@);
    }
    if bells.len() < 2 {
        return 1;
    }
    let mut k: usize = 0;
    proof {
        assert(bells@.skip(0) =~= bells@);
    }
    while k < bells.len() - 1
        invariant
            k + 1 <= bells@.len(),
            run_steps(bells@) == k + run_steps(bells@.skip(k as int)),
        decreases bells@.len() - k,
    {
        let x = bells[k].index;
        let y = bells[k + 1].index;
        proof {
            let t = bells@.skip(k as int);
            assert(t[0] == bells@[k as int]);
            assert(t[1] == bells@[k + 1]);
            assert(t.drop_first() =~= bells@.skip(k + 1));
        }
        if !((x > y && x - y == 1) || (y > x && y - x == 1)) {
            return k + 1;
        }
        k += 1;
    }
    proof {
        assert(bells@.skip(k as int).len() < 2);
    }
    k + 1
}

/// The bells of a row in reverse order.
pub fn reversed(bells: &[Bell]) -> (r: Vec<Bell>)
    ensures
        r@ == bells@.reverse(),
{
    let mut r: Vec<Bell> = Vec::new();
    let mut i: usize = bells.len();
    while i > 0
        invariant
            i <= bells@.len(),
            r@ == bells@.skip(i as int).reverse(),
        decreases i,
    {
        i -= 1;
        r.push(bells[i]);
        proof {
            assert(r@ =~= bells@.skip(i as int).reverse());
        }
    }
    proof {
        assert(bells@.skip(0) =~= bells@);
    }
    r
}

/// Whether the bell at `place` of a row of `n` bells is part of a run of at least four bells off
/// the front or the back.  A place covered by the front run is not counted for the back.
pub open spec fn in_music(s: Seq<Bell>, n: nat, place: int) -> bool {
    let front = run_len_spec(s);
    let back = run_len_spec(s.reverse());
    ||| (front >= 4 && place < front)
    ||| (back >= 4 && place >= front && place >= n - back)
}

/// The parts (in ascending order, among the first `k`) whose row has `place` covered by music.
pub open spec fn parts_with_music(rows: Seq<Seq<Bell>>, n: nat, place: int, k: nat) -> Seq<usize>
    decreases k,
{
    if k == 0 {
        seq![]
    } else {
        parts_with_music(rows, n, place, (k - 1) as nat) + if in_music(rows[k - 1], n, place) {
            seq![(k - 1) as usize]
        } else {
            seq![]
        }
    }
}

/// The views of a slice of rows.
pub open spec fn row_views(rows: Seq<Row>) -> Seq<Seq<Bell>> {
    Seq::new(rows.len(), |i: int| rows[i]@)
}

/// For each place of the stage, which parts have that place covered by a run of four or more
/// bells at the front or back of their row.  All the rows must have the given stage.
pub fn calculate_music(all_rows: &[Row], stage: Stage) -> (music: Vec<Vec<usize>>)
    requires
        forall|i: int| 0 <= i < all_rows@.len() ==> (#[trigger] all_rows@[i])@.len() == stage.num_bells,
    ensures
        music@.len() == stage.num_bells,
        forall|p: int| 0 <= p < stage.num_bells ==> (#[trigger] music@[p])@ == parts_with_music(
            row_views(all_rows@), stage.num_bells as nat, p, all_rows@.len()),
{
    let n = stage.num_bells;
    let ghost rows = row_views(all_rows@);
    let mut music: Vec<Vec<usize>> = Vec::new();
    let mut p: usize = 0;
    while p < n
        invariant
            p <= n,
            music@.len() == p,
            forall|q: int| 0 <= q < p ==> (#[trigger] music@[q])@ == Seq::<usize>::empty(),
        decreases n - p,
    {
        music.push(Vec::new());
        p += 1;
    }
    let mut part: usize = 0;
    while part < all_rows.len()
        invariant
            part <= all_rows@.len(),
            n == stage.num_bells,
            rows == row_views(all_rows@),
            forall|i: int| 0 <= i < all_rows@.len() ==> (#[trigger] all_rows@[i])@.len() == n,
            music@.len() == n,
            forall|q: int| 0 <= q < n ==> (#[trigger] music@[q])@ == parts_with_music(rows, n as nat, q, part as nat),
        decreases all_rows@.len() - part,
    {
        let bells = all_rows[part].slice();
        let front = run_len(bells);
        let rev = reversed(bells);
        let back = run_len(rev.as_slice());
        proof {
            assert(rows[part as int] == bells@);
            lemma_run_steps_bound(bells@);
            lemma_run_steps_bound(bells@.reverse());
        }
        let mut q: usize = 0;
        while q < n
            invariant
                q <= n,
                n == stage.num_bells,
                part < all_rows@.len(),
                rows == row_views(all_rows@),
                rows[part as int] == bells@,
                bells@.len() == n,
                front == run_len_spec(bells@),
                back == run_len_spec(bells@.reverse()),
                music@.len() == n,
                forall|x: int| 0 <= x < q ==> (#[trigger] music@[x])@ == parts_with_music(rows, n as nat, x, (part + 1) as nat),
                forall|x: int| q <= x < n ==> (#[trigger] music@[x])@ == parts_with_music(rows, n as nat, x, part as nat),
            decreases n - q,
        {
            let covered = (front >= 4 && q < front) || (back >= 4 && q >= front && back >= n - q);
            proof {
                assert(covered == in_music(rows[part as int], n as nat, q as int));
                assert(parts_with_music(rows, n as nat, q as int, (part + 1) as nat) == parts_with_music(rows, n as nat, q as int, part as nat) + if covered {
                    seq![part]
                } else {
                    seq![]
                });
            }
            if covered {
                let ghost before = music@;
                let mut m = music.remove(q);
                m.push(part);
                music.insert(q, m);
                proof {
                    assert forall|x: int| 0 <= x < n && x != q implies (#[trigger] music@[x]) == before[x] by {}
                    assert(music@[q as int]@ =~= parts_with_music(rows, n as nat, q as int, (part + 1) as nat));
                }
            } else {
                proof {
                    assert(music@[q as int]@ =~= parts_with_music(rows, n as nat, q as int, (part + 1) as nat));
                }
            }
            q += 1;
        }
        part += 1;
    }
    music
}

/* ========== EXPANDED ROWS ========== */

/// A single expanded row of the composition: one source row, expanded into one row per part.
#[derive(Debug, Clone)]
pub struct ExpandedRow {
    pub call_label: Option<CallLabel>,
    pub method_label: Option<MethodLabel>,
    pub fold: Option<DerivedFold>,
    pub is_ruleoff: bool,
    pub is_proved: bool,
    pub is_leftover: bool,
    pub method_ref: Option<MethodRef>,
    /// One row for each part of the composition
    pub rows: Vec<Row>,
    /// For each place, which parts have music covering that place
    pub music_highlights: Vec<Vec<usize>>,
}

impl ExpandedRow {
    /// Create a new `ExpandedRow` from its constituent parts, computing which places of which
    /// parts are covered by music.  There must be at least one row, and all of them must have the
    /// same stage.
    pub fn new(
        all_rows: Vec<Row>,
        call_label: Option<CallLabel>,
        method_label: Option<MethodLabel>,
        method_ref: Option<MethodRef>,
        fold: Option<DerivedFold>,
        is_ruleoff: bool,
        is_proved: bool,
        is_leftover: bool,
    ) -> (r: ExpandedRow)
        requires
            all_rows@.len() > 0,
            forall|i: int| 0 <= i < all_rows@.len() ==> (#[trigger] all_rows@[i])@.len() == all_rows@[0]@.len(),
        ensures
            r.rows@ == all_rows@,
            r.call_label == call_label,
            r.method_label == method_label,
            r.method_ref == method_ref,
            r.fold == fold,
            r.is_ruleoff == is_ruleoff,
            r.is_proved == is_proved,
            r.is_leftover == is_leftover,
            r.music_highlights@.len() == all_rows@[0]@.len(),
            forall|p: int| 0 <= p < all_rows@[0]@.len() ==> (#[trigger] r.music_highlights@[p])@ == parts_with_music(
                row_views(all_rows@), all_rows@[0]@.len(), p, all_rows@.len()),
    {
        let stage = all_rows[0].stage();
        let music_highlights = calculate_music(all_rows.as_slice(), stage);
        ExpandedRow {
            call_label,
            method_label,
            method_ref,
            fold,
            is_ruleoff,
            music_highlights,
            rows: all_rows,
            is_proved,
            is_leftover,
        }
    }

    /// Marks this `ExpandedRow` as a ruleoff.
    pub fn set_ruleoff(&mut self)
        ensures
            *final(self) == (ExpandedRow { is_ruleoff: true, ..*old(self) }),
    {
        self.is_ruleoff = true;
    }
}

/* ========== FOLDING AND LINE RANGES ========== */

/// The result of scanning the first `k` expanded rows for the ranges of rows that each fill one
/// line of the display: the ranges found so far, and the start of a folded range that is still
/// open.  A leftover row always has a line of its own; a row with an open fold point starts a
/// line of its own; a row with a closed fold point starts a range that swallows every following
/// row up to the next fold point or leftover row; any other row not inside such a range has a
/// line of its own.
pub open spec fn fold_scan(rows: Seq<ExpandedRow>, k: nat) -> (Seq<(int, int)>, Option<int>)
    decreases k,
{
    if k == 0 {
        (seq![], None)
    } else {
        let prev = fold_scan(rows, (k - 1) as nat);
        let ranges = prev.0;
        let cur = prev.1;
        let i = k - 1;
        let closed = match cur {
            Some(s) => ranges.push((s, i)),
            None => ranges,
        };
        if rows[i].is_leftover {
            (closed.push((i, i + 1)), None)
        } else {
            match rows[i].fold {
                Some(f) => if f.is_open {
                    (closed.push((i, i + 1)), None)
                } else {
                    (closed, Some(i))
                },
                None => if cur is None {
                    (ranges.push((i, i + 1)), None)
                } else {
                    (ranges, cur)
                },
            }
        }
    }
}

/// Detect which regions of rows appear under each line on the screen: each range corresponds to
/// exactly one displayed line, but could contain several expanded rows if it is a folded region.
pub fn get_fold_ranges(exp_rows: &[ExpandedRow]) -> (ranges: Vec<Range<usize>>)
    ensures
        ranges@.len() == fold_scan(exp_rows@, exp_rows@.len()).0.len(),
        forall|j: int| 0 <= j < ranges@.len() ==> (#[trigger] ranges@[j]).start == fold_scan(exp_rows@, exp_rows@.len()).0[j].0
            && ranges@[j].end == fold_scan(exp_rows@, exp_rows@.len()).0[j].1,
        exp_rows@.len() > 0 && exp_rows@.last().is_leftover ==> {
            &&& ranges@.len() > 0
            &&& ranges@[0].start == 0
            &&& ranges@.last().end == exp_rows@.len()
            &&& forall|j: int| 0 <= j < ranges@.len() ==> (#[trigger] ranges@[j]).start < ranges@[j].end
            &&& forall|j: int| 0 <= j < ranges@.len() - 1 ==> (#[trigger] ranges@[j]).end == ranges@[j + 1].start
            &&& forall|i: int| 0 <= i < exp_rows@.len() ==> (starts_line(exp_rows@, i) <==>
                exists|j: int| 0 <= j < ranges@.len() && (#[trigger] ranges@[j]).start == i)
        },
{
    let mut ranges: Vec<Range<usize>> = Vec::new();
    let mut current_range_start: Option<usize> = None;
    let mut i: usize = 0;
    while i < exp_rows.len()
        invariant
            i <= exp_rows@.len(),
            ranges@.len() == fold_scan(exp_rows@, i as nat).0.len(),
            forall|j: int| 0 <= j < ranges@.len() ==> (#[trigger] ranges@[j]).start == fold_scan(exp_rows@, i as nat).0[j].0
                && ranges@[j].end == fold_scan(exp_rows@, i as nat).0[j].1,
            match current_range_start {
                Some(s) => fold_scan(exp_rows@, i as nat).1 == Some(s as int),
                None => fold_scan(exp_rows@, i as nat).1 is None,
            },
            forall|j: int| 0 <= j < ranges@.len() ==> (#[trigger] ranges@[j]).end <= i,
            current_range_start matches Some(s) ==> s < i,
        decreases exp_rows@.len() - i,
    {
        let ghost prev = fold_scan(exp_rows@, i as nat);
        proof {
            assert(((i + 1) - 1) as nat == i as nat);
        }
        let r = &exp_rows[i];
        if r.is_leftover {
            if let Some(start) = current_range_start {
                ranges.push(start..i);
            }
            ranges.push(i..i + 1);
            current_range_start = None;
        } else {
            match r.fold {
                Some(f) => {
                    if let Some(start) = current_range_start {
                        ranges.push(start..i);
                    }
                    if f.is_open {
                        ranges.push(i..i + 1);
                        current_range_start = None;
                    } else {
                        current_range_start = Some(i);
                    }
                },
                None => {
                    if current_range_start.is_none() {
                        ranges.push(i..i + 1);
                    }
                },
            }
        }
        proof {
            let next = fold_scan(exp_rows@, (i + 1) as nat);
            assert(ranges@.len() == next.0.len());
            assert forall|j: int| 0 <= j < ranges@.len() implies (#[trigger] ranges@[j]).start == next.0[j].0
                && ranges@[j].end == next.0[j].1 by {
                if j < prev.0.len() {
                    assert(next.0[j] == prev.0[j]);
                }
            }
        }
        i += 1;
    }
    proof {
        if exp_rows@.len() > 0 && exp_rows@.last().is_leftover {
            let fs = fold_scan(exp_rows@, exp_rows@.len()).0;
            law_fold_ranges_partition(exp_rows@);
            law_fold_ranges_start_lines(exp_rows@);
            assert forall|j: int| 0 <= j < ranges@.len() - 1 implies (#[trigger] ranges@[j]).end == ranges@[j + 1].start by {
                assert(fs[j].1 == fs[j + 1].0);
            }
            assert forall|i: int| 0 <= i < exp_rows@.len() implies (starts_line(exp_rows@, i) <==>
                exists|j: int| 0 <= j < ranges@.len() && (#[trigger] ranges@[j]).start == i) by {
                if starts_line(exp_rows@, i) {
                    let j = choose|j: int| 0 <= j < fs.len() && (#[trigger] fs[j]).0 == i;
                    assert(ranges@[j].start == i);
                }
                if exists|j: int| 0 <= j < ranges@.len() && (#[trigger] ranges@[j]).start == i {
                    let j = choose|j: int| 0 <= j < ranges@.len() && (#[trigger] ranges@[j]).start == i;
                    assert(fs[j].0 == i);
                }
            }
            assert(ranges@.last().end == fs.last().1);
        }
    }
    ranges
}

/// The ranges found by the fold scan are non-empty and follow on from each other, starting at
/// row 0; those found so far end where the still-open folded range (if any) starts, or otherwise
/// at the last row scanned.
proof fn lemma_fold_scan_contiguous(rows: Seq<ExpandedRow>, k: nat)
    requires
        k <= rows.len(),
    ensures
        ({
            let res = fold_scan(rows, k);
            let end = match res.1 {
                Some(s) => s,
                None => k as int,
            };
            &&& res.1 matches Some(s) ==> 0 <= s < k
            &&& forall|j: int| 0 <= j < res.0.len() ==> (#[trigger] res.0[j]).0 < res.0[j].1
            &&& forall|j: int| 0 <= j < res.0.len() - 1 ==> (#[trigger] res.0[j]).1 == res.0[j + 1].0
            &&& res.0.len() > 0 ==> res.0[0].0 == 0 && res.0.last().1 == end
            &&& res.0.len() == 0 ==> end == 0
        }),
    decreases k,
{
    if k > 0 {
        lemma_fold_scan_contiguous(rows, (k - 1) as nat);
    }
}

/// The row is a leftover row or has a fold point: it never shares a display line with the rows
/// above it.
pub open spec fn is_break(r: ExpandedRow) -> bool {
    r.is_leftover || r.fold is Some
}

/// The row is a closed fold point (and not a leftover row): the rows below it, up to the next
/// break, are folded into its line.
pub open spec fn is_closed_fold(r: ExpandedRow) -> bool {
    &&& !r.is_leftover
    &&& r.fold is Some
    &&& !r.fold->0.is_open
}

/// Row `i` lies inside a folded region: some row above it is a closed fold point, and no row
/// between them is a break.
pub open spec fn in_closed_fold(rows: Seq<ExpandedRow>, i: int) -> bool {
    exists|j: int| 0 <= j < i && #[trigger] is_closed_fold(rows[j])
        && forall|t: int| j < t < i ==> !is_break(#[trigger] rows[t])
}

/// Row `i` starts a display line: it is a break, or it is not folded into the line of a row
/// above it.
pub open spec fn starts_line(rows: Seq<ExpandedRow>, i: int) -> bool {
    is_break(rows[i]) || !in_closed_fold(rows, i)
}

proof fn lemma_fold_scan_starts(rows: Seq<ExpandedRow>, k: nat)
    requires
        k <= rows.len(),
    ensures
        ({
            let res = fold_scan(rows, k);
            &&& forall|i: int| 0 <= i < k ==> (starts_line(rows, i) <==>
                ((exists|j: int| 0 <= j < res.0.len() && (#[trigger] res.0[j]).0 == i) || res.1 == Some(i)))
            &&& res.1 matches Some(s) ==> 0 <= s < k && is_closed_fold(rows[s])
                && forall|t: int| s < t < k ==> !is_break(#[trigger] rows[t])
            &&& res.1 is None ==> forall|j: int| 0 <= j < k && is_closed_fold(rows[j]) ==>
                exists|t: int| j < t < k && #[trigger] is_break(rows[t])
            &&& forall|j: int| 0 <= j < res.0.len() ==> 0 <= (#[trigger] res.0[j]).0 < k
        }),
    decreases k,
{
    if k > 0 {
        let i = k - 1;
        lemma_fold_scan_starts(rows, (k - 1) as nat);
        lemma_fold_scan_contiguous(rows, (k - 1) as nat);
        let prev = fold_scan(rows, (k - 1) as nat);
        let res = fold_scan(rows, k);
        // Whether row i is folded: exactly when the scan has an open folded range
        assert(in_closed_fold(rows, i) <==> prev.1 is Some) by {
            if prev.1 is Some {
                let s = prev.1->0;
                assert(is_closed_fold(rows[s]));
            } else if in_closed_fold(rows, i) {
                let j = choose|j: int| 0 <= j < i && #[trigger] is_closed_fold(rows[j])
                    && forall|t: int| j < t < i ==> !is_break(#[trigger] rows[t]);
                let t = choose|t: int| j < t < i && #[trigger] is_break(rows[t]);
                assert(!is_break(rows[t]));
            }
        }
        let closed = match prev.1 {
            Some(st) => prev.0.push((st, i)),
            None => prev.0,
        };
        // The new entries of the ranges: the closed folded range (if any), then row i's own line
        let added: Seq<(int, int)> = res.0.subrange(prev.0.len() as int, res.0.len() as int);
        assert(prev.0.len() <= res.0.len());
        assert(res.0 =~= prev.0 + added);
        assert forall|a: int| 0 <= a < added.len() implies
            (prev.1 == Some((#[trigger] added[a]).0) && res.1 != prev.1) || added[a].0 == i by {
        }
        assert forall|x: int| 0 <= x < k implies (starts_line(rows, x) <==>
            ((exists|j: int| 0 <= j < res.0.len() && (#[trigger] res.0[j]).0 == x) || res.1 == Some(x))) by {
            if x < i {
                if exists|j: int| 0 <= j < prev.0.len() && (#[trigger] prev.0[j]).0 == x {
                    let j = choose|j: int| 0 <= j < prev.0.len() && (#[trigger] prev.0[j]).0 == x;
                    assert(res.0[j] == prev.0[j]);
                }
                if prev.1 == Some(x) && res.1 != Some(x) {
                    assert(res.0[prev.0.len() as int] == closed[prev.0.len() as int]);
                    assert(res.0[prev.0.len() as int].0 == x);
                }
                if exists|j: int| 0 <= j < res.0.len() && (#[trigger] res.0[j]).0 == x {
                    let j = choose|j: int| 0 <= j < res.0.len() && (#[trigger] res.0[j]).0 == x;
                    if j >= prev.0.len() {
                        assert(added[j - prev.0.len()] == res.0[j]);
                    } else {
                        assert(res.0[j] == prev.0[j]);
                    }
                }
            } else {
                if exists|j: int| 0 <= j < res.0.len() && (#[trigger] res.0[j]).0 == x {
                    let j = choose|j: int| 0 <= j < res.0.len() && (#[trigger] res.0[j]).0 == x;
                    if j < prev.0.len() {
                        assert(res.0[j] == prev.0[j]);
                    }
                }
                if !starts_line(rows, x) {
                    assert(res.0 == prev.0);
                } else if res.1 != Some(x) {
                    assert(res.0[res.0.len() - 1] == (i, i + 1));
                }
            }
        }
        assert forall|j: int| 0 <= j < res.0.len() implies 0 <= (#[trigger] res.0[j]).0 < k by {
            if j < prev.0.len() {
                assert(res.0[j] == prev.0[j]);
            }
        }
        if res.1 is None {
            assert forall|j: int| 0 <= j < k && is_closed_fold(rows[j]) implies
                exists|t: int| j < t < k && #[trigger] is_break(rows[t]) by {
                if j == i {
                    assert(false);
                } else if prev.1 is None {
                    let t = choose|t: int| j < t < i && #[trigger] is_break(rows[t]);
                } else {
                    assert(is_break(rows[i]));
                }
            }
        }
    }
}

/// The display lines found by [`get_fold_ranges`] start exactly at the rows that start a line:
/// leftover rows, fold points, and rows not folded into the line of a closed fold point above them.
pub proof fn law_fold_ranges_start_lines(rows: Seq<ExpandedRow>)
    requires
        rows.len() > 0,
        rows.last().is_leftover,
    ensures
        forall|i: int| 0 <= i < rows.len() ==> (starts_line(rows, i) <==>
            exists|j: int| 0 <= j < fold_scan(rows, rows.len()).0.len() && (#[trigger] fold_scan(rows, rows.len()).0[j]).0 == i),
{
    lemma_fold_scan_starts(rows, rows.len());
    assert(((rows.len() - 1) + 1) as nat == rows.len());
    assert(fold_scan(rows, rows.len()).1 is None);
}

/// When the last expanded row is the leftover row (as it always is for a fragment), the display
/// lines found by [`get_fold_ranges`] partition all the rows: the ranges are non-empty, each
/// starts where the previous one ends, the first starts at row 0 and the last ends after the
/// final row.
pub proof fn law_fold_ranges_partition(rows: Seq<ExpandedRow>)
    requires
        rows.len() > 0,
        rows.last().is_leftover,
    ensures
        ({
            let r = fold_scan(rows, rows.len()).0;
            &&& r.len() > 0
            &&& r[0].0 == 0
            &&& r.last().1 == rows.len()
            &&& forall|j: int| 0 <= j < r.len() ==> (#[trigger] r[j]).0 < r[j].1
            &&& forall|j: int| 0 <= j < r.len() - 1 ==> (#[trigger] r[j]).1 == r[j + 1].0
        }),
{
    lemma_fold_scan_contiguous(rows, rows.len());
    assert(((rows.len() - 1) + 1) as nat == rows.len());
    assert(fold_scan(rows, rows.len()).1 is None);
}

/// A section of the display where blue-lines should be drawn, with the rows (one per part) just
/// off the top and bottom of it, if there are any.
#[derive(Debug)]
pub struct LineRange {
    pub top_rows: Option<Vec<Row>>,
    pub bottom_rows: Option<Vec<Row>>,
    pub range: Range<usize>,
}

/// A line range in the model: the index of the expanded row just above it (if any), the index of
/// the expanded row just below it (if any), and the range of display lines it covers.
pub type LineRangeSpec = (Option<int>, Option<int>, int, int);

/// The expanded row just above the display line at `start`, if it exists.
pub open spec fn row_above(fold_ranges: Seq<Range<usize>>, start: int, n: int) -> Option<int> {
    let s = fold_ranges[start].start as int;
    if s >= 1 && s - 1 < n {
        Some(s - 1)
    } else {
        None
    }
}

/// The result of scanning the first `k` display lines for maximal runs of display lines whose
/// rows follow on from each other (each starting at the row after the previous one's first row):
/// the line ranges completed so far (only those of more than one line), the start of the current
/// run and the first row of the last line scanned.
pub open spec fn line_scan(fold_ranges: Seq<Range<usize>>, n: int, k: nat) -> (Seq<LineRangeSpec>, Option<int>, Option<int>)
    decreases k,
{
    if k == 0 {
        (seq![], None, None)
    } else {
        let prev = line_scan(fold_ranges, n, (k - 1) as nat);
        let out = prev.0;
        let i = k - 1;
        let r_start = fold_ranges[i].start as int;
        match prev.1 {
            Some(cs) => {
                let is_continuous = match prev.2 {
                    Some(li) => li + 1 == r_start,
                    None => false,
                };
                if !is_continuous {
                    let bottom = prev.2->0 + 1;
                    let out2 = if i - cs > 1 {
                        out.push((row_above(fold_ranges, cs, n), if bottom < n { Some(bottom) } else { None }, cs, i))
                    } else {
                        out
                    };
                    (out2, Some(i), Some(r_start))
                } else {
                    (out, Some(cs), Some(r_start))
                }
            },
            None => (out, Some(i), Some(r_start)),
        }
    }
}

/// All the line ranges: those found while scanning, plus the final run if it has more than one
/// line (with no row below it).
pub open spec fn line_ranges_spec(fold_ranges: Seq<Range<usize>>, n: int) -> Seq<LineRangeSpec> {
    let res = line_scan(fold_ranges, n, fold_ranges.len());
    match res.1 {
        Some(cs) => if fold_ranges.len() - cs > 1 {
            res.0.push((row_above(fold_ranges, cs, n), None, cs, fold_ranges.len() as int))
        } else {
            res.0
        },
        None => res.0,
    }
}

/// A copy of a list of rows.
pub fn clone_rows(rows: &Vec<Row>) -> (r: Vec<Row>)
    ensures
        row_views(r@) == row_views(rows@),
{
    let mut r: Vec<Row> = Vec::new();
    let mut i: usize = 0;
    while i < rows.len()
        invariant
            i <= rows@.len(),
            r@.len() == i,
            forall|j: int| 0 <= j < i ==> (#[trigger] r@[j])@ == rows@[j]@,
        decreases rows@.len() - i,
    {
        r.push(rows[i].clone());
        i += 1;
    }
    assert(row_views(r@) =~= row_views(rows@));
    r
}

/// The rows of the expanded row at a given index, if it exists.
fn rows_at(exp_rows: &[ExpandedRow], index: Option<usize>) -> (r: Option<Vec<Row>>)
    ensures
        match index {
            Some(i) => if i < exp_rows@.len() {
                r matches Some(v) && row_views(v@) == row_views(exp_rows@[i as int].rows@)
            } else {
                r is None
            },
            None => r is None,
        },
{
    match index {
        Some(i) => if i < exp_rows.len() {
            Some(clone_rows(&exp_rows[i].rows))
        } else {
            None
        },
        None => None,
    }
}

/// Whether a line range matches its model: the same lines, and copies of the rows just above and
/// below it.
pub open spec fn line_range_matches(l: LineRange, m: LineRangeSpec, exp_rows: Seq<ExpandedRow>) -> bool {
    &&& l.range.start == m.2
    &&& l.range.end == m.3
    &&& match m.0 {
        Some(t) => l.top_rows matches Some(v) && row_views(v@) == row_views(exp_rows[t].rows@),
        None => l.top_rows is None,
    }
    &&& match m.1 {
        Some(b) => l.bottom_rows matches Some(v) && row_views(v@) == row_views(exp_rows[b].rows@),
        None => l.bottom_rows is None,
    }
}

/// Find which regions of a fragment's display should be drawn with blue-lines: maximal runs of
/// more than one display line whose rows follow on from each other.
pub fn get_line_ranges(fold_ranges: &[Range<usize>], exp_rows: &[ExpandedRow]) -> (line_ranges: Vec<LineRange>)
    requires
        forall|j: int| 0 <= j < fold_ranges@.len() ==> (#[trigger] fold_ranges@[j]).start < usize::MAX,
    ensures
        line_ranges@.len() == line_ranges_spec(fold_ranges@, exp_rows@.len() as int).len(),
        forall|j: int| 0 <= j < line_ranges@.len() ==> line_range_matches(#[trigger] line_ranges@[j],
            line_ranges_spec(fold_ranges@, exp_rows@.len() as int)[j], exp_rows@),
{
    let ghost n = exp_rows@.len() as int;
    let mut current_range_start: Option<usize> = None;
    let mut last_start: Option<usize> = None;
    let mut line_ranges: Vec<LineRange> = Vec::new();
    let mut i: usize = 0;
    while i < fold_ranges.len()
        invariant
            i <= fold_ranges@.len(),
            n == exp_rows@.len(),
            forall|j: int| 0 <= j < fold_ranges@.len() ==> (#[trigger] fold_ranges@[j]).start < usize::MAX,
            line_ranges@.len() == line_scan(fold_ranges@, n, i as nat).0.len(),
            forall|j: int| 0 <= j < line_ranges@.len() ==> line_range_matches(#[trigger] line_ranges@[j],
                line_scan(fold_ranges@, n, i as nat).0[j], exp_rows@),
            match current_range_start {
                Some(cs) => line_scan(fold_ranges@, n, i as nat).1 == Some(cs as int) && cs < i,
                None => line_scan(fold_ranges@, n, i as nat).1 is None && i == 0,
            },
            match last_start {
                Some(ls) => line_scan(fold_ranges@, n, i as nat).2 == Some(ls as int) && ls < usize::MAX,
                None => line_scan(fold_ranges@, n, i as nat).2 is None && i == 0,
            },
        decreases fold_ranges@.len() - i,
    {
        let ghost prev = line_scan(fold_ranges@, n, i as nat);
        proof {
            assert(((i + 1) - 1) as nat == i as nat);
        }
        let r_start = fold_ranges[i].start;
        match current_range_start {
            Some(cs) => {
                let is_continuous = match last_start {
                    Some(li) => li + 1 == r_start,
                    None => false,
                };
                if !is_continuous {
                    if i - cs > 1 {
                        let top_index = if fold_ranges[cs].start >= 1 { Some(fold_ranges[cs].start - 1) } else { None };
                        let bottom_index = match last_start {
                            Some(li) => Some(li + 1),
                            None => None,
                        };
                        let top_rows = rows_at(exp_rows, top_index);
                        let bottom_rows = rows_at(exp_rows, bottom_index);
                        line_ranges.push(LineRange { top_rows, bottom_rows, range: cs..i });
                    }
                    current_range_start = Some(i);
                }
            },
            None => {
                current_range_start = Some(i);
            },
        }
        last_start = Some(r_start);
        proof {
            let next = line_scan(fold_ranges@, n, (i + 1) as nat);
            assert forall|j: int| 0 <= j < line_ranges@.len() implies line_range_matches(#[trigger] line_ranges@[j],
                next.0[j], exp_rows@) by {
                if j < prev.0.len() {
                    assert(next.0[j] == prev.0[j]);
                }
            }
        }
        i += 1;
    }
    let ghost res = line_scan(fold_ranges@, n, fold_ranges@.len());
    if let Some(cs) = current_range_start {
        if fold_ranges.len() - cs > 1 {
            let top_index = if fold_ranges[cs].start >= 1 { Some(fold_ranges[cs].start - 1) } else { None };
            let top_rows = rows_at(exp_rows, top_index);
            line_ranges.push(LineRange { top_rows, bottom_rows: None, range: cs..fold_ranges.len() });
            proof {
                assert forall|j: int| 0 <= j < line_ranges@.len() implies line_range_matches(#[trigger] line_ranges@[j],
                    line_ranges_spec(fold_ranges@, n)[j], exp_rows@) by {
                    if j < res.0.len() {
                        assert(line_ranges_spec(fold_ranges@, n)[j] == res.0[j]);
                    }
                }
            }
        }
    }
    line_ranges
}

/* ========== DISPLAYED ROWS ========== */

/// The label of a call at an expanded row in a given part, if there is one.
pub open spec fn call_label_text(r: ExpandedRow, part: int) -> Seq<char> {
    match r.call_label {
        Some(cl) => if 0 <= part < cl.labels@.len() {
            cl.labels@[part]@
        } else {
            seq![]
        },
        None => seq![],
    }
}

/// The call labels of the expanded rows `start..end` in a given part, concatenated.
pub open spec fn call_string_spec(rows: Seq<ExpandedRow>, start: int, end: int, part: int) -> Seq<char>
    decreases end - start,
{
    if end <= start {
        seq![]
    } else {
        call_string_spec(rows, start, end - 1, part) + call_label_text(rows[end - 1], part)
    }
}

/// The number of the expanded rows `start..end` that carry a method label.
pub open spec fn method_label_count(rows: Seq<ExpandedRow>, start: int, end: int) -> nat
    decreases end - start,
{
    if end <= start {
        0
    } else {
        method_label_count(rows, start, end - 1) + if rows[end - 1].method_label is Some { 1nat } else { 0 }
    }
}

/// The name of the method label among the expanded rows `start..end` (empty if there is none).
pub open spec fn method_label_name(rows: Seq<ExpandedRow>, start: int, end: int) -> Seq<char>
    decreases end - start,
{
    if end <= start {
        seq![]
    } else {
        method_label_name(rows, start, end - 1) + match rows[end - 1].method_label {
            Some(l) => l.name@,
            None => seq![],
        }
    }
}

/// All the information needed to render a single line of the display, which may stand for a
/// range of folded expanded rows, each of which stands for one row per part.
#[derive(Debug)]
pub struct DisplayRow {
    /// The call string displayed in each part (the text to the left of the row).
    pub call_strings: Vec<String>,
    /// The method string displayed (the text to the right of the row).
    pub method_string: String,
    /// Which range of expanded rows is folded into this line.
    pub range: Range<usize>,
    /// The folding status of this line.
    pub fold: Option<DerivedFold>,
    /// Whether this line should be displayed with bell names (rather than blue-lines).
    pub use_bell_names: bool,
    /// Whether this line should have a line rendered underneath it.
    pub is_ruleoff: bool,
    /// Whether this line is used in proving the composition.
    pub is_proved: bool,
    /// One row per part.
    pub rows: Vec<Row>,
    /// Which parts have music at each place.
    pub music_highlights: Vec<Vec<usize>>,
}

/// A copy of a list of indices.
fn copy_indices(v: &Vec<usize>) -> (r: Vec<usize>)
    ensures
        r@ == v@,
{
    let mut r: Vec<usize> = Vec::new();
    let mut i: usize = 0;
    while i < v.len()
        invariant
            i <= v@.len(),
            r@ == v@.take(i as int),
        decreases v@.len() - i,
    {
        r.push(v[i]);
        i += 1;
        proof {
            assert(r@ =~= v@.take(i as int));
        }
    }
    assert(r@ =~= v@);
    r
}

/// `d` is the display line standing for the expanded rows `range` of `expanded_rows`: its call
/// strings, method string and the rest are those of the rows folded into it.  (Whether it shows bell
/// names is not part of this.)
pub open spec fn is_display_line(d: DisplayRow, expanded_rows: Seq<ExpandedRow>, range: Range<usize>) -> bool {
    &&& d.range == range
    &&& d.call_strings@.len() == expanded_rows[range.start as int].rows@.len()
    &&& forall|p: int| 0 <= p < d.call_strings@.len() ==> (#[trigger] d.call_strings@[p])@
        == call_string_spec(expanded_rows, range.start as int, range.end as int, p)
    &&& d.method_string@ == method_label_name(expanded_rows, range.start as int, range.end as int)
    &&& d.is_ruleoff == expanded_rows[range.end - 1].is_ruleoff
    &&& d.is_proved == expanded_rows[range.start as int].is_proved
    &&& d.fold == expanded_rows[range.start as int].fold
    &&& row_views(d.rows@) == row_views(expanded_rows[range.start as int].rows@)
    &&& d.music_highlights@.len() == expanded_rows[range.start as int].music_highlights@.len()
    &&& forall|p: int| 0 <= p < d.music_highlights@.len() ==> (#[trigger] d.music_highlights@[p])@
        == expanded_rows[range.start as int].music_highlights@[p]@
}

/// `d` is the display line standing for the expanded rows `range`, showing bell names.
pub open spec fn is_display_row(d: DisplayRow, expanded_rows: Seq<ExpandedRow>, range: Range<usize>) -> bool {
    &&& is_display_line(d, expanded_rows, range)
    &&& d.use_bell_names
}

impl DisplayRow {
    /// Builds the line of the display standing for the expanded rows in `range`.  Each call label
    /// in the range must have at most one label per part, and at most one row of the range may
    /// carry a method label.
    pub fn from_range(expanded_rows: &[ExpandedRow], range: Range<usize>) -> (d: DisplayRow)
        requires
            range.start < range.end <= expanded_rows@.len(),
            forall|j: int| range.start <= j < range.end ==> ((#[trigger] expanded_rows@[j]).call_label matches Some(cl)
                ==> cl.labels@.len() <= expanded_rows@[range.start as int].rows@.len()),
            method_label_count(expanded_rows@, range.start as int, range.end as int) <= 1,
        ensures
            is_display_row(d, expanded_rows@, range),
    {
        let start = range.start;
        let end = range.end;
        let first = &expanded_rows[start];
        let num_parts = first.rows.len();
        let mut call_strings: Vec<String> = Vec::new();
        let mut p: usize = 0;
        while p < num_parts
            invariant
                p <= num_parts,
                call_strings@.len() == p,
                forall|q: int| 0 <= q < p ==> (#[trigger] call_strings@[q])@ == Seq::<char>::empty(),
            decreases num_parts - p,
        {
            call_strings.push(String::new());
            p += 1;
        }
        let mut method_string = String::new();
        let mut j: usize = start;
        while j < end
            invariant
                start <= j <= end,
                start == range.start,
                end == range.end,
                end <= expanded_rows@.len(),
                num_parts == expanded_rows@[start as int].rows@.len(),
                forall|k: int| range.start <= k < range.end ==> ((#[trigger] expanded_rows@[k]).call_label matches Some(cl)
                    ==> cl.labels@.len() <= num_parts),
                call_strings@.len() == num_parts,
                forall|q: int| 0 <= q < num_parts ==> (#[trigger] call_strings@[q])@
                    == call_string_spec(expanded_rows@, start as int, j as int, q),
                method_string@ == method_label_name(expanded_rows@, start as int, j as int),
            decreases end - j,
        {
            let r = &expanded_rows[j];
            proof {
                assert(((j + 1) - 1) as int == j as int);
            }
            match &r.call_label {
                Some(cl) => {
                    let mut q: usize = 0;
                    while q < cl.labels.len()
                        invariant
                            q <= cl.labels@.len(),
                            cl.labels@.len() <= num_parts,
                            call_strings@.len() == num_parts,
                            r.call_label == Some(*cl),
                            *r == expanded_rows@[j as int],
                            start <= j < end,
                            forall|x: int| 0 <= x < q ==> (#[trigger] call_strings@[x])@
                                == call_string_spec(expanded_rows@, start as int, (j + 1) as int, x),
                            forall|x: int| q <= x < num_parts ==> (#[trigger] call_strings@[x])@
                                == call_string_spec(expanded_rows@, start as int, j as int, x),
                        decreases cl.labels@.len() - q,
                    {
                        let ghost before = call_strings@;
                        call_strings[q].append(cl.labels[q].as_str());
                        proof {
                            assert forall|x: int| 0 <= x < num_parts && x != q implies (#[trigger] call_strings@[x]) == before[x] by {}
                            assert(call_label_text(expanded_rows@[j as int], q as int) == cl.labels@[q as int]@);
                            assert(call_string_spec(expanded_rows@, start as int, (j + 1) as int, q as int)
                                == call_string_spec(expanded_rows@, start as int, j as int, q as int) + call_label_text(expanded_rows@[j as int], q as int));
                            assert(call_strings@[q as int]@ =~= call_string_spec(expanded_rows@, start as int, (j + 1) as int, q as int));
                        }
                        q += 1;
                    }
                    proof {
                        assert forall|x: int| q <= x < num_parts implies (#[trigger] call_strings@[x])@
                            == call_string_spec(expanded_rows@, start as int, (j + 1) as int, x) by {
                            assert(call_label_text(expanded_rows@[j as int], x) =~= Seq::<char>::empty());
                            assert(call_string_spec(expanded_rows@, start as int, (j + 1) as int, x) =~= call_string_spec(expanded_rows@, start as int, j as int, x));
                        }
                    }
                },
                None => {
                    proof {
                        assert forall|x: int| 0 <= x < num_parts implies (#[trigger] call_strings@[x])@
                            == call_string_spec(expanded_rows@, start as int, (j + 1) as int, x) by {
                            assert(call_string_spec(expanded_rows@, start as int, (j + 1) as int, x) =~= call_string_spec(expanded_rows@, start as int, j as int, x));
                        }
                    }
                },
            }
            match &r.method_label {
                Some(l) => {
                    method_string.append(l.name.as_str());
                },
                None => {},
            }
            proof {
                assert(method_string@ =~= method_label_name(expanded_rows@, start as int, (j + 1) as int));
            }
            j += 1;
        }
        let mut music_highlights: Vec<Vec<usize>> = Vec::new();
        let mut m: usize = 0;
        while m < first.music_highlights.len()
            invariant
                m <= first.music_highlights@.len(),
                music_highlights@.len() == m,
                forall|x: int| 0 <= x < m ==> (#[trigger] music_highlights@[x])@ == first.music_highlights@[x]@,
            decreases first.music_highlights@.len() - m,
        {
            music_highlights.push(copy_indices(&first.music_highlights[m]));
            m += 1;
        }
        DisplayRow {
            call_strings,
            method_string,
            range,
            use_bell_names: true,
            is_ruleoff: expanded_rows[end - 1].is_ruleoff,
            is_proved: first.is_proved,
            fold: first.fold,
            rows: clone_rows(&first.rows),
            music_highlights,
        }
    }
}

/* ========== FLATTENING AND STATISTICS ========== */

/// The proved expanded rows of a fragment, in order.
pub open spec fn proved_rows(frag: Seq<ExpandedRow>) -> Seq<ExpandedRow>
    decreases frag.len(),
{
    if frag.len() == 0 {
        seq![]
    } else {
        proved_rows(frag.drop_last()) + if frag.last().is_proved {
            seq![frag.last()]
        } else {
            seq![]
        }
    }
}

/// The rows of one expanded row, one per part, each paired with its origin: part `p`, fragment
/// `f`, and (proved) row `k`.
pub open spec fn origins_of(r: ExpandedRow, f: int, k: int) -> Seq<(RowOrigin, Seq<Bell>)> {
    Seq::new(r.rows@.len(), |p: int| (RowOrigin { part: p as usize, frag: f as usize, row: k as usize }, r.rows@[p]@))
}

/// The rows of the first `k` proved rows of a fragment, with their origins.
pub open spec fn flat_frag(proved: Seq<ExpandedRow>, f: int, k: nat) -> Seq<(RowOrigin, Seq<Bell>)>
    decreases k,
{
    if k == 0 {
        seq![]
    } else {
        flat_frag(proved, f, (k - 1) as nat) + origins_of(proved[k - 1], f, k - 1)
    }
}

/// The rows of the proved rows of the first `n` fragments, with their origins.
pub open spec fn flat_all(frags: Seq<Vec<ExpandedRow>>, n: nat) -> Seq<(RowOrigin, Seq<Bell>)>
    decreases n,
{
    if n == 0 {
        seq![]
    } else {
        let proved = proved_rows(frags[n - 1]@);
        flat_all(frags, (n - 1) as nat) + flat_frag(proved, n - 1, proved.len())
    }
}

/// The number of proved rows in the first `n` fragments.
pub open spec fn num_proved(frags: Seq<Vec<ExpandedRow>>, n: nat) -> nat
    decreases n,
{
    if n == 0 {
        0
    } else {
        num_proved(frags, (n - 1) as nat) + proved_rows(frags[n - 1]@).len()
    }
}

/// The rows paired with origins, by value.
pub open spec fn flat_view(v: Seq<(RowOrigin, &Row)>) -> Seq<(RowOrigin, Seq<Bell>)> {
    Seq::new(v.len(), |i: int| (v[i].0, v[i].1@))
}

pub proof fn lemma_proved_rows_len(frag: Seq<ExpandedRow>)
    ensures
        proved_rows(frag).len() <= frag.len(),
    decreases frag.len(),
{
    if frag.len() > 0 {
        lemma_proved_rows_len(frag.drop_last());
    }
}

/// Take the expanded rows of each fragment and return all the rows that should be proved (one per
/// part for each proved expanded row), along with their origins.  The row index of an origin
/// counts only proved rows.  This also returns the number of proved rows in one part.
pub fn flatten_proved_rows<'a>(generated_rows: &'a [Vec<ExpandedRow>], spec_len: usize) -> (r: (Vec<(RowOrigin, &'a Row)>, usize))
    requires
        num_proved(generated_rows@, generated_rows@.len()) <= usize::MAX,
    ensures
        flat_view(r.0@) == flat_all(generated_rows@, generated_rows@.len()),
        r.1 == num_proved(generated_rows@, generated_rows@.len()),
{
    let mut flattened_rows: Vec<(RowOrigin, &'a Row)> = Vec::new();
    let mut part_len: usize = 0;
    let mut frag_index: usize = 0;
    while frag_index < generated_rows.len()
        invariant
            frag_index <= generated_rows@.len(),
            num_proved(generated_rows@, generated_rows@.len()) <= usize::MAX,
            flat_view(flattened_rows@) == flat_all(generated_rows@, frag_index as nat),
            part_len == num_proved(generated_rows@, frag_index as nat),
        decreases generated_rows@.len() - frag_index,
    {
        let rows = &generated_rows[frag_index];
        let ghost base = flattened_rows@;
        let ghost base_len = part_len;
        proof {
            lemma_num_proved_mono(generated_rows@, (frag_index + 1) as nat, generated_rows@.len());
            assert(((frag_index + 1) - 1) as nat == frag_index as nat);
        }
        let mut row_index: usize = 0;
        let mut i: usize = 0;
        while i < rows.len()
            invariant
                i <= rows@.len(),
                *rows == generated_rows@[frag_index as int],
                frag_index < generated_rows@.len(),
                row_index == proved_rows(rows@.take(i as int)).len(),
                part_len == base_len + row_index,
                base_len + proved_rows(rows@).len() <= usize::MAX,
                flat_view(flattened_rows@) == flat_view(base) + flat_frag(proved_rows(rows@), frag_index as int, row_index as nat),
                proved_rows(rows@.take(i as int)) == proved_rows(rows@).take(row_index as int),
                row_index <= proved_rows(rows@).len(),
            decreases rows@.len() - i,
        {
            let expanded_row = &rows[i];
            proof {
                assert(rows@.take(i + 1).drop_last() =~= rows@.take(i as int));
                lemma_proved_prefix(rows@, (i + 1) as nat);
                lemma_proved_concat(rows@.take(i + 1), rows@.skip(i + 1));
                assert(rows@.take(i + 1) + rows@.skip(i + 1) =~= rows@);
                lemma_proved_rows_len(rows@);
                if expanded_row.is_proved {
                    let pt = proved_rows(rows@.take(i + 1));
                    assert(pt.len() == row_index + 1);
                    assert(pt[row_index as int] == rows@[i as int]);
                    assert(proved_rows(rows@)[row_index as int] == pt[row_index as int]);
                }
            }
            if expanded_row.is_proved {
                let ghost before = flattened_rows@;
                let mut part_index: usize = 0;
                while part_index < expanded_row.rows.len()
                    invariant
                        part_index <= expanded_row.rows@.len(),
                        flat_view(flattened_rows@) == flat_view(before) + origins_of(*expanded_row, frag_index as int, row_index as int).take(part_index as int),
                    decreases expanded_row.rows@.len() - part_index,
                {
                    let ghost before_push = flattened_rows@;
                    let origin = RowOrigin::new(part_index, frag_index, row_index);
                    let row_ref = &expanded_row.rows[part_index];
                    flattened_rows.push((origin, row_ref));
                    proof {
                        assert(flat_view(flattened_rows@) =~= flat_view(before_push).push((origin, row_ref@)));
                        assert(origins_of(*expanded_row, frag_index as int, row_index as int)[part_index as int] == (origin, row_ref@));
                        assert(origins_of(*expanded_row, frag_index as int, row_index as int).take(part_index + 1)
                            =~= origins_of(*expanded_row, frag_index as int, row_index as int).take(part_index as int).push((origin, row_ref@)));
                    }
                    part_index += 1;
                    proof {
                        assert(flat_view(flattened_rows@) =~= flat_view(before) + origins_of(*expanded_row, frag_index as int, row_index as int).take(part_index as int));
                    }
                }
                proof {
                    assert(origins_of(*expanded_row, frag_index as int, row_index as int).take(part_index as int) =~= origins_of(*expanded_row, frag_index as int, row_index as int));
                    assert(proved_rows(rows@)[row_index as int] == *expanded_row);
                    assert(((row_index + 1) - 1) as nat == row_index as nat);
                    assert(flat_view(flattened_rows@) =~= flat_view(base) + flat_frag(proved_rows(rows@), frag_index as int, (row_index + 1) as nat));
                }
                row_index += 1;
                part_len += 1;
            }
            i += 1;
        }
        proof {
            assert(rows@.take(i as int) =~= rows@);
            assert(row_index == proved_rows(rows@).len());
        }
        frag_index += 1;
    }
    let _ = spec_len;
    (flattened_rows, part_len)
}

proof fn lemma_num_proved_mono(frags: Seq<Vec<ExpandedRow>>, a: nat, b: nat)
    requires
        a <= b,
    ensures
        num_proved(frags, a) <= num_proved(frags, b),
    decreases b - a,
{
    if b > a {
        lemma_num_proved_mono(frags, a, (b - 1) as nat);
    }
}

/// The proved rows of two fragments joined together are those of the first then those of the
/// second.
proof fn lemma_proved_concat(a: Seq<ExpandedRow>, b: Seq<ExpandedRow>)
    ensures
        proved_rows(a + b) == proved_rows(a) + proved_rows(b),
    decreases b.len(),
{
    if b.len() == 0 {
        assert(a + b =~= a);
    } else {
        lemma_proved_concat(a, b.drop_last());
        assert((a + b).drop_last() =~= a + b.drop_last());
        assert((a + b).last() == b.last());
    }
}

/// The proved rows of the first `k` rows of a fragment grow by the `k`th row exactly when it is
/// proved, and are a prefix of the proved rows of the whole fragment.
proof fn lemma_proved_prefix(frag: Seq<ExpandedRow>, k: nat)
    requires
        0 < k <= frag.len(),
    ensures
        proved_rows(frag.take(k as int)) == proved_rows(frag.take(k - 1)) + if frag[k - 1].is_proved {
            seq![frag[k - 1]]
        } else {
            seq![]
        },
        proved_rows(frag.take(k as int)) == proved_rows(frag).take(proved_rows(frag.take(k as int)).len() as int),
{
    assert(frag.take(k as int).drop_last() =~= frag.take(k - 1));
    assert(frag.take(k as int).last() == frag[k - 1]);
    lemma_proved_concat(frag.take(k as int), frag.skip(k as int));
    assert(frag.take(k as int) + frag.skip(k as int) =~= frag);
    assert(proved_rows(frag).take(proved_rows(frag.take(k as int)).len() as int) =~= proved_rows(frag.take(k as int)));
}

/* ========== METHOD AND CALL STATISTICS ========== */

/// Statistics about how often a method is used.
#[derive(Debug, Clone)]
pub struct DerivedMethod {
    pub name: String,
    pub shorthand: String,
    pub place_not_string: String,
    pub num_proved_rows: usize,
    pub num_rows: usize,
}

impl DerivedMethod {
    /// The statistics of a method, with no rows counted yet.
    pub fn from_method_spec(method: &MethodSpec) -> (d: DerivedMethod)
        ensures
            d.name@ == method.method.name_view(),
            d.shorthand@ == method.shorthand@,
            d.place_not_string@ == method.place_not_string@,
            d.num_proved_rows == 0,
            d.num_rows == 0,
    {
        let mut name = String::new();
        name.append(method.name());
        let mut shorthand = String::new();
        shorthand.append(method.shorthand());
        let mut place_not_string = String::new();
        place_not_string.append(method.place_not_string.as_str());
        DerivedMethod { name, shorthand, place_not_string, num_proved_rows: 0, num_rows: 0 }
    }
}

/// The number of rows (one per part) that the expanded rows `frag` give to method `m`: those of
/// every row whose method is `m`, or only of the proved ones.
pub open spec fn method_row_count(frag: Seq<ExpandedRow>, m: int, proved_only: bool) -> nat
    decreases frag.len(),
{
    if frag.len() == 0 {
        0
    } else {
        let r = frag.last();
        method_row_count(frag.drop_last(), m, proved_only) + if (r.method_ref matches Some(mr) && mr.method_index == m)
            && (r.is_proved || !proved_only) {
            r.rows@.len()
        } else {
            0
        }
    }
}

/// The number of rows that the first `n` fragments give to method `m`.
pub open spec fn method_rows_total(exp_rows: Seq<Vec<ExpandedRow>>, n: nat, m: int, proved_only: bool) -> nat
    decreases n,
{
    if n == 0 {
        0
    } else {
        method_rows_total(exp_rows, (n - 1) as nat, m, proved_only) + method_row_count(exp_rows[n - 1]@, m, proved_only)
    }
}

/// The number of rows (one per part) that the expanded rows `frag` give to call `c`: those of every
/// row labelled with call `c`, or only of the proved ones.
pub open spec fn call_row_count(frag: Seq<ExpandedRow>, c: int, proved_only: bool) -> nat
    decreases frag.len(),
{
    if frag.len() == 0 {
        0
    } else {
        let r = frag.last();
        call_row_count(frag.drop_last(), c, proved_only) + if (r.call_label matches Some(cl) && cl.call_index == c)
            && (r.is_proved || !proved_only) {
            r.rows@.len()
        } else {
            0
        }
    }
}

/// The number of rows that the first `n` fragments give to call `c`.
pub open spec fn call_rows_total(exp_rows: Seq<Vec<ExpandedRow>>, n: nat, c: int, proved_only: bool) -> nat
    decreases n,
{
    if n == 0 {
        0
    } else {
        call_rows_total(exp_rows, (n - 1) as nat, c, proved_only) + call_row_count(exp_rows[n - 1]@, c, proved_only)
    }
}

proof fn lemma_method_count_prefix(frag: Seq<ExpandedRow>, i: int, m: int, p: bool)
    requires
        0 <= i <= frag.len(),
    ensures
        method_row_count(frag.take(i), m, p) <= method_row_count(frag, m, p),
    decreases frag.len() - i,
{
    if i < frag.len() {
        lemma_method_count_prefix(frag, i + 1, m, p);
        assert(frag.take(i + 1).drop_last() =~= frag.take(i));
    } else {
        assert(frag.take(i) =~= frag);
    }
}

proof fn lemma_method_total_prefix(exp_rows: Seq<Vec<ExpandedRow>>, a: nat, b: nat, m: int, p: bool)
    requires
        a <= b,
    ensures
        method_rows_total(exp_rows, a, m, p) <= method_rows_total(exp_rows, b, m, p),
    decreases b - a,
{
    if a < b {
        lemma_method_total_prefix(exp_rows, a, (b - 1) as nat, m, p);
    }
}

proof fn lemma_call_count_prefix(frag: Seq<ExpandedRow>, i: int, c: int, p: bool)
    requires
        0 <= i <= frag.len(),
    ensures
        call_row_count(frag.take(i), c, p) <= call_row_count(frag, c, p),
    decreases frag.len() - i,
{
    if i < frag.len() {
        lemma_call_count_prefix(frag, i + 1, c, p);
        assert(frag.take(i + 1).drop_last() =~= frag.take(i));
    } else {
        assert(frag.take(i) =~= frag);
    }
}

proof fn lemma_call_total_prefix(exp_rows: Seq<Vec<ExpandedRow>>, a: nat, b: nat, c: int, p: bool)
    requires
        a <= b,
    ensures
        call_rows_total(exp_rows, a, c, p) <= call_rows_total(exp_rows, b, c, p),
    decreases b - a,
{
    if a < b {
        lemma_call_total_prefix(exp_rows, a, (b - 1) as nat, c, p);
    }
}

/// Derive statistics about each method from the expanded rows of the composition: for each method,
/// how many rows (one per part) come from it, and how many of those are proved.  Every method
/// reference must point to one of the methods, and the counts must fit in a `usize`.
pub fn derive_methods(methods: &[MethodSpec], exp_rows: &[Vec<ExpandedRow>]) -> (d: Vec<DerivedMethod>)
    requires
        forall|f: int, k: int| 0 <= f < exp_rows@.len() && 0 <= k < exp_rows@[f]@.len()
            ==> ((#[trigger] exp_rows@[f]@[k]).method_ref matches Some(mr) ==> mr.method_index < methods@.len()),
        forall|m: int| 0 <= m < methods@.len() ==> #[trigger] method_rows_total(exp_rows@, exp_rows@.len(), m, false) <= usize::MAX,
    ensures
        d@.len() == methods@.len(),
        forall|m: int| 0 <= m < methods@.len() ==> {
            &&& (#[trigger] d@[m]).name@ == methods@[m].method.name_view()
            &&& d@[m].shorthand@ == methods@[m].shorthand@
            &&& d@[m].place_not_string@ == methods@[m].place_not_string@
            &&& d@[m].num_rows == method_rows_total(exp_rows@, exp_rows@.len(), m, false)
            &&& d@[m].num_proved_rows == method_rows_total(exp_rows@, exp_rows@.len(), m, true)
        },
{
    // Initialise the methods with no rows, in the same order as the methods
    let mut der_methods: Vec<DerivedMethod> = Vec::new();
    let mut i: usize = 0;
    while i < methods.len()
        invariant
            i <= methods@.len(),
            der_methods@.len() == i,
            forall|m: int| 0 <= m < i ==> {
                &&& (#[trigger] der_methods@[m]).name@ == methods@[m].method.name_view()
                &&& der_methods@[m].shorthand@ == methods@[m].shorthand@
                &&& der_methods@[m].place_not_string@ == methods@[m].place_not_string@
                &&& der_methods@[m].num_rows == 0
                &&& der_methods@[m].num_proved_rows == 0
            },
        decreases methods@.len() - i,
    {
        der_methods.push(DerivedMethod::from_method_spec(&methods[i]));
        i += 1;
    }
    // Fill in these methods with statistics from the expanded rows
    let mut f: usize = 0;
    while f < exp_rows.len()
        invariant
            f <= exp_rows@.len(),
            der_methods@.len() == methods@.len(),
            forall|f2: int, k: int| 0 <= f2 < exp_rows@.len() && 0 <= k < exp_rows@[f2]@.len()
                ==> ((#[trigger] exp_rows@[f2]@[k]).method_ref matches Some(mr) ==> mr.method_index < methods@.len()),
            forall|m: int| 0 <= m < methods@.len() ==> #[trigger] method_rows_total(exp_rows@, exp_rows@.len(), m, false) <= usize::MAX,
            forall|m: int| 0 <= m < methods@.len() ==> {
                &&& (#[trigger] der_methods@[m]).name@ == methods@[m].method.name_view()
                &&& der_methods@[m].shorthand@ == methods@[m].shorthand@
                &&& der_methods@[m].place_not_string@ == methods@[m].place_not_string@
                &&& der_methods@[m].num_rows == method_rows_total(exp_rows@, f as nat, m, false)
                &&& der_methods@[m].num_proved_rows == method_rows_total(exp_rows@, f as nat, m, true)
            },
        decreases exp_rows@.len() - f,
    {
        let frag_rows = &exp_rows[f];
        let mut k: usize = 0;
        while k < frag_rows.len()
            invariant
                f < exp_rows@.len(),
                *frag_rows == exp_rows@[f as int],
                k <= frag_rows@.len(),
                der_methods@.len() == methods@.len(),
                forall|f2: int, k2: int| 0 <= f2 < exp_rows@.len() && 0 <= k2 < exp_rows@[f2]@.len()
                    ==> ((#[trigger] exp_rows@[f2]@[k2]).method_ref matches Some(mr) ==> mr.method_index < methods@.len()),
                forall|m: int| 0 <= m < methods@.len() ==> #[trigger] method_rows_total(exp_rows@, exp_rows@.len(), m, false) <= usize::MAX,
                forall|m: int| 0 <= m < methods@.len() ==> {
                    &&& (#[trigger] der_methods@[m]).name@ == methods@[m].method.name_view()
                    &&& der_methods@[m].shorthand@ == methods@[m].shorthand@
                    &&& der_methods@[m].place_not_string@ == methods@[m].place_not_string@
                    &&& der_methods@[m].num_rows == method_rows_total(exp_rows@, f as nat, m, false)
                        + method_row_count(frag_rows@.take(k as int), m, false)
                    &&& der_methods@[m].num_proved_rows == method_rows_total(exp_rows@, f as nat, m, true)
                        + method_row_count(frag_rows@.take(k as int), m, true)
                },
            decreases frag_rows@.len() - k,
        {
            let exp_row = &frag_rows[k];
            proof {
                assert(frag_rows@.take(k + 1).drop_last() =~= frag_rows@.take(k as int));
                assert(frag_rows@.take(k + 1).last() == *exp_row);
            }
            match exp_row.method_ref {
                Some(method_ref) => {
                    // Count the rows that this row was expanded to against its method
                    let m = method_ref.method_index;
                    proof {
                        assert(exp_rows@[f as int]@[k as int] == *exp_row);
                        lemma_method_count_prefix(frag_rows@, k + 1, m as int, false);
                        lemma_method_total_prefix(exp_rows@, (f + 1) as nat, exp_rows@.len(), m as int, false);
                        assert(((f + 1) - 1) as nat == f as nat);
                        lemma_method_count_prefix(frag_rows@, k + 1, m as int, true);
                        assert(method_row_count(frag_rows@.take(k + 1), m as int, true) <= method_row_count(frag_rows@.take(k + 1), m as int, false)) by {
                            lemma_method_count_proved_le(frag_rows@.take(k + 1), m as int);
                        }
                        law_method_proved_at_most_rows(exp_rows@, f as nat, m as int);
                    }
                    let mut entry = der_methods.remove(m);
                    entry.num_rows = entry.num_rows + exp_row.rows.len();
                    if exp_row.is_proved {
                        entry.num_proved_rows = entry.num_proved_rows + exp_row.rows.len();
                    }
                    der_methods.insert(m, entry);
                }
                None => {}
            }
            k += 1;
        }
        proof {
            assert(frag_rows@.take(k as int) =~= frag_rows@);
        }
        f += 1;
    }
    der_methods
}

proof fn lemma_method_count_proved_le(frag: Seq<ExpandedRow>, m: int)
    ensures
        method_row_count(frag, m, true) <= method_row_count(frag, m, false),
    decreases frag.len(),
{
    if frag.len() > 0 {
        lemma_method_count_proved_le(frag.drop_last(), m);
    }
}

/// A method never has more proved rows than rows.
pub proof fn law_method_proved_at_most_rows(exp_rows: Seq<Vec<ExpandedRow>>, n: nat, m: int)
    ensures
        method_rows_total(exp_rows, n, m, true) <= method_rows_total(exp_rows, n, m, false),
    decreases n,
{
    if n > 0 {
        law_method_proved_at_most_rows(exp_rows, (n - 1) as nat, m);
        lemma_method_count_proved_le(exp_rows[n - 1]@, m);
    }
}

proof fn lemma_call_count_proved_le(frag: Seq<ExpandedRow>, c: int)
    ensures
        call_row_count(frag, c, true) <= call_row_count(frag, c, false),
    decreases frag.len(),
{
    if frag.len() > 0 {
        lemma_call_count_proved_le(frag.drop_last(), c);
    }
}

/// A call is never proved more often than it is used.
pub proof fn law_call_proved_at_most_used(exp_rows: Seq<Vec<ExpandedRow>>, n: nat, c: int)
    ensures
        call_rows_total(exp_rows, n, c, true) <= call_rows_total(exp_rows, n, c, false),
    decreases n,
{
    if n > 0 {
        law_call_proved_at_most_used(exp_rows, (n - 1) as nat, c);
        lemma_call_count_proved_le(exp_rows[n - 1]@, c);
    }
}

/// Every expanded row of the first `n` fragments stands for `p` rows, one in each of `p` parts.
pub open spec fn rows_per_part(exp_rows: Seq<Vec<ExpandedRow>>, n: nat, p: nat) -> bool {
    forall|f: int, k: int| 0 <= f < n && 0 <= k < exp_rows[f]@.len() ==> (#[trigger] exp_rows[f]@[k]).rows@.len() == p
}

/// The number of expanded rows of `frag` labelled with call `c` (or only the proved ones), each
/// counted once.
pub open spec fn call_labelled(frag: Seq<ExpandedRow>, c: int, proved_only: bool) -> nat
    decreases frag.len(),
{
    if frag.len() == 0 {
        0
    } else {
        let r = frag.last();
        call_labelled(frag.drop_last(), c, proved_only) + if (r.call_label matches Some(cl) && cl.call_index == c)
            && (r.is_proved || !proved_only) {
            1nat
        } else {
            0nat
        }
    }
}

/// The number of expanded rows of the first `n` fragments labelled with call `c`.
pub open spec fn call_labelled_total(exp_rows: Seq<Vec<ExpandedRow>>, n: nat, c: int, proved_only: bool) -> nat
    decreases n,
{
    if n == 0 {
        0
    } else {
        call_labelled_total(exp_rows, (n - 1) as nat, c, proved_only) + call_labelled(exp_rows[n - 1]@, c, proved_only)
    }
}

/// The number of expanded rows of `frag` whose method is `m` (or only the proved ones), each
/// counted once.
pub open spec fn method_labelled(frag: Seq<ExpandedRow>, m: int, proved_only: bool) -> nat
    decreases frag.len(),
{
    if frag.len() == 0 {
        0
    } else {
        let r = frag.last();
        method_labelled(frag.drop_last(), m, proved_only) + if (r.method_ref matches Some(mr) && mr.method_index == m)
            && (r.is_proved || !proved_only) {
            1nat
        } else {
            0nat
        }
    }
}

/// The number of expanded rows of the first `n` fragments whose method is `m`.
pub open spec fn method_labelled_total(exp_rows: Seq<Vec<ExpandedRow>>, n: nat, m: int, proved_only: bool) -> nat
    decreases n,
{
    if n == 0 {
        0
    } else {
        method_labelled_total(exp_rows, (n - 1) as nat, m, proved_only) + method_labelled(exp_rows[n - 1]@, m, proved_only)
    }
}

proof fn lemma_call_count_per_part(frag: Seq<ExpandedRow>, c: int, po: bool, p: nat)
    requires
        forall|k: int| 0 <= k < frag.len() ==> (#[trigger] frag[k]).rows@.len() == p,
    ensures
        call_row_count(frag, c, po) == p * call_labelled(frag, c, po),
    decreases frag.len(),
{
    if frag.len() > 0 {
        let d = frag.drop_last();
        assert forall|k: int| 0 <= k < d.len() implies (#[trigger] d[k]).rows@.len() == p by {
            assert(d[k] == frag[k]);
        }
        lemma_call_count_per_part(d, c, po, p);
        assert(frag.last() == frag[frag.len() - 1]);
        let l = call_labelled(d, c, po);
        assert(p * (l + 1) == p * l + p) by (nonlinear_arith);
        assert(call_row_count(frag, c, po) == call_row_count(d, c, po) + if (frag.last().call_label matches Some(x) && x.call_index == c)
            && (frag.last().is_proved || !po) { p } else { 0 });
    } else {
        assert(p * 0 == 0) by (nonlinear_arith);
    }
}

proof fn lemma_method_count_per_part(frag: Seq<ExpandedRow>, m: int, po: bool, p: nat)
    requires
        forall|k: int| 0 <= k < frag.len() ==> (#[trigger] frag[k]).rows@.len() == p,
    ensures
        method_row_count(frag, m, po) == p * method_labelled(frag, m, po),
    decreases frag.len(),
{
    if frag.len() > 0 {
        let d = frag.drop_last();
        assert forall|k: int| 0 <= k < d.len() implies (#[trigger] d[k]).rows@.len() == p by {
            assert(d[k] == frag[k]);
        }
        lemma_method_count_per_part(d, m, po, p);
        assert(frag.last() == frag[frag.len() - 1]);
        let l = method_labelled(d, m, po);
        assert(p * (l + 1) == p * l + p) by (nonlinear_arith);
        assert(method_row_count(frag, m, po) == method_row_count(d, m, po) + if (frag.last().method_ref matches Some(x) && x.method_index == m)
            && (frag.last().is_proved || !po) { p } else { 0 });
    } else {
        assert(p * 0 == 0) by (nonlinear_arith);
    }
}

/// Each part holds the same calls, so a call is counted once per part: where every expanded row
/// stands for `p` parts, the count of call `c` (of all its rows, or of the proved ones) is `p`
/// times the number of expanded rows that carry its label.
pub proof fn law_call_count_per_part(exp_rows: Seq<Vec<ExpandedRow>>, n: nat, c: int, proved_only: bool, p: nat)
    requires
        n <= exp_rows.len(),
        rows_per_part(exp_rows, n, p),
    ensures
        call_rows_total(exp_rows, n, c, proved_only) == p * call_labelled_total(exp_rows, n, c, proved_only),
    decreases n,
{
    if n > 0 {
        law_call_count_per_part(exp_rows, (n - 1) as nat, c, proved_only, p);
        let frag = exp_rows[n - 1]@;
        assert forall|k: int| 0 <= k < frag.len() implies (#[trigger] frag[k]).rows@.len() == p by {
            assert(exp_rows[n - 1]@[k].rows@.len() == p);
        }
        lemma_call_count_per_part(frag, c, proved_only, p);
        let a = call_labelled_total(exp_rows, (n - 1) as nat, c, proved_only);
        let b = call_labelled(frag, c, proved_only);
        assert(p * (a + b) == p * a + p * b) by (nonlinear_arith);
    } else {
        assert(p * 0 == 0) by (nonlinear_arith);
    }
}

/// Each part holds the same methods, so a method's rows are counted once per part: where every
/// expanded row stands for `p` parts, the rows of method `m` (all, or the proved ones) are `p` times
/// the number of expanded rows of that method.
pub proof fn law_method_count_per_part(exp_rows: Seq<Vec<ExpandedRow>>, n: nat, m: int, proved_only: bool, p: nat)
    requires
        n <= exp_rows.len(),
        rows_per_part(exp_rows, n, p),
    ensures
        method_rows_total(exp_rows, n, m, proved_only) == p * method_labelled_total(exp_rows, n, m, proved_only),
    decreases n,
{
    if n > 0 {
        law_method_count_per_part(exp_rows, (n - 1) as nat, m, proved_only, p);
        let frag = exp_rows[n - 1]@;
        assert forall|k: int| 0 <= k < frag.len() implies (#[trigger] frag[k]).rows@.len() == p by {
            assert(exp_rows[n - 1]@[k].rows@.len() == p);
        }
        lemma_method_count_per_part(frag, m, proved_only, p);
        let a = method_labelled_total(exp_rows, (n - 1) as nat, m, proved_only);
        let b = method_labelled(frag, m, proved_only);
        assert(p * (a + b) == p * a + p * b) by (nonlinear_arith);
    } else {
        assert(p * 0 == 0) by (nonlinear_arith);
    }
}

/// Derive statistics about each call from the expanded rows of the composition: for each call, how
/// many rows (one per part) carry its label, and how many of those are proved.  Every call label
/// must point to one of the calls, and the counts must fit in a `usize`.
pub fn derive_calls(calls: &[CallSpec], exp_rows: &[Vec<ExpandedRow>]) -> (d: Vec<DerivedCall>)
    requires
        forall|f: int, k: int| 0 <= f < exp_rows@.len() && 0 <= k < exp_rows@[f]@.len()
            ==> ((#[trigger] exp_rows@[f]@[k]).call_label matches Some(cl) ==> cl.call_index < calls@.len()),
        forall|c: int| 0 <= c < calls@.len() ==> #[trigger] call_rows_total(exp_rows@, exp_rows@.len(), c, false) <= usize::MAX,
    ensures
        d@.len() == calls@.len(),
        forall|c: int| 0 <= c < calls@.len() ==> {
            &&& (#[trigger] d@[c]).notation == calls@[c].call.notation_view()
            &&& d@[c].location@ == calls@[c].call.location_view()
            &&& d@[c].count == call_rows_total(exp_rows@, exp_rows@.len(), c, false)
            &&& d@[c].proved_count == call_rows_total(exp_rows@, exp_rows@.len(), c, true)
        },
{
    // Initialise a set of calls with no instances
    let mut der_calls: Vec<DerivedCall> = Vec::new();
    let mut i: usize = 0;
    while i < calls.len()
        invariant
            i <= calls@.len(),
            der_calls@.len() == i,
            forall|c: int| 0 <= c < i ==> {
                &&& (#[trigger] der_calls@[c]).notation == calls@[c].call.notation_view()
                &&& der_calls@[c].location@ == calls@[c].call.location_view()
                &&& der_calls@[c].count == 0
                &&& der_calls@[c].proved_count == 0
            },
        decreases calls@.len() - i,
    {
        der_calls.push(calls[i].to_derived_call());
        i += 1;
    }
    // Count instances by going through all the expanded rows
    let mut f: usize = 0;
    while f < exp_rows.len()
        invariant
            f <= exp_rows@.len(),
            der_calls@.len() == calls@.len(),
            forall|f2: int, k: int| 0 <= f2 < exp_rows@.len() && 0 <= k < exp_rows@[f2]@.len()
                ==> ((#[trigger] exp_rows@[f2]@[k]).call_label matches Some(cl) ==> cl.call_index < calls@.len()),
            forall|c: int| 0 <= c < calls@.len() ==> #[trigger] call_rows_total(exp_rows@, exp_rows@.len(), c, false) <= usize::MAX,
            forall|c: int| 0 <= c < calls@.len() ==> {
                &&& (#[trigger] der_calls@[c]).notation == calls@[c].call.notation_view()
                &&& der_calls@[c].location@ == calls@[c].call.location_view()
                &&& der_calls@[c].count == call_rows_total(exp_rows@, f as nat, c, false)
                &&& der_calls@[c].proved_count == call_rows_total(exp_rows@, f as nat, c, true)
            },
        decreases exp_rows@.len() - f,
    {
        let frag_rows = &exp_rows[f];
        let mut k: usize = 0;
        while k < frag_rows.len()
            invariant
                f < exp_rows@.len(),
                *frag_rows == exp_rows@[f as int],
                k <= frag_rows@.len(),
                der_calls@.len() == calls@.len(),
                forall|f2: int, k2: int| 0 <= f2 < exp_rows@.len() && 0 <= k2 < exp_rows@[f2]@.len()
                    ==> ((#[trigger] exp_rows@[f2]@[k2]).call_label matches Some(cl) ==> cl.call_index < calls@.len()),
                forall|c: int| 0 <= c < calls@.len() ==> #[trigger] call_rows_total(exp_rows@, exp_rows@.len(), c, false) <= usize::MAX,
                forall|c: int| 0 <= c < calls@.len() ==> {
                    &&& (#[trigger] der_calls@[c]).notation == calls@[c].call.notation_view()
                    &&& der_calls@[c].location@ == calls@[c].call.location_view()
                    &&& der_calls@[c].count == call_rows_total(exp_rows@, f as nat, c, false)
                        + call_row_count(frag_rows@.take(k as int), c, false)
                    &&& der_calls@[c].proved_count == call_rows_total(exp_rows@, f as nat, c, true)
                        + call_row_count(frag_rows@.take(k as int), c, true)
                },
            decreases frag_rows@.len() - k,
        {
            let exp_row = &frag_rows[k];
            proof {
                assert(frag_rows@.take(k + 1).drop_last() =~= frag_rows@.take(k as int));
                assert(frag_rows@.take(k + 1).last() == *exp_row);
            }
            match &exp_row.call_label {
                Some(call_label) => {
                    // Each part contains the same call, so count it once per part
                    let c = call_label.call_index;
                    proof {
                        assert(exp_rows@[f as int]@[k as int] == *exp_row);
                        lemma_call_count_prefix(frag_rows@, k + 1, c as int, false);
                        lemma_call_total_prefix(exp_rows@, (f + 1) as nat, exp_rows@.len(), c as int, false);
                        assert(((f + 1) - 1) as nat == f as nat);
                        lemma_call_count_prefix(frag_rows@, k + 1, c as int, true);
                        lemma_call_count_proved_le(frag_rows@.take(k + 1), c as int);
                        law_call_proved_at_most_used(exp_rows@, f as nat, c as int);
                    }
                    let mut entry = der_calls.remove(c);
                    entry.count = entry.count + exp_row.rows.len();
                    if exp_row.is_proved {
                        entry.proved_count = entry.proved_count + exp_row.rows.len();
                    }
                    der_calls.insert(c, entry);
                }
                None => {}
            }
            k += 1;
        }
        proof {
            assert(frag_rows@.take(k as int) =~= frag_rows@);
        }
        f += 1;
    }
    der_calls
}

} // verus!
