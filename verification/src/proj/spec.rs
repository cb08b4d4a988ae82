//! References from rows of a composition into the methods and calls that generated them.

use vstd::prelude::*;
use crate::bellcore::bell::Bell;
use crate::bellcore::call::Call;
use crate::bellcore::method::Method;
use crate::bellcore::block::{annot_view, block_rows_ok, transposed, AnnotBlock};
use crate::bellcore::row::{
    checked_with_stage, indices, inverse_bells, lemma_inverse_bells, lemma_permuted_indices, permuted, rounds_bells,
    valid_bells, IncompatibleStages, InvalidRowError, Row,
};
use crate::bellcore::laws::{law_mul_assoc, law_inverse, law_rounds_identity};
use crate::bellcore::bell::parsed_bells;
use crate::bellcore::stage::Stage;
use crate::group::{compose, identity, inverse, is_perm, lemma_order_exists, lemma_power_one, lemma_power_perm, power};
use crate::text::push_char;
use super::derived::total_rows;
use super::derived_state::{row_views, CallLabel, DerivedCall, ExpandedRow, MethodLabel};

verus! {

/// The location of a row within a method: which method, and how far through its lead.  This is
/// used to generate method splice text and calculate statistics.
#[derive(Debug, Clone, Copy, PartialEq, Eq, Structural)]
pub struct MethodRef {
    pub method_index: usize,
    pub sub_lead_index: usize,
}

impl MethodRef {
    /// The index of the method.
    pub fn method_index(&self) -> (i: usize)
        ensures
            i == self.method_index,
    {
        self.method_index
    }

    /// How far through the lead of the method the row is.
    pub fn sub_lead_index(&self) -> (i: usize)
        ensures
            i == self.sub_lead_index,
    {
        self.sub_lead_index
    }
}

/// Where within a call a given row comes.  This is used to generate call labels.
#[derive(Debug, Clone, Copy, PartialEq, Eq, Structural)]
pub struct CallRef {
    pub call_index: usize,
    pub row_index: usize,
}

impl CallRef {
    /// The index of the call.
    pub fn call_index(&self) -> (i: usize)
        ensures
            i == self.call_index,
    {
        self.call_index
    }

    /// How far through the call the row is.
    pub fn sub_lead_index(&self) -> (i: usize)
        ensures
            i == self.row_index,
    {
        self.row_index
    }
}

/// The possible ways splitting a fragment could fail.
#[derive(Debug, Clone, Copy, Eq, PartialEq, Structural, Hash)]
pub enum FragSplitError {
    /// Splitting the fragment would have produced a fragment with no rows
    ZeroLengthFrag,
    /// The index points outside the bounds of the fragment list
    IndexOutOfRange { index: usize, num_frags: usize },
}

/// The specification of a method in a composition: the method itself, its shorthand, and the
/// place notation it was written with.
#[derive(Debug)]
pub struct MethodSpec {
    pub shorthand: String,
    pub place_not_string: String,
    pub method: Method,
}

impl MethodSpec {
    /// The name of the method.
    pub fn name(&self) -> (s: &str)
        ensures
            s@ == self.method.name_view(),
    {
        self.method.name()
    }

    /// The shorthand of the method.
    pub fn shorthand(&self) -> (s: &str)
        ensures
            s@ == self.shorthand@,
    {
        self.shorthand.as_str()
    }
}

/// The place at which a bell occurs in a row (chosen; unique in a valid row).
pub open spec fn place_of_bell(s: Seq<Bell>, b: Bell) -> int {
    choose|p: int| 0 <= p < s.len() && s[p] == b
}

/// `l` labels the call `cs` (with index `call_index`) placed at the rows `start_rows`, one per part:
/// in each part, the call's notation followed by the calling position given by where the tenor is
/// at the end of the call.
pub open spec fn call_label_for(l: CallLabel, cs: CallSpec, call_index: usize, start_rows: Seq<Row>) -> bool {
    &&& l.call_index == call_index
    &&& l.labels@.len() == start_rows.len()
    &&& forall|i: int| 0 <= i < start_rows.len() ==> {
        let n = start_rows[0]@.len();
        let start_place = place_of_bell(start_rows[i]@, Bell { index: (n - 1) as usize });
        let end_place = place_of_bell(cs.call.block_view()@.last().0, Bell { index: start_place as usize });
        (#[trigger] l.labels@[i])@ == seq![cs.call.notation_view(), cs.calling_positions@[end_place]]
    }
}

/// The calls that can label rows of `n` bells: their blocks are well-formed on `n` bells, and they
/// name a calling position for every place.
pub open spec fn call_fits(cs: CallSpec, n: nat) -> bool {
    &&& cs.call.block_view().wf()
    &&& cs.call.block_view()@.last().0.len() == n
    &&& cs.calling_positions@.len() >= n
}

/// A call together with the names of the calling positions, indexed by the place of the tenor at
/// the end of the call.
#[derive(Debug)]
pub struct CallSpec {
    pub call: Call,
    pub calling_positions: Vec<char>,
}

impl CallSpec {
    /// Generates the label of this call placed at the given rows (one per part): in each part, the
    /// call's notation followed by the calling position given by where the tenor is at the end of
    /// the call.  The rows and the call's transposition must all have the same stage, which is at
    /// least one bell, and there must be a calling position for every place.
    pub fn to_label(&self, call_index: usize, start_rows: &[Row]) -> (l: CallLabel)
        requires
            self.call.block_view().wf(),
            start_rows@.len() > 0,
            start_rows@[0]@.len() >= 1,
            forall|i: int| 0 <= i < start_rows@.len() ==> (#[trigger] start_rows@[i])@.len() == start_rows@[0]@.len(),
            self.call.block_view()@.last().0.len() == start_rows@[0]@.len(),
            self.calling_positions@.len() >= start_rows@[0]@.len(),
        ensures
            call_label_for(l, *self, call_index, start_rows@),
    {
        let n = start_rows[0].stage().num_bells;
        let tenor = Bell::from_index(n - 1);
        let transposition = self.call.transposition();
        let notation = self.call.notation();
        let mut labels: Vec<String> = Vec::new();
        let mut i: usize = 0;
        while i < start_rows.len()
            invariant
                i <= start_rows@.len(),
                n == start_rows@[0]@.len(),
                n >= 1,
                tenor == (Bell { index: (n - 1) as usize }),
                transposition@ == self.call.block_view()@.last().0,
                transposition@.len() == n,
                notation == self.call.notation_view(),
                self.calling_positions@.len() >= n,
                forall|k: int| 0 <= k < start_rows@.len() ==> (#[trigger] start_rows@[k])@.len() == n,
                labels@.len() == i,
                forall|k: int| 0 <= k < i ==> {
                    let start_place = place_of_bell(start_rows@[k]@, tenor);
                    let end_place = place_of_bell(transposition@, Bell { index: start_place as usize });
                    (#[trigger] labels@[k])@ == seq![notation, self.calling_positions@[end_place]]
                },
            decreases start_rows@.len() - i,
        {
            let r = &start_rows[i];
            let _ = r.stage();
            proof {
                crate::bellcore::row::lemma_contains_all(r@, tenor);
            }
            let place_at_start = match r.place_of(tenor) {
                Some(p) => p,
                None => {
                    proof {
                        assert(false);
                    }
                    0
                },
            };
            let _ = transposition.stage();
            proof {
                crate::bellcore::row::lemma_contains_all(transposition@, Bell { index: place_at_start });
                crate::bellcore::row::lemma_place_unique(r@, tenor, place_at_start as int);
            }
            let place_at_end = match transposition.place_of(Bell::from_index(place_at_start)) {
                Some(p) => p,
                None => {
                    proof {
                        assert(false);
                    }
                    0
                },
            };
            proof {
                crate::bellcore::row::lemma_place_unique(transposition@, Bell { index: place_at_start }, place_at_end as int);
            }
            let mut label = String::new();
            push_char(&mut label, notation);
            push_char(&mut label, self.calling_positions[place_at_end]);
            labels.push(label);
            proof {
                assert(labels@[i as int]@ =~= seq![notation, self.calling_positions@[place_at_end as int]]);
            }
            i += 1;
        }
        CallLabel { labels, call_index }
    }

    /// The statistics of this call, with no instances counted yet.
    pub fn to_derived_call(&self) -> (c: DerivedCall)
        ensures
            c.notation == self.call.notation_view(),
            c.location@ == self.call.location_view(),
            c.count == 0,
            c.proved_count == 0,
    {
        let mut location = String::new();
        location.append(self.call.location());
        DerivedCall::new(self.call.notation(), location)
    }
}

/* ========== ROW ANNOTATIONS ========== */

/// The information that every row in a fragment is annotated with.
#[derive(Debug, Copy)]
pub struct Annot {
    pub is_lead_end: bool,
    pub method: Option<MethodRef>,
    pub call: Option<CallRef>,
}

impl Clone for Annot {
    fn clone(&self) -> (a: Annot)
        ensures
            a == *self,
    {
        *self
    }
}

/// A clone of an annotation is the annotation itself.
proof fn lemma_annot_cloned(a: Annot, b: Annot)
    requires
        cloned(a, b),
    ensures
        a == b,
{
}

impl Default for Annot {
    fn default() -> (a: Annot)
        ensures
            !a.is_lead_end,
            a.method is None,
            a.call is None,
    {
        Annot { is_lead_end: false, method: None, call: None }
    }
}

/* ========== FRAGMENTS ========== */

/// A single unexpanded fragment of a composition: a block of annotated rows, transposed to start at
/// `start_row`.  (Where the fragment is drawn is kept by the editor, not here.)
#[derive(Debug)]
pub struct Frag {
    pub start_row: Row,
    pub block: AnnotBlock<Annot>,
    pub is_muted: bool,
}

/// Method `m` of `methods` has a lead of at least one row.
pub open spec fn method_ok(methods: Seq<MethodSpec>, m: MethodRef) -> bool {
    &&& m.method_index < methods.len()
    &&& methods[m.method_index as int].method.wf()
    &&& methods[m.method_index as int].method.lead_view().len() >= 2
}

/// The number of rows in a lead of method `m`.
pub open spec fn lead_len_of(methods: Seq<MethodSpec>, m: MethodRef) -> int {
    methods[m.method_index as int].method.lead_view().len() - 1
}

/// Whether row `i` of the annotated rows `rows` starts a method splice: its method differs from that
/// of the row before, or is the same but does not carry on from where the row before left off in
/// the lead (wrapping round at the lead end).  A row without a method never starts a splice, and the
/// first row starts one if it has a method.
pub open spec fn is_splice(rows: Seq<(Seq<Bell>, Annot)>, methods: Seq<MethodSpec>, i: int) -> bool {
    match rows[i].1.method {
        None => false,
        Some(m) => if i == 0 {
            true
        } else {
            match rows[i - 1].1.method {
                None => true,
                Some(lm) => lm.method_index != m.method_index
                    || (lm.sub_lead_index + 1) % lead_len_of(methods, m) != m.sub_lead_index,
            }
        },
    }
}

/// Wrapping the count before adding one does not change where it wraps to.
proof fn lemma_mod_succ(x: int, l: int)
    requires
        l > 0,
    ensures
        (x % l + 1) % l == (x + 1) % l,
{
    vstd::arithmetic::div_mod::lemma_add_mod_noop(x, 1, l);
    vstd::arithmetic::div_mod::lemma_mod_twice(x, l);
    if l > 1 {
        vstd::arithmetic::div_mod::lemma_small_mod(1, l as nat);
    } else {
        assert((x % l + 1) % l == 0);
        assert((x + 1) % l == 0);
    }
    vstd::arithmetic::div_mod::lemma_add_mod_noop(x % l, 1, l);
}

/// The rows that row `r` of a fragment starting at `start` expands to: one per part head.
pub open spec fn expanded_rows_of(part_heads: Seq<Row>, start: Seq<Bell>, r: Seq<Bell>) -> Seq<Seq<Bell>> {
    Seq::new(part_heads.len(), |p: int| permuted(permuted(part_heads[p]@, start), r))
}

/// `er` is the expansion of row `i` of the fragment `frag`.
pub open spec fn is_row_expansion(frag: Frag, part_heads: Seq<Row>, methods: Seq<MethodSpec>, calls: Seq<CallSpec>, i: int, er: ExpandedRow) -> bool {
    let a = frag.block@[i].1;
    let n = frag.block@.len();
    &&& row_views(er.rows@) == expanded_rows_of(part_heads, frag.start_row@, frag.block@[i].0)
    &&& er.method_ref == a.method
    &&& er.fold is None
    &&& er.is_ruleoff == (a.is_lead_end || (i + 1 < n && is_splice(frag.block@, methods, i + 1)))
    &&& er.is_proved == (i != n - 1 && !frag.is_muted)
    &&& er.is_leftover == (i == n - 1)
    &&& (is_splice(frag.block@, methods, i) <==> er.method_label is Some)
    &&& (er.method_label matches Some(ml) ==> (a.method matches Some(m)
        && ml.name@ == methods[m.method_index as int].method.name_view()
        && ml.shorthand@ == methods[m.method_index as int].shorthand@))
    &&& (er.call_label is Some <==> (a.call matches Some(c) && c.row_index == 0))
    &&& (er.call_label matches Some(cl) ==> (a.call matches Some(c)
        && call_label_for(cl, calls[c.call_index as int], c.call_index, er.rows@)))
}

/// `exp_rows` is the expansion of the fragment `frag`: one expanded row for each of its rows,
/// including the leftover row.
pub open spec fn is_expansion(frag: Frag, part_heads: Seq<Row>, methods: Seq<MethodSpec>, calls: Seq<CallSpec>, exp_rows: Seq<ExpandedRow>) -> bool {
    &&& exp_rows.len() == frag.block@.len()
    &&& forall|i: int| 0 <= i < frag.block@.len() ==> is_row_expansion(frag, part_heads, methods, calls, i, #[trigger] exp_rows[i])
}

/// The annotations of the fragment refer to methods and calls that exist and that fit it.
pub open spec fn annots_ok(frag: Frag, methods: Seq<MethodSpec>, calls: Seq<CallSpec>) -> bool {
    &&& forall|i: int| 0 <= i < frag.block@.len() ==> ((#[trigger] frag.block@[i]).1.method matches Some(m) ==> method_ok(methods, m))
    &&& forall|i: int| 0 <= i < frag.block@.len() ==> ((#[trigger] frag.block@[i]).1.call matches Some(c) ==>
        c.call_index < calls.len() && call_fits(calls[c.call_index as int], frag.start_row@.len()))
}

impl Frag {
    /// The rows of a fragment all have the stage of its start row.
    pub open spec fn wf(&self) -> bool {
        &&& self.block.wf()
        &&& self.start_row@.len() == self.block@[0].0.len()
    }

    /// The number of rows in this `Frag` (not including the leftover row).
    pub fn len(&self) -> (l: usize)
        requires
            self.wf(),
        ensures
            l == self.block@.len() - 1,
    {
        self.block.len()
    }

    /// Toggles whether or not this `Frag` is muted.
    pub fn toggle_mute(&mut self)
        ensures
            final(self).is_muted == !old(self).is_muted,
            final(self).start_row == old(self).start_row,
            final(self).block == old(self).block,
    {
        self.is_muted = !self.is_muted;
    }

    /// Transposes this `Frag`: premultiplies its start row (and so all its rows) by
    /// `transposition`, which must have the same stage.
    pub fn transpose(&mut self, transposition: &Row) -> (r: Result<(), crate::bellcore::row::IncompatibleStages>)
        requires
            old(self).wf(),
        ensures
            final(self).wf(),
            final(self).block == old(self).block,
            final(self).is_muted == old(self).is_muted,
            r is Ok <==> transposition@.len() == old(self).start_row@.len(),
            r is Ok ==> final(self).start_row@ == permuted(transposition@, old(self).start_row@),
            r is Err ==> final(self).start_row@ == old(self).start_row@,
    {
        match transposition.mul(&self.start_row) {
            Ok(row) => {
                self.start_row = row;
                Ok(())
            },
            Err(e) => Err(e),
        }
    }

    /// Expands this `Frag` into the [`ExpandedRow`]s that make it up, including the leftover row:
    /// each row is expanded to one row per part head; rows that start a method splice are labelled
    /// with the method and make the row before a ruleoff; the first row of each call is labelled
    /// with the call; lead ends are ruleoffs; and the rows of an unmuted fragment, except the
    /// leftover row, are proved.
    pub fn expand(&self, part_heads: &[Row], methods: &[MethodSpec], calls: &[CallSpec]) -> (exp_rows: Vec<ExpandedRow>)
        requires
            self.wf(),
            part_heads@.len() >= 1,
            self.start_row@.len() >= 1,
            forall|p: int| 0 <= p < part_heads@.len() ==> (#[trigger] part_heads@[p])@.len() == self.start_row@.len(),
            annots_ok(*self, methods@, calls@),
        ensures
            is_expansion(*self, part_heads@, methods@, calls@, exp_rows@),
    {
        let rows = self.block.annot_rows();
        let n = rows.len();
        let mut exp_rows: Vec<ExpandedRow> = Vec::new();
        let mut row_ind: usize = 0;
        while row_ind < n
            invariant
                self.wf(),
                n == self.block@.len(),
                rows@.len() == n,
                forall|i: int| 0 <= i < n ==> (#[trigger] rows@[i]).0@ == self.block@[i].0 && rows@[i].1 == self.block@[i].1,
                part_heads@.len() >= 1,
                self.start_row@.len() >= 1,
                forall|p: int| 0 <= p < part_heads@.len() ==> (#[trigger] part_heads@[p])@.len() == self.start_row@.len(),
                annots_ok(*self, methods@, calls@),
                row_ind <= n,
                exp_rows@.len() == row_ind,
                forall|i: int| 0 <= i < row_ind - 1 ==> is_row_expansion(*self, part_heads@, methods@, calls@, i, #[trigger] exp_rows@[i]),
                row_ind > 0 ==> {
                    let er = exp_rows@[row_ind - 1];
                    let a = self.block@[row_ind - 1].1;
                    &&& is_row_expansion(*self, part_heads@, methods@, calls@, row_ind - 1, ExpandedRow { is_ruleoff: er.is_ruleoff || (row_ind < n && is_splice(self.block@, methods@, row_ind as int)), ..er })
                    &&& er.is_ruleoff == a.is_lead_end
                },
            decreases n - row_ind,
        {
            let row = &rows[row_ind].0;
            let annot = rows[row_ind].1;
            proof {
                assert(self.block@[row_ind as int].0.len() == self.block@[0].0.len());
            }
            /* Expand the row into one row per part */
            let mut all_rows: Vec<Row> = Vec::new();
            let mut p: usize = 0;
            while p < part_heads.len()
                invariant
                    p <= part_heads@.len(),
                    all_rows@.len() == p,
                    row@ == self.block@[row_ind as int].0,
                    row@.len() == self.start_row@.len(),
                    forall|q: int| 0 <= q < part_heads@.len() ==> (#[trigger] part_heads@[q])@.len() == self.start_row@.len(),
                    forall|q: int| 0 <= q < p ==> (#[trigger] all_rows@[q])@ == permuted(permuted(part_heads@[q]@, self.start_row@), row@),
                    forall|q: int| 0 <= q < p ==> (#[trigger] all_rows@[q])@.len() == self.start_row@.len(),
                decreases part_heads@.len() - p,
            {
                let transposed = part_heads[p].mul_unchecked(&self.start_row);
                let r = transposed.mul_unchecked(row);
                all_rows.push(r);
                p += 1;
            }
            proof {
                assert(row_views(all_rows@) =~= expanded_rows_of(part_heads@, self.start_row@, self.block@[row_ind as int].0));
            }
            /* Method splice logic: a splice happens where this row's method differs from the
             * last one, or where the rows of the same method do not follow on */
            let is_splice_here = match annot.method {
                None => false,
                Some(m) => if row_ind == 0 {
                    true
                } else {
                    match rows[row_ind - 1].1.method {
                        None => true,
                        Some(lm) => {
                            let lead_len = methods[m.method_index].method.lead_len();
                            lm.method_index != m.method_index || (lm.sub_lead_index % lead_len + 1) % lead_len != m.sub_lead_index
                        },
                    }
                },
            };
            proof {
                if let Some(m) = annot.method {
                    if row_ind > 0 {
                        if let Some(lm) = self.block@[row_ind - 1].1.method {
                            lemma_mod_succ(lm.sub_lead_index as int, lead_len_of(methods@, m));
                        }
                    }
                }
                assert(is_splice_here == is_splice(self.block@, methods@, row_ind as int));
            }
            let method_label = if is_splice_here {
                // Make the last row into a ruleoff, since ruleoffs go underneath rows
                if row_ind > 0 {
                    let ghost before = exp_rows@;
                    let mut last = exp_rows.pop().unwrap();
                    last.set_ruleoff();
                    exp_rows.push(last);
                    proof {
                        assert forall|i: int| 0 <= i < row_ind - 1 implies #[trigger] exp_rows@[i] == before[i] by {}
                    }
                }
                match annot.method {
                    Some(m) => {
                        let new_method = &methods[m.method_index];
                        let mut name = String::new();
                        name.append(new_method.name());
                        let mut shorthand = String::new();
                        shorthand.append(new_method.shorthand());
                        Some(MethodLabel::new(name, shorthand))
                    },
                    None => None,
                }
            } else {
                None
            };
            /* Label the first row of each call */
            let call_label = match annot.call {
                Some(call_ref) => if call_ref.row_index == 0 {
                    proof {
                        assert(self.block@[row_ind as int].1.call == Some(call_ref));
                    }
                    Some(calls[call_ref.call_index].to_label(call_ref.call_index, all_rows.as_slice()))
                } else {
                    None
                },
                None => None,
            };
            let ghost all_rows_view = all_rows@;
            exp_rows.push(ExpandedRow::new(
                all_rows,
                call_label,
                method_label,
                annot.method,
                None,
                annot.is_lead_end,
                row_ind != n - 1 && !self.is_muted,
                row_ind == n - 1,
            ));
            proof {
                assert(exp_rows@[row_ind as int].rows@ == all_rows_view);
            }
            row_ind += 1;
        }
        exp_rows
    }
}

/* ========== PART HEADS ========== */

/// The rows `rows` are the powers of `r` from rounds up to the last before rounds comes again: the
/// group that `r` generates, starting with rounds.
pub open spec fn is_closure_from_rounds(rows: Seq<Row>, r: Seq<Bell>) -> bool {
    &&& rows.len() >= 1
    &&& forall|i: int| 0 <= i < rows.len() ==> indices(#[trigger] rows[i]@) == power(indices(r), i as nat)
    &&& power(indices(r), rows.len()) == identity(r.len())
    &&& forall|i: int| 0 < i < rows.len() ==> #[trigger] power(indices(r), i as nat) != identity(r.len())
}

/// `ph` is what parsing the text `s` as part heads of the given stage gives: the text itself, and
/// the powers of the row it names, from rounds up to the last before rounds comes round again.
pub open spec fn parses_to_part_heads(s: Seq<char>, stage: Stage, ph: PartHeads) -> bool {
    &&& ph.wf()
    &&& ph.spec_view() == s
    &&& exists|row: Row| #[trigger] checked_with_stage(parsed_bells(s), stage, Ok(row))
        && is_closure_from_rounds(ph.rows_view(), row@)
}

/// The transposition that takes the row `from` to the row `to`.
pub open spec fn transposition_of(from: Seq<Bell>, to: Seq<Bell>) -> Seq<int> {
    compose(inverse(indices(from)), indices(to))
}

/// The permutation `x` is one of the rows `rows`.
pub open spec fn is_among(rows: Seq<Row>, x: Seq<int>) -> bool {
    exists|j: int| 0 <= j < rows.len() && indices(#[trigger] rows[j]@) == x
}

/// Applying `t` after any of the rows `rows` gives one of them again.
pub open spec fn closed_under(rows: Seq<Row>, t: Seq<int>) -> bool {
    forall|i: int| 0 <= i < rows.len() ==> is_among(rows, compose(indices(#[trigger] rows[i]@), t))
}

/// A specification of the part heads of a composition: the text the user entered, and the part
/// heads it generates.  There is always at least one part head, and they all have the same stage.
#[derive(Debug)]
pub struct PartHeads {
    spec: String,
    part_heads: Vec<Row>,
}

impl Clone for PartHeads {
    fn clone(&self) -> (c: PartHeads)
        ensures
            c.spec_view() == self.spec_view(),
            c.rows_view().len() == self.rows_view().len(),
            forall|i: int| 0 <= i < c.rows_view().len() ==> (#[trigger] c.rows_view()[i])@ == self.rows_view()[i]@,
    {
        let mut spec = String::new();
        spec.append(self.spec.as_str());
        let mut part_heads: Vec<Row> = Vec::new();
        let mut i: usize = 0;
        while i < self.part_heads.len()
            invariant
                i <= self.part_heads@.len(),
                part_heads@.len() == i,
                forall|j: int| 0 <= j < i ==> (#[trigger] part_heads@[j])@ == self.part_heads@[j]@,
            decreases self.part_heads@.len() - i,
        {
            part_heads.push(self.part_heads[i].clone());
            i += 1;
        }
        PartHeads { spec, part_heads }
    }
}

impl PartHeads {
    /// The text these part heads were generated from.
    pub closed spec fn spec_view(&self) -> Seq<char> {
        self.spec@
    }

    /// The part heads.
    pub closed spec fn rows_view(&self) -> Seq<Row> {
        self.part_heads@
    }

    /// There is at least one part head, and they all have the same stage.
    pub open spec fn wf(&self) -> bool {
        &&& self.rows_view().len() >= 1
        &&& forall|i: int| 0 <= i < self.rows_view().len() ==> (#[trigger] self.rows_view()[i])@.len() == self.rows_view()[0]@.len()
    }

    /// Whether these part heads were generated from the same text as `other`, and are the same
    /// rows.
    pub fn equals(&self, other: &PartHeads) -> (b: bool)
        ensures
            b == same_part_heads(*self, *other),
    {
        if !crate::text::str_eq(self.spec.as_str(), other.spec.as_str()) {
            return false;
        }
        if self.part_heads.len() != other.part_heads.len() {
            return false;
        }
        let mut i: usize = 0;
        while i < self.part_heads.len()
            invariant
                i <= self.part_heads@.len(),
                self.part_heads@.len() == other.part_heads@.len(),
                forall|j: int| 0 <= j < i ==> (#[trigger] self.part_heads@[j])@ == other.part_heads@[j]@,
            decreases self.part_heads@.len() - i,
        {
            let o = crate::bellcore::row::compare_bells(self.part_heads[i].slice(), other.part_heads[i].slice());
            if o != crate::order::Order::Equal {
                return false;
            }
            i += 1;
        }
        true
    }

    /// The part heads of a composition of one part on `stage`: just rounds, from no text.
    pub fn one_part(stage: Stage) -> (ph: PartHeads)
        ensures
            ph.wf(),
            ph.spec_view() == Seq::<char>::empty(),
            ph.rows_view().len() == 1,
            ph.rows_view()[0]@ == rounds_bells(stage.num_bells as nat),
    {
        let mut part_heads: Vec<Row> = Vec::new();
        part_heads.push(Row::rounds(stage));
        PartHeads { spec: String::new(), part_heads }
    }

    /// The text these part heads were generated from.
    pub fn spec_string(&self) -> (s: &str)
        ensures
            s@ == self.spec_view(),
    {
        self.spec.as_str()
    }

    /// The number of part heads.
    pub fn len(&self) -> (l: usize)
        ensures
            l == self.rows_view().len(),
    {
        self.part_heads.len()
    }

    /// The part heads.
    pub fn rows(&self) -> (r: &[Row])
        ensures
            r@ == self.rows_view(),
    {
        self.part_heads.as_slice()
    }

    /// Parses a row from `s` (on the given stage) and generates the part heads as the powers of
    /// that row, starting with rounds.  Fails exactly where parsing the row fails.
    pub fn parse(s: &str, stage: Stage) -> (r: Result<PartHeads, InvalidRowError>)
        ensures
            match r {
                Ok(ph) => parses_to_part_heads(s@, stage, ph),
                Err(e) => checked_with_stage(parsed_bells(s@), stage, Err(e)),
            },
    {
        match Row::parse_with_stage(s, stage) {
            Err(e) => Err(e),
            Ok(row) => {
                let closure = row.closure();
                let ghost p = indices(row@);
                let n = row.stage().num_bells;
                let mut part_heads: Vec<Row> = Vec::new();
                part_heads.push(Row::rounds(Stage::new(n)));
                proof {
                    assert(indices(part_heads@[0]@) =~= identity(row@.len()));
                }
                let mut i: usize = 0;
                while i < closure.len() - 1
                    invariant
                        closure@.len() >= 1,
                        p == indices(row@),
                        forall|k: int| 0 <= k < closure@.len() ==> indices(#[trigger] closure@[k]@) == power(p, (k + 1) as nat),
                        i + 1 <= closure@.len(),
                        part_heads@.len() == i + 1,
                        forall|k: int| 0 <= k < part_heads@.len() ==> indices(#[trigger] part_heads@[k]@) == power(p, k as nat),
                    decreases closure@.len() - i,
                {
                    part_heads.push(closure[i].clone());
                    i += 1;
                }
                let mut spec = String::new();
                spec.append(s);
                let ph = PartHeads { spec, part_heads };
                proof {
                    assert(indices(closure@.last()@) == power(p, closure@.len()));
                    assert forall|k: int| 0 <= k < ph.part_heads@.len() implies (#[trigger] ph.part_heads@[k])@.len() == ph.part_heads@[0]@.len() by {
                        assert(indices(ph.part_heads@[k]@).len() == power(p, k as nat).len());
                        crate::group::lemma_power_len(p, k as nat);
                        crate::group::lemma_power_len(p, 0);
                        assert(indices(ph.part_heads@[0]@).len() == power(p, 0).len());
                    }
                    assert forall|k: int| 0 < k < ph.part_heads@.len() implies #[trigger] power(p, k as nat) != identity(row@.len()) by {
                        assert(indices(closure@[k - 1]@) == power(p, k as nat));
                    }
                    assert(is_closure_from_rounds(ph.part_heads@, row@));
                }
                Ok(ph)
            },
        }
    }

    /// Whether two rows should be deemed equivalent under these part heads: the transposition from
    /// `from` to `to`, applied after any part head, gives a part head again.  Fails when `from`,
    /// `to` and the part heads do not all have the same stage.
    pub fn are_equivalent(&self, from: &Row, to: &Row) -> (r: Result<bool, IncompatibleStages>)
        requires
            self.wf(),
        ensures
            (from@.len() == to@.len() && to@.len() == self.rows_view()[0]@.len()) <==> r is Ok,
            r matches Ok(b) ==> (b <==> closed_under(self.rows_view(), transposition_of(from@, to@))),
    {
        // Calculate the transposition `from -> to`, and check that all the stages match
        let inv_from = from.inv();
        let _ = to.slice();
        let transposition = match inv_from.mul(to) {
            Ok(t) => t,
            Err(e) => return Err(e),
        };
        match IncompatibleStages::test_err(self.part_heads[0].stage(), transposition.stage()) {
            Err(e) => return Err(e),
            Ok(()) => {},
        }
        let ghost t = compose(inverse(indices(from@)), indices(to@));
        proof {
            crate::bellcore::row::lemma_permuted_indices(inv_from@, to@);
        }
        let n = self.part_heads.len();
        let mut i: usize = 0;
        while i < n
            invariant
                self.wf(),
                n == self.rows_view().len(),
                i <= n,
                from@.len() == to@.len(),
                to@.len() == self.rows_view()[0]@.len(),
                t == transposition_of(from@, to@),
                indices(transposition@) == t,
                transposition@.len() == self.rows_view()[0]@.len(),
                forall|k: int| 0 <= k < i ==> is_among(self.rows_view(), compose(indices(#[trigger] self.rows_view()[k]@), t)),
            decreases n - i,
        {
            let transposed = self.part_heads[i].mul_unchecked(&transposition);
            let mut found = false;
            let mut j: usize = 0;
            while j < n
                invariant
                    n == self.part_heads@.len(),
                    j <= n,
                    !found ==> forall|k: int| 0 <= k < j ==> self.part_heads@[k]@ != transposed@,
                    found ==> exists|k: int| 0 <= k < n && self.part_heads@[k]@ == transposed@,
                decreases n - j,
            {
                if !found && crate::bellcore::row::compare_bells(self.part_heads[j].slice(), transposed.slice()) == crate::order::Order::Equal {
                    found = true;
                }
                j += 1;
            }
            if !found {
                proof {
                    assert forall|k: int| 0 <= k < n implies indices(self.rows_view()[k]@) != compose(indices(self.rows_view()[i as int]@), t) by {
                        if indices(self.rows_view()[k]@) == compose(indices(self.rows_view()[i as int]@), t) {
                            crate::bellcore::row::lemma_indices_injective(self.rows_view()[k]@, transposed@);
                        }
                    }
                    assert(!is_among(self.rows_view(), compose(indices(self.rows_view()[i as int]@), t)));

                }
                return Ok(false);
            }
            proof {
                let k = choose|k: int| 0 <= k < n && self.part_heads@[k]@ == transposed@;
                assert(indices(self.rows_view()[k]@) == compose(indices(self.rows_view()[i as int]@), t));
                assert(is_among(self.rows_view(), compose(indices(self.rows_view()[i as int]@), t)));
            }
            i += 1;
        }
        Ok(true)
    }
}

impl Frag {
    /// Joins `other` onto the end of this `Frag`: the leftover row of this `Frag` is replaced by the
    /// rows of `other`, transposed to start from it.  Fails (changing nothing) if the fragments have
    /// different stages.
    pub fn join_with(&mut self, other: &Frag) -> (r: Result<(), IncompatibleStages>)
        requires
            old(self).wf(),
            other.wf(),
        ensures
            final(self).wf(),
            final(self).start_row == old(self).start_row,
            final(self).is_muted == old(self).is_muted,
            r is Ok <==> old(self).block@[0].0.len() == other.block@[0].0.len(),
            r is Err ==> final(self).block@ == old(self).block@,
            r is Ok ==> {
                &&& final(self).block@.len() == old(self).block@.len() - 1 + other.block@.len()
                &&& forall|j: int| 0 <= j < old(self).block@.len() - 1 ==> #[trigger] final(self).block@[j] == old(self).block@[j]
                &&& forall|j: int| 0 <= j < other.block@.len() ==> (#[trigger] final(self).block@[old(self).block@.len() - 1 + j])
                    == (permuted(old(self).block@.last().0, other.block@[j].0), other.block@[j].1)
            },
    {
        let r = self.block.extend_with_cloned(&other.block);
        proof {
            if r is Ok {
                assert forall|j: int| 0 <= j < other.block@.len() implies (#[trigger] self.block@[old(self).block@.len() - 1 + j])
                    == (permuted(old(self).block@.last().0, other.block@[j].0), other.block@[j].1) by {
                    let k = old(self).block@.len() - 1 + j;
                    assert(cloned::<Annot>(other.block@[j].1, self.block@[k].1));
                    assert(self.block@[k].1 == other.block@[j].1);
                }
            }
        }
        r
    }
}

/* ========== FULL SPECIFICATION ========== */

/// Whether fragments are muted after soloing fragment `i`: if it is the only unmuted fragment,
/// every fragment is unmuted; otherwise every fragment but it is muted.
pub open spec fn soloed(muted: Seq<bool>, i: int) -> Seq<bool> {
    let is_only_unmuted = forall|j: int| 0 <= j < muted.len() ==> #[trigger] muted[j] != (j == i);
    Seq::new(muted.len(), |j: int| !(j == i || is_only_unmuted))
}

/// Whether each fragment is muted.
pub open spec fn mutes(frags: Seq<Frag>) -> Seq<bool> {
    Seq::new(frags.len(), |j: int| frags[j].is_muted)
}

/// The number of rows in one part generated by the first `n` fragments.
pub open spec fn part_len_of(frags: Seq<Frag>, n: nat) -> nat
    decreases n,
{
    if n == 0 {
        0
    } else {
        part_len_of(frags, (n - 1) as nat) + (frags[n - 1].block@.len() - 1) as nat
    }
}

/// Where the first of two joined fragments ends up once the second is removed: one place down if
/// the second came before it.
pub open spec fn joined_index(frag_1_ind: int, frag_2_ind: int) -> int {
    if frag_2_ind < frag_1_ind { frag_1_ind - 1 } else { frag_1_ind }
}

/// The specification of a composition: the least information that unambiguously represents its
/// state.  Expanding it gives the rows that are displayed.
#[derive(Debug)]
pub struct Spec {
    pub frags: Vec<Frag>,
    pub part_heads: PartHeads,
    pub methods: Vec<MethodSpec>,
    pub calls: Vec<CallSpec>,
    pub stage: Stage,
}

impl Spec {
    /// The part heads and every fragment have the composition's stage (of at least one bell), and
    /// the annotations of every fragment refer to methods and calls that exist and fit.
    pub open spec fn wf(&self) -> bool {
        &&& self.part_heads.wf()
        &&& self.part_heads.rows_view()[0]@.len() == self.stage.num_bells
        &&& self.stage.num_bells >= 1
        &&& forall|f: int| 0 <= f < self.frags@.len() ==> {
            &&& (#[trigger] self.frags@[f]).wf()
            &&& self.frags@[f].start_row@.len() == self.stage.num_bells
            &&& annots_ok(self.frags@[f], self.methods@, self.calls@)
        }
    }

    /// Overwrites the part heads of this `Spec`.
    pub fn set_part_heads(&mut self, part_heads: PartHeads)
        ensures
            final(self).part_heads == part_heads,
            final(self).frags == old(self).frags,
            final(self).methods == old(self).methods,
            final(self).calls == old(self).calls,
            final(self).stage == old(self).stage,
    {
        self.part_heads = part_heads;
    }

    /// Deletes a fragment by index.
    pub fn delete_frag(&mut self, frag_ind: usize)
        requires
            frag_ind < old(self).frags@.len(),
        ensures
            old(self).wf() ==> final(self).wf(),
            final(self).frags@ == old(self).frags@.remove(frag_ind as int),
            final(self).part_heads == old(self).part_heads,
            final(self).methods == old(self).methods,
            final(self).calls == old(self).calls,
            final(self).stage == old(self).stage,
    {
        self.frags.remove(frag_ind);
    }

    /// Joins the fragment at `frag_2_ind` onto the end of the one at `frag_1_ind`, transposing it to
    /// follow on.  The combined fragment takes the place of the first (which moves down one place
    /// if the second came before it), and the second is removed.
    pub fn join_frags(&mut self, frag_1_ind: usize, frag_2_ind: usize)
        requires
            old(self).wf(),
            frag_1_ind != frag_2_ind,
            frag_1_ind < old(self).frags@.len(),
            frag_2_ind < old(self).frags@.len(),
        ensures
            final(self).wf(),
            final(self).frags@.len() == old(self).frags@.len() - 1,
            ({
                let corrected = joined_index(frag_1_ind as int, frag_2_ind as int);
                let f1 = old(self).frags@[frag_1_ind as int];
                let f2 = old(self).frags@[frag_2_ind as int];
                let joined = final(self).frags@[corrected];
                &&& forall|j: int| 0 <= j < final(self).frags@.len() && j != corrected
                    ==> #[trigger] final(self).frags@[j] == old(self).frags@.remove(frag_2_ind as int)[j]
                &&& joined.start_row == f1.start_row
                &&& joined.is_muted == f1.is_muted
                &&& joined.block@.len() == f1.block@.len() - 1 + f2.block@.len()
                &&& forall|j: int| 0 <= j < f1.block@.len() - 1 ==> #[trigger] joined.block@[j] == f1.block@[j]
                &&& forall|j: int| 0 <= j < f2.block@.len() ==> (#[trigger] joined.block@[f1.block@.len() - 1 + j])
                    == (permuted(f1.block@.last().0, f2.block@[j].0), f2.block@[j].1)
            }),
            final(self).part_heads == old(self).part_heads,
            final(self).methods == old(self).methods,
            final(self).calls == old(self).calls,
            final(self).stage == old(self).stage,
    {
        let ghost old_frags = self.frags@;
        // Remove the second fragment first; the first may then have moved down a place
        let frag_2 = self.frags.remove(frag_2_ind);
        let corrected_frag_1_ind = frag_1_ind - if frag_2_ind < frag_1_ind { 1 } else { 0 };
        let ghost removed = self.frags@;
        proof {
            assert(removed[corrected_frag_1_ind as int] == old_frags[frag_1_ind as int]);
            assert(frag_2 == old_frags[frag_2_ind as int]);
        }
        let mut frag_1 = self.frags.remove(corrected_frag_1_ind);
        let r = frag_1.join_with(&frag_2);
        proof {
            assert(frag_1.block@[0].0.len() == self.stage.num_bells) by {
                assert(old_frags[frag_1_ind as int].wf());
            }
            assert(frag_2.block@[0].0.len() == self.stage.num_bells) by {
                assert(old_frags[frag_2_ind as int].wf());
            }
        }
        self.frags.insert(corrected_frag_1_ind, frag_1);
        proof {
            assert forall|j: int| 0 <= j < self.frags@.len() && j != corrected_frag_1_ind
                implies #[trigger] self.frags@[j] == old_frags.remove(frag_2_ind as int)[j] by {
                assert(removed == old_frags.remove(frag_2_ind as int));
            }
            let f1 = old_frags[frag_1_ind as int];
            let f2 = old_frags[frag_2_ind as int];
            let joined = self.frags@[corrected_frag_1_ind as int];
            assert(annots_ok(f1, self.methods@, self.calls@));
            assert(annots_ok(f2, self.methods@, self.calls@));
            assert(f1.start_row@.len() == self.stage.num_bells);
            assert(f2.start_row@.len() == self.stage.num_bells);
            assert forall|i: int| 0 <= i < joined.block@.len() implies ((#[trigger] joined.block@[i]).1.method matches Some(m) ==> method_ok(self.methods@, m))
                && ((joined.block@[i]).1.call matches Some(c) ==> c.call_index < self.calls@.len() && call_fits(self.calls@[c.call_index as int], joined.start_row@.len())) by {
                if i < f1.block@.len() - 1 {
                    assert(joined.block@[i] == f1.block@[i]);
                } else {
                    let k = i - (f1.block@.len() - 1);
                    assert(joined.block@[f1.block@.len() - 1 + k].1 == f2.block@[k].1);
                }
            }
            assert forall|f: int| 0 <= f < self.frags@.len() implies {
                &&& (#[trigger] self.frags@[f]).wf()
                &&& self.frags@[f].start_row@.len() == self.stage.num_bells
                &&& annots_ok(self.frags@[f], self.methods@, self.calls@)
            } by {
                if f != corrected_frag_1_ind {
                    let g = if f < frag_2_ind { f } else { f + 1 };
                    assert(old_frags.remove(frag_2_ind as int)[f] == old_frags[g]);
                    assert(old_frags[g].wf());
                }
            }
        }
    }

    /// Soloes one fragment: if it is the only unmuted fragment, every fragment is unmuted;
    /// otherwise every fragment but it is muted.
    pub fn solo_single_frag(&mut self, frag_ind: usize)
        ensures
            old(self).wf() ==> final(self).wf(),
            final(self).frags@.len() == old(self).frags@.len(),
            mutes(final(self).frags@) == soloed(mutes(old(self).frags@), frag_ind as int),
            forall|j: int| 0 <= j < final(self).frags@.len() ==> (#[trigger] final(self).frags@[j]).start_row == old(self).frags@[j].start_row
                && final(self).frags@[j].block == old(self).frags@[j].block,
            final(self).part_heads == old(self).part_heads,
            final(self).methods == old(self).methods,
            final(self).calls == old(self).calls,
            final(self).stage == old(self).stage,
    {
        let ghost m0 = mutes(self.frags@);
        // Is `frag_ind` the only unmuted fragment?
        let mut is_only_unmuted_frag = true;
        let mut i: usize = 0;
        while i < self.frags.len()
            invariant
                i <= self.frags@.len(),
                m0 == mutes(self.frags@),
                is_only_unmuted_frag == forall|j: int| 0 <= j < i ==> #[trigger] m0[j] != (j == frag_ind),
            decreases self.frags@.len() - i,
        {
            proof {
                assert(m0[i as int] == self.frags@[i as int].is_muted);
            }
            if self.frags[i].is_muted == (i == frag_ind) {
                is_only_unmuted_frag = false;
            }
            i += 1;
        }
        let ghost old_frags = self.frags@;
        let ghost old_self = *self;
        // Set the state of every fragment
        let mut i: usize = 0;
        while i < self.frags.len()
            invariant
                i <= self.frags@.len(),
                self.part_heads == old_self.part_heads,
                self.methods == old_self.methods,
                self.calls == old_self.calls,
                self.stage == old_self.stage,
                self.frags@.len() == old_frags.len(),
                m0 == mutes(old_frags),
                is_only_unmuted_frag == forall|j: int| 0 <= j < m0.len() ==> #[trigger] m0[j] != (j == frag_ind),
                forall|j: int| 0 <= j < i ==> (#[trigger] self.frags@[j]).is_muted == soloed(m0, frag_ind as int)[j],
                forall|j: int| i <= j < self.frags@.len() ==> #[trigger] self.frags@[j] == old_frags[j],
                forall|j: int| 0 <= j < self.frags@.len() ==> (#[trigger] self.frags@[j]).start_row == old_frags[j].start_row
                    && self.frags@[j].block == old_frags[j].block,
            decreases self.frags@.len() - i,
        {
            let should_be_muted = !(i == frag_ind || is_only_unmuted_frag);
            if self.frags[i].is_muted != should_be_muted {
                let mut f = self.frags.remove(i);
                f.is_muted = should_be_muted;
                self.frags.insert(i, f);
            }
            i += 1;
        }
        proof {
            assert(mutes(self.frags@) =~= soloed(m0, frag_ind as int));
        }
    }

    /// Whether this `Spec` contains no rows: it has no fragments (fragments are never empty).
    pub fn is_empty(&self) -> (b: bool)
        ensures
            b == (self.frags@.len() == 0),
    {
        self.frags.len() == 0
    }

    /// The part heads of this `Spec`.
    pub fn part_heads(&self) -> (p: &PartHeads)
        ensures
            *p == self.part_heads,
    {
        &self.part_heads
    }

    /// The number of parts that this `Spec` has.
    pub fn num_parts(&self) -> (n: usize)
        ensures
            n == self.part_heads.rows_view().len(),
    {
        self.part_heads.len()
    }

    /// The number of rows generated in one part of this composition.
    pub fn part_len(&self) -> (l: usize)
        requires
            self.wf(),
            part_len_of(self.frags@, self.frags@.len()) <= usize::MAX,
        ensures
            l == part_len_of(self.frags@, self.frags@.len()),
    {
        let mut total: usize = 0;
        let mut i: usize = 0;
        while i < self.frags.len()
            invariant
                self.wf(),
                i <= self.frags@.len(),
                part_len_of(self.frags@, self.frags@.len()) <= usize::MAX,
                total == part_len_of(self.frags@, i as nat),
            decreases self.frags@.len() - i,
        {
            proof {
                lemma_part_len_mono(self.frags@, (i + 1) as nat, self.frags@.len());
                assert(((i + 1) - 1) as nat == i as nat);
                assert(self.frags@[i as int].wf());
            }
            total = total + self.frags[i].len();
            i += 1;
        }
        total
    }

    /// The number of rows that should be proved in the expanded composition: the length of a part
    /// times the number of parts.
    pub fn len(&self) -> (l: usize)
        requires
            self.wf(),
            self.part_heads.rows_view().len() * part_len_of(self.frags@, self.frags@.len()) <= usize::MAX,
        ensures
            l == self.part_heads.rows_view().len() * part_len_of(self.frags@, self.frags@.len()),
    {
        proof {
            let n = self.part_heads.rows_view().len();
            let p = part_len_of(self.frags@, self.frags@.len());
            assert(n >= 1);
            assert(p <= n * p) by (nonlinear_arith)
                requires n >= 1;
        }
        self.num_parts() * self.part_len()
    }

    /// The stage of this `Spec`.
    pub fn stage(&self) -> (s: Stage)
        ensures
            s == self.stage,
    {
        self.stage
    }

    /// Whether the fragment at the given index is muted, or `None` if there is no such fragment.
    pub fn is_frag_muted(&self, frag_ind: usize) -> (m: Option<bool>)
        ensures
            frag_ind < self.frags@.len() ==> m == Some(self.frags@[frag_ind as int].is_muted),
            frag_ind >= self.frags@.len() ==> m is None,
    {
        if frag_ind < self.frags.len() {
            Some(self.frags[frag_ind].is_muted)
        } else {
            None
        }
    }

    /// Generates all the rows of this `Spec`: for each fragment, one expanded row per row
    /// (including the leftover row), each holding one row per part.
    pub fn expand(&self) -> (exp: Vec<Vec<ExpandedRow>>)
        requires
            self.wf(),
        ensures
            exp@.len() == self.frags@.len(),
            forall|f: int| 0 <= f < self.frags@.len() ==> is_expansion(self.frags@[f], self.part_heads.rows_view(),
                self.methods@, self.calls@, (#[trigger] exp@[f])@),
    {
        let part_heads = self.part_heads.rows();
        let mut exp: Vec<Vec<ExpandedRow>> = Vec::new();
        let mut f: usize = 0;
        while f < self.frags.len()
            invariant
                self.wf(),
                part_heads@ == self.part_heads.rows_view(),
                f <= self.frags@.len(),
                exp@.len() == f,
                forall|g: int| 0 <= g < f ==> is_expansion(self.frags@[g], self.part_heads.rows_view(),
                    self.methods@, self.calls@, (#[trigger] exp@[g])@),
            decreases self.frags@.len() - f,
        {
            proof {
                assert(self.frags@[f as int].wf());
                assert forall|p: int| 0 <= p < part_heads@.len() implies (#[trigger] part_heads@[p])@.len() == self.frags@[f as int].start_row@.len() by {
                    assert(self.part_heads.rows_view()[p]@.len() == self.part_heads.rows_view()[0]@.len());
                }
            }
            exp.push(self.frags[f].expand(part_heads, self.methods.as_slice(), self.calls.as_slice()));
            f += 1;
        }
        exp
    }
}

proof fn lemma_part_len_mono(frags: Seq<Frag>, a: nat, b: nat)
    requires
        a <= b,
    ensures
        part_len_of(frags, a) <= part_len_of(frags, b),
    decreases b - a,
{
    if a < b {
        lemma_part_len_mono(frags, a, (b - 1) as nat);
    }
}

/// Within one method, a row that carries on from the row before in the lead (its place in the lead
/// is one after that of the row before, counted round the lead) starts no splice: its expanded row
/// has no method label, and the row before is a ruleoff only where it ends a lead.
pub proof fn law_expand_no_splice_within_method(frag: Frag, part_heads: Seq<Row>, methods: Seq<MethodSpec>,
    calls: Seq<CallSpec>, exp_rows: Seq<ExpandedRow>, i: int, lm: MethodRef, m: MethodRef)
    requires
        is_expansion(frag, part_heads, methods, calls, exp_rows),
        0 < i < frag.block@.len(),
        frag.block@[i - 1].1.method == Some(lm),
        frag.block@[i].1.method == Some(m),
        lm.method_index == m.method_index,
        (lm.sub_lead_index + 1) % (methods[m.method_index as int].method.lead_view().len() - 1) == m.sub_lead_index,
    ensures
        exp_rows[i].method_label is None,
        exp_rows[i - 1].is_ruleoff == frag.block@[i - 1].1.is_lead_end,
{
    assert(is_row_expansion(frag, part_heads, methods, calls, i, exp_rows[i]));
    assert(is_row_expansion(frag, part_heads, methods, calls, i - 1, exp_rows[i - 1]));
    assert(i - 1 + 1 == i);
}

/// A plain course carries on across a lead end: where the row before is the last row of a lead of
/// a method (of at least one row per lead) and the row is the first of the next lead of the same
/// method, the row starts no splice.  It gets no method label, and the row before is a ruleoff only
/// because it ends a lead.
pub proof fn law_expand_no_splice_at_lead_end(frag: Frag, part_heads: Seq<Row>, methods: Seq<MethodSpec>,
    calls: Seq<CallSpec>, exp_rows: Seq<ExpandedRow>, i: int, lm: MethodRef, m: MethodRef)
    requires
        is_expansion(frag, part_heads, methods, calls, exp_rows),
        0 < i < frag.block@.len(),
        frag.block@[i - 1].1.method == Some(lm),
        frag.block@[i].1.method == Some(m),
        lm.method_index == m.method_index,
        methods[m.method_index as int].method.lead_view().len() >= 2,
        lm.sub_lead_index + 1 == methods[m.method_index as int].method.lead_view().len() - 1,
        m.sub_lead_index == 0,
    ensures
        exp_rows[i].method_label is None,
        exp_rows[i - 1].is_ruleoff == frag.block@[i - 1].1.is_lead_end,
{
    let l = methods[m.method_index as int].method.lead_view().len() - 1;
    vstd::arithmetic::div_mod::lemma_mod_self_0(l);
    law_expand_no_splice_within_method(frag, part_heads, methods, calls, exp_rows, i, lm, m);
}

/// A row with a method starts a splice, so that its expanded row carries the label of that method
/// and the row before (if any) is a ruleoff, when it is the first row, when the row before has no
/// method or another one, or when it does not carry on from the row before in the lead.  A row
/// without a method never carries a method label.
pub proof fn law_expand_splice_labels(frag: Frag, part_heads: Seq<Row>, methods: Seq<MethodSpec>,
    calls: Seq<CallSpec>, exp_rows: Seq<ExpandedRow>, i: int)
    requires
        is_expansion(frag, part_heads, methods, calls, exp_rows),
        0 <= i < frag.block@.len(),
    ensures
        frag.block@[i].1.method is None ==> exp_rows[i].method_label is None,
        (frag.block@[i].1.method matches Some(m) && (i == 0 || match frag.block@[i - 1].1.method {
            None => true,
            Some(lm) => lm.method_index != m.method_index
                || (lm.sub_lead_index + 1) % (methods[m.method_index as int].method.lead_view().len() - 1) != m.sub_lead_index,
        })) ==> {
            &&& exp_rows[i].method_label matches Some(ml)
            &&& ml.name@ == methods[frag.block@[i].1.method.unwrap().method_index as int].method.name_view()
            &&& i > 0 ==> exp_rows[i - 1].is_ruleoff
        },
{
    assert(is_row_expansion(frag, part_heads, methods, calls, i, exp_rows[i]));
    if i > 0 {
        assert(is_row_expansion(frag, part_heads, methods, calls, i - 1, exp_rows[i - 1]));
        assert(i - 1 + 1 == i);
    }
}

/// Soloing a fragment always leaves it unmuted.
pub proof fn law_soloed_is_unmuted(muted: Seq<bool>, i: int)
    requires
        0 <= i < muted.len(),
    ensures
        !soloed(muted, i)[i],
{
}

/// Soloing the same fragment twice, starting where it is not the only unmuted fragment, unmutes
/// every fragment: the first solo mutes all the others, and soloing the only unmuted fragment
/// unmutes everything.
pub proof fn law_solo_twice_unmutes_all(muted: Seq<bool>, i: int)
    requires
        0 <= i < muted.len(),
        !(forall|j: int| 0 <= j < muted.len() ==> #[trigger] muted[j] != (j == i)),
    ensures
        forall|j: int| 0 <= j < muted.len() ==> !#[trigger] soloed(soloed(muted, i), i)[j],
{
    let once = soloed(muted, i);
    assert forall|j: int| 0 <= j < once.len() implies #[trigger] once[j] != (j == i) by {}
}

impl Frag {
    /// Transposes this `Frag` so that its row at `row_ind` becomes `target_row` (which must have
    /// the fragment's stage): the start row is premultiplied by the transposition from the row's
    /// current value to the target.
    pub fn transpose_row_to(&mut self, row_ind: usize, target_row: &Row) -> (r: Result<(), IncompatibleStages>)
        requires
            old(self).wf(),
            row_ind < old(self).block@.len(),
            target_row@.len() == old(self).start_row@.len(),
        ensures
            r is Ok,
            final(self).wf(),
            final(self).block == old(self).block,
            final(self).is_muted == old(self).is_muted,
            permuted(final(self).start_row@, old(self).block@[row_ind as int].0) == target_row@,
    {
        let row = match self.block.get_row(row_ind) {
            Some(row) => row,
            None => {
                proof {
                    assert(false);
                }
                return Ok(());
            },
        };
        let start = &self.start_row;
        let _ = start.slice();
        let _ = row.slice();
        let target_len = target_row.slice().len();
        proof {
            assert(self.block@[row_ind as int].0.len() == self.block@[0].0.len());
            assert(target_row@.len() == target_len);
        }
        let current = start.mul_unchecked(row);
        let inv_current = current.inv();
        let transposition = target_row.mul_unchecked(&inv_current);
        let ghost s = self.start_row@;
        let ghost b = row@;
        let ghost c = current@;
        let ghost ic = inv_current@;
        let ghost t = transposition@;
        let _ = current.slice();
        let _ = inv_current.slice();
        let _ = transposition.slice();
        let r = self.transpose(&transposition);
        proof {
            // (t * s) * b == t * (s * b) == (target * inv(c)) * c == target
            law_mul_assoc(t, s, b);
            law_mul_assoc(target_row@, ic, c);
            law_inverse(c, ic);
            law_rounds_identity(target_row@);
        }
        r
    }
}

/// Splitting a fragment loses no rows: the rows of the second part, transposed to start from
/// rounds and rung from the split row, are the rows it had before.
pub proof fn law_split_keeps_rows(start: Seq<Bell>, split_row: Seq<Bell>, split_row_inv: Seq<Bell>, row: Seq<Bell>)
    requires
        valid_bells(start),
        valid_bells(split_row),
        valid_bells(row),
        start.len() == split_row.len(),
        row.len() == split_row.len(),
        split_row_inv.len() == split_row.len(),
        indices(split_row_inv) == inverse(indices(split_row)),
        start.len() <= usize::MAX,
    ensures
        permuted(permuted(start, split_row), permuted(split_row_inv, row)) == permuted(start, row),
{
    law_inverse(split_row, split_row_inv);
    crate::bellcore::row::lemma_permuted_valid(start, split_row);
    law_mul_assoc(permuted(start, split_row), split_row_inv, row);
    law_mul_assoc(start, split_row, split_row_inv);
    law_rounds_identity(start);
}

impl Frag {
    /// Splits this `Frag` in two so that the first part has `split_index` rows: this fragment keeps
    /// the rows up to and including the split row (which becomes its leftover row), and the
    /// returned fragment has the rest, transposed to start from rounds and rung from the split row.
    /// Both keep the mutedness.  Fails (changing nothing) if either part would have no rows.
    pub fn split(&mut self, split_index: usize) -> (r: Result<Frag, FragSplitError>)
        requires
            old(self).wf(),
        ensures
            (split_index == 0 || split_index >= old(self).block@.len() - 1) <==> r is Err,
            r is Err ==> r == Err::<Frag, FragSplitError>(FragSplitError::ZeroLengthFrag) && *final(self) == *old(self),
            r matches Ok(f2) ==> {
                &&& final(self).wf()
                &&& f2.wf()
                &&& final(self).start_row == old(self).start_row
                &&& final(self).is_muted == old(self).is_muted
                &&& final(self).block@ == old(self).block@.take(split_index + 1)
                &&& f2.start_row@ == permuted(old(self).start_row@, old(self).block@[split_index as int].0)
                &&& f2.is_muted == old(self).is_muted
                &&& f2.block@.len() == old(self).block@.len() - split_index
                &&& forall|k: int| 0 <= k < f2.block@.len() ==> #[trigger] f2.block@[k]
                    == (permuted(inverse_bells(old(self).block@[split_index as int].0), old(self).block@[split_index + k].0),
                        old(self).block@[split_index + k].1)
            },
    {
        let len = self.block.len();
        if split_index == 0 || split_index >= len {
            return Err(FragSplitError::ZeroLengthFrag);
        }
        let rows = self.block.annot_rows();
        let n = rows.len();
        let ghost b = self.block@;
        proof {
            assert(b[split_index as int].0.len() == b[0].0.len());
        }
        let split_row = &rows[split_index].0;
        let inv = split_row.inv();
        let split_len = split_row.slice().len();
        proof {
            assert(split_row@.len() == split_len);
            lemma_inverse_bells(split_row@);
            crate::bellcore::row::lemma_indices_injective(inv@, inverse_bells(split_row@));
            assert(annot_view(rows@)[split_index as int] == (rows@[split_index as int].0@, rows@[split_index as int].1));
        }
        // The first part: the rows up to and including the split row
        let mut first: Vec<(Row, Annot)> = Vec::new();
        let mut k: usize = 0;
        while k <= split_index
            invariant
                k <= split_index + 1,
                split_index < n,
                n == b.len(),
                annot_view(rows@) == b,
                annot_view(first@) == b.take(k as int),
            decreases split_index + 1 - k,
        {
            let row = rows[k].0.clone();
            let ghost before = first@;
            first.push((row, rows[k].1));
            proof {
                assert(annot_view(rows@)[k as int] == (rows@[k as int].0@, rows@[k as int].1));
                assert(annot_view(first@) =~= annot_view(before).push(b[k as int]));
                assert(annot_view(first@) =~= b.take(k + 1));
            }
            k += 1;
        }
        // The second part: the rest, transposed to start from rounds
        let mut second: Vec<(Row, Annot)> = Vec::new();
        let mut k: usize = split_index;
        while k < n
            invariant
                split_index <= k <= n,
                n == b.len(),
                annot_view(rows@) == b,
                inv@ == inverse_bells(b[split_index as int].0),
                inv@.len() == b[0].0.len(),
                forall|j: int| 0 <= j < n ==> (#[trigger] b[j]).0.len() == b[0].0.len(),
                second@.len() == k - split_index,
                forall|j: int| 0 <= j < second@.len() ==> (#[trigger] annot_view(second@)[j])
                    == (permuted(inv@, b[split_index + j].0), b[split_index + j].1),
            decreases n - k,
        {
            proof {
                assert(annot_view(rows@)[k as int] == (rows@[k as int].0@, rows@[k as int].1));
                assert(b[k as int].0.len() == b[0].0.len());
            }
            let ghost before = second@;
            second.push((inv.mul_unchecked(&rows[k].0), rows[k].1));
            proof {
                assert forall|j: int| 0 <= j < second@.len() implies (#[trigger] annot_view(second@)[j])
                    == (permuted(inv@, b[split_index + j].0), b[split_index + j].1) by {
                    if j < before.len() {
                        assert(annot_view(second@)[j] == annot_view(before)[j]);
                    }
                }
            }
            k += 1;
        }
        let new_start = self.start_row.mul_unchecked(split_row);
        proof {
            assert(block_rows_ok(annot_view(first@)));
            assert forall|j: int| 0 <= j < second@.len() implies (#[trigger] annot_view(second@)[j]).0.len() == annot_view(second@)[0].0.len() by {
                assert(annot_view(second@)[j].0.len() == b[split_index + j].0.len());
            }
            assert(block_rows_ok(annot_view(second@)));
        }
        let ghost old_self = *self;
        self.block = AnnotBlock::from_annot_rows_unchecked(first);
        let f2 = Frag { start_row: new_start, block: AnnotBlock::from_annot_rows_unchecked(second), is_muted: self.is_muted };
        proof {
            assert forall|k2: int| 0 <= k2 < f2.block@.len() implies #[trigger] f2.block@[k2]
                == (permuted(inverse_bells(b[split_index as int].0), b[split_index + k2].0), b[split_index + k2].1) by {
                assert(annot_view(second@)[k2] == f2.block@[k2]);
            }
        }
        Ok(f2)
    }
}

impl Spec {
    /// Splits the fragment at `frag_ind` into two so that the first part has `split_index` rows:
    /// the first part stays in its place, and the second is added at the end (so fragments do not
    /// jump to the top of the stack).  Fails, changing nothing, if there is no such fragment or if
    /// either part would have no rows.
    pub fn split_frag(&mut self, frag_ind: usize, split_index: usize) -> (r: Result<(), FragSplitError>)
        requires
            old(self).wf(),
        ensures
            final(self).wf(),
            frag_ind >= old(self).frags@.len() ==> r == Err::<(), FragSplitError>(FragSplitError::IndexOutOfRange {
                index: frag_ind,
                num_frags: old(self).frags@.len() as usize,
            }),
            frag_ind < old(self).frags@.len() && (split_index == 0 || split_index >= old(self).frags@[frag_ind as int].block@.len() - 1)
                ==> r == Err::<(), FragSplitError>(FragSplitError::ZeroLengthFrag),
            frag_ind < old(self).frags@.len() && 0 < split_index < old(self).frags@[frag_ind as int].block@.len() - 1
                ==> r is Ok,
            r is Err ==> final(self).frags@ == old(self).frags@,
            r is Ok ==> {
                let f = old(self).frags@[frag_ind as int];
                &&& final(self).frags@.len() == old(self).frags@.len() + 1
                &&& forall|j: int| 0 <= j < old(self).frags@.len() && j != frag_ind ==> #[trigger] final(self).frags@[j] == old(self).frags@[j]
                &&& final(self).frags@[frag_ind as int].block@ == f.block@.take(split_index + 1)
                &&& final(self).frags@[frag_ind as int].start_row == f.start_row
                &&& final(self).frags@[frag_ind as int].is_muted == f.is_muted
                &&& final(self).frags@.last().start_row@ == permuted(f.start_row@, f.block@[split_index as int].0)
                &&& final(self).frags@.last().block@.len() == f.block@.len() - split_index
                &&& forall|k: int| 0 <= k < f.block@.len() - split_index ==> #[trigger] final(self).frags@.last().block@[k]
                    == (permuted(inverse_bells(f.block@[split_index as int].0), f.block@[split_index + k].0),
                        f.block@[split_index + k].1)
                &&& final(self).frags@.last().is_muted == f.is_muted
            },
            final(self).part_heads == old(self).part_heads,
            final(self).methods == old(self).methods,
            final(self).calls == old(self).calls,
            final(self).stage == old(self).stage,
    {
        let num_frags = self.frags.len();
        if frag_ind >= num_frags {
            return Err(FragSplitError::IndexOutOfRange { index: frag_ind, num_frags });
        }
        let ghost old_frags = self.frags@;
        let mut frag = self.frags.remove(frag_ind);
        proof {
            assert(frag == old_frags[frag_ind as int]);
            assert(self.frags@ == old_frags.remove(frag_ind as int));
        }
        match frag.split(split_index) {
            Err(e) => {
                self.frags.insert(frag_ind, frag);
                proof {
                    assert(self.frags@ =~= old_frags);
                }
                Err(e)
            },
            Ok(new_frag) => {
                self.frags.insert(frag_ind, frag);
                self.frags.push(new_frag);
                proof {
                    assert forall|j: int| 0 <= j < old_frags.len() && j != frag_ind implies #[trigger] self.frags@[j] == old_frags[j] by {}
                }
                Ok(())
            },
        }
    }
}

impl Frag {
    /// Creates a `Frag` from a sequence of annotated rows (at least two, all of one stage): the
    /// first row becomes the start row, and the block holds the rows transposed to start from
    /// rounds, so that ringing the block from the start row gives the rows back.
    pub fn from_rows(rows: Vec<(Row, Annot)>, is_muted: bool) -> (f: Frag)
        requires
            rows@.len() >= 2,
            forall|k: int| 0 <= k < rows@.len() ==> (#[trigger] rows@[k]).0@.len() == rows@[0].0@.len(),
        ensures
            f.wf(),
            f.is_muted == is_muted,
            f.start_row@ == rows@[0].0@,
            f.block@.len() == rows@.len(),
            forall|k: int| 0 <= k < rows@.len() ==> #[trigger] f.block@[k]
                == (permuted(inverse_bells(rows@[0].0@), rows@[k].0@), rows@[k].1),
            forall|k: int| 0 <= k < rows@.len() ==> permuted(f.start_row@, #[trigger] f.block@[k].0) == rows@[k].0@,
    {
        let first_row = rows[0].0.clone();
        let inv_first_row = first_row.inv();
        let n0 = first_row.slice().len();
        proof {
            assert(first_row@.len() == n0);
            lemma_inverse_bells(first_row@);
            crate::bellcore::row::lemma_indices_injective(inv_first_row@, inverse_bells(first_row@));
        }
        // Transpose all the rows so that the block starts with rounds
        let ghost rows0 = rows@;
        let mut block_rows: Vec<(Row, Annot)> = Vec::new();
        for annot_row in it: rows
            invariant
                it.seq() == rows0,
                rows0.len() >= 2,
                forall|k: int| 0 <= k < rows0.len() ==> (#[trigger] rows0[k]).0@.len() == rows0[0].0@.len(),
                inv_first_row@ == inverse_bells(rows0[0].0@),
                inv_first_row@.len() == rows0[0].0@.len(),
                block_rows@.len() == it.index(),
                forall|k: int| 0 <= k < block_rows@.len() ==> valid_bells(#[trigger] rows0[k].0@),
                forall|k: int| 0 <= k < block_rows@.len() ==> (#[trigger] annot_view(block_rows@)[k])
                    == (permuted(inverse_bells(rows0[0].0@), rows0[k].0@), rows0[k].1),
        {
            let ghost k = block_rows@.len();
            let (row, annot) = annot_row;
            let _ = row.slice();
            proof {
                assert(row@.len() == rows0[0].0@.len());
            }
            let ghost before = block_rows@;
            block_rows.push((inv_first_row.mul_unchecked(&row), annot));
            proof {
                assert forall|j: int| 0 <= j < block_rows@.len() implies (#[trigger] annot_view(block_rows@)[j])
                    == (permuted(inverse_bells(rows0[0].0@), rows0[j].0@), rows0[j].1) by {
                    if j < before.len() {
                        assert(annot_view(block_rows@)[j] == annot_view(before)[j]);
                    }
                }
            }
        }
        proof {
            assert forall|j: int| 0 <= j < block_rows@.len() implies (#[trigger] annot_view(block_rows@)[j]).0.len() == annot_view(block_rows@)[0].0.len() by {
                assert(annot_view(block_rows@)[j].0.len() == rows0[j].0@.len());
            }
        }
        let f = Frag { start_row: first_row, block: AnnotBlock::from_annot_rows_unchecked(block_rows), is_muted };
        proof {
            assert forall|k: int| 0 <= k < rows0.len() implies permuted(f.start_row@, #[trigger] f.block@[k].0) == rows0[k].0@ by {
                assert(f.block@[k] == annot_view(block_rows@)[k]);
                let s0 = rows0[0].0@;
                law_inverse(s0, inverse_bells(s0));
                law_mul_assoc(s0, inverse_bells(s0), rows0[k].0@);
                law_rounds_identity(rows0[k].0@);
            }
        }
        f
    }
}


/* ========== COPIES ========== */

/// Two method specifications with the same shorthand, notation, name and lead.
pub open spec fn same_method(a: MethodSpec, b: MethodSpec) -> bool {
    &&& a.shorthand@ == b.shorthand@
    &&& a.place_not_string@ == b.place_not_string@
    &&& a.method.name_view() == b.method.name_view()
    &&& a.method.lead_view() == b.method.lead_view()
    &&& a.method.wf() == b.method.wf()
}

/// Two call specifications with the same calling positions and the same call.
pub open spec fn same_call(a: CallSpec, b: CallSpec) -> bool {
    &&& a.calling_positions@ == b.calling_positions@
    &&& a.call.notation_view() == b.call.notation_view()
    &&& a.call.location_view() == b.call.location_view()
    &&& a.call.replaces_view() == b.call.replaces_view()
    &&& a.call.block_view()@ == b.call.block_view()@
}

/// What a fragment is made of: its start row, its annotated rows and whether it is muted.
pub open spec fn frag_view(f: Frag) -> (Seq<Bell>, Seq<(Seq<Bell>, Annot)>, bool) {
    (f.start_row@, f.block@, f.is_muted)
}

/// What each of some fragments is made of.
pub open spec fn frag_views(fs: Seq<Frag>) -> Seq<(Seq<Bell>, Seq<(Seq<Bell>, Annot)>, bool)> {
    Seq::new(fs.len(), |i: int| frag_view(fs[i]))
}

/// Two part head lists generated from the same text, with the same rows.
pub open spec fn same_part_heads(a: PartHeads, b: PartHeads) -> bool {
    &&& a.spec_view() == b.spec_view()
    &&& a.rows_view().len() == b.rows_view().len()
    &&& forall|i: int| 0 <= i < a.rows_view().len() ==> (#[trigger] a.rows_view()[i])@ == b.rows_view()[i]@
}

impl Spec {
    /// Two specifications of the same composition: the same fragments, part heads, methods, calls
    /// and stage.
    pub open spec fn same_as(&self, other: &Spec) -> bool {
        &&& frag_views(self.frags@) == frag_views(other.frags@)
        &&& self.same_settings(other)
    }

    /// Two specifications with the same part heads, methods, calls and stage (their fragments
    /// may differ).
    pub open spec fn same_settings(&self, other: &Spec) -> bool {
        &&& same_part_heads(self.part_heads, other.part_heads)
        &&& self.methods@.len() == other.methods@.len()
        &&& forall|m: int| 0 <= m < self.methods@.len() ==> same_method(#[trigger] self.methods@[m], other.methods@[m])
        &&& self.calls@.len() == other.calls@.len()
        &&& forall|c: int| 0 <= c < self.calls@.len() ==> same_call(#[trigger] self.calls@[c], other.calls@[c])
        &&& self.stage == other.stage
    }
}

impl Clone for MethodSpec {
    fn clone(&self) -> (m: MethodSpec)
        ensures
            same_method(m, *self),
    {
        MethodSpec {
            shorthand: self.shorthand.clone(),
            place_not_string: self.place_not_string.clone(),
            method: self.method.clone(),
        }
    }
}

impl Clone for CallSpec {
    fn clone(&self) -> (c: CallSpec)
        ensures
            same_call(c, *self),
    {
        let calling_positions = self.calling_positions.clone();
        assert(calling_positions@ =~= self.calling_positions@);
        CallSpec { call: self.call.clone(), calling_positions }
    }
}

impl Clone for Frag {
    fn clone(&self) -> (f: Frag)
        ensures
            frag_view(f) == frag_view(*self),
    {
        let block = self.block.clone();
        proof {
            assert forall|i: int| 0 <= i < block@.len() implies #[trigger] block@[i] == self.block@[i] by {
                lemma_annot_cloned(self.block@[i].1, block@[i].1);
            }
            assert(block@ =~= self.block@);
        }
        Frag { start_row: self.start_row.clone(), block, is_muted: self.is_muted }
    }
}

impl Clone for Spec {
    fn clone(&self) -> (c: Spec)
        ensures
            c.same_as(self),
    {
        let mut frags: Vec<Frag> = Vec::new();
        let mut i: usize = 0;
        while i < self.frags.len()
            invariant
                i <= self.frags@.len(),
                frags@.len() == i,
                forall|j: int| 0 <= j < i ==> frag_view(#[trigger] frags@[j]) == frag_view(self.frags@[j]),
            decreases self.frags@.len() - i,
        {
            frags.push(self.frags[i].clone());
            i += 1;
        }
        let mut methods: Vec<MethodSpec> = Vec::new();
        let mut i: usize = 0;
        while i < self.methods.len()
            invariant
                i <= self.methods@.len(),
                methods@.len() == i,
                forall|j: int| 0 <= j < i ==> same_method(#[trigger] methods@[j], self.methods@[j]),
            decreases self.methods@.len() - i,
        {
            methods.push(self.methods[i].clone());
            i += 1;
        }
        let mut calls: Vec<CallSpec> = Vec::new();
        let mut i: usize = 0;
        while i < self.calls.len()
            invariant
                i <= self.calls@.len(),
                calls@.len() == i,
                forall|j: int| 0 <= j < i ==> same_call(#[trigger] calls@[j], self.calls@[j]),
            decreases self.calls@.len() - i,
        {
            calls.push(self.calls[i].clone());
            i += 1;
        }
        let c = Spec { frags, part_heads: self.part_heads.clone(), methods, calls, stage: self.stage };
        assert(frag_views(c.frags@) =~= frag_views(self.frags@));
        c
    }
}

/// Specifications of the same composition are both well-formed or both not.
pub proof fn lemma_same_spec_wf(a: Spec, b: Spec)
    requires
        a.same_as(&b),
        a.wf(),
    ensures
        b.wf(),
{
    assert(frag_views(a.frags@).len() == a.frags@.len());
    assert(frag_views(b.frags@).len() == b.frags@.len());
    assert forall|f: int| 0 <= f < b.frags@.len() implies {
        &&& (#[trigger] b.frags@[f]).wf()
        &&& b.frags@[f].start_row@.len() == b.stage.num_bells
        &&& annots_ok(b.frags@[f], b.methods@, b.calls@)
    } by {
        assert(frag_views(a.frags@)[f] == frag_views(b.frags@)[f]);
        let fa = a.frags@[f];
        let fb = b.frags@[f];
        assert(fa.wf());
        assert(annots_ok(fa, a.methods@, a.calls@));
        assert forall|i: int| 0 <= i < fb.block@.len() implies ((#[trigger] fb.block@[i]).1.method matches Some(m) ==> method_ok(b.methods@, m)) by {
            if let Some(m) = fb.block@[i].1.method {
                assert(fa.block@[i] == fb.block@[i]);
                assert(method_ok(a.methods@, m));
                assert(same_method(a.methods@[m.method_index as int], b.methods@[m.method_index as int]));
            }
        }
        assert forall|i: int| 0 <= i < fb.block@.len() implies ((#[trigger] fb.block@[i]).1.call matches Some(c) ==>
            c.call_index < b.calls@.len() && call_fits(b.calls@[c.call_index as int], fb.start_row@.len())) by {
            if let Some(c) = fb.block@[i].1.call {
                assert(fa.block@[i] == fb.block@[i]);
                assert(same_call(a.calls@[c.call_index as int], b.calls@[c.call_index as int]));
            }
        }
    }
    assert(b.part_heads.rows_view()[0]@ == a.part_heads.rows_view()[0]@);
    assert forall|i: int| 0 <= i < b.part_heads.rows_view().len() implies (#[trigger] b.part_heads.rows_view()[i])@.len() == b.part_heads.rows_view()[0]@.len() by {
        assert(a.part_heads.rows_view()[i]@ == b.part_heads.rows_view()[i]@);
    }
}

/// The number of rows in the first `n` fragments depends only on how many rows each has.
pub proof fn lemma_total_rows_agree(a: Seq<Frag>, b: Seq<Frag>, n: nat)
    requires
        n <= a.len(),
        n <= b.len(),
        forall|j: int| 0 <= j < n ==> (#[trigger] a[j]).block@.len() == b[j].block@.len(),
    ensures
        total_rows(a, n) == total_rows(b, n),
    decreases n,
{
    if n > 0 {
        lemma_total_rows_agree(a, b, (n - 1) as nat);
        assert(a[n - 1].block@.len() == b[n - 1].block@.len());
    }
}

/// Removing a fragment removes its rows from the total.
pub proof fn lemma_total_rows_remove(s: Seq<Frag>, i: int, n: nat)
    requires
        0 <= i < n <= s.len(),
    ensures
        total_rows(s.remove(i), (n - 1) as nat) + s[i].block@.len() == total_rows(s, n),
    decreases n,
{
    if n - 1 == i {
        lemma_total_rows_agree(s.remove(i), s, (n - 1) as nat);
    } else {
        lemma_total_rows_remove(s, i, (n - 1) as nat);
        assert(s.remove(i)[n - 2] == s[n - 1]);
    }
}

/// Replacing a fragment replaces its rows in the total.
pub proof fn lemma_total_rows_update(s: Seq<Frag>, i: int, f: Frag, n: nat)
    requires
        0 <= i < n <= s.len(),
    ensures
        total_rows(s.update(i, f), n) + s[i].block@.len() == total_rows(s, n) + f.block@.len(),
    decreases n,
{
    if n - 1 == i {
        lemma_total_rows_agree(s.update(i, f), s, (n - 1) as nat);
    } else {
        lemma_total_rows_update(s, i, f, (n - 1) as nat);
    }
}

/// Adding a fragment at the end adds its rows to the total.
pub proof fn lemma_total_rows_push(s: Seq<Frag>, f: Frag)
    ensures
        total_rows(s.push(f), s.len() + 1) == total_rows(s, s.len()) + f.block@.len(),
{
    lemma_total_rows_agree(s.push(f), s, s.len());
}

/// Being the same composition goes both ways.
pub proof fn lemma_same_as_symmetric(a: Spec, b: Spec)
    requires
        a.same_as(&b),
    ensures
        b.same_as(&a),
{
    assert forall|m: int| 0 <= m < b.methods@.len() implies same_method(#[trigger] b.methods@[m], a.methods@[m]) by {
        assert(same_method(a.methods@[m], b.methods@[m]));
    }
    assert forall|c: int| 0 <= c < b.calls@.len() implies same_call(#[trigger] b.calls@[c], a.calls@[c]) by {
        assert(same_call(a.calls@[c], b.calls@[c]));
    }
    assert forall|i: int| 0 <= i < b.part_heads.rows_view().len() implies (#[trigger] b.part_heads.rows_view()[i])@
        == a.part_heads.rows_view()[i]@ by {
        assert(a.part_heads.rows_view()[i]@ == b.part_heads.rows_view()[i]@);
    }
}

/// Fragments made of the same rows have the same number of rows in all.
pub proof fn lemma_same_total_rows(a: Seq<Frag>, b: Seq<Frag>)
    requires
        frag_views(a) == frag_views(b),
    ensures
        a.len() == b.len(),
        total_rows(a, a.len()) == total_rows(b, b.len()),
{
    assert(frag_views(a).len() == a.len());
    assert(frag_views(b).len() == b.len());
    assert forall|j: int| 0 <= j < a.len() implies (#[trigger] a[j]).block@.len() == b[j].block@.len() by {
        assert(frag_views(a)[j] == frag_views(b)[j]);
    }
    lemma_total_rows_agree(a, b, a.len());
}


/* ========== REPEATING FRAGMENTS ========== */

/// The rows of a block rung `t` times in succession (`t >= 1`): each copy starts from the leftover
/// row of the copies before it, and replaces that leftover row.
pub open spec fn repeated(rows: Seq<(Seq<Bell>, Annot)>, t: nat) -> Seq<(Seq<Bell>, Annot)>
    decreases t,
{
    if t <= 1 {
        rows
    } else {
        let prev = repeated(rows, (t - 1) as nat);
        prev.take(prev.len() - 1) + transposed(prev.last().0, rows)
    }
}

/// After `k` copies of a block, and no fewer, the rows come back to rounds.
pub open spec fn first_return(rows: Seq<(Seq<Bell>, Annot)>, k: nat) -> bool {
    &&& k >= 1
    &&& indices(repeated(rows, k).last().0) == identity(rows[0].0.len())
    &&& forall|t: nat| 1 <= t < k ==> indices(#[trigger] repeated(rows, t).last().0) != identity(rows[0].0.len())
}

/// The annotated rows of a fragment made of one lead of method `method_ind`: each row is labelled
/// with the method and where it is in the lead, and is a lead end where the lead labels it; the
/// leftover row carries no method.
pub open spec fn lead_frag_rows(lead: Seq<(Seq<Bell>, Option<String>)>, method_ind: usize) -> Seq<(Seq<Bell>, Annot)> {
    Seq::new(lead.len(), |i: int| (lead[i].0, Annot {
        is_lead_end: lead[i].1 is Some,
        method: if i == lead.len() - 1 { None } else { Some(MethodRef { method_index: method_ind, sub_lead_index: i as usize }) },
        call: None,
    }))
}

/// `f` is a new fragment of the composition `spec` made of method `method_ind`: starting from
/// rounds and unmuted, one lead of the method, or as many leads as bring it back to rounds.
pub open spec fn is_new_frag(f: Frag, spec: Spec, method_ind: usize, add_course: bool) -> bool {
    let rows = lead_frag_rows(spec.methods@[method_ind as int].method.lead_view(), method_ind);
    &&& f.wf()
    &&& f.start_row@ == rounds_bells(spec.stage.num_bells as nat)
    &&& !f.is_muted
    &&& if add_course {
        exists|k: nat| first_return(rows, k) && f.block@ == #[trigger] repeated(rows, k)
    } else {
        f.block@ == rows
    }
}

/// A new fragment is determined by the method it is made of and whether it is a whole course.
pub proof fn lemma_new_frag_unique(a: Frag, b: Frag, spec: Spec, method_ind: usize, add_course: bool)
    requires
        is_new_frag(a, spec, method_ind, add_course),
        is_new_frag(b, spec, method_ind, add_course),
    ensures
        a.block@ == b.block@,
{
    if add_course {
        let rows = lead_frag_rows(spec.methods@[method_ind as int].method.lead_view(), method_ind);
        let ka = choose|k: nat| first_return(rows, k) && a.block@ == #[trigger] repeated(rows, k);
        let kb = choose|k: nat| first_return(rows, k) && b.block@ == #[trigger] repeated(rows, k);
        if ka < kb {
            assert(indices(repeated(rows, ka).last().0) != identity(rows[0].0.len()));
        } else if kb < ka {
            assert(indices(repeated(rows, kb).last().0) != identity(rows[0].0.len()));
        }
    }
}

impl Frag {
    /// Joins this `Frag` to itself repeatedly until its rows come back to rounds (for a plain lead,
    /// this gives a whole course of the method).  The start row and mutedness are kept.
    pub fn expand_to_round_block(&self) -> (f: Frag)
        requires
            self.wf(),
        ensures
            f.wf(),
            f.start_row@ == self.start_row@,
            f.is_muted == self.is_muted,
            exists|k: nat| first_return(self.block@, k) && f.block@ == #[trigger] repeated(self.block@, k),
            forall|i: int| 0 <= i < f.block@.len() ==> exists|j: int| 0 <= j < self.block@.len()
                && (#[trigger] f.block@[i]).1 == self.block@[j].1,
    {
        let mut f = self.clone();
        let lead_head = &self.block.leftover_row().0;
        let _ = lead_head.stage();
        let ghost rows = self.block@;
        let ghost p = indices(rows.last().0);
        let ghost n = rows[0].0.len();
        let ghost order = lemma_order_exists(p);
        let ghost mut t: nat = 1;
        proof {
            lemma_power_one(p);
            assert(f.block@ == repeated(rows, 1));
            assert forall|i: int| 0 <= i < f.block@.len() implies exists|j: int| 0 <= j < rows.len()
                && (#[trigger] f.block@[i]).1 == rows[j].1 by {
                assert(f.block@[i].1 == rows[i].1);
            }
        }
        loop
            invariant
                self.wf(),
                f.wf(),
                f.start_row@ == self.start_row@,
                f.is_muted == self.is_muted,
                rows == self.block@,
                n == rows[0].0.len(),
                p == indices(rows.last().0),
                valid_bells(rows.last().0),
                rows.last().0.len() == n,
                is_perm(p),
                power(p, order) == identity(p.len()),
                1 <= t <= order,
                f.block@ == repeated(rows, t),
                indices(f.block@.last().0) == power(p, t),
                forall|u: nat| 1 <= u < t ==> indices(#[trigger] repeated(rows, u).last().0) != identity(n),
                forall|i: int| 0 <= i < f.block@.len() ==> exists|j: int| 0 <= j < rows.len()
                    && (#[trigger] f.block@[i]).1 == rows[j].1,
            decreases order - t,
        {
            let last_row = &f.block.leftover_row().0;
            let _ = last_row.stage();
            if last_row.is_rounds() {
                proof {
                    assert(f.block@.last().0.len() == n);
                }
                return f;
            }
            proof {
                lemma_power_perm(p, t);
                assert(f.block@.last().0.len() == n);
                assert(t != order);
            }
            let ghost prev = f.block@;
            proof {
                assert(f.block@[0].0.len() == self.block@[0].0.len());
            }
            let _ = f.join_with(self);
            proof {
                let joined = prev.take(prev.len() - 1) + transposed(prev.last().0, rows);
                assert forall|i: int| 0 <= i < f.block@.len() implies #[trigger] f.block@[i] == joined[i] by {
                    if i >= prev.len() - 1 {
                        let j = i - (prev.len() - 1);
                        assert(f.block@[prev.len() - 1 + j] == (permuted(prev.last().0, rows[j].0), rows[j].1));
                    }
                }
                assert(f.block@ =~= joined);
                assert(repeated(rows, t + 1) == prev.take(prev.len() - 1) + transposed(prev.last().0, rows));
                lemma_permuted_indices(prev.last().0, rows.last().0);
                assert(f.block@.last().0 == permuted(prev.last().0, rows.last().0));
                assert(power(p, t + 1) == compose(power(p, t), p));
                assert forall|i: int| 0 <= i < f.block@.len() implies exists|j: int| 0 <= j < rows.len()
                    && (#[trigger] f.block@[i]).1 == rows[j].1 by {
                    if i < prev.len() - 1 {
                        assert(f.block@[i] == prev[i]);
                    } else {
                        assert(f.block@[i].1 == rows[i - (prev.len() - 1)].1);
                    }
                }
                t = t + 1;
            }
        }
    }
}

impl Spec {
    /// Creates a new fragment made of method `method_ind`, which must have a well-formed lead of
    /// the composition's stage: starting from rounds and unmuted, it holds one lead of the method,
    /// or (with `add_course`) as many leads as bring it back to rounds.
    pub fn new_frag(&self, add_course: bool, method_ind: usize) -> (f: Frag)
        requires
            method_ind < self.methods@.len(),
            self.methods@[method_ind as int].method.wf(),
            self.methods@[method_ind as int].method.lead_view()[0].0.len() == self.stage.num_bells,
        ensures
            is_new_frag(f, *self, method_ind, add_course),
            annots_ok(f, self.methods@, self.calls@),
    {
        let method_spec = &self.methods[method_ind];
        let lead = method_spec.method.lead().annot_rows();
        let ghost lv = method_spec.method.lead_view();
        let ghost target = lead_frag_rows(lv, method_ind);
        proof {
            method_spec.method.lemma_lead_wf();
        }
        let mut rows: Vec<(Row, Annot)> = Vec::new();
        let mut i: usize = 0;
        while i < lead.len()
            invariant
                i <= lead@.len(),
                annot_view(lead@) == lv,
                rows@.len() == i,
                forall|j: int| 0 <= j < i ==> (#[trigger] annot_view(rows@)[j]) == (lv[j].0, Annot {
                    is_lead_end: lv[j].1 is Some,
                    method: Some(MethodRef { method_index: method_ind, sub_lead_index: j as usize }),
                    call: None,
                }),
            decreases lead@.len() - i,
        {
            let ghost before = rows@;
            let annot = Annot {
                is_lead_end: lead[i].1.is_some(),
                method: Some(MethodRef { method_index: method_ind, sub_lead_index: i }),
                call: None,
            };
            rows.push((lead[i].0.clone(), annot));
            proof {
                assert forall|j: int| 0 <= j < i + 1 implies (#[trigger] annot_view(rows@)[j]) == (lv[j].0, Annot {
                    is_lead_end: lv[j].1 is Some,
                    method: Some(MethodRef { method_index: method_ind, sub_lead_index: j as usize }),
                    call: None,
                }) by {
                    if j < i {
                        assert(annot_view(rows@)[j] == annot_view(before)[j]);
                    }
                }
            }
            i += 1;
        }
        proof {
            let v = annot_view(rows@);
            assert forall|j: int| 0 <= j < v.len() implies (#[trigger] v[j]).0.len() == v[0].0.len() by {}
        }
        let mut block = AnnotBlock::from_annot_rows_unchecked(rows);
        let leftover = block.leftover_annot_mut();
        leftover.method = None;
        let frag = Frag { start_row: Row::rounds(self.stage), block, is_muted: false };
        proof {
            assert(frag.block@ =~= target);
            assert(frag.block.wf());
            assert(annots_ok(frag, self.methods@, self.calls@));
        }
        if add_course {
            let course = frag.expand_to_round_block();
            proof {
                assert forall|i: int| 0 <= i < course.block@.len() implies
                    ((#[trigger] course.block@[i]).1.method matches Some(m) ==> method_ok(self.methods@, m))
                    && (course.block@[i].1.call is None) by {
                    let j = choose|j: int| 0 <= j < frag.block@.len() && course.block@[i].1 == frag.block@[j].1;
                }
            }
            course
        } else {
            frag
        }
    }

    /// Adds a new fragment made of method `method_ind` (see [`Spec::new_frag`]) at the end of the
    /// fragments, returning its index.
    pub fn add_frag(&mut self, add_course: bool, method_ind: usize) -> (i: usize)
        requires
            old(self).wf(),
            method_ind < old(self).methods@.len(),
            old(self).methods@[method_ind as int].method.wf(),
            old(self).methods@[method_ind as int].method.lead_view()[0].0.len() == old(self).stage.num_bells,
        ensures
            final(self).wf(),
            final(self).frags@.len() == old(self).frags@.len() + 1,
            final(self).frags@.take(old(self).frags@.len() as int) == old(self).frags@,
            is_new_frag(final(self).frags@.last(), *old(self), method_ind, add_course),
            i == old(self).frags@.len(),
            final(self).part_heads == old(self).part_heads,
            final(self).methods == old(self).methods,
            final(self).calls == old(self).calls,
            final(self).stage == old(self).stage,
    {
        let new_frag = self.new_frag(add_course, method_ind);
        let ghost old_frags = self.frags@;
        self.frags.push(new_frag);
        proof {
            assert(self.frags@.take(old_frags.len() as int) =~= old_frags);
            assert forall|f: int| 0 <= f < self.frags@.len() implies {
                &&& (#[trigger] self.frags@[f]).wf()
                &&& self.frags@[f].start_row@.len() == self.stage.num_bells
                &&& annots_ok(self.frags@[f], self.methods@, self.calls@)
            } by {
                if f < old_frags.len() {
                    assert(self.frags@[f] == old_frags[f]);
                }
            }
        }
        self.frags.len() - 1
    }

    /// Extends the end of a fragment with a new fragment made of method `method_ind` (see
    /// [`Spec::new_frag`]), transposed to follow on from it.
    pub fn extend_frag_end(&mut self, frag_ind: usize, method_ind: usize, add_course: bool)
        requires
            old(self).wf(),
            frag_ind < old(self).frags@.len(),
            method_ind < old(self).methods@.len(),
            old(self).methods@[method_ind as int].method.wf(),
            old(self).methods@[method_ind as int].method.lead_view()[0].0.len() == old(self).stage.num_bells,
        ensures
            final(self).wf(),
            final(self).frags@.len() == old(self).frags@.len(),
            forall|j: int| 0 <= j < old(self).frags@.len() && j != frag_ind ==> #[trigger] final(self).frags@[j] == old(self).frags@[j],
            ({
                let f = old(self).frags@[frag_ind as int];
                let g = final(self).frags@[frag_ind as int];
                &&& g.start_row == f.start_row
                &&& g.is_muted == f.is_muted
                &&& exists|nf: Frag| is_new_frag(nf, *old(self), method_ind, add_course)
                    && g.block@ == #[trigger] f.block@.take(f.block@.len() - 1) + transposed(f.block@.last().0, nf.block@)
            }),
            final(self).part_heads == old(self).part_heads,
            final(self).methods == old(self).methods,
            final(self).calls == old(self).calls,
            final(self).stage == old(self).stage,
    {
        let new_frag = self.new_frag(add_course, method_ind);
        let ghost old_frags = self.frags@;
        let mut frag = self.frags.remove(frag_ind);
        proof {
            assert(frag == old_frags[frag_ind as int]);
            assert(frag.wf());
            assert(frag.block@[0].0.len() == self.stage.num_bells);
            assert(new_frag.block@[0].0.len() == self.stage.num_bells);
        }
        let ghost before = frag;
        let _ = frag.join_with(&new_frag);
        proof {
            let prev = before.block@;
            let joined = prev.take(prev.len() - 1) + transposed(prev.last().0, new_frag.block@);
            assert forall|i: int| 0 <= i < frag.block@.len() implies #[trigger] frag.block@[i] == joined[i] by {
                if i >= prev.len() - 1 {
                    let j = i - (prev.len() - 1);
                    assert(frag.block@[prev.len() - 1 + j] == (permuted(prev.last().0, new_frag.block@[j].0), new_frag.block@[j].1));
                }
            }
            assert(frag.block@ =~= joined);
            assert forall|i: int| 0 <= i < frag.block@.len() implies ((#[trigger] frag.block@[i]).1.method matches Some(m) ==> method_ok(self.methods@, m))
                && ((frag.block@[i]).1.call matches Some(c) ==> c.call_index < self.calls@.len() && call_fits(self.calls@[c.call_index as int], frag.start_row@.len())) by {
                if i < before.block@.len() - 1 {
                    assert(frag.block@[i] == before.block@[i]);
                } else {
                    assert(frag.block@[i].1 == new_frag.block@[i - (before.block@.len() - 1)].1);
                }
            }
        }
        self.frags.insert(frag_ind, frag);
        proof {
            assert forall|f: int| 0 <= f < self.frags@.len() implies {
                &&& (#[trigger] self.frags@[f]).wf()
                &&& self.frags@[f].start_row@.len() == self.stage.num_bells
                &&& annots_ok(self.frags@[f], self.methods@, self.calls@)
            } by {
                if f != frag_ind {
                    assert(self.frags@[f] == old_frags[f]);
                }
            }
        }
    }
}

} // verus!
