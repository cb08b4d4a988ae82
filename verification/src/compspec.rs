//! The compact specification of a composition as chunks of methods, and its expansion into the
//! rows of every part.  A [`Fragment`] starts at some row and rings a sequence of [`Chunk`]s, each
//! a contiguous stretch of the plain course of a [`CompMethod`].

use vstd::prelude::*;
use crate::bellcore::bell::Bell;
use crate::bellcore::row::{
    first_error, inverse_bells, lemma_indices_injective, lemma_inverse_bells, permuted, Row,
};
use crate::bellcore::stage::Stage;
use crate::proj::spec::{parses_to_part_heads, PartHeads};
use crate::utils::types::RowLocation;

verus! {

/* ========== METHODS ========== */

/// The first lead of a method built from place notation on `num_bells` bells by bellframe, as the
/// 0-indexed bells of each row (the last row is the lead head), or `None` where bellframe rejects
/// the place notation.
pub uninterp spec fn plain_lead_of(num_bells: u8, place_notation: Seq<char>) -> Option<Seq<Seq<usize>>>;

/// Builds a method with bellframe's `Method::from_place_not_string` and reads off every row of its
/// first lead, leftover lead head included, as 0-indexed bells.  The contract names the result and
/// claims nothing more of it.
#[verifier::external_body]
fn bellframe_plain_lead(num_bells: u8, place_notation: &str) -> (r: Option<Vec<Vec<usize>>>)
    requires
        num_bells > 0,
    ensures
        r.deep_view() == plain_lead_of(num_bells, place_notation@),
{
    let stage = bellframe::Stage::new(num_bells);
    match bellframe::Method::from_place_not_string(String::new(), stage, place_notation) {
        Ok(m) => Some(m.first_lead().all_rows().map(|r| r.bell_iter().map(|b| b.index()).collect()).collect()),
        Err(_) => None,
    }
}

/// The bells with the given 0-indexed positions.
pub open spec fn bells_of_indices(s: Seq<usize>) -> Seq<Bell> {
    Seq::new(s.len(), |i: int| Bell { index: s[i] })
}

/// A lead read from bellframe can be used: it has a row and a lead head, and every row is a valid
/// row on `n` bells.
pub open spec fn lead_ok(l: Seq<Seq<usize>>, n: nat) -> bool {
    &&& l.len() >= 2
    &&& forall|i: int| 0 <= i < l.len() ==> (#[trigger] l[i]).len() == n
        && first_error(bells_of_indices(l[i]), Stage { num_bells: n as usize }, n) is None
}

/// The lead that bellframe builds from place notation on `n` bells, where it is usable.
pub open spec fn usable_lead(n: usize, place_notation: Seq<char>) -> Option<Seq<Seq<usize>>> {
    match plain_lead_of(n as u8, place_notation) {
        Some(l) => if lead_ok(l, n as nat) { Some(l) } else { None },
        None => None,
    }
}

/// The rows of a lead, as sequences of bells.
pub open spec fn lead_bells(l: Seq<Seq<usize>>) -> Seq<Seq<Bell>> {
    Seq::new(l.len(), |i: int| bells_of_indices(l[i]))
}

/// The views of a sequence of rows.
pub open spec fn rows_view(v: Seq<Row>) -> Seq<Seq<Bell>> {
    Seq::new(v.len(), |i: int| v[i]@)
}

/// A method used in a composition: its first lead (starting from rounds, with the lead head as the
/// last row), its name and shorthand, and which rows of the lead have a ruleoff above them.
pub struct CompMethod {
    first_lead: Vec<Row>,
    name: String,
    shorthand: String,
    ruleoffs_above: Vec<usize>,
}

impl CompMethod {
    /// The rows of the first lead, lead head included.
    pub closed spec fn lead(&self) -> Seq<Seq<Bell>> {
        rows_view(self.first_lead@)
    }

    /// The sub-lead indices with a ruleoff above them.
    pub closed spec fn ruleoffs(&self) -> Seq<usize> {
        self.ruleoffs_above@
    }

    /// The name of this method.
    pub closed spec fn name_view(&self) -> Seq<char> {
        self.name@
    }

    /// The shorthand of this method.
    pub closed spec fn shorthand_view(&self) -> Seq<char> {
        self.shorthand@
    }

    /// The lead has at least one row besides the lead head, and every row has the same stage.
    pub open spec fn wf(&self) -> bool {
        &&& self.lead().len() >= 2
        &&& forall|i: int| 0 <= i < self.lead().len() ==> (#[trigger] self.lead()[i]).len() == self.lead()[0].len()
    }

    /// The number of rows in one lead.
    pub open spec fn lead_len_spec(&self) -> nat {
        (self.lead().len() - 1) as nat
    }

    /// Builds a method from place notation on `stage` (with bellframe), with a ruleoff at the lead
    /// end.  Gives `None` exactly when bellframe rejects the place notation or gives back a lead
    /// that is not made of valid rows of the stage.
    pub fn with_lead_end_ruleoff(name: String, shorthand: String, stage: Stage, place_notation: &str) -> (r: Option<CompMethod>)
        requires
            0 < stage.num_bells <= 255,
        ensures
            r is Some <==> usable_lead(stage.num_bells, place_notation@) is Some,
            r matches Some(m) ==> m.wf()
                && m.lead() == lead_bells(usable_lead(stage.num_bells, place_notation@)->0)
                && m.lead()[0].len() == stage.num_bells
                && m.name_view() == name@ && m.shorthand_view() == shorthand@
                && m.ruleoffs() == seq![0usize],
    {
        let n = stage.num_bells;
        let res = bellframe_plain_lead(n as u8, place_notation);
        let lead = match res {
            Some(l) => l,
            None => return None,
        };
        let ghost l = plain_lead_of(n as u8, place_notation@)->0;
        proof {
            assert(res.deep_view() == Some(lead.deep_view()));
            assert(lead.deep_view() == l);
            assert(l.len() == lead@.len());
        }
        if lead.len() < 2 {
            proof {
                assert(plain_lead_of(n as u8, place_notation@) == Some(l));
                assert(!lead_ok(l, n as nat));
                assert(usable_lead(n, place_notation@) is None);
            }
            return None;
        }
        let mut rows: Vec<Row> = Vec::new();
        let mut i: usize = 0;
        while i < lead.len()
            invariant
                i <= lead@.len(),
                lead.deep_view() == l,
                plain_lead_of(n as u8, place_notation@) == Some(l),
                n == stage.num_bells,
                lead@.len() >= 2,
                rows@.len() == i,
                forall|j: int| 0 <= j < i ==> (#[trigger] l[j]).len() == n
                    && first_error(bells_of_indices(l[j]), Stage { num_bells: n }, n as nat) is None,
                forall|j: int| 0 <= j < i ==> (#[trigger] rows@[j])@ == bells_of_indices(l[j]),
            decreases lead@.len() - i,
        {
            let src = &lead[i];
            assert(src@ =~= l[i as int]) by {
                assert(lead.deep_view()[i as int] == lead@[i as int].deep_view());
            }
            if src.len() != n {
                proof {
                    assert(l[i as int].len() != n);
                    assert(!lead_ok(l, n as nat));
                    assert(plain_lead_of(n as u8, place_notation@) == Some(l));
                    assert(usable_lead(n, place_notation@) is None);
                }
                return None;
            }
            let mut bells: Vec<Bell> = Vec::new();
            let mut k: usize = 0;
            while k < src.len()
                invariant
                    k <= src@.len(),
                    bells@ == bells_of_indices(src@.take(k as int)),
                decreases src@.len() - k,
            {
                bells.push(Bell::from_index(src[k]));
                k += 1;
                proof {
                    assert(bells@ =~= bells_of_indices(src@.take(k as int)));
                }
            }
            assert(src@.take(src@.len() as int) =~= src@);
            match Row::from_vec(bells) {
                Ok(row) => {
                    rows.push(row);
                },
                Err(_) => {
                    proof {
                        assert(bells@ == bells_of_indices(l[i as int]));
                        assert(first_error(bells_of_indices(l[i as int]), Stage { num_bells: n }, n as nat) is Some);
                        assert(!lead_ok(l, n as nat));
                        assert(plain_lead_of(n as u8, place_notation@) == Some(l));
                        assert(usable_lead(n, place_notation@) is None);
                    }
                    return None;
                },
            }
            i += 1;
        }
        proof {
            assert(lead_ok(l, n as nat));
        }
        let mut ruleoffs_above: Vec<usize> = Vec::new();
        ruleoffs_above.push(0);
        let m = CompMethod { first_lead: rows, name, shorthand, ruleoffs_above };
        proof {
            assert(m.lead() =~= lead_bells(l));
            assert(m.ruleoffs() =~= seq![0usize]);
            assert(m.lead()[0] == rows@[0]@);
            assert forall|i: int| 0 <= i < m.lead().len() implies (#[trigger] m.lead()[i]).len() == m.lead()[0].len() by {
                assert(m.lead()[i] == rows@[i]@);
            }
        }
        Some(m)
    }

    /// The number of rows in one lead of this method.
    pub fn lead_len(&self) -> (l: usize)
        requires
            self.wf(),
        ensures
            l == self.lead_len_spec(),
            l < usize::MAX,
    {
        self.first_lead.len() - 1
    }

    /// The name of this method.
    pub fn name(&self) -> (s: &str)
        ensures
            s@ == self.name_view(),
    {
        self.name.as_str()
    }

    /// The shorthand of this method.
    pub fn shorthand(&self) -> (s: &str)
        ensures
            s@ == self.shorthand_view(),
    {
        self.shorthand.as_str()
    }

    /// Whether a ruleoff should be drawn below the row at `sub_lead_idx`: ruleoffs are stored for
    /// the row below, so this asks about the next index within the lead.
    pub fn is_ruleoff_below(&self, sub_lead_idx: usize) -> (b: bool)
        requires
            self.wf(),
            sub_lead_idx < usize::MAX,
        ensures
            b == self.ruleoffs().contains(((sub_lead_idx + 1) % (self.lead_len_spec() as int)) as usize),
    {
        let idx = (sub_lead_idx + 1) % self.lead_len();
        assert(idx == ((sub_lead_idx + 1) % (self.lead_len_spec() as int)) as usize);
        let mut k: usize = 0;
        while k < self.ruleoffs_above.len()
            invariant
                k <= self.ruleoffs_above@.len(),
                forall|j: int| 0 <= j < k ==> self.ruleoffs_above@[j] != idx,
                idx == ((sub_lead_idx + 1) % (self.lead_len_spec() as int)) as usize,
            decreases self.ruleoffs_above@.len() - k,
        {
            if self.ruleoffs_above[k] == idx {
                proof {
                    assert(self.ruleoffs()[k as int] == idx);
                    assert(self.ruleoffs().contains(idx));
                }
                return true;
            }
            k += 1;
        }
        proof {
            assert(!self.ruleoffs().contains(idx)) by {
                if self.ruleoffs().contains(idx) {
                    let j = choose|j: int| 0 <= j < self.ruleoffs().len() && self.ruleoffs()[j] == idx;
                    assert(self.ruleoffs_above@[j] != idx);
                }
            }
        }
        false
    }
}

/* ========== CHUNKS AND FRAGMENTS ========== */

/// A `Chunk` of a [`Fragment`]: either a contiguous segment of the plain course of a method, or
/// a call rung all the way through.  Methods and calls are given by their index in the
/// composition.
#[derive(Debug, Clone, Copy, PartialEq, Eq, Structural)]
pub enum Chunk {
    /// `length` rows of a method, starting `start_sub_lead_index` rows into a lead.
    Method { method: usize, start_sub_lead_index: usize, length: usize },
    /// A call, rung in a method from a sub-lead index.
    Call { call: usize, method: usize, start_sub_lead_index: usize },
}

/// Where a row of a fragment comes from, independently of which part it is in.
#[derive(Debug, Clone, Copy, PartialEq, Eq)]
pub struct RowData {
    /// The method (by index) and the sub-lead index of this row, if it comes from a method.
    pub method_source: Option<(usize, usize)>,
    /// The call (by index) and the index within it of this row, if it comes from a call.
    pub call_source: Option<(usize, usize)>,
    /// Whether this row is included in proving.
    pub is_proved: bool,
}

/// `rows` (whose last row is left over) extended by `len` rows of the plain course of a method
/// with first lead `lead`, starting `s` rows into a lead: a lead at a time, each stretch of the
/// lead is transposed to start at the current leftover row, and the row after the stretch becomes
/// the new leftover row.
pub open spec fn extended(rows: Seq<Seq<Bell>>, lead: Seq<Seq<Bell>>, s: nat, len: nat) -> Seq<Seq<Bell>>
    decreases len,
{
    let ll = (lead.len() - 1) as nat;
    if len == 0 || s >= ll {
        rows
    } else {
        let e: nat = if s + len < ll { s + len } else { ll };
        let base = permuted(rows.last(), inverse_bells(lead[s as int]));
        let seg = Seq::new((e - s + 1) as nat, |j: int| permuted(base, lead[s + j]));
        extended(rows.drop_last() + seg, lead, 0, (len - (e - s)) as nat)
    }
}

/// The row data of `length` rows of a method (by index) starting `s` rows into a lead of `ll`
/// rows.
pub open spec fn method_row_data(method: usize, s: nat, length: nat, ll: nat, is_proved: bool) -> Seq<RowData> {
    Seq::new(length, |i: int| RowData {
        method_source: Some((method, ((s + i) % (ll as int)) as usize)),
        call_source: None,
        is_proved,
    })
}

/// A chunk is a method chunk whose method exists, is well formed and has the given stage, and
/// which starts within a lead.
pub open spec fn chunk_ok(c: Chunk, methods: Seq<CompMethod>, n: nat) -> bool {
    c matches Chunk::Method { method, start_sub_lead_index, length }
        && method < methods.len()
        && methods[method as int].wf()
        && methods[method as int].lead()[0].len() == n
        && start_sub_lead_index < methods[method as int].lead_len_spec()
}

/// The rows (leftover included) of one part after ringing the chunk.
pub open spec fn chunk_rows(rows: Seq<Seq<Bell>>, c: Chunk, methods: Seq<CompMethod>) -> Seq<Seq<Bell>> {
    match c {
        Chunk::Method { method, start_sub_lead_index, length } =>
            extended(rows, methods[method as int].lead(), start_sub_lead_index as nat, length as nat),
        Chunk::Call { .. } => rows,
    }
}

/// The row data of the rows that ringing the chunk adds.
pub open spec fn chunk_data(c: Chunk, methods: Seq<CompMethod>, is_proved: bool) -> Seq<RowData> {
    match c {
        Chunk::Method { method, start_sub_lead_index, length } =>
            method_row_data(method, start_sub_lead_index as nat, length as nat,
                methods[method as int].lead_len_spec(), is_proved),
        Chunk::Call { .. } => seq![],
    }
}

proof fn lemma_extended_len(rows: Seq<Seq<Bell>>, lead: Seq<Seq<Bell>>, s: nat, len: nat)
    requires
        rows.len() >= 1,
        lead.len() >= 2,
        s < lead.len() - 1,
    ensures
        extended(rows, lead, s, len).len() == rows.len() + len,
    decreases len,
{
    let ll = (lead.len() - 1) as nat;
    if len > 0 {
        let e: nat = if s + len < ll { s + len } else { ll };
        let base = permuted(rows.last(), inverse_bells(lead[s as int]));
        let seg = Seq::new((e - s + 1) as nat, |j: int| permuted(base, lead[s + j]));
        lemma_extended_len(rows.drop_last() + seg, lead, 0, (len - (e - s)) as nat);
    }
}

/// Appends to `rows` the stretch `s..=e` of `lead`, transposed to start at the last row of
/// `rows`, which it replaces.
fn push_stretch(rows: &mut Vec<Row>, lead: &Vec<Row>, s: usize, end: usize)
    requires
        old(rows)@.len() >= 1,
        s < end <= lead@.len(),
        forall|i: int| 0 <= i < lead@.len() ==> (#[trigger] lead@[i])@.len() == old(rows)@[0]@.len(),
        forall|i: int| 0 <= i < old(rows)@.len() ==> (#[trigger] old(rows)@[i])@.len() == old(rows)@[0]@.len(),
    ensures
        rows_view(final(rows)@) == rows_view(old(rows)@).drop_last()
            + Seq::new((end - s) as nat, |j: int| permuted(
                permuted(rows_view(old(rows)@).last(), inverse_bells(rows_view(lead@)[s as int])),
                rows_view(lead@)[s + j])),
        final(rows)@.len() >= 1,
        forall|i: int| 0 <= i < final(rows)@.len() ==> (#[trigger] final(rows)@[i])@.len() == old(rows)@[0]@.len(),
{
    let ghost n = old(rows)@[0]@.len();
    let ghost old_view = rows_view(old(rows)@);
    let ghost lv = rows_view(lead@);
    let leftover = rows.pop().unwrap();
    let _ = lead[s].stage();
    let start_inv = lead[s].inv();
    proof {
        lemma_inverse_bells(lead@[s as int]@);
        lemma_indices_injective(start_inv@, inverse_bells(lead@[s as int]@));
        assert(leftover@ == old_view.last());
    }
    let base = leftover.mul_unchecked(&start_inv);
    let ghost prefix = rows_view(rows@);
    proof {
        assert(prefix =~= old_view.drop_last());
    }
    let mut j: usize = s;
    while j < end
        invariant
            s <= j <= end,
            end <= lead@.len(),
            lv == rows_view(lead@),
            base@ == permuted(old_view.last(), inverse_bells(lv[s as int])),
            base@.len() == n,
            forall|i: int| 0 <= i < lead@.len() ==> (#[trigger] lead@[i])@.len() == n,
            rows_view(rows@) == prefix + Seq::new((j - s) as nat, |k: int| permuted(base@, lv[s + k])),
            forall|i: int| 0 <= i < rows@.len() ==> (#[trigger] rows@[i])@.len() == n,
        decreases end - j,
    {
        let r = base.mul_unchecked(&lead[j]);
        let ghost before = rows_view(rows@);
        rows.push(r);
        proof {
            assert(lv[j as int] == lead@[j as int]@);
            assert(rows_view(rows@) =~= before.push(r@));
            assert(rows_view(rows@) =~= prefix + Seq::new((j + 1 - s) as nat, |k: int| permuted(base@, lv[s + k])));
        }
        j += 1;
    }
}

impl Chunk {
    /// Rings this chunk onto the rows of one part (the part whose part head is rounds): `rows`
    /// holds the rows so far with the leftover row last, and `row_data` gets the data of each new
    /// row.  Only chunks of methods can be rung.
    pub fn expand_one_part(&self, methods: &[CompMethod], rows: &mut Vec<Row>, row_data: &mut Vec<RowData>, is_proved: bool)
        requires
            old(rows)@.len() >= 1,
            forall|i: int| 0 <= i < old(rows)@.len() ==> (#[trigger] old(rows)@[i])@.len() == old(rows)@[0]@.len(),
            chunk_ok(*self, methods@, old(rows)@[0]@.len()),
        ensures
            rows_view(final(rows)@) == chunk_rows(rows_view(old(rows)@), *self, methods@),
            final(row_data)@ == old(row_data)@ + chunk_data(*self, methods@, is_proved),
            final(rows)@.len() >= 1,
            forall|i: int| 0 <= i < final(rows)@.len() ==> (#[trigger] final(rows)@[i])@.len() == old(rows)@[0]@.len(),
    {
        let ghost n = old(rows)@[0]@.len();
        match self {
            Chunk::Method { method, start_sub_lead_index, length } => {
                let m = &methods[*method];
                let lead_len = m.lead_len();
                let ghost lv = m.lead();
                // Extend row data
                let ghost data0 = row_data@;
                let mut i: usize = 0;
                while i < *length
                    invariant
                        i <= *length,
                        *start_sub_lead_index < lead_len,
                        lead_len == m.lead_len_spec(),
                        row_data@ == data0 + method_row_data(*method, *start_sub_lead_index as nat, i as nat, lead_len as nat, is_proved),
                    decreases *length - i,
                {
                    let a = *start_sub_lead_index;
                    let b = i % lead_len;
                    let sub_lead_idx = if b >= lead_len - a { b - (lead_len - a) } else { a + b };
                    proof {
                        let l = lead_len as int;
                        vstd::arithmetic::div_mod::lemma_add_mod_noop(a as int, i as int, l);
                        assert(a as int % l == a as int) by {
                            vstd::arithmetic::div_mod::lemma_small_mod(a as nat, l as nat);
                        }
                        if b >= lead_len - a {
                            assert((a + b) as int % l == (a + b - l) as int) by {
                                vstd::arithmetic::div_mod::lemma_mod_sub_multiples_vanish((a + b) as int, l);
                                vstd::arithmetic::div_mod::lemma_small_mod((a + b - l) as nat, l as nat);
                            }
                        } else {
                            vstd::arithmetic::div_mod::lemma_small_mod((a + b) as nat, l as nat);
                        }
                    }
                    row_data.push(RowData { method_source: Some((*method, sub_lead_idx)), call_source: None, is_proved });
                    i += 1;
                    proof {
                        assert(row_data@ =~= data0 + method_row_data(*method, *start_sub_lead_index as nat, i as nat, lead_len as nat, is_proved));
                    }
                }
                // Extend rows a lead at a time
                let ghost target = extended(rows_view(rows@), lv, *start_sub_lead_index as nat, *length as nat);
                let mut s: usize = *start_sub_lead_index;
                let mut left: usize = *length;
                while left > 0
                    invariant
                        m.wf(),
                        lv == m.lead(),
                        lead_len == m.lead_len_spec(),
                        lead_len < usize::MAX,
                        lv[0].len() == n,
                        s < lead_len,
                        rows@.len() >= 1,
                        rows@[0]@.len() == n,
                        forall|i: int| 0 <= i < rows@.len() ==> (#[trigger] rows@[i])@.len() == n,
                        extended(rows_view(rows@), lv, s as nat, left as nat) == target,
                    decreases left,
                {
                    let e = if left < lead_len - s { s + left } else { lead_len };
                    proof {
                        assert forall|i: int| 0 <= i < m.first_lead@.len() implies (#[trigger] m.first_lead@[i])@.len() == n by {
                            assert(lv[i] == m.first_lead@[i]@);
                        }
                        assert(rows_view(rows@).last() == rows@[rows@.len() - 1]@);
                    }
                    let ghost before = rows_view(rows@);
                    assert(e < m.first_lead@.len());
                    push_stretch(rows, &m.first_lead, s, e + 1);
                    proof {
                        assert(rows_view(m.first_lead@) == lv);
                        assert(rows_view(rows@) == before.drop_last() + Seq::new((e - s + 1) as nat,
                            |j: int| permuted(permuted(before.last(), inverse_bells(lv[s as int])), lv[s + j])));
                    }
                    left = left - (e - s);
                    s = 0;
                    proof {
                        assert(rows@[0]@.len() == n);
                    }
                }
            },
            Chunk::Call { .. } => {},
        }
    }
}

/// A fragment of a composition: a start row and the chunks rung from it.
pub struct Fragment {
    /// The first row of the fragment.
    pub start_row: Row,
    /// The chunks rung in order from the start row.
    pub chunks: Vec<Chunk>,
    /// `false` if the fragment is muted (visible but not proved).
    pub is_proved: bool,
}

/// The rows of one part of a fragment (leftover included) after ringing its first `k` chunks.
pub open spec fn frag_rows(f: Fragment, methods: Seq<CompMethod>, k: nat) -> Seq<Seq<Bell>>
    decreases k,
{
    if k == 0 {
        seq![f.start_row@]
    } else {
        chunk_rows(frag_rows(f, methods, (k - 1) as nat), f.chunks@[k - 1], methods)
    }
}

/// The row data of the first `k` chunks of a fragment.
pub open spec fn frag_data(f: Fragment, methods: Seq<CompMethod>, k: nat) -> Seq<RowData>
    decreases k,
{
    if k == 0 {
        seq![]
    } else {
        frag_data(f, methods, (k - 1) as nat) + chunk_data(f.chunks@[k - 1], methods, f.is_proved)
    }
}

/// Every chunk of the fragment is a method chunk of the fragment's stage.
pub open spec fn frag_ok(f: Fragment, methods: Seq<CompMethod>) -> bool {
    forall|k: int| 0 <= k < f.chunks@.len() ==> chunk_ok(#[trigger] f.chunks@[k], methods, f.start_row@.len())
}

/// A fragment expanded into every part: the rows of each part (leftover included), and what each
/// row is.
pub struct ExpandedFrag {
    /// For each part, all the rows of the fragment in that part.
    pub rows_per_part: Vec<Vec<Row>>,
    /// The data of each row, the same in every part.
    pub row_data: Vec<RowData>,
    /// `false` if the source fragment is muted.
    pub is_proved: bool,
}

/// The rows of one part, pre-multiplied by a part head.
pub open spec fn rows_in_part(part_head: Seq<Bell>, rows: Seq<Seq<Bell>>) -> Seq<Seq<Bell>> {
    Seq::new(rows.len(), |i: int| permuted(part_head, rows[i]))
}

/// What expanding a fragment gives: the rows of each part (each part head times each row of the
/// part headed by rounds), and the data of each row, with a leftover row that is never proved.
pub open spec fn expanded_fragment(e: ExpandedFrag, f: Fragment, part_heads: Seq<Seq<Bell>>, methods: Seq<CompMethod>) -> bool {
    let rows = frag_rows(f, methods, f.chunks@.len());
    &&& e.rows_per_part@.len() == part_heads.len()
    &&& forall|p: int| 0 <= p < part_heads.len() ==> rows_view(#[trigger] e.rows_per_part@[p]@) == rows_in_part(part_heads[p], rows)
    &&& e.row_data@ == frag_data(f, methods, f.chunks@.len()).push(RowData { method_source: None, call_source: None, is_proved: false })
    &&& e.is_proved == f.is_proved
}

impl ExpandedFrag {
    /// Expands the rows of the part headed by rounds into every part.
    pub fn from_single_part(rows_in_one_part: Vec<Row>, row_data: Vec<RowData>, is_proved: bool, part_heads: &PartHeads) -> (e: ExpandedFrag)
        requires
            rows_in_one_part@.len() == row_data@.len(),
            part_heads.wf(),
            forall|i: int| 0 <= i < rows_in_one_part@.len() ==> (#[trigger] rows_in_one_part@[i])@.len() == part_heads.rows_view()[0]@.len(),
        ensures
            e.rows_per_part@.len() == part_heads.rows_view().len(),
            forall|p: int| 0 <= p < part_heads.rows_view().len() ==> rows_view(#[trigger] e.rows_per_part@[p]@)
                == rows_in_part(part_heads.rows_view()[p]@, rows_view(rows_in_one_part@)),
            e.row_data@ == row_data@,
            e.is_proved == is_proved,
    {
        let heads = part_heads.rows();
        let mut rows_per_part: Vec<Vec<Row>> = Vec::new();
        let mut p: usize = 0;
        while p < heads.len()
            invariant
                p <= heads@.len(),
                heads@ == part_heads.rows_view(),
                part_heads.wf(),
                forall|i: int| 0 <= i < rows_in_one_part@.len() ==> (#[trigger] rows_in_one_part@[i])@.len() == heads@[0]@.len(),
                rows_per_part@.len() == p,
                forall|q: int| 0 <= q < p ==> rows_view(#[trigger] rows_per_part@[q]@)
                    == rows_in_part(heads@[q]@, rows_view(rows_in_one_part@)),
            decreases heads@.len() - p,
        {
            let head = &heads[p];
            assert(head@.len() == heads@[0]@.len());
            let mut part: Vec<Row> = Vec::new();
            let mut i: usize = 0;
            while i < rows_in_one_part.len()
                invariant
                    i <= rows_in_one_part@.len(),
                    head@.len() == heads@[0]@.len(),
                    forall|k: int| 0 <= k < rows_in_one_part@.len() ==> (#[trigger] rows_in_one_part@[k])@.len() == heads@[0]@.len(),
                    rows_view(part@) == rows_in_part(head@, rows_view(rows_in_one_part@)).take(i as int),
                decreases rows_in_one_part@.len() - i,
            {
                let ghost before = rows_view(part@);
                let r = head.mul_unchecked(&rows_in_one_part[i]);
                part.push(r);
                proof {
                    assert(rows_view(part@) =~= before.push(r@));
                    assert(rows_view(rows_in_one_part@)[i as int] == rows_in_one_part@[i as int]@);
                }
                i += 1;
                proof {
                    assert(rows_view(part@) =~= rows_in_part(head@, rows_view(rows_in_one_part@)).take(i as int));
                }
            }
            proof {
                assert(rows_in_part(head@, rows_view(rows_in_one_part@)).take(i as int)
                    =~= rows_in_part(head@, rows_view(rows_in_one_part@)));
            }
            rows_per_part.push(part);
            p += 1;
        }
        ExpandedFrag { rows_per_part, row_data, is_proved }
    }

    /// The number of proved rows of this fragment in one part: every row but the leftover if the
    /// fragment is proved, and none otherwise.
    pub fn len(&self) -> (l: usize)
        requires
            self.row_data@.len() >= 1,
        ensures
            l == if self.is_proved { self.row_data@.len() - 1 } else { 0 },
    {
        if self.is_proved {
            self.row_data.len() - 1
        } else {
            0
        }
    }
}

/// Expands a fragment into the rows of every part.  Every chunk must be a chunk of a method of the
/// fragment's stage (ringing a call is not supported), and the part heads must share that stage.
pub fn expand_fragment(fragment: &Fragment, part_heads: &PartHeads, methods: &[CompMethod]) -> (e: ExpandedFrag)
    requires
        frag_ok(*fragment, methods@),
        part_heads.wf(),
        part_heads.rows_view()[0]@.len() == fragment.start_row@.len(),
    ensures
        expanded_fragment(e, *fragment, rows_view(part_heads.rows_view()), methods@),
{
    let ghost n = fragment.start_row@.len();
    let mut rows: Vec<Row> = Vec::new();
    rows.push(fragment.start_row.clone());
    let mut row_data: Vec<RowData> = Vec::new();
    let mut k: usize = 0;
    proof {
        assert(rows_view(rows@) =~= frag_rows(*fragment, methods@, 0));
    }
    while k < fragment.chunks.len()
        invariant
            k <= fragment.chunks@.len(),
            frag_ok(*fragment, methods@),
            n == fragment.start_row@.len(),
            rows@.len() >= 1,
            rows@[0]@.len() == n,
            forall|i: int| 0 <= i < rows@.len() ==> (#[trigger] rows@[i])@.len() == n,
            rows_view(rows@) == frag_rows(*fragment, methods@, k as nat),
            row_data@ == frag_data(*fragment, methods@, k as nat),
        decreases fragment.chunks@.len() - k,
    {
        let chunk = &fragment.chunks[k];
        assert(chunk_ok(*chunk, methods@, n));
        chunk.expand_one_part(methods, &mut rows, &mut row_data, fragment.is_proved);
        k += 1;
        proof {
            assert(rows@[0]@.len() == n);
        }
    }
    proof {
        assert(rows_view(rows@).len() == rows@.len());
        assert(row_data@.len() + 1 == rows@.len()) by {
            lemma_frag_lens(*fragment, methods@, k as nat);
        }
    }
    row_data.push(RowData { method_source: None, call_source: None, is_proved: false });
    let e = ExpandedFrag::from_single_part(rows, row_data, fragment.is_proved, part_heads);
    proof {
        assert forall|p: int| 0 <= p < part_heads.rows_view().len() implies
            rows_view(#[trigger] e.rows_per_part@[p]@) == rows_in_part(rows_view(part_heads.rows_view())[p],
                frag_rows(*fragment, methods@, fragment.chunks@.len())) by {
            assert(rows_view(part_heads.rows_view())[p] == part_heads.rows_view()[p]@);
        }
    }
    e
}

proof fn lemma_frag_lens(f: Fragment, methods: Seq<CompMethod>, k: nat)
    requires
        k <= f.chunks@.len(),
        frag_ok(f, methods),
    ensures
        frag_rows(f, methods, k).len() == frag_data(f, methods, k).len() + 1,
    decreases k,
{
    if k > 0 {
        lemma_frag_lens(f, methods, (k - 1) as nat);
        let c = f.chunks@[k - 1];
        assert(chunk_ok(c, methods, f.start_row@.len()));
        if let Chunk::Method { method, start_sub_lead_index, length } = c {
            let m = methods[method as int];
            lemma_extended_len(frag_rows(f, methods, (k - 1) as nat), m.lead(), start_sub_lead_index as nat, length as nat);
        }
    }
}

/* ========== COMPOSITIONS ========== */

/// The minimal but complete specification of a (partial) composition: its fragments, part heads
/// and methods, on one stage.  Where fragments are drawn is kept by the user interface.
pub struct CompSpec {
    /// The fragments of the composition.
    pub fragments: Vec<Fragment>,
    /// The part heads of the composition.
    pub part_heads: PartHeads,
    /// The methods that the fragments' chunks refer to (by index).
    pub methods: Vec<CompMethod>,
    /// The stage of every row of the composition.
    pub stage: Stage,
}

/// The ways that editing a [`CompSpec`] can fail.
#[derive(Debug, Clone, Copy, PartialEq, Eq, Structural)]
pub enum EditError {
    /// There is no fragment with this index.
    FragOutOfRange { idx: usize, len: usize },
    /// A fragment has no (non-leftover) row with this index.
    RowOutOfRange { frag_idx: usize, row_idx: isize, frag_len: usize },
    /// The region covered by a call cannot be split.
    SplitCall,
}

impl Fragment {
    /// Toggles whether this fragment is proved.  This never fails.
    pub fn toggle_mute(&mut self) -> (r: Result<(), EditError>)
        ensures
            r is Ok,
            final(self).is_proved == !old(self).is_proved,
            final(self).start_row == old(self).start_row,
            final(self).chunks@ == old(self).chunks@,
    {
        self.is_proved = !self.is_proved;
        Ok(())
    }
}

/// Whether the fragment at `idx` is the only proved one.
pub open spec fn only_proved(frags: Seq<Fragment>, idx: int) -> bool {
    forall|j: int| 0 <= j < frags.len() ==> ((j == idx) == #[trigger] frags[j].is_proved)
}

impl CompSpec {
    /// A composition on `stage` with one part and no fragments or methods.
    pub fn empty(stage: Stage) -> (c: CompSpec)
        ensures
            c.stage == stage,
            c.fragments@.len() == 0,
            c.methods@.len() == 0,
            c.part_heads.wf(),
            c.part_heads.rows_view().len() == 1,
            c.part_heads.rows_view()[0]@ == crate::bellcore::row::rounds_bells(stage.num_bells as nat),
    {
        CompSpec { fragments: Vec::new(), part_heads: PartHeads::one_part(stage), methods: Vec::new(), stage }
    }

    /// Replaces the part heads, which must have the stage of the composition.
    pub fn set_part_heads(&mut self, part_heads: PartHeads)
        requires
            part_heads.wf(),
            part_heads.rows_view()[0]@.len() == old(self).stage.num_bells,
        ensures
            final(self).part_heads == part_heads,
            final(self).fragments == old(self).fragments,
            final(self).methods == old(self).methods,
            final(self).stage == old(self).stage,
    {
        self.part_heads = part_heads;
    }

    /// Solos the fragment at `frag_idx` (only it is proved), or proves every fragment if it already
    /// is the only proved one.  Fails, changing nothing, if there is no such fragment.
    pub fn solo_frag(&mut self, frag_idx: usize) -> (r: Result<(), EditError>)
        ensures
            frag_idx >= old(self).fragments@.len() ==> r == Err::<(), EditError>(EditError::FragOutOfRange {
                idx: frag_idx,
                len: old(self).fragments@.len() as usize,
            }) && final(self).fragments@ == old(self).fragments@,
            frag_idx < old(self).fragments@.len() ==> r is Ok,
            final(self).fragments@.len() == old(self).fragments@.len(),
            forall|j: int| 0 <= j < old(self).fragments@.len() ==> (#[trigger] final(self).fragments@[j]).start_row
                == old(self).fragments@[j].start_row && final(self).fragments@[j].chunks@ == old(self).fragments@[j].chunks@,
            frag_idx < old(self).fragments@.len() ==> forall|j: int| 0 <= j < old(self).fragments@.len()
                ==> (#[trigger] final(self).fragments@[j]).is_proved == if only_proved(old(self).fragments@, frag_idx as int) {
                    true
                } else {
                    j == frag_idx
                },
            final(self).part_heads == old(self).part_heads,
            final(self).methods == old(self).methods,
            final(self).stage == old(self).stage,
    {
        let len = self.fragments.len();
        if frag_idx >= len {
            return Err(EditError::FragOutOfRange { idx: frag_idx, len });
        }
        let mut only = true;
        let mut i: usize = 0;
        while i < len
            invariant
                i <= len,
                len == self.fragments@.len(),
                only == forall|j: int| 0 <= j < i ==> ((j == frag_idx) == #[trigger] self.fragments@[j].is_proved),
                self.part_heads == old(self).part_heads,
                self.methods == old(self).methods,
                self.stage == old(self).stage,
                self.fragments@ == old(self).fragments@,
            decreases len - i,
        {
            if (i == frag_idx) != self.fragments[i].is_proved {
                only = false;
            }
            i += 1;
        }
        let ghost old_frags = self.fragments@;
        let mut j: usize = 0;
        while j < len
            invariant
                j <= len,
                len == self.fragments@.len(),
                old_frags.len() == len,
                frag_idx < len,
                only == only_proved(old_frags, frag_idx as int),
                self.part_heads == old(self).part_heads,
                self.methods == old(self).methods,
                self.stage == old(self).stage,
                old_frags == old(self).fragments@,
                forall|k: int| 0 <= k < len ==> (#[trigger] self.fragments@[k]).start_row == old_frags[k].start_row
                    && self.fragments@[k].chunks@ == old_frags[k].chunks@,
                forall|k: int| 0 <= k < j ==> (#[trigger] self.fragments@[k]).is_proved == if only { true } else { k == frag_idx },
                forall|k: int| j <= k < len ==> (#[trigger] self.fragments@[k]).is_proved == old_frags[k].is_proved,
            decreases len - j,
        {
            let proved = if only { true } else { j == frag_idx };
            let mut f = self.fragments.remove(j);
            f.is_proved = proved;
            self.fragments.insert(j, f);
            j += 1;
        }
        Ok(())
    }

    /// Deletes the fragment at `frag_idx`.  Fails, changing nothing, if there is no such fragment.
    pub fn delete_fragment(&mut self, frag_idx: usize) -> (r: Result<(), EditError>)
        ensures
            frag_idx >= old(self).fragments@.len() ==> r == Err::<(), EditError>(EditError::FragOutOfRange {
                idx: frag_idx,
                len: old(self).fragments@.len() as usize,
            }) && final(self).fragments@ == old(self).fragments@,
            frag_idx < old(self).fragments@.len() ==> r is Ok
                && final(self).fragments@ == old(self).fragments@.remove(frag_idx as int),
            final(self).part_heads == old(self).part_heads,
            final(self).methods == old(self).methods,
            final(self).stage == old(self).stage,
    {
        let len = self.fragments.len();
        if frag_idx >= len {
            return Err(EditError::FragOutOfRange { idx: frag_idx, len });
        }
        let _ = self.fragments.remove(frag_idx);
        Ok(())
    }
}

/* ========== SPLITTING FRAGMENTS ========== */

/// The number of rows that a chunk adds (calls are not rung, so they add none here).
pub open spec fn chunk_len(c: Chunk) -> nat {
    match c {
        Chunk::Method { length, .. } => length as nat,
        Chunk::Call { .. } => 0,
    }
}

/// The number of rows of the first `k` chunks.
pub open spec fn chunks_len(chunks: Seq<Chunk>, k: nat) -> nat
    decreases k,
{
    if k == 0 {
        0
    } else {
        chunks_len(chunks, (k - 1) as nat) + chunk_len(chunks[k - 1])
    }
}

/// The index of the chunk holding row `idx`, searching from chunk `k` on (where `idx` is at or
/// after the start of chunk `k`).
pub open spec fn chunk_holding(chunks: Seq<Chunk>, idx: nat, k: nat) -> nat
    decreases chunks.len() - k,
{
    if k >= chunks.len() || idx < chunks_len(chunks, k + 1) {
        k
    } else {
        chunk_holding(chunks, idx, k + 1)
    }
}

proof fn lemma_chunks_len_mono(chunks: Seq<Chunk>, a: nat, b: nat)
    requires
        a <= b <= chunks.len(),
    ensures
        chunks_len(chunks, a) <= chunks_len(chunks, b),
    decreases b - a,
{
    if a < b {
        lemma_chunks_len_mono(chunks, a, (b - 1) as nat);
    }
}

proof fn lemma_chunk_holding(chunks: Seq<Chunk>, idx: nat, k: nat)
    requires
        k <= chunks.len(),
        chunks_len(chunks, k) <= idx < chunks_len(chunks, chunks.len()),
    ensures
        ({
            let c = chunk_holding(chunks, idx, k);
            &&& k <= c < chunks.len()
            &&& chunks_len(chunks, c) <= idx < chunks_len(chunks, c + 1)
        }),
    decreases chunks.len() - k,
{
    if k >= chunks.len() {
    } else if idx < chunks_len(chunks, k + 1) {
    } else {
        lemma_chunk_holding(chunks, idx, k + 1);
    }
}

proof fn lemma_frag_data_len(f: Fragment, methods: Seq<CompMethod>, k: nat)
    requires
        k <= f.chunks@.len(),
        frag_ok(f, methods),
    ensures
        frag_data(f, methods, k).len() == chunks_len(f.chunks@, k),
    decreases k,
{
    if k > 0 {
        lemma_frag_data_len(f, methods, (k - 1) as nat);
        assert(chunk_ok(f.chunks@[k - 1], methods, f.start_row@.len()));
    }
}

/// The fragment that splitting `f` at row `idx` leaves in its place: the chunks before the one
/// holding the row, and the first part of that chunk if it is not empty.
pub open spec fn split_first(f: Fragment, methods: Seq<CompMethod>, idx: nat) -> Seq<Chunk> {
    let c = chunk_holding(f.chunks@, idx, 0);
    let sub = idx - chunks_len(f.chunks@, c);
    match f.chunks@[c as int] {
        Chunk::Method { method, start_sub_lead_index, length } => f.chunks@.take(c as int) + if sub > 0 {
            seq![Chunk::Method { method, start_sub_lead_index, length: sub as usize }]
        } else {
            seq![]
        },
        Chunk::Call { .. } => f.chunks@.take(c as int),
    }
}

/// The chunks of the fragment that splitting `f` at row `idx` creates: the rest of the chunk
/// holding the row (starting from the row's place in its lead), then the chunks after it.
pub open spec fn split_second(f: Fragment, methods: Seq<CompMethod>, idx: nat) -> Seq<Chunk> {
    let c = chunk_holding(f.chunks@, idx, 0);
    let sub = idx - chunks_len(f.chunks@, c);
    match f.chunks@[c as int] {
        Chunk::Method { method, start_sub_lead_index, length } => seq![Chunk::Method {
            method,
            start_sub_lead_index: ((start_sub_lead_index + sub) % (methods[method as int].lead_len_spec() as int)) as usize,
            length: (length - sub) as usize,
        }] + f.chunks@.skip(c + 1 as int),
        Chunk::Call { .. } => f.chunks@.skip(c as int),
    }
}

impl Fragment {
    /// The rows of one part of this fragment (the part headed by rounds), leftover row included.
    pub fn rows_in_one_part(&self, methods: &[CompMethod]) -> (rows: Vec<Row>)
        requires
            frag_ok(*self, methods@),
        ensures
            rows_view(rows@) == frag_rows(*self, methods@, self.chunks@.len()),
            rows@.len() == chunks_len(self.chunks@, self.chunks@.len()) + 1,
    {
        let ghost n = self.start_row@.len();
        let mut rows: Vec<Row> = Vec::new();
        rows.push(self.start_row.clone());
        let mut row_data: Vec<RowData> = Vec::new();
        let mut k: usize = 0;
        proof {
            assert(rows_view(rows@) =~= frag_rows(*self, methods@, 0));
        }
        while k < self.chunks.len()
            invariant
                k <= self.chunks@.len(),
                frag_ok(*self, methods@),
                n == self.start_row@.len(),
                rows@.len() >= 1,
                rows@[0]@.len() == n,
                forall|i: int| 0 <= i < rows@.len() ==> (#[trigger] rows@[i])@.len() == n,
                rows_view(rows@) == frag_rows(*self, methods@, k as nat),
                row_data@ == frag_data(*self, methods@, k as nat),
            decreases self.chunks@.len() - k,
        {
            let chunk = &self.chunks[k];
            assert(chunk_ok(*chunk, methods@, n));
            chunk.expand_one_part(methods, &mut rows, &mut row_data, self.is_proved);
            k += 1;
            proof {
                assert(rows@[0]@.len() == n);
            }
        }
        proof {
            assert(rows_view(rows@).len() == rows@.len());
            lemma_frag_lens(*self, methods@, k as nat);
            lemma_frag_data_len(*self, methods@, k as nat);
        }
        rows
    }
}

impl CompSpec {
    /// Splits the fragment at `frag_idx` so that its row at `row_idx` becomes the first row of a
    /// new fragment, added at the end; the fragment keeps the rows before it (with the row as its
    /// leftover row).  The new fragment has the fragment's provedness.  Fails, changing nothing, if
    /// there is no such fragment or no such (non-leftover) row.  Only fragments of method chunks
    /// can be split.
    pub fn split_fragment(&mut self, frag_idx: usize, row_idx: isize) -> (r: Result<(), EditError>)
        requires
            frag_idx < old(self).fragments@.len() ==> frag_ok(old(self).fragments@[frag_idx as int], old(self).methods@),
        ensures
            frag_idx >= old(self).fragments@.len() ==> r == Err::<(), EditError>(EditError::FragOutOfRange {
                idx: frag_idx,
                len: old(self).fragments@.len() as usize,
            }),
            frag_idx < old(self).fragments@.len() && ({
                let len = chunks_len(old(self).fragments@[frag_idx as int].chunks@, old(self).fragments@[frag_idx as int].chunks@.len());
                row_idx < 0 || row_idx >= len
            }) ==> r == Err::<(), EditError>(EditError::RowOutOfRange {
                frag_idx,
                row_idx,
                frag_len: chunks_len(old(self).fragments@[frag_idx as int].chunks@,
                    old(self).fragments@[frag_idx as int].chunks@.len()) as usize,
            }),
            r is Err ==> final(self).fragments@ == old(self).fragments@,
            r is Ok ==> {
                let f = old(self).fragments@[frag_idx as int];
                let idx = row_idx as nat;
                &&& frag_idx < old(self).fragments@.len()
                &&& 0 <= row_idx < chunks_len(f.chunks@, f.chunks@.len())
                &&& final(self).fragments@.len() == old(self).fragments@.len() + 1
                &&& forall|j: int| 0 <= j < old(self).fragments@.len() && j != frag_idx
                    ==> #[trigger] final(self).fragments@[j] == old(self).fragments@[j]
                &&& final(self).fragments@[frag_idx as int].start_row == f.start_row
                &&& final(self).fragments@[frag_idx as int].chunks@ == split_first(f, old(self).methods@, idx)
                &&& final(self).fragments@[frag_idx as int].is_proved == f.is_proved
                &&& final(self).fragments@.last().start_row@ == frag_rows(f, old(self).methods@, f.chunks@.len())[row_idx as int]
                &&& final(self).fragments@.last().chunks@ == split_second(f, old(self).methods@, idx)
                &&& final(self).fragments@.last().is_proved == f.is_proved
            },
            final(self).part_heads == old(self).part_heads,
            final(self).methods == old(self).methods,
            final(self).stage == old(self).stage,
    {
        let num_frags = self.fragments.len();
        if frag_idx >= num_frags {
            return Err(EditError::FragOutOfRange { idx: frag_idx, len: num_frags });
        }
        let ghost f = self.fragments@[frag_idx as int];
        let ghost chunks = f.chunks@;
        let ghost methods = self.methods@;
        let rows = self.fragments[frag_idx].rows_in_one_part(self.methods.as_slice());
        let frag_len = rows.len() - 1;
        if row_idx < 0 || row_idx as usize >= frag_len {
            return Err(EditError::RowOutOfRange { frag_idx, row_idx, frag_len });
        }
        let idx = row_idx as usize;
        let n = self.fragments[frag_idx].chunks.len();
        // Find the chunk holding the row
        let mut start: usize = 0;
        let mut c: usize = 0;
        proof {
            lemma_chunk_holding(chunks, idx as nat, 0);
        }
        let ghost ci = chunk_holding(chunks, idx as nat, 0);
        proof {
            lemma_chunks_len_mono(chunks, 1, chunks.len());
        }
        while start + chunk_len_of(&self.fragments[frag_idx].chunks[c]) <= idx
            invariant
                c <= ci,
                ci < n,
                n == chunks.len(),
                chunks == self.fragments@[frag_idx as int].chunks@,
                frag_idx < self.fragments@.len(),
                start == chunks_len(chunks, c as nat),
                chunks_len(chunks, ci) <= idx < chunks_len(chunks, ci + 1),
                chunks_len(chunks, (c + 1) as nat) <= frag_len,
                idx < frag_len,
                frag_len == chunks_len(chunks, chunks.len()),
                frag_len < usize::MAX,
            decreases ci - c,
        {
            proof {
                assert(start + chunk_len(chunks[c as int]) == chunks_len(chunks, (c + 1) as nat));
                if c == ci {
                    assert(false);
                }
                lemma_chunks_len_mono(chunks, (c + 2) as nat, chunks.len());
            }
            start = start + chunk_len_of(&self.fragments[frag_idx].chunks[c]);
            c += 1;
        }
        proof {
            assert(start + chunk_len(chunks[c as int]) == chunks_len(chunks, (c + 1) as nat));
            if c < ci {
                lemma_chunks_len_mono(chunks, (c + 1) as nat, ci);
                assert(false);
            }
            assert(c == ci);
        }
        let sub = idx - start;
        let chunk = self.fragments[frag_idx].chunks[c];
        proof {
            assert(frag_ok(f, methods));
            assert(chunk_ok(chunk, methods, f.start_row@.len()));
        }
        let (method, s0, length) = match chunk {
            Chunk::Method { method, start_sub_lead_index, length } => (method, start_sub_lead_index, length),
            Chunk::Call { .. } => {
                proof {
                    assert(false);
                }
                return Err(EditError::SplitCall);
            },
        };
        let lead_len = self.methods[method].lead_len();
        // The chunks of the part before the split
        let mut first: Vec<Chunk> = Vec::new();
        let mut k: usize = 0;
        while k < c
            invariant
                k <= c,
                c < n,
                n == chunks.len(),
                chunks == self.fragments@[frag_idx as int].chunks@,
                frag_idx < self.fragments@.len(),
                first@ == chunks.take(k as int),
            decreases c - k,
        {
            first.push(self.fragments[frag_idx].chunks[k]);
            k += 1;
            proof {
                assert(first@ =~= chunks.take(k as int));
            }
        }
        if sub > 0 {
            first.push(Chunk::Method { method, start_sub_lead_index: s0, length: sub });
        }
        // The chunks of the part after the split
        let a = s0;
        let b = sub % lead_len;
        let new_start = if b >= lead_len - a { b - (lead_len - a) } else { a + b };
        proof {
            let l = lead_len as int;
            vstd::arithmetic::div_mod::lemma_add_mod_noop(a as int, sub as int, l);
            vstd::arithmetic::div_mod::lemma_small_mod(a as nat, l as nat);
            if b >= lead_len - a {
                vstd::arithmetic::div_mod::lemma_mod_sub_multiples_vanish((a + b) as int, l);
                vstd::arithmetic::div_mod::lemma_small_mod((a + b - l) as nat, l as nat);
            } else {
                vstd::arithmetic::div_mod::lemma_small_mod((a + b) as nat, l as nat);
            }
            assert(new_start == (s0 + sub) % l);
        }
        let mut second: Vec<Chunk> = Vec::new();
        second.push(Chunk::Method { method, start_sub_lead_index: new_start, length: length - sub });
        let mut k: usize = c + 1;
        while k < n
            invariant
                c < k <= n,
                n == chunks.len(),
                chunks == self.fragments@[frag_idx as int].chunks@,
                frag_idx < self.fragments@.len(),
                second@ == seq![Chunk::Method { method, start_sub_lead_index: new_start, length: (length - sub) as usize }]
                    + chunks.subrange(c + 1, k as int),
            decreases n - k,
        {
            second.push(self.fragments[frag_idx].chunks[k]);
            k += 1;
            proof {
                assert(second@ =~= seq![Chunk::Method { method, start_sub_lead_index: new_start, length: (length - sub) as usize }]
                    + chunks.subrange(c + 1, k as int));
            }
        }
        let new_frag = Fragment { start_row: rows[idx].clone(), chunks: second, is_proved: self.fragments[frag_idx].is_proved };
        let ghost old_frags = self.fragments@;
        let mut frag = self.fragments.remove(frag_idx);
        frag.chunks = first;
        self.fragments.insert(frag_idx, frag);
        self.fragments.push(new_frag);
        proof {
            assert(rows_view(rows@)[idx as int] == rows@[idx as int]@);
            assert(chunks.skip(c + 1) =~= chunks.subrange(c + 1, n as int));
            assert forall|j: int| 0 <= j < old_frags.len() && j != frag_idx implies #[trigger] self.fragments@[j] == old_frags[j] by {}
        }
        Ok(())
    }
}

/// The number of rows that a chunk adds.
fn chunk_len_of(c: &Chunk) -> (l: usize)
    ensures
        l == chunk_len(*c),
{
    match c {
        Chunk::Method { length, .. } => *length,
        Chunk::Call { .. } => 0,
    }
}

/// The shorthand, name and place notation of the `i`th method of the example composition.
pub open spec fn example_method(i: int) -> (Seq<char>, Seq<char>, Seq<char>) {
    if i == 0 {
        ("D"@, "Deva"@, "-58-14.58-58.36-14-58-36-18,18"@)
    } else if i == 1 {
        ("B"@, "Bristol"@, "-58-14.58-58.36.14-14.58-14-18,18"@)
    } else if i == 2 {
        ("E"@, "Lessness"@, "-38-14-56-16-12-58-14-58,12"@)
    } else if i == 3 {
        ("Y"@, "Yorkshire"@, "-38-14-58-16-12-38-14-78,12"@)
    } else if i == 4 {
        ("K"@, "York"@, "-38-14-12-38.14-14.38.14-14.38,12"@)
    } else if i == 5 {
        ("S"@, "Superlative"@, "-36-14-58-36-14-58-36-78,12"@)
    } else {
        ("W"@, "Cornwall"@, "-56-14-56-38-14-58-14-58,18"@)
    }
}

/// The methods (by index) rung, a whole lead each, in the example's only fragment.
pub open spec fn example_touch() -> Seq<usize> {
    seq![0usize, 3, 4, 5, 2]
}

/// The example composition: seven Major methods built from their place notation, one proved
/// fragment from rounds ringing a lead each of Deva, Yorkshire, York, Superlative and Lessness, and
/// the part heads generated by `18234567`.
pub open spec fn example_spec(c: CompSpec) -> bool {
    &&& c.stage == Stage { num_bells: 8 }
    &&& parses_to_part_heads("18234567"@, c.stage, c.part_heads)
    &&& c.methods@.len() == 7
    &&& forall|i: int| 0 <= i < 7 ==> {
        let m = #[trigger] c.methods@[i];
        &&& m.wf()
        &&& m.lead() == lead_bells(usable_lead(8, example_method(i).2)->0)
        &&& m.shorthand_view() == example_method(i).0
        &&& m.name_view() == example_method(i).1
        &&& m.ruleoffs() == seq![0usize]
    }
    &&& c.fragments@.len() == 1
    &&& c.fragments@[0].start_row@ == crate::bellcore::row::rounds_bells(8)
    &&& c.fragments@[0].is_proved
    &&& c.fragments@[0].chunks@.len() == example_touch().len()
    &&& forall|k: int| 0 <= k < example_touch().len() ==> #[trigger] c.fragments@[0].chunks@[k] == (Chunk::Method {
        method: example_touch()[k],
        start_sub_lead_index: 0,
        length: c.methods@[example_touch()[k] as int].lead_len_spec() as usize,
    })
}

/// The part heads of the example, `18234567`, are a valid row of Major.
proof fn lemma_example_part_heads_parse()
    ensures
        forall|e: crate::bellcore::row::InvalidRowError| !crate::bellcore::row::checked_with_stage(
            crate::bellcore::bell::parsed_bells("18234567"@), Stage { num_bells: 8 }, Err(e)),
{
    reveal_strlit("18234567");
    let cs = "18234567"@;
    assert(cs =~= seq!['1', '8', '2', '3', '4', '5', '6', '7']);
    let idx = seq![0int, 7, 1, 2, 3, 4, 5, 6];
    assert forall|k: int| 0 <= k < 8 implies crate::bellcore::bell::bell_of_name(cs[k])
        == Some(Bell { index: idx[k] as usize }) by {
        crate::bellcore::bell::lemma_bell_of_name(idx[k]);
    }
    let bells = Seq::new(8, |k: int| Bell { index: idx[k] as usize });
    assert(crate::bellcore::bell::parsed_bells(cs) =~= bells) by {
        reveal_with_fuel(crate::bellcore::bell::parsed_bells, 9);
        assert(crate::bellcore::bell::bell_of_name(cs[0]) == Some(Bell { index: 0 }));
        assert(crate::bellcore::bell::bell_of_name(cs[1]) == Some(Bell { index: 7 }));
        assert(crate::bellcore::bell::bell_of_name(cs[2]) == Some(Bell { index: 1 }));
        assert(crate::bellcore::bell::bell_of_name(cs[3]) == Some(Bell { index: 2 }));
        assert(crate::bellcore::bell::bell_of_name(cs[4]) == Some(Bell { index: 3 }));
        assert(crate::bellcore::bell::bell_of_name(cs[5]) == Some(Bell { index: 4 }));
        assert(crate::bellcore::bell::bell_of_name(cs[6]) == Some(Bell { index: 5 }));
        assert(crate::bellcore::bell::bell_of_name(cs[7]) == Some(Bell { index: 6 }));
    }
    assert(crate::bellcore::row::indices(bells) =~= idx);
    assert(crate::bellcore::row::valid_bells(bells));
    crate::bellcore::row::lemma_valid_row_checks(bells);
}

fn gen_method(shorthand: &str, name: &str, place_notation: &str) -> (r: Option<CompMethod>)
    ensures
        r is Some <==> usable_lead(8, place_notation@) is Some,
        r matches Some(m) ==> m.wf() && m.lead() == lead_bells(usable_lead(8, place_notation@)->0)
            && m.lead()[0].len() == 8 && m.shorthand_view() == shorthand@ && m.name_view() == name@
            && m.ruleoffs() == seq![0usize],
{
    CompMethod::with_lead_end_ruleoff(String::from_str(name), String::from_str(shorthand), Stage::major(), place_notation)
}

impl CompSpec {
    /// Generates an example composition.  Gives `None` only where bellframe does not build one of
    /// its methods or the part heads do not parse.
    pub fn example() -> (r: Option<CompSpec>)
        ensures
            r matches Some(c) ==> example_spec(c),
            (forall|i: int| 0 <= i < 7 ==> #[trigger] usable_lead(8, example_method(i).2) is Some) ==> r is Some,
    {
        let stage = Stage::major();
        let mut methods: Vec<CompMethod> = Vec::new();
        let m0 = gen_method("D", "Deva", "-58-14.58-58.36-14-58-36-18,18");
        let m1 = gen_method("B", "Bristol", "-58-14.58-58.36.14-14.58-14-18,18");
        let m2 = gen_method("E", "Lessness", "-38-14-56-16-12-58-14-58,12");
        let m3 = gen_method("Y", "Yorkshire", "-38-14-58-16-12-38-14-78,12");
        let m4 = gen_method("K", "York", "-38-14-12-38.14-14.38.14-14.38,12");
        let m5 = gen_method("S", "Superlative", "-36-14-58-36-14-58-36-78,12");
        let m6 = gen_method("W", "Cornwall", "-56-14-56-38-14-58-14-58,18");
        let ghost usable = forall|i: int| 0 <= i < 7 ==> #[trigger] usable_lead(8, example_method(i).2) is Some;
        proof {
            reveal_strlit("D");
            reveal_strlit("Deva");
            reveal_strlit("-58-14.58-58.36-14-58-36-18,18");
            reveal_strlit("B");
            reveal_strlit("Bristol");
            reveal_strlit("-58-14.58-58.36.14-14.58-14-18,18");
            reveal_strlit("E");
            reveal_strlit("Lessness");
            reveal_strlit("-38-14-56-16-12-58-14-58,12");
            reveal_strlit("Y");
            reveal_strlit("Yorkshire");
            reveal_strlit("-38-14-58-16-12-38-14-78,12");
            reveal_strlit("K");
            reveal_strlit("York");
            reveal_strlit("-38-14-12-38.14-14.38.14-14.38,12");
            reveal_strlit("S");
            reveal_strlit("Superlative");
            reveal_strlit("-36-14-58-36-14-58-36-78,12");
            reveal_strlit("W");
            reveal_strlit("Cornwall");
            reveal_strlit("-56-14-56-38-14-58-14-58,18");
            if usable {
                assert(usable_lead(8, example_method(0).2) is Some);
                assert(usable_lead(8, example_method(1).2) is Some);
                assert(usable_lead(8, example_method(2).2) is Some);
                assert(usable_lead(8, example_method(3).2) is Some);
                assert(usable_lead(8, example_method(4).2) is Some);
                assert(usable_lead(8, example_method(5).2) is Some);
                assert(usable_lead(8, example_method(6).2) is Some);
            }
        }
        match (m0, m1, m2, m3, m4, m5, m6) {
            (Some(m0), Some(m1), Some(m2), Some(m3), Some(m4), Some(m5), Some(m6)) => {
                methods.push(m0);
                methods.push(m1);
                methods.push(m2);
                methods.push(m3);
                methods.push(m4);
                methods.push(m5);
                methods.push(m6);
            },
            _ => {
                return None;
            },
        }
        proof {
            lemma_example_part_heads_parse();
        }
        let part_heads = match PartHeads::parse("18234567", stage) {
            Ok(ph) => ph,
            Err(_) => {
                return None;
            },
        };
        // Touch is Deva, Yorkshire, York, Superlative, Lessness: a whole lead of each
        let mut chunks: Vec<Chunk> = Vec::new();
        let touch: [usize; 5] = [0, 3, 4, 5, 2];
        let mut k: usize = 0;
        while k < 5
            invariant
                k <= 5,
                touch@ == example_touch(),
                methods@.len() == 7,
                forall|i: int| 0 <= i < 7 ==> (#[trigger] methods@[i]).wf(),
                chunks@.len() == k,
                forall|j: int| 0 <= j < k ==> #[trigger] chunks@[j] == (Chunk::Method {
                    method: example_touch()[j],
                    start_sub_lead_index: 0,
                    length: methods@[example_touch()[j] as int].lead_len_spec() as usize,
                }),
            decreases 5 - k,
        {
            let idx = touch[k];
            let lead_len = methods[idx].lead_len();
            chunks.push(Chunk::Method { method: idx, start_sub_lead_index: 0, length: lead_len });
            k += 1;
        }
        let fragment = Fragment { start_row: Row::rounds(stage), chunks, is_proved: true };
        let mut fragments: Vec<Fragment> = Vec::new();
        fragments.push(fragment);
        let c = CompSpec { fragments, part_heads, methods, stage };
        proof {
            assert(example_touch() =~= seq![0usize, 3, 4, 5, 2]);
        }
        Some(c)
    }
}

/* ========== STATISTICS ========== */

/// Statistics about a composition.
#[derive(Debug, Clone, Copy, PartialEq, Eq, Structural)]
pub struct Stats {
    /// The number of rows in each part of the composition.
    pub part_len: usize,
}

impl Default for Stats {
    fn default() -> (s: Stats)
        ensures
            s.part_len == 0,
    {
        Stats { part_len: 0 }
    }
}

/// The total proved length of the first `k` expanded fragments in one part.
pub open spec fn total_len(frags: Seq<ExpandedFrag>, k: nat) -> int
    decreases k,
{
    if k == 0 {
        0
    } else {
        total_len(frags, (k - 1) as nat) + if frags[k - 1].is_proved {
            frags[k - 1].row_data@.len() - 1
        } else {
            0
        }
    }
}

proof fn lemma_total_len_prefix(a: Seq<ExpandedFrag>, b: Seq<ExpandedFrag>, k: nat)
    requires
        k <= a.len(),
        k <= b.len(),
        forall|i: int| 0 <= i < k ==> a[i] == b[i],
    ensures
        total_len(a, k) == total_len(b, k),
    decreases k,
{
    if k > 0 {
        lemma_total_len_prefix(a, b, (k - 1) as nat);
    }
}

proof fn lemma_total_len_concat(a: Seq<ExpandedFrag>, b: Seq<ExpandedFrag>, k: nat)
    requires
        k <= b.len(),
    ensures
        total_len(a + b, a.len() + k) == total_len(a, a.len()) + total_len(b, k),
    decreases k,
{
    if k == 0 {
        lemma_total_len_prefix(a + b, a, a.len());
    } else {
        lemma_total_len_concat(a, b, (k - 1) as nat);
        assert((a + b)[a.len() + k - 1] == b[k - 1]);
        assert((a.len() + k - 1) as nat == (a.len() + (k - 1)) as nat);
    }
}

/// The length of a part is additive over fragments: the proved length of the fragments `a`
/// followed by the fragments `b` is the proved length of `a` plus that of `b`.  So adding a
/// fragment adds its proved length, which is all its rows but the leftover one if it is proved,
/// and nothing if it is muted.
pub proof fn law_part_len_additive(a: Seq<ExpandedFrag>, b: Seq<ExpandedFrag>, f: ExpandedFrag)
    ensures
        total_len(a + b, (a.len() + b.len()) as nat) == total_len(a, a.len()) + total_len(b, b.len()),
        total_len(a.push(f), (a.len() + 1) as nat) == total_len(a, a.len())
            + if f.is_proved { f.row_data@.len() - 1 } else { 0 },
        total_len(Seq::<ExpandedFrag>::empty(), 0) == 0,
{
    lemma_total_len_concat(a, b, b.len());
    lemma_total_len_concat(a, seq![f], 1);
    assert(a + seq![f] == a.push(f));
    reveal_with_fuel(total_len, 2);
}

/// The statistics of a composition: the length of a part is the sum of the proved lengths of its
/// fragments.
pub fn generate_stats(frags: &[ExpandedFrag]) -> (s: Stats)
    requires
        forall|i: int| 0 <= i < frags@.len() ==> (#[trigger] frags@[i]).row_data@.len() >= 1,
        total_len(frags@, frags@.len()) <= usize::MAX,
    ensures
        s.part_len == total_len(frags@, frags@.len()),
{
    let mut part_len: usize = 0;
    let mut i: usize = 0;
    while i < frags.len()
        invariant
            i <= frags@.len(),
            forall|j: int| 0 <= j < frags@.len() ==> (#[trigger] frags@[j]).row_data@.len() >= 1,
            total_len(frags@, frags@.len()) <= usize::MAX,
            part_len == total_len(frags@, i as nat),
        decreases frags@.len() - i,
    {
        proof {
            lemma_total_len_mono(frags@, (i + 1) as nat, frags@.len());
        }
        part_len = part_len + frags[i].len();
        i += 1;
    }
    Stats { part_len }
}

proof fn lemma_total_len_mono(frags: Seq<ExpandedFrag>, a: nat, b: nat)
    requires
        a <= b <= frags.len(),
        forall|i: int| 0 <= i < frags.len() ==> (#[trigger] frags[i]).row_data@.len() >= 1,
    ensures
        total_len(frags, a) <= total_len(frags, b),
    decreases b - a,
{
    if a < b {
        lemma_total_len_mono(frags, a, (b - 1) as nat);
    }
}

/* ========== METHOD COUNTS ========== */

/// How many rows a method has in a composition: in all, and among the proved rows.
#[derive(Debug, Clone, Copy, PartialEq, Eq, Structural)]
pub struct MethodCounts {
    /// The number of rows (in all parts) rung in this method.
    pub num_rows: usize,
    /// The number of proved rows (in all parts) rung in this method.
    pub num_proved_rows: usize,
}

/// The row's method, if it has one, is below `n`.
pub open spec fn source_in(d: RowData, n: usize) -> bool {
    match d.method_source {
        Some(src) => src.0 < n,
        None => true,
    }
}

/// The row is rung in method `m` (and, if `proved_only`, is proved).
pub open spec fn counts_for(d: RowData, m: usize, proved_only: bool) -> bool {
    &&& d.method_source matches Some(src) && src.0 == m
    &&& !proved_only || d.is_proved
}

/// How many of the first `k` rows are rung in method `m` (and proved, if `proved_only`).
pub open spec fn data_method_rows(data: Seq<RowData>, m: usize, proved_only: bool, k: nat) -> nat
    decreases k,
{
    if k == 0 {
        0
    } else {
        data_method_rows(data, m, proved_only, (k - 1) as nat) + if counts_for(data[k - 1], m, proved_only) { 1nat } else { 0nat }
    }
}

/// How many rows of the first `k` fragments (in one part) are rung in method `m` (and proved, if
/// `proved_only`).
pub open spec fn method_rows(frags: Seq<ExpandedFrag>, m: usize, proved_only: bool, k: nat) -> nat
    decreases k,
{
    if k == 0 {
        0
    } else {
        method_rows(frags, m, proved_only, (k - 1) as nat)
            + data_method_rows(frags[k - 1].row_data@, m, proved_only, frags[k - 1].row_data@.len() as nat)
    }
}

/// The number of rows (leftover rows included) of the first `k` fragments in one part.
pub open spec fn total_rows(frags: Seq<ExpandedFrag>, k: nat) -> nat
    decreases k,
{
    if k == 0 {
        0
    } else {
        total_rows(frags, (k - 1) as nat) + frags[k - 1].row_data@.len()
    }
}

proof fn lemma_data_method_rows_bound(data: Seq<RowData>, m: usize, p: bool, k: nat)
    ensures
        data_method_rows(data, m, p, k) <= k,
    decreases k,
{
    if k > 0 {
        lemma_data_method_rows_bound(data, m, p, (k - 1) as nat);
    }
}

proof fn lemma_method_rows_bound(frags: Seq<ExpandedFrag>, m: usize, p: bool, k: nat)
    ensures
        method_rows(frags, m, p, k) <= total_rows(frags, k),
    decreases k,
{
    if k > 0 {
        lemma_method_rows_bound(frags, m, p, (k - 1) as nat);
        lemma_data_method_rows_bound(frags[k - 1].row_data@, m, p, frags[k - 1].row_data@.len() as nat);
    }
}

proof fn lemma_total_rows_mono(frags: Seq<ExpandedFrag>, a: nat, b: nat)
    requires
        a <= b <= frags.len(),
    ensures
        total_rows(frags, a) <= total_rows(frags, b),
    decreases b - a,
{
    if a < b {
        lemma_total_rows_mono(frags, a, (b - 1) as nat);
    }
}

/// The row counts of each of `num_methods` methods over the expanded fragments of a composition of
/// `num_parts` parts: each row rung in a method counts once per part.  Every row's method must be
/// one of the methods.
pub fn expand_methods(num_methods: usize, frags: &[ExpandedFrag], num_parts: usize) -> (v: Vec<MethodCounts>)
    requires
        forall|f: int, r: int| 0 <= f < frags@.len() && 0 <= r < frags@[f].row_data@.len()
            ==> source_in(#[trigger] frags@[f].row_data@[r], num_methods),
        total_rows(frags@, frags@.len()) <= usize::MAX,
        num_parts * total_rows(frags@, frags@.len()) <= usize::MAX,
    ensures
        v@.len() == num_methods,
        forall|m: int| 0 <= m < num_methods ==> (#[trigger] v@[m]).num_rows
            == num_parts * method_rows(frags@, m as usize, false, frags@.len()),
        forall|m: int| 0 <= m < num_methods ==> (#[trigger] v@[m]).num_proved_rows
            == num_parts * method_rows(frags@, m as usize, true, frags@.len()),
{
    let ghost fs = frags@;
    let mut counts: Vec<(usize, usize)> = Vec::new();
    let mut m: usize = 0;
    while m < num_methods
        invariant
            m <= num_methods,
            counts@.len() == m,
            forall|j: int| 0 <= j < m ==> #[trigger] counts@[j] == (0usize, 0usize),
        decreases num_methods - m,
    {
        counts.push((0, 0));
        m += 1;
    }
    let mut f: usize = 0;
    while f < frags.len()
        invariant
            f <= fs.len(),
            fs == frags@,
            counts@.len() == num_methods,
            total_rows(fs, fs.len()) <= usize::MAX,
            forall|g: int, r: int| 0 <= g < fs.len() && 0 <= r < fs[g].row_data@.len()
                ==> source_in(#[trigger] fs[g].row_data@[r], num_methods),
            forall|j: int| 0 <= j < num_methods ==> (#[trigger] counts@[j]).0 == method_rows(fs, j as usize, false, f as nat)
                && counts@[j].1 == method_rows(fs, j as usize, true, f as nat),
        decreases fs.len() - f,
    {
        let data = &frags[f].row_data;
        let ghost c0 = counts@;
        let mut r: usize = 0;
        while r < data.len()
            invariant
                f < fs.len(),
                fs == frags@,
                data@ == fs[f as int].row_data@,
                r <= data@.len(),
                counts@.len() == num_methods,
                total_rows(fs, fs.len()) <= usize::MAX,
                forall|rr: int| 0 <= rr < data@.len() ==> source_in(#[trigger] data@[rr], num_methods),
                forall|j: int| 0 <= j < num_methods ==> (#[trigger] counts@[j]).0 == method_rows(fs, j as usize, false, f as nat)
                    + data_method_rows(data@, j as usize, false, r as nat)
                    && counts@[j].1 == method_rows(fs, j as usize, true, f as nat) + data_method_rows(data@, j as usize, true, r as nat),
            decreases data@.len() - r,
        {
            let d = data[r];
            proof {
                assert(data@[r as int] == fs[f as int].row_data@[r as int]);
            }
            match d.method_source {
                Some((mi, _)) => {
                    proof {
                        lemma_method_rows_bound(fs, mi, false, f as nat);
                        lemma_method_rows_bound(fs, mi, true, f as nat);
                        lemma_data_method_rows_bound(data@, mi, false, r as nat);
                        lemma_data_method_rows_bound(data@, mi, true, r as nat);
                        lemma_total_rows_mono(fs, (f + 1) as nat, fs.len());
                        assert(total_rows(fs, (f + 1) as nat) == total_rows(fs, f as nat) + data@.len());
                    }
                    let (a, b) = counts[mi];
                    let nb = if d.is_proved { b + 1 } else { b };
                    counts.set(mi, (a + 1, nb));
                },
                None => {},
            }
            r += 1;
        }
        f += 1;
    }
    let mut v: Vec<MethodCounts> = Vec::new();
    let mut m: usize = 0;
    while m < num_methods
        invariant
            m <= num_methods,
            counts@.len() == num_methods,
            total_rows(fs, fs.len()) <= usize::MAX,
            num_parts * total_rows(fs, fs.len()) <= usize::MAX,
            forall|j: int| 0 <= j < num_methods ==> (#[trigger] counts@[j]).0 == method_rows(fs, j as usize, false, fs.len())
                && counts@[j].1 == method_rows(fs, j as usize, true, fs.len()),
            v@.len() == m,
            forall|j: int| 0 <= j < m ==> (#[trigger] v@[j]).num_rows == num_parts * method_rows(fs, j as usize, false, fs.len())
                && v@[j].num_proved_rows == num_parts * method_rows(fs, j as usize, true, fs.len()),
        decreases num_methods - m,
    {
        let (a, b) = counts[m];
        proof {
            lemma_method_rows_bound(fs, m, false, fs.len());
            lemma_method_rows_bound(fs, m, true, fs.len());
            vstd::arithmetic::mul::lemma_mul_inequality(a as int, total_rows(fs, fs.len()) as int, num_parts as int);
            vstd::arithmetic::mul::lemma_mul_inequality(b as int, total_rows(fs, fs.len()) as int, num_parts as int);
            assert(num_parts * a == a * num_parts) by (nonlinear_arith);
            assert(num_parts * b == b * num_parts) by (nonlinear_arith);
            assert(num_parts * total_rows(fs, fs.len()) == total_rows(fs, fs.len()) * num_parts) by (nonlinear_arith);
        }
        v.push(MethodCounts { num_rows: num_parts * a, num_proved_rows: num_parts * b });
        m += 1;
    }
    v
}

/* ========== THE FULL STATE ========== */

/// The rows (leftover rows included) of the first `k` fragments of a composition, in one part.
pub open spec fn spec_rows(frags: Seq<Fragment>, methods: Seq<CompMethod>, k: nat) -> nat
    decreases k,
{
    if k == 0 {
        0
    } else {
        spec_rows(frags, methods, (k - 1) as nat) + frag_data(frags[k - 1], methods, frags[k - 1].chunks@.len()).len() + 1
    }
}

/// Every fragment of the composition is made of method chunks of its stage, and the part heads
/// have that stage too.
pub open spec fn comp_ok(c: CompSpec) -> bool {
    &&& c.part_heads.wf()
    &&& c.part_heads.rows_view()[0]@.len() == c.stage.num_bells
    &&& forall|f: int| 0 <= f < c.fragments@.len() ==> frag_ok(#[trigger] c.fragments@[f], c.methods@)
        && c.fragments@[f].start_row@.len() == c.stage.num_bells
}

/// A composition expanded for display: each fragment in every part, the row counts of each method,
/// and statistics.
pub struct FullState {
    /// The expanded fragments.
    pub fragments: Vec<ExpandedFrag>,
    /// The row counts of each method, in the order of the methods.
    pub methods: Vec<MethodCounts>,
    /// Statistics about the composition.
    pub stats: Stats,
    /// The stage of the composition.
    pub stage: Stage,
}

proof fn lemma_frag_data_sources(f: Fragment, methods: Seq<CompMethod>, k: nat)
    requires
        k <= f.chunks@.len(),
        frag_ok(f, methods),
        methods.len() <= usize::MAX,
    ensures
        forall|r: int| 0 <= r < frag_data(f, methods, k).len() ==> source_in(#[trigger] frag_data(f, methods, k)[r], methods.len() as usize),
    decreases k,
{
    if k > 0 {
        lemma_frag_data_sources(f, methods, (k - 1) as nat);
        let prev = frag_data(f, methods, (k - 1) as nat);
        let c = f.chunks@[k - 1];
        assert(chunk_ok(c, methods, f.start_row@.len()));
        let d = chunk_data(c, methods, f.is_proved);
        assert(frag_data(f, methods, k) == prev + d);
        assert forall|r: int| 0 <= r < frag_data(f, methods, k).len() implies source_in(#[trigger] frag_data(f, methods, k)[r], methods.len() as usize) by {
            if r < prev.len() {
                assert(frag_data(f, methods, k)[r] == prev[r]);
            } else {
                assert(frag_data(f, methods, k)[r] == d[r - prev.len()]);
                if let Chunk::Method { method, start_sub_lead_index, length } = c {
                    assert(d[r - prev.len()].method_source == Some((method,
                        ((start_sub_lead_index + (r - prev.len())) % (methods[method as int].lead_len_spec() as int)) as usize)));
                }
            }
        }
    }
}

proof fn lemma_total_len_le_rows(frags: Seq<ExpandedFrag>, k: nat)
    requires
        k <= frags.len(),
        forall|i: int| 0 <= i < frags.len() ==> (#[trigger] frags[i]).row_data@.len() >= 1,
    ensures
        total_len(frags, k) <= total_rows(frags, k),
    decreases k,
{
    if k > 0 {
        lemma_total_len_le_rows(frags, (k - 1) as nat);
    }
}

impl FullState {
    /// Expands a composition: every fragment into every part, the row counts of each method (one
    /// per part for each row), and the length of a part.  The number of rows must fit in a `usize`
    /// even when counted once per part.
    pub fn new(spec: &CompSpec) -> (s: FullState)
        requires
            comp_ok(*spec),
            spec_rows(spec.fragments@, spec.methods@, spec.fragments@.len()) <= usize::MAX,
            spec.part_heads.rows_view().len() * spec_rows(spec.fragments@, spec.methods@, spec.fragments@.len()) <= usize::MAX,
        ensures
            s.stage == spec.stage,
            s.fragments@.len() == spec.fragments@.len(),
            forall|f: int| 0 <= f < spec.fragments@.len() ==> expanded_fragment(#[trigger] s.fragments@[f],
                spec.fragments@[f], rows_view(spec.part_heads.rows_view()), spec.methods@),
            s.methods@.len() == spec.methods@.len(),
            forall|m: int| 0 <= m < spec.methods@.len() ==> (#[trigger] s.methods@[m]).num_rows
                == spec.part_heads.rows_view().len() * method_rows(s.fragments@, m as usize, false, s.fragments@.len())
                && s.methods@[m].num_proved_rows
                == spec.part_heads.rows_view().len() * method_rows(s.fragments@, m as usize, true, s.fragments@.len()),
            s.stats.part_len == total_len(s.fragments@, s.fragments@.len()),
    {
        let mut fragments: Vec<ExpandedFrag> = Vec::new();
        let mut k: usize = 0;
        while k < spec.fragments.len()
            invariant
                k <= spec.fragments@.len(),
                comp_ok(*spec),
                fragments@.len() == k,
                forall|f: int| 0 <= f < k ==> expanded_fragment(#[trigger] fragments@[f],
                    spec.fragments@[f], rows_view(spec.part_heads.rows_view()), spec.methods@),
                total_rows(fragments@, k as nat) == spec_rows(spec.fragments@, spec.methods@, k as nat),
            decreases spec.fragments@.len() - k,
        {
            let ghost before = fragments@;
            assert(frag_ok(spec.fragments@[k as int], spec.methods@));
            let e = expand_fragment(&spec.fragments[k], &spec.part_heads, spec.methods.as_slice());
            fragments.push(e);
            proof {
                assert forall|f: int| 0 <= f < k + 1 implies expanded_fragment(#[trigger] fragments@[f],
                    spec.fragments@[f], rows_view(spec.part_heads.rows_view()), spec.methods@) by {
                    if f < k {
                        assert(fragments@[f] == before[f]);
                    }
                }
                assert(total_rows(fragments@, k as nat) == total_rows(before, k as nat)) by {
                    lemma_total_rows_prefix(before, fragments@, k as nat);
                }
            }
            k += 1;
        }
        let ghost fs = fragments@;
        let num_methods = spec.methods.len();
        proof {
            assert forall|f: int, r: int| 0 <= f < fs.len() && 0 <= r < fs[f].row_data@.len()
                implies source_in(#[trigger] fs[f].row_data@[r], spec.methods@.len() as usize) by {
                let sf = spec.fragments@[f];
                lemma_frag_data_sources(sf, spec.methods@, sf.chunks@.len());
                let d = frag_data(sf, spec.methods@, sf.chunks@.len());
                if r < d.len() {
                    assert(fs[f].row_data@[r] == d[r]);
                }
            }
            assert forall|i: int| 0 <= i < fs.len() implies (#[trigger] fs[i]).row_data@.len() >= 1 by {
                assert(fs[i].row_data@.len() == frag_data(spec.fragments@[i], spec.methods@, spec.fragments@[i].chunks@.len()).len() + 1);
            }
            lemma_total_len_le_rows(fs, fs.len());
        }
        let methods = expand_methods(num_methods, fragments.as_slice(), spec.part_heads.len());
        let stats = generate_stats(fragments.as_slice());
        FullState { fragments, methods, stats, stage: spec.stage }
    }

    /// Replaces `self` with the expansion of `spec`.
    pub fn update(&mut self, spec: &CompSpec)
        requires
            comp_ok(*spec),
            spec_rows(spec.fragments@, spec.methods@, spec.fragments@.len()) <= usize::MAX,
            spec.part_heads.rows_view().len() * spec_rows(spec.fragments@, spec.methods@, spec.fragments@.len()) <= usize::MAX,
        ensures
            final(self).stage == spec.stage,
            final(self).fragments@.len() == spec.fragments@.len(),
            forall|f: int| 0 <= f < spec.fragments@.len() ==> expanded_fragment(#[trigger] final(self).fragments@[f],
                spec.fragments@[f], rows_view(spec.part_heads.rows_view()), spec.methods@),
            final(self).methods@.len() == spec.methods@.len(),
            forall|m: int| 0 <= m < spec.methods@.len() ==> (#[trigger] final(self).methods@[m]).num_rows
                == spec.part_heads.rows_view().len() * method_rows(final(self).fragments@, m as usize, false, final(self).fragments@.len())
                && final(self).methods@[m].num_proved_rows
                == spec.part_heads.rows_view().len() * method_rows(final(self).fragments@, m as usize, true, final(self).fragments@.len()),
            final(self).stats.part_len == total_len(final(self).fragments@, final(self).fragments@.len()),
    {
        *self = FullState::new(spec);
    }
}

proof fn lemma_total_rows_prefix(a: Seq<ExpandedFrag>, b: Seq<ExpandedFrag>, k: nat)
    requires
        k <= a.len(),
        k <= b.len(),
        forall|i: int| 0 <= i < k ==> a[i] == b[i],
    ensures
        total_rows(a, k) == total_rows(b, k),
    decreases k,
{
    if k > 0 {
        lemma_total_rows_prefix(a, b, (k - 1) as nat);
    }
}

/* ========== MUSIC ========== */

/// For each fragment, part and row, the places of the row that a music pattern matched, if it
/// matched.
pub type PatternMatches = Vec<Vec<Vec<Option<Vec<usize>>>>>;

/// For each fragment, part and row, one counter per place of how many music patterns matched it.
pub type MusicCounters = Vec<Vec<Vec<Vec<u8>>>>;

/// A tree of music definitions: a pattern (with where it matched the composition), or a named
/// group of sub-definitions.
pub enum MusicSpec {
    /// A pattern of musical rows: the name shown for it, how many rows on the stage match it, and
    /// the places that it matched in each row of the composition.
    Pattern { name: String, max_count: usize, matches: PatternMatches },
    /// A named group of sub-definitions.
    Group { name: String, sub_groups: Vec<MusicSpec> },
}

/// A music definition once expanded over a composition.
pub struct MusicGroup {
    /// The name shown for this group.
    pub name: String,
    /// The number of rows on the stage that this group can match (summed over sub-groups).
    pub max_count: usize,
    /// Where a pattern matched, or the expanded sub-groups of a group.
    pub inner: MusicGroupInner,
}

/// The contents of an expanded music group.
pub enum MusicGroupInner {
    /// Every proved row location matched by a pattern, in order of fragment, part and row.
    Leaf { rows_matched: Vec<RowLocation> },
    /// The expanded sub-groups, and the total number of rows they matched.
    Group { sub_groups: Vec<MusicGroup>, count: usize },
}

/// `c + k`, saturated to the range of a `u8`.
pub open spec fn sat_add(c: int, k: int) -> int {
    if c + k > 255 { 255 } else { c + k }
}

/// How many of the first `k` places of `ps` are `q`.
pub open spec fn occurrences(ps: Seq<usize>, q: int, k: nat) -> nat
    decreases k,
{
    if k == 0 {
        0
    } else {
        occurrences(ps, q, (k - 1) as nat) + if ps[k - 1] as int == q { 1nat } else { 0nat }
    }
}

/// How often a row's match (if any) names place `q`.
pub open spec fn match_occurrences(places: Option<Vec<usize>>, q: int) -> nat {
    match places {
        Some(ps) => occurrences(ps@, q, ps@.len() as nat),
        None => 0,
    }
}

/// The counters of one row after adding one to the counter of each matched place (saturating).
pub open spec fn counted(old_counts: Seq<u8>, places: Option<Vec<usize>>, new_counts: Seq<u8>) -> bool {
    &&& new_counts.len() == old_counts.len()
    &&& forall|q: int| 0 <= q < old_counts.len() ==> #[trigger] new_counts[q] as int
        == sat_add(old_counts[q] as int, match_occurrences(places, q) as int)
}

/// The matched, proved rows among the first `k` rows of part `p` of fragment `f`.
pub open spec fn part_hits(m: Seq<Option<Vec<usize>>>, data: Seq<RowData>, f: usize, p: usize, k: nat) -> Seq<RowLocation>
    decreases k,
{
    if k == 0 {
        seq![]
    } else {
        part_hits(m, data, f, p, (k - 1) as nat) + if m[k - 1] is Some && data[k - 1].is_proved {
            seq![RowLocation {
                frag_index: crate::utils::types::FragIdx { index: f },
                row_index: crate::utils::types::RowIdx { index: (k - 1) as usize },
                part_index: crate::utils::types::PartIdx { index: p },
            }]
        } else {
            seq![]
        }
    }
}

/// The matched, proved rows among the first `q` parts of fragment `f`.
pub open spec fn frag_hits(m: Seq<Vec<Option<Vec<usize>>>>, data: Seq<RowData>, f: usize, q: nat) -> Seq<RowLocation>
    decreases q,
{
    if q == 0 {
        seq![]
    } else {
        frag_hits(m, data, f, (q - 1) as nat) + part_hits(m[q - 1]@, data, f, (q - 1) as usize, m[q - 1]@.len() as nat)
    }
}

/// The matched, proved rows among the first `k` fragments.
pub open spec fn all_hits(m: Seq<Vec<Vec<Option<Vec<usize>>>>>, frags: Seq<ExpandedFrag>, k: nat) -> Seq<RowLocation>
    decreases k,
{
    if k == 0 {
        seq![]
    } else {
        all_hits(m, frags, (k - 1) as nat) + frag_hits(m[k - 1]@, frags[k - 1].row_data@, (k - 1) as usize, m[k - 1]@.len() as nat)
    }
}

/// The counters have one entry per fragment, a list of parts for each, one entry per row of the
/// fragment for each part, and `n` counters for each row.
pub open spec fn counters_ok(counters: Seq<Vec<Vec<Vec<u8>>>>, frags: Seq<ExpandedFrag>, n: nat) -> bool {
    &&& counters.len() == frags.len()
    &&& forall|f: int, p: int| 0 <= f < counters.len() && 0 <= p < counters[f]@.len()
        ==> (#[trigger] counters[f]@[p])@.len() == frags[f].row_data@.len()
    &&& forall|f: int, p: int, r: int| 0 <= f < counters.len() && 0 <= p < counters[f]@.len() && 0 <= r < counters[f]@[p]@.len()
        ==> (#[trigger] counters[f]@[p]@[r])@.len() == n
}

/// Two sets of counters have the same shape.
pub open spec fn same_counter_shape(a: Seq<Vec<Vec<Vec<u8>>>>, b: Seq<Vec<Vec<Vec<u8>>>>) -> bool {
    &&& a.len() == b.len()
    &&& forall|f: int| 0 <= f < a.len() ==> (#[trigger] a[f])@.len() == b[f]@.len()
    &&& forall|f: int, p: int| 0 <= f < a.len() && 0 <= p < a[f]@.len() ==> (#[trigger] a[f]@[p])@.len() == b[f]@[p]@.len()
    &&& forall|f: int, p: int, r: int| 0 <= f < a.len() && 0 <= p < a[f]@.len() && 0 <= r < a[f]@[p]@.len()
        ==> (#[trigger] a[f]@[p]@[r])@.len() == b[f]@[p]@[r]@.len()
}

/// A pattern's matches have the shape of the counters, and every matched place is below `n`.
pub open spec fn matches_fit(m: Seq<Vec<Vec<Option<Vec<usize>>>>>, counters: Seq<Vec<Vec<Vec<u8>>>>, n: nat) -> bool {
    &&& m.len() == counters.len()
    &&& forall|f: int| 0 <= f < m.len() ==> (#[trigger] m[f])@.len() == counters[f]@.len()
    &&& forall|f: int, p: int| 0 <= f < m.len() && 0 <= p < m[f]@.len() ==> (#[trigger] m[f]@[p])@.len() == counters[f]@[p]@.len()
    &&& forall|f: int, p: int, r: int| 0 <= f < m.len() && 0 <= p < m[f]@.len() && 0 <= r < m[f]@[p]@.len()
        ==> (#[trigger] m[f]@[p]@[r] matches Some(ps) ==> forall|i: int| 0 <= i < ps@.len() ==> #[trigger] ps@[i] < n)
}

proof fn lemma_same_shape_trans(a: Seq<Vec<Vec<Vec<u8>>>>, b: Seq<Vec<Vec<Vec<u8>>>>, c: Seq<Vec<Vec<Vec<u8>>>>)
    requires
        same_counter_shape(a, b),
        same_counter_shape(b, c),
    ensures
        same_counter_shape(a, c),
{
}

proof fn lemma_same_shape_refl(a: Seq<Vec<Vec<Vec<u8>>>>)
    ensures
        same_counter_shape(a, a),
{
}

proof fn lemma_fit_same_shape(m: Seq<Vec<Vec<Option<Vec<usize>>>>>, a: Seq<Vec<Vec<Vec<u8>>>>, b: Seq<Vec<Vec<Vec<u8>>>>, frags: Seq<ExpandedFrag>, n: nat)
    requires
        same_counter_shape(a, b),
    ensures
        matches_fit(m, a, n) ==> matches_fit(m, b, n),
        counters_ok(a, frags, n) ==> counters_ok(b, frags, n),
{
    if matches_fit(m, a, n) {
        assert forall|f: int, p: int| 0 <= f < m.len() && 0 <= p < m[f]@.len() implies (#[trigger] m[f]@[p])@.len() == b[f]@[p]@.len() by {
            assert(m[f]@.len() == a[f]@.len());
        }
    }
    if counters_ok(a, frags, n) {
        assert forall|f: int, p: int| 0 <= f < b.len() && 0 <= p < b[f]@.len() implies (#[trigger] b[f]@[p])@.len() == frags[f].row_data@.len() by {
            assert(b[f]@.len() == a[f]@.len());
            assert(a[f]@[p]@.len() == b[f]@[p]@.len());
        }
        assert forall|f: int, p: int, r: int| 0 <= f < b.len() && 0 <= p < b[f]@.len() && 0 <= r < b[f]@[p]@.len()
            implies (#[trigger] b[f]@[p]@[r])@.len() == n by {
            assert(b[f]@.len() == a[f]@.len());
            assert(a[f]@[p]@.len() == b[f]@[p]@.len());
            assert(a[f]@[p]@[r]@.len() == b[f]@[p]@[r]@.len());
        }
    }
}

proof fn lemma_counters_ok_same_shape(a: Seq<Vec<Vec<Vec<u8>>>>, b: Seq<Vec<Vec<Vec<u8>>>>, frags: Seq<ExpandedFrag>, n: nat)
    requires
        same_counter_shape(a, b),
        counters_ok(a, frags, n),
    ensures
        counters_ok(b, frags, n),
{
    lemma_fit_same_shape(Seq::<Vec<Vec<Option<Vec<usize>>>>>::empty(), a, b, frags, n);
}

/// Every pattern of the tree fits the counters.
pub open spec fn music_fits(m: MusicSpec, counters: Seq<Vec<Vec<Vec<u8>>>>, n: nat) -> bool
    decreases m,
{
    match m {
        MusicSpec::Pattern { matches, .. } => matches_fit(matches@, counters, n),
        MusicSpec::Group { sub_groups, .. } => forall|k: int| 0 <= k < sub_groups@.len()
            ==> music_fits(#[trigger] sub_groups@[k], counters, n),
    }
}

proof fn lemma_music_fits_same_shape(m: MusicSpec, a: Seq<Vec<Vec<Vec<u8>>>>, b: Seq<Vec<Vec<Vec<u8>>>>, frags: Seq<ExpandedFrag>, n: nat)
    requires
        same_counter_shape(a, b),
        music_fits(m, a, n),
    ensures
        music_fits(m, b, n),
    decreases m,
{
    match m {
        MusicSpec::Pattern { matches, .. } => {
            lemma_fit_same_shape(matches@, a, b, frags, n);
        },
        MusicSpec::Group { sub_groups, .. } => {
            assert forall|k: int| 0 <= k < sub_groups@.len() implies music_fits(#[trigger] sub_groups@[k], b, n) by {
                lemma_music_fits_same_shape(sub_groups@[k], a, b, frags, n);
            }
        },
    }
}

/// How often the patterns of a music tree name place `q` of row `r` of part `p` of fragment `f`.
pub open spec fn tree_occurrences(m: MusicSpec, f: int, p: int, r: int, q: int) -> nat
    decreases m,
{
    match m {
        MusicSpec::Pattern { matches, .. } => match_occurrences(matches@[f]@[p]@[r], q),
        MusicSpec::Group { sub_groups, .. } => subs_occurrences(sub_groups@, sub_groups@.len() as nat, f, p, r, q),
    }
}

/// How often the first `k` music trees of `subs` name a place.
pub open spec fn subs_occurrences(subs: Seq<MusicSpec>, k: nat, f: int, p: int, r: int, q: int) -> nat
    decreases subs, k,
{
    if k == 0 || k > subs.len() {
        0
    } else {
        subs_occurrences(subs, (k - 1) as nat, f, p, r, q) + tree_occurrences(subs[k - 1], f, p, r, q)
    }
}

/// How many proved rows the patterns of a music tree match, counting a row once per pattern.
pub open spec fn tree_count(m: MusicSpec, frags: Seq<ExpandedFrag>) -> nat
    decreases m,
{
    match m {
        MusicSpec::Pattern { matches, .. } => all_hits(matches@, frags, frags.len()).len(),
        MusicSpec::Group { sub_groups, .. } => subs_count(sub_groups@, sub_groups@.len() as nat, frags),
    }
}

/// How many proved rows the first `k` music trees of `subs` match.
pub open spec fn subs_count(subs: Seq<MusicSpec>, k: nat, frags: Seq<ExpandedFrag>) -> nat
    decreases subs, k,
{
    if k == 0 || k > subs.len() {
        0
    } else {
        subs_count(subs, (k - 1) as nat, frags) + tree_count(subs[k - 1], frags)
    }
}

/// The number of rows the patterns of a music tree can match at most.
pub open spec fn tree_max(m: MusicSpec) -> nat
    decreases m,
{
    match m {
        MusicSpec::Pattern { max_count, .. } => max_count as nat,
        MusicSpec::Group { sub_groups, .. } => subs_max(sub_groups@, sub_groups@.len() as nat),
    }
}

/// The number of rows the first `k` music trees of `subs` can match at most.
pub open spec fn subs_max(subs: Seq<MusicSpec>, k: nat) -> nat
    decreases subs, k,
{
    if k == 0 || k > subs.len() {
        0
    } else {
        subs_max(subs, (k - 1) as nat) + tree_max(subs[k - 1])
    }
}

/// The number of rows an expanded music group matched.
pub open spec fn group_count(g: MusicGroup) -> int {
    match g.inner {
        MusicGroupInner::Leaf { rows_matched } => rows_matched@.len() as int,
        MusicGroupInner::Group { count, .. } => count as int,
    }
}

/// `g` is `m` expanded over the fragments: the same names, every pattern's matched proved rows, and
/// the totals of every group.
pub open spec fn expands_to(m: MusicSpec, frags: Seq<ExpandedFrag>, g: MusicGroup) -> bool
    decreases m,
{
    match m {
        MusicSpec::Pattern { name, max_count, matches } => {
            &&& g.name@ == name@
            &&& g.max_count == max_count
            &&& g.inner matches MusicGroupInner::Leaf { rows_matched }
            &&& rows_matched@ == all_hits(matches@, frags, frags.len())
        },
        MusicSpec::Group { name, sub_groups } => {
            &&& g.name@ == name@
            &&& g.max_count == tree_max(m)
            &&& g.inner matches MusicGroupInner::Group { sub_groups: gs, count }
            &&& count == tree_count(m, frags)
            &&& gs@.len() == sub_groups@.len()
            &&& forall|k: int| 0 <= k < gs@.len() ==> expands_to(sub_groups@[k], frags, #[trigger] gs@[k])
        },
    }
}

proof fn lemma_subs_mono(subs: Seq<MusicSpec>, a: nat, b: nat, frags: Seq<ExpandedFrag>)
    requires
        a <= b <= subs.len(),
    ensures
        subs_count(subs, a, frags) <= subs_count(subs, b, frags),
        subs_max(subs, a) <= subs_max(subs, b),
    decreases b - a,
{
    if a < b {
        lemma_subs_mono(subs, a, (b - 1) as nat, frags);
    }
}

/// Adds one (saturating) to the counter of each matched place of a row.
fn count_places(counts: &Vec<u8>, places: &Option<Vec<usize>>) -> (r: Vec<u8>)
    requires
        places matches Some(ps) ==> forall|i: int| 0 <= i < ps@.len() ==> #[trigger] ps@[i] < counts@.len(),
    ensures
        counted(counts@, *places, r@),
{
    let mut out = counts.clone();
    proof {
        assert(out@ =~= counts@);
    }
    match places {
        None => {},
        Some(ps) => {
            let mut k: usize = 0;
            while k < ps.len()
                invariant
                    k <= ps@.len(),
                    out@.len() == counts@.len(),
                    forall|i: int| 0 <= i < ps@.len() ==> #[trigger] ps@[i] < counts@.len(),
                    forall|q: int| 0 <= q < counts@.len() ==> #[trigger] out@[q] as int
                        == sat_add(counts@[q] as int, occurrences(ps@, q, k as nat) as int),
                decreases ps@.len() - k,
            {
                let q = ps[k];
                let c = out[q];
                if c < 255 {
                    out.set(q, c + 1);
                }
                k += 1;
                proof {
                    assert forall|x: int| 0 <= x < counts@.len() implies #[trigger] out@[x] as int
                        == sat_add(counts@[x] as int, occurrences(ps@, x, k as nat) as int) by {
                        assert(occurrences(ps@, x, k as nat) == occurrences(ps@, x, (k - 1) as nat)
                            + if ps@[k - 1] as int == x { 1nat } else { 0nat });
                    }
                }
            }
        },
    }
    out
}

/// Expands one pattern over the expanded fragments: returns every matched row that is proved, and
/// adds one (saturating at 255) to the counter of each matched place of every matched row, proved
/// or not.
fn expand_pattern(matches: &PatternMatches, frags: &[ExpandedFrag], counters: &mut MusicCounters, n: usize) -> (rows_matched: Vec<RowLocation>)
    requires
        counters_ok(old(counters)@, frags@, n as nat),
        matches_fit(matches@, old(counters)@, n as nat),
    ensures
        rows_matched@ == all_hits(matches@, frags@, frags@.len()),
        same_counter_shape(old(counters)@, final(counters)@),
        forall|f: int, p: int, r: int| 0 <= f < frags@.len() && 0 <= p < old(counters)@[f]@.len()
            && 0 <= r < old(counters)@[f]@[p]@.len()
            ==> counted(old(counters)@[f]@[p]@[r]@, matches@[f]@[p]@[r], (#[trigger] final(counters)@[f]@[p]@[r])@),
{
    let ghost m = matches@;
    let ghost c0 = counters@;
    let mut rows_matched: Vec<RowLocation> = Vec::new();
    let mut new_counters: MusicCounters = Vec::new();
    let mut f: usize = 0;
    while f < frags.len()
        invariant
            f <= frags@.len(),
            m == matches@,
            c0 == counters@,
            counters_ok(c0, frags@, n as nat),
            matches_fit(m, c0, n as nat),
            rows_matched@ == all_hits(m, frags@, f as nat),
            new_counters@.len() == f,
            forall|g: int| 0 <= g < f ==> (#[trigger] new_counters@[g])@.len() == c0[g]@.len(),
            forall|g: int, p: int| 0 <= g < f && 0 <= p < c0[g]@.len()
                ==> (#[trigger] new_counters@[g]@[p])@.len() == c0[g]@[p]@.len(),
            forall|g: int, p: int, r: int| 0 <= g < f && 0 <= p < c0[g]@.len() && 0 <= r < c0[g]@[p]@.len()
                ==> counted(c0[g]@[p]@[r]@, m[g]@[p]@[r], (#[trigger] new_counters@[g]@[p]@[r])@),
        decreases frags@.len() - f,
    {
        let mf = &matches[f];
        let data = &frags[f].row_data;
        let ghost hits_before = rows_matched@;
        let mut frag_counters: Vec<Vec<Vec<u8>>> = Vec::new();
        let mut p: usize = 0;
        while p < mf.len()
            invariant
                f < frags@.len(),
                p <= mf@.len(),
                m == matches@,
                c0 == counters@,
                mf@ == m[f as int]@,
                data@ == frags@[f as int].row_data@,
                counters_ok(c0, frags@, n as nat),
                matches_fit(m, c0, n as nat),
                rows_matched@ == hits_before + frag_hits(mf@, data@, f, p as nat),
                frag_counters@.len() == p,
                forall|q: int| 0 <= q < p ==> (#[trigger] frag_counters@[q])@.len() == c0[f as int]@[q]@.len(),
                forall|q: int, r: int| 0 <= q < p && 0 <= r < c0[f as int]@[q]@.len()
                    ==> counted(c0[f as int]@[q]@[r]@, m[f as int]@[q]@[r], (#[trigger] frag_counters@[q]@[r])@),
            decreases mf@.len() - p,
        {
            let mp = &mf[p];
            let ghost hits_part = rows_matched@;
            let mut part_counters: Vec<Vec<u8>> = Vec::new();
            let mut r: usize = 0;
            proof {
                assert(mp@.len() == c0[f as int]@[p as int]@.len());
                assert(mp@.len() == data@.len());
            }
            while r < mp.len()
                invariant
                    f < frags@.len(),
                    p < mf@.len(),
                    r <= mp@.len(),
                    mp@ == m[f as int]@[p as int]@,
                    mf@ == m[f as int]@,
                    data@ == frags@[f as int].row_data@,
                    mp@.len() == data@.len(),
                    mp@.len() == c0[f as int]@[p as int]@.len(),
                    counters_ok(c0, frags@, n as nat),
                    matches_fit(m, c0, n as nat),
                    c0 == counters@,
                    rows_matched@ == hits_part + part_hits(mp@, data@, f, p, r as nat),
                    part_counters@.len() == r,
                    forall|k: int| 0 <= k < r ==> counted(c0[f as int]@[p as int]@[k]@, m[f as int]@[p as int]@[k],
                        (#[trigger] part_counters@[k])@),
                decreases mp@.len() - r,
            {
                proof {
                    assert(counters@[f as int]@[p as int]@[r as int]@.len() == n);
                }
                let row_counts = count_places(&counters[f][p][r], &mp[r]);
                part_counters.push(row_counts);
                if mp[r].is_some() && data[r].is_proved {
                    rows_matched.push(RowLocation {
                        frag_index: crate::utils::types::FragIdx { index: f },
                        row_index: crate::utils::types::RowIdx { index: r },
                        part_index: crate::utils::types::PartIdx { index: p },
                    });
                }
                r += 1;
                proof {
                    assert(rows_matched@ =~= hits_part + part_hits(mp@, data@, f, p, r as nat));
                }
            }
            frag_counters.push(part_counters);
            p += 1;
            proof {
                assert(frag_hits(mf@, data@, f, p as nat) == frag_hits(mf@, data@, f, (p - 1) as nat)
                    + part_hits(mf@[p - 1]@, data@, f, (p - 1) as usize, mf@[p - 1]@.len() as nat));
                assert(rows_matched@ =~= hits_before + frag_hits(mf@, data@, f, p as nat));
            }
        }
        new_counters.push(frag_counters);
        f += 1;
        proof {
            assert(rows_matched@ =~= all_hits(m, frags@, f as nat));
        }
    }
    *counters = new_counters;
    proof {
        assert forall|g: int, p: int, r: int| 0 <= g < c0.len() && 0 <= p < c0[g]@.len() && 0 <= r < c0[g]@[p]@.len()
            implies (#[trigger] c0[g]@[p]@[r])@.len() == counters@[g]@[p]@[r]@.len() by {
            assert(counted(c0[g]@[p]@[r]@, m[g]@[p]@[r], counters@[g]@[p]@[r]@));
        }
    }
    rows_matched
}

/// Expands a music definition over the expanded fragments (`n` bells to a row): each pattern gives
/// every proved row that it matched, and each group its expanded sub-groups with the total number
/// of rows they matched and could match.  Adds one (saturating at 255) to the counter of each
/// place of each row every time a pattern matches that place.  The totals must fit in a `usize`.
pub fn expand_music_group(group: &MusicSpec, frags: &[ExpandedFrag], counters: &mut MusicCounters, n: usize) -> (g: MusicGroup)
    requires
        counters_ok(old(counters)@, frags@, n as nat),
        music_fits(*group, old(counters)@, n as nat),
        tree_count(*group, frags@) <= usize::MAX,
        tree_max(*group) <= usize::MAX,
    ensures
        expands_to(*group, frags@, g),
        group_count(g) == tree_count(*group, frags@),
        same_counter_shape(old(counters)@, final(counters)@),
        forall|f: int, p: int, r: int, q: int| 0 <= f < frags@.len() && 0 <= p < old(counters)@[f]@.len()
            && 0 <= r < old(counters)@[f]@[p]@.len() && 0 <= q < n
            ==> (#[trigger] final(counters)@[f]@[p]@[r]@[q]) as int
                == sat_add(old(counters)@[f]@[p]@[r]@[q] as int, tree_occurrences(*group, f, p, r, q) as int),
    decreases group,
{
    match group {
        MusicSpec::Pattern { name, max_count, matches } => {
            let rows_matched = expand_pattern(matches, frags, counters, n);
            proof {
                assert forall|f: int, p: int, r: int, q: int| 0 <= f < frags@.len() && 0 <= p < old(counters)@[f]@.len()
                    && 0 <= r < old(counters)@[f]@[p]@.len() && 0 <= q < n
                    implies (#[trigger] counters@[f]@[p]@[r]@[q]) as int
                        == sat_add(old(counters)@[f]@[p]@[r]@[q] as int, tree_occurrences(*group, f, p, r, q) as int) by {
                    assert(counted(old(counters)@[f]@[p]@[r]@, matches@[f]@[p]@[r], counters@[f]@[p]@[r]@));
                }
            }
            MusicGroup { name: name.clone(), max_count: *max_count, inner: MusicGroupInner::Leaf { rows_matched } }
        },
        MusicSpec::Group { name, sub_groups } => {
            let ghost c0 = old(counters)@;
            let ghost subs = sub_groups@;
            let mut gs: Vec<MusicGroup> = Vec::new();
            let mut count: usize = 0;
            let mut max_count: usize = 0;
            let mut k: usize = 0;
            proof {
                lemma_same_shape_refl(c0);
            }
            while k < sub_groups.len()
                invariant
                    k <= subs.len(),
                    subs == sub_groups@,
                    *group == (MusicSpec::Group { name: *name, sub_groups: *sub_groups }),
                    counters_ok(counters@, frags@, n as nat),
                    counters_ok(c0, frags@, n as nat),
                    same_counter_shape(c0, counters@),
                    music_fits(*group, c0, n as nat),
                    tree_count(*group, frags@) <= usize::MAX,
                    tree_max(*group) <= usize::MAX,
                    count == subs_count(subs, k as nat, frags@),
                    max_count == subs_max(subs, k as nat),
                    gs@.len() == k,
                    forall|j: int| 0 <= j < k ==> expands_to(subs[j], frags@, #[trigger] gs@[j]),
                    forall|f: int, p: int, r: int, q: int| 0 <= f < frags@.len() && 0 <= p < c0[f]@.len()
                        && 0 <= r < c0[f]@[p]@.len() && 0 <= q < n
                        ==> (#[trigger] counters@[f]@[p]@[r]@[q]) as int
                            == sat_add(c0[f]@[p]@[r]@[q] as int, subs_occurrences(subs, k as nat, f, p, r, q) as int),
                decreases subs.len() - k,
            {
                let sub = &sub_groups[k];
                let ghost before = counters@;
                proof {
                    assert(music_fits(subs[k as int], c0, n as nat));
                    lemma_music_fits_same_shape(subs[k as int], c0, counters@, frags@, n as nat);
                    lemma_subs_mono(subs, (k + 1) as nat, subs.len(), frags@);
                    assert(subs_count(subs, (k + 1) as nat, frags@) == count + tree_count(subs[k as int], frags@));
                    assert(subs_max(subs, (k + 1) as nat) == max_count + tree_max(subs[k as int]));
                }
                let g = expand_music_group(sub, frags, counters, n);
                count = count + group_count_of(&g);
                max_count = max_count + g.max_count;
                gs.push(g);
                proof {
                    lemma_same_shape_trans(c0, before, counters@);
                    lemma_counters_ok_same_shape(before, counters@, frags@, n as nat);
                    assert forall|j: int| 0 <= j < k + 1 implies expands_to(subs[j], frags@, #[trigger] gs@[j]) by {
                        if j < k {
                            assert(gs@[j] == gs@.drop_last()[j]);
                        }
                    }
                    assert forall|f: int, p: int, r: int, q: int| 0 <= f < frags@.len() && 0 <= p < c0[f]@.len()
                        && 0 <= r < c0[f]@[p]@.len() && 0 <= q < n
                        implies (#[trigger] counters@[f]@[p]@[r]@[q]) as int
                            == sat_add(c0[f]@[p]@[r]@[q] as int, subs_occurrences(subs, (k + 1) as nat, f, p, r, q) as int) by {
                        assert(before[f]@.len() == c0[f]@.len());
                        assert(before[f]@[p]@.len() == c0[f]@[p]@.len());
                        assert(c0[f]@[p]@[r]@.len() == n);
                        assert(before[f]@[p]@[r]@[q] as int
                            == sat_add(c0[f]@[p]@[r]@[q] as int, subs_occurrences(subs, k as nat, f, p, r, q) as int));
                    }
                }
                k += 1;
            }
            let g = MusicGroup { name: name.clone(), max_count, inner: MusicGroupInner::Group { sub_groups: gs, count } };
            proof {
                assert(tree_count(*group, frags@) == subs_count(subs, subs.len() as nat, frags@));
            }
            g
        },
    }
}

/// The number of rows an expanded music group matched.
fn group_count_of(g: &MusicGroup) -> (c: usize)
    ensures
        c == group_count(*g),
{
    match &g.inner {
        MusicGroupInner::Leaf { rows_matched } => rows_matched.len(),
        MusicGroupInner::Group { count, .. } => *count,
    }
}

} // verus!
