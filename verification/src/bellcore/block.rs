//! A representation of a block of ringing: a sequence of rows which starts from a given row, the
//! last of which is left over as the first row of whatever follows.

use vstd::prelude::*;
use super::bell::{parsed_bells, Bell};
use super::row::{
    first_error, indices, inverse_bells, rounds_bells, lemma_indices_injective, lemma_inverse_bells,
    permuted, valid_bells, IncompatibleStages, InvalidRowError, Row,
};
use super::laws::{law_inverse, law_mul_assoc, law_rounds_identity};
use crate::group::identity;
use super::stage::Stage;

verus! {

/// All the possible ways that building an [`AnnotBlock`] could fail.
#[derive(Debug, Clone, PartialEq, Eq)]
pub enum ParseError {
    /// The block would have no rows (other than the leftover row).
    ZeroLengthBlock,
    /// A line could not be parsed as a row.
    InvalidRow { line: usize, err: InvalidRowError },
    /// A row had a different stage to the first row.
    IncompatibleStages { line: usize, first_stage: Stage, different_stage: Stage },
}

/// The rows of an annotated block all have the same number of bells, and there are at least two
/// (at least one row plus the leftover row).
pub open spec fn block_rows_ok<A>(rows: Seq<(Seq<Bell>, A)>) -> bool {
    &&& rows.len() >= 2
    &&& forall|i: int| 0 <= i < rows.len() ==> (#[trigger] rows[i]).0.len() == rows[0].0.len()
}

/// An `AnnotBlock` is in essence a multi-permutation: it describes the transposition of a single
/// start [`Row`] into many [`Row`]s, each with an annotation.  The last [`Row`] of an
/// `AnnotBlock` is left-over, and represents the first [`Row`] that should be rung after this
/// `AnnotBlock`.  All the rows have the same [`Stage`], and there is always at least one row
/// besides the leftover one.
#[derive(Debug, Eq, PartialEq, Hash)]
pub struct AnnotBlock<A> {
    rows: Vec<(Row, A)>,
}

/// An `AnnotBlock` with no annotations.
pub type Block = AnnotBlock<()>;

/// The bells of each row, with its annotation.
pub open spec fn annot_view<A>(rows: Seq<(Row, A)>) -> Seq<(Seq<Bell>, A)> {
    Seq::new(rows.len(), |i: int| (rows[i].0@, rows[i].1))
}

/// Scanning rows `1..k`, the first whose stage differs from that of row 0.
pub open spec fn first_mismatch<A>(rows: Seq<(Seq<Bell>, A)>, k: nat) -> Option<int>
    decreases k,
{
    if k <= 1 {
        None
    } else {
        match first_mismatch(rows, (k - 1) as nat) {
            Some(i) => Some(i),
            None => if rows[k - 1].0.len() != rows[0].0.len() {
                Some(k - 1)
            } else {
                None
            },
        }
    }
}

/// The rows of `other` pre-multiplied by `start`, keeping their annotations.
pub open spec fn transposed<A>(start: Seq<Bell>, other: Seq<(Seq<Bell>, A)>) -> Seq<(Seq<Bell>, A)> {
    Seq::new(other.len(), |i: int| (permuted(start, other[i].0), other[i].1))
}

impl<A: Clone> Clone for AnnotBlock<A> {
    /// Clones the rows, cloning each annotation with its own `clone`.
    fn clone(&self) -> (c: Self)
        ensures
            c@.len() == self@.len(),
            forall|i: int| 0 <= i < self@.len() ==> (#[trigger] c@[i]).0 == self@[i].0
                && cloned(self@[i].1, c@[i].1),
    {
        let mut rows: Vec<(Row, A)> = Vec::new();
        let mut i: usize = 0;
        while i < self.rows.len()
            invariant
                i <= self.rows@.len(),
                rows@.len() == i,
                forall|j: int| 0 <= j < i ==> (#[trigger] annot_view(rows@)[j]).0 == annot_view(self.rows@)[j].0
                    && cloned(annot_view(self.rows@)[j].1, annot_view(rows@)[j].1),
            decreases self.rows@.len() - i,
        {
            let ghost before = rows@;
            let row = self.rows[i].0.clone();
            let annot = self.rows[i].1.clone();
            rows.push((row, annot));
            proof {
                assert forall|j: int| 0 <= j < i + 1 implies (#[trigger] annot_view(rows@)[j]).0 == annot_view(self.rows@)[j].0
                    && cloned(annot_view(self.rows@)[j].1, annot_view(rows@)[j].1) by {
                    if j < i {
                        assert(annot_view(rows@)[j] == annot_view(before)[j]);
                    }
                }
            }
            i += 1;
        }
        AnnotBlock { rows }
    }
}

impl<A> View for AnnotBlock<A> {
    type V = Seq<(Seq<Bell>, A)>;

    closed spec fn view(&self) -> Seq<(Seq<Bell>, A)> {
        annot_view(self.rows@)
    }
}

proof fn lemma_first_mismatch_none<A>(rows: Seq<(Seq<Bell>, A)>, k: nat)
    requires
        k <= rows.len(),
    ensures
        first_mismatch(rows, k) is None <==> forall|i: int| 1 <= i < k ==> #[trigger] rows[i].0.len() == rows[0].0.len(),
    decreases k,
{
    if k > 1 {
        lemma_first_mismatch_none(rows, (k - 1) as nat);
    }
}

proof fn lemma_first_mismatch_stays<A>(rows: Seq<(Seq<Bell>, A)>, k: nat, m: nat)
    requires
        k <= m,
        first_mismatch(rows, k) is Some,
    ensures
        first_mismatch(rows, m) == first_mismatch(rows, k),
    decreases m - k,
{
    if m > k {
        lemma_first_mismatch_stays(rows, k, (m - 1) as nat);
    }
}

/* ========== PARSING ========== */

/// The pieces of a text between its line feeds, in order: one more than there are line feeds.
pub open spec fn line_segments(cs: Seq<char>) -> Seq<Seq<char>>
    decreases cs.len(),
{
    if cs.len() == 0 {
        seq![Seq::<char>::empty()]
    } else {
        let segs = line_segments(cs.drop_last());
        if cs.last() == '\n' {
            segs.push(Seq::<char>::empty())
        } else {
            segs.update(segs.len() - 1, segs.last().push(cs.last()))
        }
    }
}

/// The lines of a text: the pieces between its line feeds, leaving out the empty piece after a
/// final line feed (so an empty text has no lines).  A carriage return before a line feed stays
/// in its line, where it names no bell.
pub open spec fn text_lines(cs: Seq<char>) -> Seq<Seq<char>> {
    let segs = line_segments(cs);
    if segs.last().len() == 0 {
        segs.drop_last()
    } else {
        segs
    }
}

/// The bells named on each line of a text.
pub open spec fn parsed_lines(cs: Seq<char>) -> Seq<Seq<Bell>> {
    text_lines(cs).map_values(|l: Seq<char>| parsed_bells(l))
}

/// What is wrong with line `i` of some parsed lines, if anything: its bells do not form a row,
/// or they form a row of another stage than that of the first line.
pub open spec fn line_error(lines: Seq<Seq<Bell>>, i: int) -> Option<ParseError> {
    let b = lines[i];
    match first_error(b, Stage { num_bells: b.len() as usize }, b.len()) {
        Some(e) => Some(ParseError::InvalidRow { line: i as usize, err: e }),
        None => if i > 0 && b.len() != lines[0].len() {
            Some(ParseError::IncompatibleStages {
                line: i as usize,
                first_stage: Stage { num_bells: lines[0].len() as usize },
                different_stage: Stage { num_bells: b.len() as usize },
            })
        } else {
            None
        },
    }
}

/// The error of the first of lines `0..k` that has one.
pub open spec fn first_line_error(lines: Seq<Seq<Bell>>, k: nat) -> Option<ParseError>
    decreases k,
{
    if k == 0 {
        None
    } else {
        match first_line_error(lines, (k - 1) as nat) {
            Some(e) => Some(e),
            None => line_error(lines, k - 1),
        }
    }
}

proof fn lemma_line_segments_nonempty(cs: Seq<char>)
    ensures
        line_segments(cs).len() >= 1,
    decreases cs.len(),
{
    if cs.len() > 0 {
        lemma_line_segments_nonempty(cs.drop_last());
    }
}

proof fn lemma_first_line_error_stays(lines: Seq<Seq<Bell>>, k: nat, m: nat)
    requires
        k <= m,
        first_line_error(lines, k) is Some,
    ensures
        first_line_error(lines, m) == first_line_error(lines, k),
    decreases m - k,
{
    if m > k {
        lemma_first_line_error_stays(lines, k, (m - 1) as nat);
    }
}

/// Splits a text into lines and reads the bells named on each.
fn split_lines(s: &str) -> (v: Vec<Vec<Bell>>)
    ensures
        v@.len() == parsed_lines(s@).len(),
        forall|i: int| 0 <= i < v@.len() ==> #[trigger] v@[i]@ == parsed_lines(s@)[i],
{
    let mut done: Vec<Vec<Bell>> = Vec::new();
    let mut cur: Vec<Bell> = Vec::new();
    let mut cur_empty = true;
    let ghost mut k: int = 0;
    proof {
        broadcast use vstd::string::group_string_axioms;
        assert(s@.take(0) =~= Seq::<char>::empty());
    }
    for c in it: s.chars()
        invariant
            it.seq() == s@,
            k == it.index(),
            done@.len() + 1 == line_segments(s@.take(k)).len(),
            forall|i: int| 0 <= i < done@.len() ==> #[trigger] done@[i]@
                == parsed_bells(line_segments(s@.take(k))[i]),
            cur@ == parsed_bells(line_segments(s@.take(k)).last()),
            cur_empty == (line_segments(s@.take(k)).last().len() == 0),
    {
        let ghost before = line_segments(s@.take(k));
        proof {
            lemma_line_segments_nonempty(s@.take(k));
            assert(s@.take(k + 1).drop_last() =~= s@.take(k));
            k = k + 1;
        }
        if c == '\n' {
            done.push(cur);
            cur = Vec::new();
            cur_empty = true;
            proof {
                let segs = line_segments(s@.take(k));
                assert(segs == before.push(Seq::<char>::empty()));
                assert forall|i: int| 0 <= i < done@.len() implies #[trigger] done@[i]@
                    == parsed_bells(segs[i]) by {}
            }
        } else {
            let ghost last = before.last();
            match Bell::from_name(c) {
                Some(b) => {
                    cur.push(b);
                },
                None => {},
            }
            cur_empty = false;
            proof {
                let segs = line_segments(s@.take(k));
                assert(segs == before.update(before.len() - 1, last.push(c)));
                assert(last.push(c).drop_last() =~= last);
                assert forall|i: int| 0 <= i < done@.len() implies #[trigger] done@[i]@
                    == parsed_bells(segs[i]) by {}
            }
        }
    }
    proof {
        assert(s@.take(k) =~= s@);
        lemma_line_segments_nonempty(s@);
    }
    if !cur_empty {
        done.push(cur);
    }
    proof {
        let ls = text_lines(s@);
        assert forall|i: int| 0 <= i < done@.len() implies #[trigger] done@[i]@ == parsed_lines(s@)[i] by {
            assert(ls[i] == line_segments(s@)[i]);
        }
    }
    done
}

impl<A> AnnotBlock<A> {
    /// The rows all have the same stage, and there are at least two of them.  Every constructor
    /// establishes this and every method keeps it.
    pub open spec fn wf(self) -> bool {
        block_rows_ok(self@)
    }

    /// Gets the [`Stage`] of this `AnnotBlock`.
    pub fn stage(&self) -> (s: Stage)
        requires
            self.wf(),
        ensures
            s.num_bells == self@[0].0.len(),
    {
        self.rows[0].0.stage()
    }

    /// Gets a mutable reference to the annotation of the [`Row`] at a given index, if it exists.
    pub fn get_annot_mut(&mut self, index: usize) -> (a: Option<&mut A>)
        ensures
            index < old(self)@.len() ==> (a matches Some(r) && *r == old(self)@[index as int].1
                && final(self)@ == old(self)@.update(index as int, (old(self)@[index as int].0, *final(r)))),
            index >= old(self)@.len() ==> a is None && final(self)@ == old(self)@,
    {
        if index < self.rows.len() {
            Some(&mut self.rows[index].1)
        } else {
            None
        }
    }

    /// Creates a new `AnnotBlock` from annotated [`Row`]s without checking them.  The rows must all
    /// have the same [`Stage`], and there must be at least two of them.
    pub fn from_annot_rows_unchecked(rows: Vec<(Row, A)>) -> (b: Self)
        requires
            block_rows_ok(annot_view(rows@)),
        ensures
            b@ == annot_view(rows@),
            b.wf(),
    {
        AnnotBlock { rows }
    }

    /// Creates a new `AnnotBlock` from annotated [`Row`]s, checking that the result is valid.
    /// The first row, if there is one, must be rounds; an empty input gives
    /// [`ParseError::ZeroLengthBlock`].
    pub fn from_annot_rows(annot_rows: Vec<(Row, A)>) -> (r: Result<Self, ParseError>)
        requires
            annot_rows@.len() > 0 ==> indices(annot_rows@[0].0@) == identity(annot_rows@[0].0@.len()),
        ensures
            annot_rows@.len() <= 1 ==> r == Err::<Self, ParseError>(ParseError::ZeroLengthBlock),
            annot_rows@.len() > 1 ==> match first_mismatch(annot_view(annot_rows@), annot_rows@.len()) {
                Some(i) => r == Err::<Self, ParseError>(ParseError::IncompatibleStages {
                    line: i as usize,
                    first_stage: Stage { num_bells: annot_rows@[0].0@.len() as usize },
                    different_stage: Stage { num_bells: annot_rows@[i].0@.len() as usize },
                }),
                None => r matches Ok(b) && b@ == annot_view(annot_rows@) && b.wf()
                    && b@[0].0 == rounds_bells(b@[0].0.len()),
            },
    {
        if annot_rows.len() <= 1 {
            return Err(ParseError::ZeroLengthBlock);
        }
        let ghost v = annot_view(annot_rows@);
        let first_stage = annot_rows[0].0.stage();
        let mut i: usize = 1;
        while i < annot_rows.len()
            invariant
                1 <= i <= annot_rows@.len(),
                v == annot_view(annot_rows@),
                first_stage.num_bells == v[0].0.len(),
                first_mismatch(v, i as nat) is None,
            decreases annot_rows@.len() - i,
        {
            let different_stage = annot_rows[i].0.stage();
            if different_stage.num_bells != first_stage.num_bells {
                proof {
                    assert(first_mismatch(v, (i + 1) as nat) == Some(i as int));
                    lemma_first_mismatch_stays(v, (i + 1) as nat, v.len());
                }
                return Err(ParseError::IncompatibleStages { line: i, first_stage, different_stage });
            }
            i += 1;
        }
        proof {
            lemma_first_mismatch_none(v, v.len());
            assert(v[0].0 =~= rounds_bells(v[0].0.len())) by {
                assert forall|k: int| 0 <= k < v[0].0.len() implies v[0].0[k] == rounds_bells(v[0].0.len())[k] by {
                    assert(indices(v[0].0)[k] == identity(v[0].0.len())[k]);
                }
            }
        }
        Ok(AnnotBlock { rows: annot_rows })
    }

    /// Parse a multi-line text into an `AnnotBlock`, one row per line (characters that are not
    /// bell names are skipped).  The rows are transposed so that the block starts from rounds,
    /// and the last line gives the leftover row.  Every row has the default annotation.  The first
    /// line that does not form a row, or forms one of another stage than the first line's, gives
    /// the error; fewer than two lines give [`ParseError::ZeroLengthBlock`].
    pub fn parse(s: &str) -> (r: Result<Self, ParseError>)
        where A: Default
        ensures
            match first_line_error(parsed_lines(s@), parsed_lines(s@).len()) {
                Some(e) => r == Err::<Self, ParseError>(e),
                None => if parsed_lines(s@).len() <= 1 {
                    r == Err::<Self, ParseError>(ParseError::ZeroLengthBlock)
                } else {
                    r matches Ok(b) && b.wf() && b@.len() == parsed_lines(s@).len()
                        && b@[0].0 == rounds_bells(b@[0].0.len())
                        && forall|i: int| 0 <= i < b@.len() ==> #[trigger] b@[i].0
                            == permuted(inverse_bells(parsed_lines(s@)[0]), parsed_lines(s@)[i])
                        && forall|i: int| 0 <= i < b@.len() ==> #[trigger] permuted(parsed_lines(s@)[0], b@[i].0)
                            == parsed_lines(s@)[i]
                        && forall|i: int| 0 <= i < b@.len() ==> call_ensures(A::default, (), #[trigger] b@[i].1)
                },
            },
    {
        let lines = split_lines(s);
        let ghost ls = parsed_lines(s@);
        let ghost lines0 = lines@;
        let n = lines.len();
        // We store the _inverse_ of the first row, because for each row R we are solving the
        // equation `FX = R` where F is the first row.  The solution is `X = F^-1 * R`.
        let mut inv_first_row: Option<Row> = None;
        let mut annot_rows: Vec<(Row, A)> = Vec::new();
        let mut i: usize = 0;
        for line in it: lines
            invariant
                it.seq() == lines0,
                ls == parsed_lines(s@),
                lines0.len() == ls.len(),
                lines0.len() == n,
                forall|j: int| 0 <= j < ls.len() ==> #[trigger] lines0[j]@ == ls[j],
                i == it.index(),
                annot_rows@.len() == i,
                first_line_error(ls, i as nat) is None,
                i == 0 ==> inv_first_row is None,
                i > 0 ==> (inv_first_row matches Some(inv) && inv@ == inverse_bells(ls[0])
                    && inv@.len() == ls[0].len() && valid_bells(ls[0])),
                forall|j: int| 0 <= j < i ==> (#[trigger] annot_view(annot_rows@)[j]).0
                    == permuted(inverse_bells(ls[0]), ls[j]),
                forall|j: int| 0 <= j < i ==> (#[trigger] ls[j]).len() == ls[0].len(),
                forall|j: int| 0 <= j < i ==> valid_bells(#[trigger] ls[j]),
                i > 0 ==> ls[0].len() <= usize::MAX,
                forall|j: int| 0 <= j < i ==> call_ensures(A::default, (), #[trigger] annot_rows@[j].1),
        {
            // Parse the line into a row, and fail if it's either invalid or doesn't match the stage
            let parsed_row = match Row::from_vec(line) {
                Ok(row) => row,
                Err(err) => {
                    proof {
                        assert(line_error(ls, i as int) == Some(ParseError::InvalidRow { line: i, err }));
                        assert(first_line_error(ls, (i + 1) as nat) == Some(ParseError::InvalidRow { line: i, err }));
                        lemma_first_line_error_stays(ls, (i + 1) as nat, ls.len());
                    }
                    return Err(ParseError::InvalidRow { line: i, err });
                },
            };
            let stage = parsed_row.stage();
            let ghost before = annot_rows@;
            match &inv_first_row {
                Some(inv) => {
                    let first_stage = inv.stage();
                    if first_stage.num_bells != stage.num_bells {
                        proof {
                            let e = ParseError::IncompatibleStages { line: i, first_stage, different_stage: stage };
                            assert(line_error(ls, i as int) == Some(e));
                            assert(first_line_error(ls, (i + 1) as nat) == Some(e));
                            lemma_first_line_error_stays(ls, (i + 1) as nat, ls.len());
                        }
                        return Err(ParseError::IncompatibleStages {
                            line: i,
                            first_stage,
                            different_stage: stage,
                        });
                    }
                    annot_rows.push((inv.mul_unchecked(&parsed_row), A::default()));
                },
                None => {
                    // The first row becomes rounds, and we keep its inverse
                    let inv = parsed_row.inv();
                    proof {
                        lemma_inverse_bells(parsed_row@);
                        lemma_indices_injective(inv@, inverse_bells(parsed_row@));
                        law_inverse(parsed_row@, inverse_bells(parsed_row@));
                    }
                    annot_rows.push((Row::rounds(stage), A::default()));
                    inv_first_row = Some(inv);
                },
            }
            proof {
                assert(first_line_error(ls, (i + 1) as nat) is None);
                assert forall|j: int| 0 <= j < i + 1 implies (#[trigger] annot_view(annot_rows@)[j]).0
                    == permuted(inverse_bells(ls[0]), ls[j]) by {
                    if j < i {
                        assert(annot_view(annot_rows@)[j] == annot_view(before)[j]);
                    }
                }
            }
            i += 1;
        }
        // Return an error if the rows would form a zero-length block
        if annot_rows.len() <= 1 {
            return Err(ParseError::ZeroLengthBlock);
        }
        proof {
            let v = annot_view(annot_rows@);
            assert forall|j: int| 0 <= j < v.len() implies (#[trigger] v[j]).0.len() == v[0].0.len() by {}
            // Ringing the block from the first row gives back the rows that were written
            let first = ls[0];
            lemma_inverse_bells(first);
            law_inverse(first, inverse_bells(first));
            assert(v[0].0 == rounds_bells(first.len()));
            assert forall|j: int| 0 <= j < v.len() implies #[trigger] permuted(first, v[j].0) == ls[j] by {
                law_mul_assoc(first, inverse_bells(first), ls[j]);
                law_rounds_identity(ls[j]);
            }
        }
        Ok(AnnotBlock::from_annot_rows_unchecked(annot_rows))
    }

    /// Gets the [`Row`] at a given index.
    pub fn get_row(&self, index: usize) -> (r: Option<&Row>)
        ensures
            index < self@.len() ==> (r matches Some(row) && row@ == self@[index as int].0),
            index >= self@.len() ==> r is None,
    {
        if index < self.rows.len() {
            Some(&self.rows[index].0)
        } else {
            None
        }
    }

    /// Gets an immutable reference to the annotation of the [`Row`] at a given index, if it
    /// exists.
    pub fn get_annot(&self, index: usize) -> (a: Option<&A>)
        ensures
            index < self@.len() ==> a == Some(&self@[index as int].1),
            index >= self@.len() ==> a is None,
    {
        if index < self.rows.len() {
            Some(&self.rows[index].1)
        } else {
            None
        }
    }

    /// Gets the [`Row`] at a given index, along with its annotation.
    pub fn get_annot_row(&self, index: usize) -> (r: Option<&(Row, A)>)
        ensures
            index < self@.len() ==> (r matches Some(ar) && ar.0@ == self@[index as int].0 && ar.1 == self@[index as int].1),
            index >= self@.len() ==> r is None,
    {
        if index < self.rows.len() {
            Some(&self.rows[index])
        } else {
            None
        }
    }

    /// Gets the first [`Row`] of this `AnnotBlock`, along with its annotation.
    pub fn first_annot_row(&self) -> (r: &(Row, A))
        requires
            self.wf(),
        ensures
            r.0@ == self@[0].0,
            r.1 == self@[0].1,
    {
        &self.rows[0]
    }

    /// Gets the length of this `AnnotBlock` (excluding the left-over [`Row`]).  This is at least
    /// 1.
    pub fn len(&self) -> (l: usize)
        requires
            self.wf(),
        ensures
            l == self@.len() - 1,
            l >= 1,
    {
        self.rows.len() - 1
    }

    /// Returns all the [`Row`]s in this `AnnotBlock`, along with their annotations.
    pub fn iter(&self) -> (s: &[(Row, A)])
        ensures
            annot_view(s@) == self@,
    {
        self.rows.as_slice()
    }

    /// Returns the slice of annotated [`Row`]s making up this `AnnotBlock`.
    pub fn annot_rows(&self) -> (s: &[(Row, A)])
        ensures
            annot_view(s@) == self@,
    {
        self.rows.as_slice()
    }

    /// Returns all the [`Row`]s in this `AnnotBlock`, without their annotations.
    pub fn rows(&self) -> (v: Vec<&Row>)
        ensures
            v@.len() == self@.len(),
            forall|i: int| 0 <= i < v@.len() ==> (#[trigger] v@[i])@ == self@[i].0,
    {
        let mut v: Vec<&Row> = Vec::new();
        let mut i: usize = 0;
        while i < self.rows.len()
            invariant
                i <= self.rows@.len(),
                v@.len() == i,
                forall|j: int| 0 <= j < i ==> (#[trigger] v@[j])@ == self.rows@[j].0@,
            decreases self.rows@.len() - i,
        {
            v.push(&self.rows[i].0);
            i += 1;
        }
        v
    }

    /// Returns the left-over [`Row`] of this `AnnotBlock`, with its annotation.  This [`Row`]
    /// represents the overall effect of the block.
    pub fn leftover_row(&self) -> (r: &(Row, A))
        requires
            self.wf(),
        ensures
            r.0@ == self@.last().0,
            r.1 == self@.last().1,
    {
        &self.rows[self.rows.len() - 1]
    }

    /// Returns a mutable reference to the annotation of the left-over [`Row`] of this block.
    pub fn leftover_annot_mut(&mut self) -> (a: &mut A)
        requires
            old(self).wf(),
        ensures
            *a == old(self)@.last().1,
            final(self)@ == old(self)@.update(old(self)@.len() - 1, (old(self)@.last().0, *final(a))),
    {
        let last = self.rows.len() - 1;
        &mut self.rows[last].1
    }

    /// Pre-multiplies every [`Row`] in this block by another [`Row`].  The resulting block has the
    /// same relations between its rows, but starts from a different [`Row`].
    pub fn pre_mul(&mut self, perm_row: &Row) -> (r: Result<(), IncompatibleStages>)
        requires
            old(self).wf(),
        ensures
            final(self).wf(),
            perm_row@.len() != old(self)@[0].0.len() ==> r == Err::<(), IncompatibleStages>(
                IncompatibleStages {
                    lhs_stage: Stage { num_bells: perm_row@.len() as usize },
                    rhs_stage: Stage { num_bells: old(self)@[0].0.len() as usize },
                },
            ) && final(self)@ == old(self)@,
            perm_row@.len() == old(self)@[0].0.len() ==> r is Ok && final(self)@ == transposed(perm_row@, old(self)@),
    {
        match IncompatibleStages::test_err(perm_row.stage(), self.stage()) {
            Err(e) => Err(e),
            Ok(()) => {
                let ghost orig = self@;
                let mut old_rows: Vec<(Row, A)> = Vec::new();
                std::mem::swap(&mut old_rows, &mut self.rows);
                let ghost orig_rows = old_rows@;
                assert(annot_view(orig_rows) == orig);
                let mut new_rows: Vec<(Row, A)> = Vec::new();
                for entry in it: old_rows
                    invariant
                        it.seq() == orig_rows,
                        annot_view(orig_rows) == orig,
                        block_rows_ok(orig),
                        perm_row@.len() == orig[0].0.len(),
                        new_rows@.len() == it.index(),
                        forall|j: int| 0 <= j < it.index() ==> #[trigger] annot_view(new_rows@)[j] == transposed(perm_row@, orig)[j],
                {
                    let (r, annot) = entry;
                    let ghost idx = it.index();
                    let ghost before = new_rows@;
                    proof {
                        assert(orig[idx].0 == r@);
                        assert(orig[idx].1 == annot);
                    }
                    let new_row = perm_row.mul_unchecked(&r);
                    new_rows.push((new_row, annot));
                    proof {
                        assert forall|j: int| 0 <= j < idx + 1 implies #[trigger] annot_view(new_rows@)[j] == transposed(perm_row@, orig)[j] by {
                            if j < idx {
                                assert(new_rows@[j] == before[j]);
                                assert(annot_view(before)[j] == transposed(perm_row@, orig)[j]);
                            }
                        }
                    }
                }
                self.rows = new_rows;
                proof {
                    assert(self@ =~= transposed(perm_row@, orig));
                    assert forall|j: int| 0 <= j < self@.len() implies (#[trigger] self@[j]).0.len() == self@[0].0.len() by {}
                }
                Ok(())
            },
        }
    }
}

impl<A> AnnotBlock<A> {
    /// Extend this block with the contents of another block, so that it has the effect of ringing
    /// `self` then `other`.  This replaces the leftover [`Row`] of `self` (and its annotation)
    /// with the rows of `other`, transposed to start from that leftover row.
    pub fn extend_with(&mut self, other: Self) -> (r: Result<(), IncompatibleStages>)
        requires
            old(self).wf(),
            other.wf(),
        ensures
            final(self).wf(),
            old(self)@[0].0.len() != other@[0].0.len() ==> r == Err::<(), IncompatibleStages>(
                IncompatibleStages {
                    lhs_stage: Stage { num_bells: old(self)@[0].0.len() as usize },
                    rhs_stage: Stage { num_bells: other@[0].0.len() as usize },
                },
            ) && final(self)@ == old(self)@,
            old(self)@[0].0.len() == other@[0].0.len() ==> r is Ok && final(self)@ == old(self)@.drop_last()
                + transposed(old(self)@.last().0, other@),
    {
        match IncompatibleStages::test_err(self.stage(), other.stage()) {
            Err(e) => Err(e),
            Ok(()) => {
                let ghost orig = self@;
                let ghost other_view = other@;
                let (leftover_row, _) = self.rows.pop().unwrap();
                proof {
                    assert(self@ =~= orig.drop_last());
                    assert(leftover_row@ == orig.last().0);
                }
                let AnnotBlock { rows: other_rows } = other;
                let ghost orig_other = other_rows@;
                for entry in it: other_rows
                    invariant
                        it.seq() == orig_other,
                        annot_view(orig_other) == other_view,
                        block_rows_ok(orig),
                        block_rows_ok(other_view),
                        leftover_row@ == orig.last().0,
                        orig[0].0.len() == other_view[0].0.len(),
                        self@ == orig.drop_last() + transposed(leftover_row@, other_view).take(it.index()),
                {
                    let (r, annot) = entry;
                    let ghost idx = it.index();
                    proof {
                        assert(other_view[idx].0 == r@);
                        assert(other_view[idx].1 == annot);
                        assert(orig.last().0.len() == orig[0].0.len());
                    }
                    let new_row = leftover_row.mul_unchecked(&r);
                    let ghost before = self.rows@;
                    assert(annot_view(before) == orig.drop_last() + transposed(leftover_row@, other_view).take(idx));
                    self.rows.push((new_row, annot));
                    proof {
                        assert(annot_view(self.rows@) =~= annot_view(before).push((new_row@, annot)));
                        assert(self@ =~= orig.drop_last() + transposed(leftover_row@, other_view).take(idx + 1));
                    }
                }
                proof {
                    assert(transposed(leftover_row@, other_view).take(other_view.len() as int) =~= transposed(leftover_row@, other_view));
                    assert forall|j: int| 0 <= j < self@.len() implies (#[trigger] self@[j]).0.len() == self@[0].0.len() by {
                        if j >= orig.len() - 1 {
                            assert(other_view[j - (orig.len() - 1)].0.len() == other_view[0].0.len());
                        }
                    }
                }
                Ok(())
            },
        }
    }

    /// Extend this block with the contents of another block, cloning the annotations of `other`.
    /// This has the effect of ringing `self` then `other`; the leftover [`Row`] of `self` (and its
    /// annotation) is replaced by the rows of `other`, transposed to start from it.
    pub fn extend_with_cloned(&mut self, other: &Self) -> (r: Result<(), IncompatibleStages>) where
        A: Clone,

        requires
            old(self).wf(),
            other.wf(),
        ensures
            final(self).wf(),
            old(self)@[0].0.len() != other@[0].0.len() ==> r == Err::<(), IncompatibleStages>(
                IncompatibleStages {
                    lhs_stage: Stage { num_bells: old(self)@[0].0.len() as usize },
                    rhs_stage: Stage { num_bells: other@[0].0.len() as usize },
                },
            ) && final(self)@ == old(self)@,
            old(self)@[0].0.len() == other@[0].0.len() ==> {
                &&& r is Ok
                &&& final(self)@.len() == old(self)@.len() - 1 + other@.len()
                &&& forall|j: int| 0 <= j < old(self)@.len() - 1 ==> #[trigger] final(self)@[j] == old(self)@[j]
                &&& forall|j: int| 0 <= j < other@.len() ==> (#[trigger] final(self)@[old(self)@.len() - 1 + j]).0
                    == permuted(old(self)@.last().0, other@[j].0)
                    && cloned::<A>(other@[j].1, final(self)@[old(self)@.len() - 1 + j].1)
            },
    {
        match IncompatibleStages::test_err(self.stage(), other.stage()) {
            Err(e) => Err(e),
            Ok(()) => {
                let ghost orig = self@;
                let (leftover_row, _) = self.rows.pop().unwrap();
                proof {
                    assert(self@ =~= orig.drop_last());
                    assert(leftover_row@ == orig.last().0);
                }
                let mut i: usize = 0;
                while i < other.rows.len()
                    invariant
                        i <= other@.len(),
                        block_rows_ok(orig),
                        other.wf(),
                        leftover_row@ == orig.last().0,
                        orig[0].0.len() == other@[0].0.len(),
                        self@.len() == orig.len() - 1 + i,
                        forall|j: int| 0 <= j < orig.len() - 1 ==> #[trigger] self@[j] == orig[j],
                        forall|j: int| 0 <= j < i ==> (#[trigger] self@[orig.len() - 1 + j]).0
                            == permuted(orig.last().0, other@[j].0)
                            && cloned::<A>(other@[j].1, self@[orig.len() - 1 + j].1),
                    decreases other@.len() - i,
                {
                    proof {
                        assert(orig.last().0.len() == orig[0].0.len());
                        assert(other@[i as int].0.len() == other@[0].0.len());
                    }
                    let new_row = leftover_row.mul_unchecked(&other.rows[i].0);
                    let annot = other.rows[i].1.clone();
                    let ghost before = self@;
                    self.rows.push((new_row, annot));
                    proof {
                        assert forall|j: int| 0 <= j < orig.len() - 1 implies #[trigger] self@[j] == orig[j] by {
                            assert(self@[j] == before[j]);
                        }
                        assert forall|j: int| 0 <= j < i + 1 implies (#[trigger] self@[orig.len() - 1 + j]).0
                            == permuted(orig.last().0, other@[j].0)
                            && cloned::<A>(other@[j].1, self@[orig.len() - 1 + j].1) by {
                            if j < i {
                                assert(self@[orig.len() - 1 + j] == before[orig.len() - 1 + j]);
                            }
                        }
                    }
                    i += 1;
                }
                proof {
                    assert forall|j: int| 0 <= j < self@.len() implies (#[trigger] self@[j]).0.len() == self@[0].0.len() by {
                        if j >= orig.len() - 1 {
                            assert(other@[j - (orig.len() - 1)].0.len() == other@[0].0.len());
                            assert(self@[orig.len() - 1 + (j - (orig.len() - 1))] == self@[j]);
                        }
                    }
                }
                Ok(())
            },
        }
    }

    /// Convert this block into another block with identical [`Row`]s, but where each annotation is
    /// passed through the given function.
    pub fn map_annots<B, F: Fn(A) -> B>(self, f: F) -> (b: AnnotBlock<B>)
        requires
            self.wf(),
            forall|a: A| f.requires((a,)),
        ensures
            b.wf(),
            b@.len() == self@.len(),
            forall|j: int| 0 <= j < self@.len() ==> (#[trigger] b@[j]).0 == self@[j].0 && f.ensures((self@[j].1,), b@[j].1),
    {
        let ghost v = self@;
        let AnnotBlock { rows } = self;
        let ghost orig = rows@;
        let mut new_rows: Vec<(Row, B)> = Vec::new();
        for entry in it: rows
            invariant
                it.seq() == orig,
                annot_view(orig) == v,
                forall|a: A| f.requires((a,)),
                new_rows@.len() == it.index(),
                forall|j: int| 0 <= j < it.index() ==> (#[trigger] annot_view(new_rows@)[j]).0 == v[j].0 && f.ensures((v[j].1,), annot_view(new_rows@)[j].1),
        {
            let (r, annot) = entry;
            let ghost idx = it.index();
            let ghost a0 = annot;
            let ghost before = new_rows@;
            proof {
                assert(v[idx].0 == r@);
                assert(v[idx].1 == annot);
            }
            let new_annot = f(annot);
            new_rows.push((r, new_annot));
            proof {
                assert forall|j: int| 0 <= j < idx + 1 implies (#[trigger] annot_view(new_rows@)[j]).0 == v[j].0 && f.ensures((v[j].1,), annot_view(new_rows@)[j].1) by {
                    if j < idx {
                        assert(new_rows@[j] == before[j]);
                        assert(annot_view(before)[j] == annot_view(new_rows@)[j]);
                    }
                }
            }
        }
        let b = AnnotBlock { rows: new_rows };
        proof {
            assert forall|j: int| 0 <= j < b@.len() implies (#[trigger] b@[j]).0.len() == b@[0].0.len() by {
                assert(v[j].0.len() == v[0].0.len());
            }
        }
        b
    }
}

impl Block {
    /// Creates a new unannotated `Block` from [`Row`]s, without checking them.  The rows must all
    /// have the same [`Stage`], and there must be at least two of them.
    pub fn from_rows_unchecked(rows: Vec<Row>) -> (b: Block)
        requires
            rows@.len() >= 2,
            forall|i: int| 0 <= i < rows@.len() ==> (#[trigger] rows@[i])@.len() == rows@[0]@.len(),
        ensures
            b.wf(),
            b@.len() == rows@.len(),
            forall|i: int| 0 <= i < rows@.len() ==> (#[trigger] b@[i]).0 == rows@[i]@,
    {
        let ghost orig = rows@;
        let mut annot_rows: Vec<(Row, ())> = Vec::new();
        for r in it: rows
            invariant
                it.seq() == orig,
                annot_rows@.len() == it.index(),
                forall|j: int| 0 <= j < it.index() ==> (#[trigger] annot_rows@[j]).0 == orig[j],
        {
            annot_rows.push((r, ()));
        }
        proof {
            assert(annot_rows@.len() == orig.len());
            assert forall|i: int| 0 <= i < orig.len() implies (#[trigger] annot_view(annot_rows@)[i]).0 == orig[i]@ by {}
        }
        AnnotBlock { rows: annot_rows }
    }
}

} // verus!
