//! The editor of a partial composition: an undo history of specifications, the state derived from
//! the one being displayed, and what the user is in the middle of doing.  Where fragments are drawn
//! and where the camera looks are kept by the user interface, not here.

use vstd::prelude::*;
use crate::bellcore::bell::parsed_bells;
use crate::bellcore::laws::{law_inverse, law_mul_assoc, law_rounds_identity};
use crate::bellcore::block::transposed;
use crate::bellcore::row::{
    bells_string, checked_with_stage, error_message, extended_to, indices, inverse_bells, permuted, stage_check_error, Row,
};
use crate::group::power;
use crate::history::{appended, redo_index, undo_index, History};
use crate::text::{decimal, push_decimal};
use super::derived::{derives, total_rows, DerivedState};
use super::spec::{
    annots_ok, frag_view, frag_views, joined_index, lemma_same_as_symmetric, lemma_same_spec_wf,
    lemma_same_total_rows, lemma_total_rows_agree, lemma_total_rows_push,
    lemma_new_frag_unique, lemma_total_rows_remove, lemma_total_rows_update, is_closure_from_rounds, is_new_frag, mutes,
    parses_to_part_heads, same_call, same_method, same_part_heads, soloed, Frag, FragSplitError, PartHeads, Spec,
};

verus! {

/// What the user of the editor is in the middle of doing.  Only one action can be under way at a
/// time, so that (for example) a fragment cannot be split or deleted whilst it is being dragged.
#[derive(Debug, Clone, Copy, PartialEq, Eq, Structural)]
pub enum State {
    /// Nothing is under way.
    Idle,
    /// The fragment at the given index is being dragged.
    Dragging(usize),
    /// A row of a fragment is being transposed, as seen in a given part.
    Transposing { frag_ind: usize, row_ind: usize, part_ind: usize },
}

/// The number of rows in one part of a composition.
pub open spec fn rows_in_part(spec: Spec) -> nat {
    total_rows(spec.frags@, spec.frags@.len())
}

/// The number of parts of a composition.
pub open spec fn parts_of(spec: Spec) -> nat {
    spec.part_heads.rows_view().len()
}

/// A specification whose derived state can be built: it is well-formed, and all its parts
/// together have fewer rows than the largest `usize`.
pub open spec fn derivable(spec: Spec) -> bool {
    &&& spec.wf()
    &&& rows_in_part(spec) * parts_of(spec) < usize::MAX
}

/// The message given when splitting a fragment fails.
pub open spec fn split_error_message(e: FragSplitError) -> Seq<char> {
    match e {
        FragSplitError::ZeroLengthFrag => "Can't create 0-length fragment"@,
        FragSplitError::IndexOutOfRange { index, num_frags } => "Frag #"@ + decimal(index as nat)
            + " doens't exist; there are only "@ + decimal(num_frags as nat) + " frags."@,
    }
}

/// The fragments `new` are `old` with the fragment at `frag_2_ind` joined onto the end of the one
/// at `frag_1_ind`: the joined fragment takes the place of the first (which moves down one place
/// if the second came before it), and the second is removed.
pub open spec fn joined_frags(
    old: Seq<(Seq<crate::bellcore::bell::Bell>, Seq<(Seq<crate::bellcore::bell::Bell>, super::spec::Annot)>, bool)>,
    frag_1_ind: int,
    frag_2_ind: int,
    new: Seq<(Seq<crate::bellcore::bell::Bell>, Seq<(Seq<crate::bellcore::bell::Bell>, super::spec::Annot)>, bool)>,
) -> bool {
    let corrected = joined_index(frag_1_ind, frag_2_ind);
    let (start_1, rows_1, muted_1) = old[frag_1_ind];
    let rows_2 = old[frag_2_ind].1;
    let (start, rows, muted) = new[corrected];
    &&& new.len() == old.len() - 1
    &&& forall|j: int| 0 <= j < new.len() && j != corrected ==> #[trigger] new[j] == old.remove(frag_2_ind)[j]
    &&& start == start_1
    &&& muted == muted_1
    &&& rows.len() == rows_1.len() - 1 + rows_2.len()
    &&& forall|j: int| 0 <= j < rows_1.len() - 1 ==> #[trigger] rows[j] == rows_1[j]
    &&& forall|j: int| 0 <= j < rows_2.len() ==> (#[trigger] rows[rows_1.len() - 1 + j])
        == (permuted(rows_1.last().0, rows_2[j].0), rows_2[j].1)
}

/// The editor: every edit adds a step to the undo history, and the derived state is rebuilt
/// whenever the specification being displayed changes.
pub struct Comp {
    undo_history: History<Spec>,
    derived_state: DerivedState,
    state: State,
    current_part: usize,
}

impl Comp {
    /// The specifications in the undo history, oldest first.
    pub closed spec fn states(&self) -> Seq<Spec> {
        self.undo_history.states()
    }

    /// The index of the specification being displayed.
    pub closed spec fn index(&self) -> int {
        self.undo_history.index()
    }

    /// The state derived from the specification being displayed.
    pub closed spec fn derived(&self) -> DerivedState {
        self.derived_state
    }

    /// What the user is in the middle of doing.
    pub closed spec fn editor_state(&self) -> State {
        self.state
    }

    /// The part being viewed.
    pub closed spec fn part(&self) -> usize {
        self.current_part
    }

    /// The specification being displayed.
    pub open spec fn current(&self) -> Spec {
        self.states()[self.index()]
    }

    /// The history points at one of its specifications, and all of them can be derived.
    pub open spec fn history_ok(&self) -> bool {
        &&& 0 <= self.index() < self.states().len()
        &&& forall|i: int| 0 <= i < self.states().len() ==> derivable(#[trigger] self.states()[i])
    }

    /// The history is sound and the derived state is that of the specification being displayed.
    pub open spec fn wf(&self) -> bool {
        &&& self.history_ok()
        &&& derives(self.derived(), self.current())
    }

    /// `self` is `old` after one edit: a new step follows the specification `old` was displaying
    /// and is displayed, the steps `old` could have redone are gone, and the same part is viewed.
    pub open spec fn one_step_on(&self, old: Comp) -> bool {
        &&& self.index() == old.index() + 1
        &&& self.states().len() == old.index() + 2
        &&& forall|i: int| 0 <= i <= old.index() ==> #[trigger] self.states()[i] == old.states()[i]
        &&& self.part() == old.part()
    }

    /// Creates an editor whose history holds only the given specification.
    pub fn from_spec(spec: Spec) -> (c: Comp)
        requires
            derivable(spec),
        ensures
            c.wf(),
            c.states() == seq![spec],
            c.index() == 0,
            c.editor_state() == State::Idle,
            c.part() == 0,
    {
        let derived_state = DerivedState::from_spec(&spec);
        Comp { undo_history: History::new(spec), derived_state, state: State::Idle, current_part: 0 }
    }

    /// The specification being displayed.
    pub fn spec(&self) -> (s: &Spec)
        requires
            self.history_ok(),
        ensures
            *s == self.current(),
    {
        self.undo_history.comp_spec()
    }

    /// Every specification in the undo history, oldest first.
    pub fn specs(&self) -> (s: &[Spec])
        ensures
            s@ == self.states(),
    {
        self.undo_history.all_states()
    }

    /// The state derived from the specification being displayed.
    pub fn derived_state(&self) -> (d: &DerivedState)
        ensures
            *d == self.derived(),
    {
        &self.derived_state
    }

    /// The part being viewed.
    pub fn current_part(&self) -> (p: usize)
        ensures
            p == self.part(),
    {
        self.current_part
    }

    /// Rebuilds the derived state from the specification being displayed.
    pub fn rebuild_state(&mut self)
        requires
            old(self).history_ok(),
        ensures
            final(self).wf(),
            final(self).states() == old(self).states(),
            final(self).index() == old(self).index(),
            final(self).editor_state() == old(self).editor_state(),
            final(self).part() == old(self).part(),
    {
        let spec = self.undo_history.comp_spec();
        proof {
            assert(derivable(self.states()[self.index()]));
        }
        let derived_state = DerivedState::from_spec(spec);
        self.derived_state = derived_state;
    }

    /// Adds a new specification to the history after the one being displayed, and displays it.
    fn commit(&mut self, new_spec: Spec)
        requires
            old(self).history_ok(),
            derivable(new_spec),
        ensures
            final(self).wf(),
            final(self).states() == appended(old(self).states(), old(self).index(), new_spec),
            final(self).index() == old(self).index() + 1,
            final(self).one_step_on(*old(self)),
            final(self).current() == new_spec,
            final(self).editor_state() == old(self).editor_state(),
    {
        let ghost old_states = self.states();
        self.undo_history.append_history(new_spec);
        proof {
            let states = self.states();
            assert forall|i: int| 0 <= i < states.len() implies derivable(#[trigger] states[i]) by {
                if i < states.len() - 1 {
                    assert(states[i] == old_states[i]);
                }
            }
        }
        self.rebuild_state();
    }

    /// Checks whether a string parses to a row of the composition's stage: gives `""` if it does,
    /// and otherwise describes the problem.
    pub fn row_parse_err(&self, row_str: &str) -> (s: String)
        requires
            self.history_ok(),
        ensures
            s@ == match stage_check_error(parsed_bells(row_str@), self.current().stage) {
                Some(e) => error_message(e),
                None => Seq::<char>::empty(),
            },
    {
        let stage = self.spec().stage;
        match Row::parse_with_stage(row_str, stage) {
            Err(e) => e.to_string(),
            Ok(_row) => {
                let s = String::new();
                assert(s@ =~= Seq::<char>::empty());
                s
            },
        }
    }

    /* Idle state */

    /// Whether nothing is under way.
    pub fn is_state_idle(&self) -> (b: bool)
        ensures
            b == (self.editor_state() == State::Idle),
    {
        match self.state {
            State::Idle => true,
            _ => false,
        }
    }

    /* Dragging state */

    /// Whether a fragment is being dragged.
    pub fn is_state_dragging(&self) -> (b: bool)
        ensures
            b == (self.editor_state() is Dragging),
    {
        match self.state {
            State::Dragging(_) => true,
            _ => false,
        }
    }

    /// The index of the fragment being dragged.
    pub fn frag_being_dragged(&self) -> (i: usize)
        requires
            self.editor_state() is Dragging,
        ensures
            self.editor_state() == State::Dragging(i),
    {
        match self.state {
            State::Dragging(index) => index,
            _ => 0,
        }
    }

    /// Starts dragging a fragment.  Nothing else may be under way.
    pub fn start_dragging(&mut self, frag_ind: usize)
        requires
            old(self).editor_state() == State::Idle,
        ensures
            final(self).editor_state() == State::Dragging(frag_ind),
            final(self).states() == old(self).states(),
            final(self).index() == old(self).index(),
            final(self).derived() == old(self).derived(),
            final(self).part() == old(self).part(),
    {
        self.state = State::Dragging(frag_ind);
    }

    /// Finishes dragging a fragment, returning its index so that it can be moved where it was
    /// dropped.  Moving it is an edit of its own, so the history gains a step (showing the same
    /// composition), and nothing is under way any more.
    pub fn finish_dragging(&mut self) -> (frag_ind: usize)
        requires
            old(self).wf(),
            old(self).editor_state() is Dragging,
        ensures
            old(self).editor_state() == State::Dragging(frag_ind),
            final(self).wf(),
            final(self).one_step_on(*old(self)),
            final(self).current().same_as(&old(self).current()),
            final(self).editor_state() == State::Idle,
    {
        let frag_ind = self.frag_being_dragged();
        let new_spec = self.spec().clone();
        proof {
            let cur = self.current();
            lemma_same_as_symmetric(new_spec, cur);
            lemma_same_spec_wf(cur, new_spec);
            lemma_same_total_rows(new_spec.frags@, cur.frags@);
        }
        self.commit(new_spec);
        self.state = State::Idle;
        frag_ind
    }

    /* Transposing state */

    /// Whether a row is being transposed.
    pub fn is_state_transposing(&self) -> (b: bool)
        ensures
            b == (self.editor_state() is Transposing),
    {
        match self.state {
            State::Transposing { .. } => true,
            _ => false,
        }
    }

    /// Starts transposing a row of a fragment, as seen in the part being viewed.  Nothing else may
    /// be under way.  Returns the row as it is seen, to start the editing from.
    pub fn start_transposing(&mut self, frag_ind: usize, row_ind: usize) -> (s: String)
        requires
            old(self).wf(),
            old(self).editor_state() == State::Idle,
            frag_ind < old(self).current().frags@.len(),
            row_ind < old(self).current().frags@[frag_ind as int].block@.len(),
            old(self).part() < parts_of(old(self).current()),
        ensures
            final(self).editor_state() == (State::Transposing { frag_ind, row_ind, part_ind: old(self).part() }),
            s@ == bells_string(permuted(
                old(self).current().part_heads.rows_view()[old(self).part() as int]@,
                permuted(old(self).current().frags@[frag_ind as int].start_row@,
                    old(self).current().frags@[frag_ind as int].block@[row_ind as int].0),
            )),
            final(self).states() == old(self).states(),
            final(self).index() == old(self).index(),
            final(self).derived() == old(self).derived(),
            final(self).part() == old(self).part(),
    {
        let part_ind = self.current_part;
        let spec = self.undo_history.comp_spec();
        let frag = &spec.frags[frag_ind];
        let row = match frag.block.get_row(row_ind) {
            Some(row) => row,
            None => {
                proof {
                    assert(false);
                }
                return String::new();
            },
        };
        let part_head = &spec.part_heads.rows()[part_ind];
        proof {
            assert(spec.frags@[frag_ind as int].wf());
            assert(frag.block@[row_ind as int].0.len() == frag.block@[0].0.len());
            assert(part_head@.len() == spec.part_heads.rows_view()[0]@.len());
        }
        let unpermuted_row = frag.start_row.mul_unchecked(row);
        let seen_row = part_head.mul_unchecked(&unpermuted_row);
        let s = seen_row.to_string();
        self.state = State::Transposing { frag_ind, row_ind, part_ind };
        s
    }

    /// Finishes transposing: if `row_str` parses to a row of the composition's stage, the fragment
    /// being transposed is moved so that the row being edited is seen as that row (as a new step in
    /// the history), nothing is under way any more, and this returns `true`.  Otherwise nothing
    /// changes and this returns `false`.
    pub fn finish_transposing(&mut self, row_str: &str) -> (done: bool)
        requires
            old(self).wf(),
            old(self).editor_state() matches State::Transposing { frag_ind, row_ind, part_ind }
                && frag_ind < old(self).current().frags@.len()
                && row_ind < old(self).current().frags@[frag_ind as int].block@.len()
                && part_ind < parts_of(old(self).current()),
        ensures
            final(self).wf(),
            done == (stage_check_error(parsed_bells(row_str@), old(self).current().stage) is None),
            !done ==> *final(self) == *old(self),
            done ==> (old(self).editor_state() matches State::Transposing { frag_ind, row_ind, part_ind } && {
                let old_views = frag_views(old(self).current().frags@);
                let new_views = frag_views(final(self).current().frags@);
                let (start, rows, muted) = new_views[frag_ind as int];
                &&& final(self).one_step_on(*old(self))
                &&& final(self).editor_state() == State::Idle
                &&& final(self).current().same_settings(&old(self).current())
                &&& new_views.len() == old_views.len()
                &&& forall|j: int| 0 <= j < new_views.len() && j != frag_ind ==> #[trigger] new_views[j] == old_views[j]
                &&& rows == old_views[frag_ind as int].1
                &&& muted == old_views[frag_ind as int].2
                &&& permuted(old(self).current().part_heads.rows_view()[part_ind as int]@, permuted(start, rows[row_ind as int].0))
                    == extended_to(parsed_bells(row_str@), old(self).current().stage.num_bells as nat)
            }),
    {
        let (frag_ind, row_ind, part_ind) = match self.state {
            State::Transposing { frag_ind, row_ind, part_ind } => (frag_ind, row_ind, part_ind),
            _ => {
                proof {
                    assert(false);
                }
                return false;
            },
        };
        let stage = self.spec().stage;
        let unpermuted_target_row = match Row::parse_with_stage(row_str, stage) {
            Ok(row) => row,
            Err(_) => {
                return false;
            },
        };
        let ghost cur = self.current();
        let mut new_spec = self.spec().clone();
        let part_head = &new_spec.part_heads.rows()[part_ind];
        let _ = part_head.stage();
        let _ = unpermuted_target_row.stage();
        proof {
            lemma_same_as_symmetric(new_spec, cur);
            lemma_same_spec_wf(cur, new_spec);
            lemma_same_total_rows(new_spec.frags@, cur.frags@);
            assert(frag_views(new_spec.frags@)[frag_ind as int] == frag_views(cur.frags@)[frag_ind as int]);
            assert(part_head@ == cur.part_heads.rows_view()[part_ind as int]@);
            assert(part_head@.len() == new_spec.part_heads.rows_view()[0]@.len());
        }
        let inv_part_head = part_head.inv();
        let target_row = inv_part_head.mul_unchecked(&unpermuted_target_row);
        let ghost old_frags = new_spec.frags@;
        let mut frag = new_spec.frags.remove(frag_ind);
        proof {
            assert(frag == old_frags[frag_ind as int]);
            assert(frag.wf());
        }
        let _ = frag.transpose_row_to(row_ind, &target_row);
        let ghost new_frag = frag;
        new_spec.frags.insert(frag_ind, frag);
        proof {
            let n = new_spec.frags@;
            let f0 = old_frags[frag_ind as int];
            assert(n == old_frags.update(frag_ind as int, new_frag));
            // The new specification is still well-formed
            assert(annots_ok(f0, new_spec.methods@, new_spec.calls@));
            assert forall|f: int| 0 <= f < n.len() implies {
                &&& (#[trigger] n[f]).wf()
                &&& n[f].start_row@.len() == new_spec.stage.num_bells
                &&& annots_ok(n[f], new_spec.methods@, new_spec.calls@)
            } by {
                if f == frag_ind {
                    assert(new_frag.block@[0].0.len() == f0.block@[0].0.len());
                } else {
                    assert(n[f] == old_frags[f]);
                }
            }
            // It has as many rows as before
            lemma_total_rows_update(old_frags, frag_ind as int, new_frag, old_frags.len());
            // The row being edited is seen as the given row
            let ph = part_head@;
            law_inverse(ph, inv_part_head@);
            law_mul_assoc(ph, inv_part_head@, unpermuted_target_row@);
            law_rounds_identity(unpermuted_target_row@);
            let views = frag_views(n);
            assert(views[frag_ind as int] == frag_view(new_frag));
            assert forall|j: int| 0 <= j < views.len() && j != frag_ind implies #[trigger] views[j] == frag_views(cur.frags@)[j] by {
                assert(views[j] == frag_views(old_frags)[j]);
            }
        }
        self.commit(new_spec);
        self.state = State::Idle;
        proof {
            assert(frag_views(self.current().frags@).len() == frag_views(cur.frags@).len());
        }
        true
    }

    /// Stops transposing without changing anything.
    pub fn exit_transposing(&mut self)
        requires
            old(self).editor_state() is Transposing,
        ensures
            final(self).editor_state() == State::Idle,
            final(self).states() == old(self).states(),
            final(self).index() == old(self).index(),
            final(self).derived() == old(self).derived(),
            final(self).part() == old(self).part(),
    {
        self.state = State::Idle;
    }

    /* Undo and redo */

    /// Shows the specification before the one being displayed, if there is one.
    pub fn undo(&mut self)
        requires
            old(self).wf(),
        ensures
            final(self).wf(),
            final(self).states() == old(self).states(),
            final(self).index() == undo_index(old(self).index()),
            final(self).editor_state() == old(self).editor_state(),
            final(self).part() == old(self).part(),
    {
        if self.undo_history.undo() {
            self.rebuild_state();
        }
    }

    /// Shows the specification after the one being displayed, if there is one.
    pub fn redo(&mut self)
        requires
            old(self).wf(),
        ensures
            final(self).wf(),
            final(self).states() == old(self).states(),
            final(self).index() == redo_index(old(self).states().len() as int, old(self).index()),
            final(self).editor_state() == old(self).editor_state(),
            final(self).part() == old(self).part(),
    {
        if self.undo_history.redo() {
            self.rebuild_state();
        }
    }

    /* Actions */

    /// Deletes a fragment.
    pub fn delete_frag(&mut self, frag_ind: usize)
        requires
            old(self).wf(),
            frag_ind < old(self).current().frags@.len(),
        ensures
            final(self).wf(),
            final(self).one_step_on(*old(self)),
            final(self).editor_state() == old(self).editor_state(),
            final(self).current().same_settings(&old(self).current()),
            frag_views(final(self).current().frags@) == frag_views(old(self).current().frags@).remove(frag_ind as int),
    {
        let ghost cur = self.current();
        let mut new_spec = self.spec().clone();
        proof {
            lemma_same_as_symmetric(new_spec, cur);
            lemma_same_spec_wf(cur, new_spec);
            lemma_same_total_rows(new_spec.frags@, cur.frags@);
        }
        let ghost before = new_spec.frags@;
        new_spec.delete_frag(frag_ind);
        proof {
            lemma_total_rows_remove(before, frag_ind as int, before.len());
            lemma_fewer_rows(new_spec, cur);
            assert(frag_views(new_spec.frags@) =~= frag_views(cur.frags@).remove(frag_ind as int)) by {
                assert forall|j: int| 0 <= j < new_spec.frags@.len() implies #[trigger] frag_views(new_spec.frags@)[j]
                    == frag_views(cur.frags@).remove(frag_ind as int)[j] by {
                    let k = if j < frag_ind { j } else { j + 1 };
                    assert(frag_views(before)[k] == frag_views(cur.frags@)[k]);
                }
            }
        }
        self.commit(new_spec);
    }

    /// Joins the fragment at `frag_2_ind` onto the end of the one at `frag_1_ind`, transposing it to
    /// follow on.  The joined fragment takes the place of the first, and the second is removed.
    pub fn join_frags(&mut self, frag_1_ind: usize, frag_2_ind: usize)
        requires
            old(self).wf(),
            frag_1_ind != frag_2_ind,
            frag_1_ind < old(self).current().frags@.len(),
            frag_2_ind < old(self).current().frags@.len(),
        ensures
            final(self).wf(),
            final(self).one_step_on(*old(self)),
            final(self).editor_state() == old(self).editor_state(),
            final(self).current().same_settings(&old(self).current()),
            joined_frags(frag_views(old(self).current().frags@), frag_1_ind as int, frag_2_ind as int,
                frag_views(final(self).current().frags@)),
    {
        let ghost cur = self.current();
        let mut new_spec = self.spec().clone();
        proof {
            lemma_same_as_symmetric(new_spec, cur);
            lemma_same_spec_wf(cur, new_spec);
            lemma_same_total_rows(new_spec.frags@, cur.frags@);
        }
        let ghost before = new_spec.frags@;
        new_spec.join_frags(frag_1_ind, frag_2_ind);
        proof {
            let corrected = joined_index(frag_1_ind as int, frag_2_ind as int);
            let removed = before.remove(frag_2_ind as int);
            let n = new_spec.frags@;
            let joined = n[corrected];
            lemma_total_rows_remove(before, frag_2_ind as int, before.len());
            lemma_total_rows_update(removed, corrected, joined, removed.len());
            assert forall|j: int| 0 <= j < n.len() implies (#[trigger] n[j]).block@.len()
                == removed.update(corrected, joined)[j].block@.len() by {}
            lemma_total_rows_agree(n, removed.update(corrected, joined), n.len());
            assert(removed[corrected] == before[frag_1_ind as int]);
            lemma_fewer_rows(new_spec, cur);
            let ov = frag_views(cur.frags@);
            let nv = frag_views(n);
            assert(frag_views(before) == ov);
            assert(ov[frag_1_ind as int] == frag_view(before[frag_1_ind as int]));
            assert(ov[frag_2_ind as int] == frag_view(before[frag_2_ind as int]));
            assert(nv[corrected] == frag_view(joined));
            assert forall|j: int| 0 <= j < nv.len() && j != corrected implies #[trigger] nv[j] == ov.remove(frag_2_ind as int)[j] by {
                let k = if j < frag_2_ind { j } else { j + 1 };
                assert(n[j] == removed[j]);
                assert(removed[j] == before[k]);
                assert(ov[k] == frag_view(before[k]));
            }
            let f1 = before[frag_1_ind as int];
            let f2 = before[frag_2_ind as int];
            assert(nv.len() == ov.len() - 1);
            assert(joined.start_row@ == f1.start_row@);
            assert(forall|j: int| 0 <= j < f1.block@.len() - 1 ==> #[trigger] joined.block@[j] == f1.block@[j]);
            assert(forall|j: int| 0 <= j < f2.block@.len() ==> (#[trigger] joined.block@[f1.block@.len() - 1 + j])
                == (permuted(f1.block@.last().0, f2.block@[j].0), f2.block@[j].1));
            assert(ov[frag_1_ind as int].1 == f1.block@);
            assert(ov[frag_2_ind as int].1 == f2.block@);
            assert(nv[corrected].1 == joined.block@);
        }
        self.commit(new_spec);
    }

    /// Whether the composition has room for `extra` more rows in every part.
    pub fn room_for_rows(&self, extra: usize) -> (b: bool)
        requires
            self.history_ok(),
        ensures
            b == ((rows_in_part(self.current()) + extra) * parts_of(self.current()) < usize::MAX),
    {
        let spec = self.undo_history.comp_spec();
        let ghost frags = spec.frags@;
        let p = spec.part_heads.len();
        proof {
            assert(derivable(self.states()[self.index()]));
            let t = rows_in_part(*spec);
            assert(p >= 1);
            assert(t < usize::MAX) by (nonlinear_arith)
                requires
                    t * p < usize::MAX,
                    p >= 1,
            ;
        }
        let mut total: usize = 0;
        let mut i: usize = 0;
        while i < spec.frags.len()
            invariant
                i <= frags.len(),
                frags == spec.frags@,
                total == total_rows(frags, i as nat),
                total_rows(frags, frags.len()) < usize::MAX,
            decreases frags.len() - i,
        {
            proof {
                lemma_total_rows_mono(frags, (i + 1) as nat, frags.len());
            }
            total = total + spec.frags[i].block.annot_rows().len();
            i += 1;
        }
        match total.checked_add(extra) {
            Some(t) => match t.checked_mul(p) {
                Some(v) => v < usize::MAX,
                None => false,
            },
            None => {
                proof {
                    assert((total + extra) * p >= total + extra) by (nonlinear_arith)
                        requires
                            p >= 1,
                            total + extra >= 0,
                    ;
                }
                false
            },
        }
    }

    /// The number of rows (with the leftover row) of a new fragment made of method `method_ind`.
    pub fn new_frag_len(&self, add_course: bool, method_ind: usize) -> (len: usize)
        requires
            self.history_ok(),
            method_ind < self.current().methods@.len(),
            self.current().methods@[method_ind as int].method.wf(),
            self.current().methods@[method_ind as int].method.lead_view()[0].0.len() == self.current().stage.num_bells,
        ensures
            forall|nf: Frag| is_new_frag(nf, self.current(), method_ind, add_course) ==> nf.block@.len() == len,
    {
        let nf = self.spec().new_frag(add_course, method_ind);
        proof {
            assert forall|other: Frag| is_new_frag(other, self.current(), method_ind, add_course)
                implies other.block@.len() == nf.block@.len() by {
                lemma_new_frag_unique(other, nf, self.current(), method_ind, add_course);
            }
        }
        nf.block.annot_rows().len()
    }

    /// Adds a new fragment made of method `method_ind`: one lead of it from rounds, or (with
    /// `add_course`) as many leads as come back to rounds.  Returns the new fragment's index.
    pub fn add_frag(&mut self, add_course: bool, method_ind: usize) -> (i: usize)
        requires
            old(self).wf(),
            method_ind < old(self).current().methods@.len(),
            old(self).current().methods@[method_ind as int].method.wf(),
            old(self).current().methods@[method_ind as int].method.lead_view()[0].0.len() == old(self).current().stage.num_bells,
            forall|nf: Frag| is_new_frag(nf, old(self).current(), method_ind, add_course)
                ==> (rows_in_part(old(self).current()) + nf.block@.len()) * parts_of(old(self).current()) < usize::MAX,
        ensures
            final(self).wf(),
            final(self).one_step_on(*old(self)),
            final(self).editor_state() == old(self).editor_state(),
            final(self).current().same_settings(&old(self).current()),
            i == old(self).current().frags@.len(),
            exists|nf: Frag| is_new_frag(nf, old(self).current(), method_ind, add_course)
                && frag_views(final(self).current().frags@) == #[trigger] frag_views(old(self).current().frags@).push(frag_view(nf)),
    {
        let ghost cur = self.current();
        let mut new_spec = self.spec().clone();
        proof {
            lemma_same_as_symmetric(new_spec, cur);
            lemma_same_spec_wf(cur, new_spec);
            lemma_same_total_rows(new_spec.frags@, cur.frags@);
            assert(same_method(new_spec.methods@[method_ind as int], cur.methods@[method_ind as int]));
        }
        let ghost before = new_spec.frags@;
        let i = new_spec.add_frag(add_course, method_ind);
        proof {
            let n = new_spec.frags@;
            let nf = n.last();
            assert(is_new_frag(nf, cur, method_ind, add_course));
            assert(n == before.push(nf));
            lemma_total_rows_push(before, nf);
            assert(frag_views(before) == frag_views(cur.frags@));
            assert(frag_views(n) =~= frag_views(cur.frags@).push(frag_view(nf))) by {
                assert forall|j: int| 0 <= j < before.len() implies frag_views(n)[j] == frag_views(cur.frags@)[j] by {
                    assert(n[j] == before[j]);
                    assert(frag_views(before)[j] == frag_views(cur.frags@)[j]);
                }
            }
        }
        self.commit(new_spec);
        i
    }

    /// Extends the end of a fragment with a new fragment made of method `method_ind` (one lead of
    /// it, or with `add_course` as many leads as come back to rounds), transposed to follow on.
    pub fn extend_frag(&mut self, frag_ind: usize, method_ind: usize, add_course: bool)
        requires
            old(self).wf(),
            frag_ind < old(self).current().frags@.len(),
            method_ind < old(self).current().methods@.len(),
            old(self).current().methods@[method_ind as int].method.wf(),
            old(self).current().methods@[method_ind as int].method.lead_view()[0].0.len() == old(self).current().stage.num_bells,
            forall|nf: Frag| is_new_frag(nf, old(self).current(), method_ind, add_course)
                ==> (rows_in_part(old(self).current()) + nf.block@.len() - 1) * parts_of(old(self).current()) < usize::MAX,
        ensures
            final(self).wf(),
            final(self).one_step_on(*old(self)),
            final(self).editor_state() == old(self).editor_state(),
            final(self).current().same_settings(&old(self).current()),
            ({
                let ov = frag_views(old(self).current().frags@);
                let nv = frag_views(final(self).current().frags@);
                let (start, rows, muted) = ov[frag_ind as int];
                &&& nv.len() == ov.len()
                &&& forall|j: int| 0 <= j < nv.len() && j != frag_ind ==> #[trigger] nv[j] == ov[j]
                &&& nv[frag_ind as int].0 == start
                &&& nv[frag_ind as int].2 == muted
                &&& exists|nf: Frag| is_new_frag(nf, old(self).current(), method_ind, add_course)
                    && nv[frag_ind as int].1 == #[trigger] rows.take(rows.len() - 1) + transposed(rows.last().0, nf.block@)
            }),
    {
        let ghost cur = self.current();
        let mut new_spec = self.spec().clone();
        proof {
            lemma_same_as_symmetric(new_spec, cur);
            lemma_same_spec_wf(cur, new_spec);
            lemma_same_total_rows(new_spec.frags@, cur.frags@);
            assert(same_method(new_spec.methods@[method_ind as int], cur.methods@[method_ind as int]));
            assert(frag_views(new_spec.frags@).len() == new_spec.frags@.len());
            assert(frag_views(new_spec.frags@)[frag_ind as int] == frag_views(cur.frags@)[frag_ind as int]);
        }
        let ghost before = new_spec.frags@;
        let ghost spec_before = new_spec;
        new_spec.extend_frag_end(frag_ind, method_ind, add_course);
        proof {
            let n = new_spec.frags@;
            let f = before[frag_ind as int];
            let g = n[frag_ind as int];
            let nf = choose|nf: Frag| is_new_frag(nf, spec_before, method_ind, add_course)
                && g.block@ == #[trigger] f.block@.take(f.block@.len() - 1) + transposed(f.block@.last().0, nf.block@);
            assert(is_new_frag(nf, cur, method_ind, add_course));
            assert(g.block@.len() == f.block@.len() - 1 + nf.block@.len());
            assert(n == before.update(frag_ind as int, g));
            lemma_total_rows_update(before, frag_ind as int, g, before.len());
            let ov = frag_views(cur.frags@);
            let nv = frag_views(n);
            assert(frag_views(before) == ov);
            assert(ov[frag_ind as int] == frag_view(f));
            assert(nv[frag_ind as int] == frag_view(g));
            assert forall|j: int| 0 <= j < nv.len() && j != frag_ind implies #[trigger] nv[j] == ov[j] by {
                assert(n[j] == before[j]);
                assert(ov[j] == frag_view(before[j]));
            }
        }
        self.commit(new_spec);
    }

    /// Whether every row of the composition fits `parts` times over.
    pub fn room_for_parts(&self, parts: usize) -> (b: bool)
        requires
            self.history_ok(),
        ensures
            b == (rows_in_part(self.current()) * parts < usize::MAX),
    {
        let spec = self.undo_history.comp_spec();
        let ghost frags = spec.frags@;
        let p = spec.part_heads.len();
        proof {
            assert(derivable(self.states()[self.index()]));
            let t = rows_in_part(*spec);
            assert(t < usize::MAX) by (nonlinear_arith)
                requires
                    t * p < usize::MAX,
                    p >= 1,
            ;
        }
        let mut total: usize = 0;
        let mut i: usize = 0;
        while i < spec.frags.len()
            invariant
                i <= frags.len(),
                frags == spec.frags@,
                total == total_rows(frags, i as nat),
                total_rows(frags, frags.len()) < usize::MAX,
            decreases frags.len() - i,
        {
            proof {
                lemma_total_rows_mono(frags, (i + 1) as nat, frags.len());
            }
            total = total + spec.frags[i].block.annot_rows().len();
            i += 1;
        }
        match total.checked_mul(parts) {
            Some(v) => v < usize::MAX,
            None => false,
        }
    }

    /// Parses new part heads from a text.  If they parse and differ from the current ones, they
    /// replace them as a new step in the history; either way this gives `""`.  If they do not
    /// parse, nothing changes and this describes the problem.
    pub fn parse_part_head_spec(&mut self, s: &str) -> (msg: String)
        requires
            old(self).wf(),
            forall|ph: PartHeads| parses_to_part_heads(s@, old(self).current().stage, ph)
                ==> rows_in_part(old(self).current()) * ph.rows_view().len() < usize::MAX,
        ensures
            final(self).wf(),
            match stage_check_error(parsed_bells(s@), old(self).current().stage) {
                Some(e) => msg@ == error_message(e) && *final(self) == *old(self),
                None => msg@.len() == 0 && {
                    ||| ((exists|ph: PartHeads| parses_to_part_heads(s@, old(self).current().stage, ph)
                        && #[trigger] same_part_heads(old(self).current().part_heads, ph))
                        && *final(self) == *old(self))
                    ||| ({
                        &&& final(self).one_step_on(*old(self))
                        &&& final(self).editor_state() == old(self).editor_state()
                        &&& parses_to_part_heads(s@, old(self).current().stage, final(self).current().part_heads)
                        &&& !same_part_heads(old(self).current().part_heads, final(self).current().part_heads)
                        &&& frag_views(final(self).current().frags@) == frag_views(old(self).current().frags@)
                        &&& final(self).current().methods@.len() == old(self).current().methods@.len()
                        &&& forall|m: int| 0 <= m < final(self).current().methods@.len()
                            ==> same_method(#[trigger] final(self).current().methods@[m], old(self).current().methods@[m])
                        &&& final(self).current().calls@.len() == old(self).current().calls@.len()
                        &&& forall|c: int| 0 <= c < final(self).current().calls@.len()
                            ==> same_call(#[trigger] final(self).current().calls@[c], old(self).current().calls@[c])
                        &&& final(self).current().stage == old(self).current().stage
                    })
                },
            },
    {
        let stage = self.spec().stage;
        let part_heads = match PartHeads::parse(s, stage) {
            Ok(ph) => ph,
            Err(e) => {
                return e.to_string();
            },
        };
        // Only make an undo step if the part heads have actually changed
        if self.spec().part_heads.equals(&part_heads) {
            return String::new();
        }
        let ghost cur = self.current();
        let mut new_spec = self.spec().clone();
        proof {
            lemma_same_as_symmetric(new_spec, cur);
            lemma_same_spec_wf(cur, new_spec);
            lemma_same_total_rows(new_spec.frags@, cur.frags@);
            let row = choose|row: Row| #[trigger] checked_with_stage(parsed_bells(s@), stage, Ok(row))
                && is_closure_from_rounds(part_heads.rows_view(), row@);
            assert(indices(part_heads.rows_view()[0]@) == power(indices(row@), 0));
            assert(indices(part_heads.rows_view()[0]@).len() == part_heads.rows_view()[0]@.len());
        }
        let ghost ph = part_heads;
        new_spec.set_part_heads(part_heads);
        proof {
            assert(new_spec.wf());
            assert(rows_in_part(new_spec) == rows_in_part(cur));
        }
        self.commit(new_spec);
        String::new()
    }

    /// Splits a fragment in two so that the first part has `split_index` rows: the first part stays
    /// in its place and the second is added at the end.  Gives `""` on success, and otherwise
    /// describes the problem (changing nothing).
    pub fn split_frag(&mut self, frag_ind: usize, split_index: usize) -> (s: String)
        requires
            old(self).wf(),
            (rows_in_part(old(self).current()) + 1) * parts_of(old(self).current()) < usize::MAX,
        ensures
            final(self).wf(),
            frag_ind >= old(self).current().frags@.len() ==> s@ == split_error_message(FragSplitError::IndexOutOfRange {
                index: frag_ind,
                num_frags: old(self).current().frags@.len() as usize,
            }) && *final(self) == *old(self),
            frag_ind < old(self).current().frags@.len() && (split_index == 0
                || split_index >= old(self).current().frags@[frag_ind as int].block@.len() - 1)
                ==> s@ == split_error_message(FragSplitError::ZeroLengthFrag) && *final(self) == *old(self),
            frag_ind < old(self).current().frags@.len()
                && 0 < split_index < old(self).current().frags@[frag_ind as int].block@.len() - 1 ==> s@.len() == 0,
            s@.len() == 0 ==> {
                let ov = frag_views(old(self).current().frags@);
                let nv = frag_views(final(self).current().frags@);
                let f = old(self).current().frags@[frag_ind as int];
                &&& frag_ind < ov.len()
                &&& 0 < split_index < f.block@.len() - 1
                &&& final(self).one_step_on(*old(self))
                &&& final(self).editor_state() == old(self).editor_state()
                &&& final(self).current().same_settings(&old(self).current())
                &&& nv.len() == ov.len() + 1
                &&& forall|j: int| 0 <= j < ov.len() && j != frag_ind ==> #[trigger] nv[j] == ov[j]
                &&& nv[frag_ind as int] == (f.start_row@, f.block@.take(split_index + 1), f.is_muted)
                &&& nv.last().0 == permuted(f.start_row@, f.block@[split_index as int].0)
                &&& nv.last().1.len() == f.block@.len() - split_index
                &&& forall|k: int| 0 <= k < f.block@.len() - split_index ==> #[trigger] nv.last().1[k]
                    == (permuted(inverse_bells(f.block@[split_index as int].0), f.block@[split_index + k].0),
                        f.block@[split_index + k].1)
                &&& nv.last().2 == f.is_muted
            },
    {
        let ghost cur = self.current();
        let mut new_spec = self.spec().clone();
        proof {
            lemma_same_as_symmetric(new_spec, cur);
            lemma_same_spec_wf(cur, new_spec);
            lemma_same_total_rows(new_spec.frags@, cur.frags@);
            assert(frag_views(new_spec.frags@).len() == new_spec.frags@.len());
            if frag_ind < new_spec.frags@.len() {
                assert(frag_views(new_spec.frags@)[frag_ind as int] == frag_views(cur.frags@)[frag_ind as int]);
            }
        }
        let ghost before = new_spec.frags@;
        match new_spec.split_frag(frag_ind, split_index) {
            Err(e) => {
                let mut s = String::new();
                match e {
                    FragSplitError::ZeroLengthFrag => {
                        s.append("Can't create 0-length fragment");
                    },
                    FragSplitError::IndexOutOfRange { index, num_frags } => {
                        s.append("Frag #");
                        push_decimal(&mut s, index);
                        s.append(" doens't exist; there are only ");
                        push_decimal(&mut s, num_frags);
                        s.append(" frags.");
                    },
                }
                proof {
                    assert(s@ =~= split_error_message(e));
                    reveal_strlit("Can't create 0-length fragment");
                    reveal_strlit("Frag #");
                    assert(s@.len() > 0);
                }
                s
            },
            Ok(()) => {
                proof {
                    let n = new_spec.frags@;
                    let f = before[frag_ind as int];
                    let first = n[frag_ind as int];
                    let second = n.last();
                    let prefix = n.take(before.len() as int);
                    assert(n == prefix.push(second));
                    lemma_total_rows_push(prefix, second);
                    assert forall|j: int| 0 <= j < prefix.len() implies (#[trigger] prefix[j]).block@.len()
                        == before.update(frag_ind as int, first)[j].block@.len() by {}
                    lemma_total_rows_agree(prefix, before.update(frag_ind as int, first), before.len());
                    lemma_total_rows_update(before, frag_ind as int, first, before.len());
                    let t = rows_in_part(new_spec);
                    let t0 = rows_in_part(cur);
                    let p = parts_of(new_spec);
                    assert(t == t0 + 1);
                    let ov = frag_views(cur.frags@);
                    let nv = frag_views(n);
                    assert(frag_views(before) == ov);
                    assert(ov[frag_ind as int] == frag_view(f));
                    assert forall|j: int| 0 <= j < ov.len() && j != frag_ind implies #[trigger] nv[j] == ov[j] by {
                        assert(n[j] == before[j]);
                        assert(ov[j] == frag_view(before[j]));
                    }
                    assert(nv.last() == frag_view(second));
                    assert(nv[frag_ind as int] == frag_view(first));
                    assert(frag_view(f) == frag_view(cur.frags@[frag_ind as int]));
                    assert(nv.len() == ov.len() + 1);
                }
                self.commit(new_spec);
                let s = String::new();
                assert(s@.len() == 0);
                s
            },
        }
    }

    /// Toggles whether a fragment is muted.
    pub fn toggle_frag_mute(&mut self, frag_ind: usize)
        requires
            old(self).wf(),
            frag_ind < old(self).current().frags@.len(),
        ensures
            final(self).wf(),
            final(self).one_step_on(*old(self)),
            final(self).editor_state() == old(self).editor_state(),
            final(self).current().same_settings(&old(self).current()),
            frag_views(final(self).current().frags@) == frag_views(old(self).current().frags@).update(frag_ind as int, (
                old(self).current().frags@[frag_ind as int].start_row@,
                old(self).current().frags@[frag_ind as int].block@,
                !old(self).current().frags@[frag_ind as int].is_muted,
            )),
    {
        let ghost cur = self.current();
        let mut new_spec = self.spec().clone();
        proof {
            lemma_same_as_symmetric(new_spec, cur);
            lemma_same_spec_wf(cur, new_spec);
            lemma_same_total_rows(new_spec.frags@, cur.frags@);
            assert(frag_views(new_spec.frags@).len() == new_spec.frags@.len());
            assert(frag_views(new_spec.frags@)[frag_ind as int] == frag_views(cur.frags@)[frag_ind as int]);
        }
        let ghost before = new_spec.frags@;
        let mut frag = new_spec.frags.remove(frag_ind);
        proof {
            assert(frag == before[frag_ind as int]);
        }
        frag.toggle_mute();
        let ghost new_frag = frag;
        new_spec.frags.insert(frag_ind, frag);
        proof {
            let n = new_spec.frags@;
            assert(n == before.update(frag_ind as int, new_frag));
            assert(annots_ok(before[frag_ind as int], new_spec.methods@, new_spec.calls@));
            assert forall|f: int| 0 <= f < n.len() implies {
                &&& (#[trigger] n[f]).wf()
                &&& n[f].start_row@.len() == new_spec.stage.num_bells
                &&& annots_ok(n[f], new_spec.methods@, new_spec.calls@)
            } by {
                if f != frag_ind {
                    assert(n[f] == before[f]);
                }
            }
            lemma_total_rows_update(before, frag_ind as int, new_frag, before.len());
            let ov = frag_views(cur.frags@);
            assert(frag_views(before) == ov);
            assert(frag_views(n) =~= ov.update(frag_ind as int, (new_frag.start_row@, new_frag.block@, new_frag.is_muted))) by {
                assert forall|j: int| 0 <= j < n.len() && j != frag_ind implies frag_views(n)[j] == ov[j] by {
                    assert(n[j] == before[j]);
                }
            }
        }
        self.commit(new_spec);
    }

    /// Soloes a fragment: if it is the only unmuted fragment, every fragment is unmuted; otherwise
    /// every fragment but it is muted.
    pub fn toggle_frag_solo(&mut self, frag_ind: usize)
        requires
            old(self).wf(),
        ensures
            final(self).wf(),
            final(self).one_step_on(*old(self)),
            final(self).editor_state() == old(self).editor_state(),
            final(self).current().same_settings(&old(self).current()),
            final(self).current().frags@.len() == old(self).current().frags@.len(),
            mutes(final(self).current().frags@) == soloed(mutes(old(self).current().frags@), frag_ind as int),
            forall|j: int| 0 <= j < final(self).current().frags@.len() ==> {
                &&& (#[trigger] final(self).current().frags@[j]).start_row@ == old(self).current().frags@[j].start_row@
                &&& final(self).current().frags@[j].block@ == old(self).current().frags@[j].block@
            },
    {
        let ghost cur = self.current();
        let mut new_spec = self.spec().clone();
        proof {
            lemma_same_as_symmetric(new_spec, cur);
            lemma_same_spec_wf(cur, new_spec);
            lemma_same_total_rows(new_spec.frags@, cur.frags@);
        }
        let ghost before = new_spec.frags@;
        new_spec.solo_single_frag(frag_ind);
        proof {
            let n = new_spec.frags@;
            assert forall|j: int| 0 <= j < n.len() implies (#[trigger] n[j]).block@.len() == before[j].block@.len() by {}
            lemma_total_rows_agree(n, before, n.len());
            assert(frag_views(before).len() == before.len());
            assert forall|j: int| 0 <= j < n.len() implies {
                &&& (#[trigger] n[j]).start_row@ == cur.frags@[j].start_row@
                &&& n[j].block@ == cur.frags@[j].block@
            } by {
                assert(frag_views(before)[j] == frag_views(cur.frags@)[j]);
            }
            assert(mutes(before) =~= mutes(cur.frags@)) by {
                assert forall|j: int| 0 <= j < before.len() implies mutes(before)[j] == mutes(cur.frags@)[j] by {
                    assert(frag_views(before)[j] == frag_views(cur.frags@)[j]);
                }
            }
        }
        self.commit(new_spec);
    }

    /// Sets which part is being viewed.
    pub fn set_current_part(&mut self, new_part: usize)
        ensures
            final(self).part() == new_part,
            final(self).states() == old(self).states(),
            final(self).index() == old(self).index(),
            final(self).derived() == old(self).derived(),
            final(self).editor_state() == old(self).editor_state(),
    {
        self.current_part = new_part;
    }
}

/// Undoing any edit shows the specification that was displayed before it, and redoing then shows
/// the edited one again.
pub proof fn law_undo_redo_edit(before: Comp, edited: Comp, undone: Comp, redone: Comp)
    requires
        before.history_ok(),
        edited.one_step_on(before),
        undone.states() == edited.states(),
        undone.index() == undo_index(edited.index()),
        redone.states() == undone.states(),
        redone.index() == redo_index(undone.states().len() as int, undone.index()),
    ensures
        undone.current() == before.current(),
        redone.current() == edited.current(),
{
    assert(undone.index() == before.index());
    assert(edited.states()[before.index()] == before.states()[before.index()]);
}

/// Fewer rows than a derivable composition, with the same parts, is derivable too.
proof fn lemma_fewer_rows(new: Spec, old: Spec)
    requires
        derivable(old),
        new.wf(),
        rows_in_part(new) <= rows_in_part(old),
        parts_of(new) == parts_of(old),
    ensures
        derivable(new),
{
    let a = rows_in_part(new);
    let b = rows_in_part(old);
    let p = parts_of(old);
    assert(a * p <= b * p) by (nonlinear_arith)
        requires
            a <= b,
    ;
}

/// The total grows with the number of fragments counted.
proof fn lemma_total_rows_mono(frags: Seq<Frag>, i: nat, n: nat)
    requires
        i <= n <= frags.len(),
    ensures
        total_rows(frags, i) <= total_rows(frags, n),
    decreases n - i,
{
    if i < n {
        lemma_total_rows_mono(frags, i, (n - 1) as nat);
    }
}

} // verus!
