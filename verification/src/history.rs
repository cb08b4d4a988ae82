//! Maintaining and navigating an undo history.

use vstd::prelude::*;

verus! {

/// Where the pointer is after an undo from `i`: one step back, unless at the oldest state.
pub open spec fn undo_index(i: int) -> int {
    if i > 0 { i - 1 } else { i }
}

/// Where the pointer is after a redo from `i` among `len` states: one step forward, unless at the
/// most recent state.
pub open spec fn redo_index(len: int, i: int) -> int {
    if i < len - 1 { i + 1 } else { i }
}

/// The states after adding `new` after the state at `i`: those that could be redone are dropped.
pub open spec fn appended<S>(states: Seq<S>, i: int, new: S) -> Seq<S> {
    states.take(i + 1).push(new)
}

/// An undo history of the composition being edited: the most recent states, oldest first, and
/// which of them is being displayed.  Undo and redo move that pointer back and forth.
#[derive(Debug)]
pub struct History<S> {
    history: Vec<S>,
    current_undo_index: usize,
}

impl<S> History<S> {
    /// The pointer always points into the history, which is never empty.  Every constructor
    /// establishes this and every method keeps it.
    pub open spec fn wf(self) -> bool {
        0 <= self.index() < self.states().len()
    }

    /// The states in the history, oldest first.
    pub closed spec fn states(self) -> Seq<S> {
        self.history@
    }

    /// The index of the state being displayed.
    pub closed spec fn index(self) -> int {
        self.current_undo_index as int
    }

    /// Creates a history containing only one state.
    pub fn new(spec: S) -> (h: History<S>)
        ensures
            h.wf(),
            h.states() == seq![spec],
            h.index() == 0,
    {
        let mut history = Vec::new();
        history.push(spec);
        History { history, current_undo_index: 0 }
    }

    /// Moves one step backwards in the undo history.  Returns `false` (changing nothing) if this is
    /// already the oldest state.
    pub fn undo(&mut self) -> (moved: bool)
        requires
            old(self).wf(),
        ensures
            final(self).wf(),
            final(self).states() == old(self).states(),
            moved == (old(self).index() > 0),
            final(self).index() == undo_index(old(self).index()),
    {
        if self.current_undo_index == 0 {
            false
        } else {
            self.current_undo_index -= 1;
            true
        }
    }

    /// Moves one step forwards in the undo history.  Returns `false` (changing nothing) if this is
    /// already the most recent state.
    pub fn redo(&mut self) -> (moved: bool)
        requires
            old(self).wf(),
        ensures
            final(self).wf(),
            final(self).states() == old(self).states(),
            moved == (old(self).index() < old(self).states().len() - 1),
            final(self).index() == redo_index(old(self).states().len() as int, old(self).index()),
    {
        if self.current_undo_index == self.history.len() - 1 {
            false
        } else {
            self.current_undo_index += 1;
            true
        }
    }

    /// Adds a new state after the one being displayed, which then becomes the displayed state.  The
    /// states that could have been redone are dropped.
    pub fn append_history(&mut self, new_spec: S)
        requires
            old(self).wf(),
        ensures
            final(self).wf(),
            final(self).states() == appended(old(self).states(), old(self).index(), new_spec),
            final(self).index() == old(self).index() + 1,
    {
        let _ = self.history.len();
        // Remove the states that could be redone: they are replaced by the new one
        self.history.truncate(self.current_undo_index + 1);
        self.history.push(new_spec);
        self.current_undo_index += 1;
        proof {
            assert(self.history@ =~= appended(old(self).history@, old(self).current_undo_index as int, new_spec));
        }
    }

    /// All the states, oldest first.
    pub fn all_states(&self) -> (s: &[S])
        ensures
            s@ == self.states(),
    {
        self.history.as_slice()
    }

    /// The state being displayed.
    pub fn comp_spec(&self) -> (s: &S)
        requires
            self.wf(),
        ensures
            *s == self.states()[self.index()],
    {
        &self.history[self.current_undo_index]
    }
}

/// Undoing then redoing comes back to the same state, whenever there was a state to undo to.
pub proof fn law_undo_then_redo(len: int, i: int)
    requires
        0 < i < len,
    ensures
        redo_index(len, undo_index(i)) == i,
{
}

/// Redoing then undoing comes back to the same state, whenever there was a state to redo to.
pub proof fn law_redo_then_undo(len: int, i: int)
    requires
        0 <= i < len - 1,
    ensures
        undo_index(redo_index(len, i)) == i,
{
}

/// After an edit, the new state is the most recent one (nothing can be redone), and undoing it
/// shows the state that was displayed before the edit.
pub proof fn law_undo_edit<S>(states: Seq<S>, i: int, new: S)
    requires
        0 <= i < states.len(),
    ensures
        appended(states, i, new).len() == i + 2,
        appended(states, i, new)[i + 1] == new,
        redo_index(appended(states, i, new).len() as int, i + 1) == i + 1,
        appended(states, i, new)[undo_index(i + 1)] == states[i],
{
}

} // verus!
