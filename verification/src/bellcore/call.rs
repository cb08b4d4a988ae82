//! Calls: modifications of a method's lead, labelled by a single character.

use vstd::prelude::*;
use super::block::Block;

verus! {

/// The notation of a bob.
pub const NOTATION_BOB: char = '-';

/// The notation of a single.
pub const NOTATION_SINGLE: char = 's';

/// A call: a block which replaces some rows of a method, at a labelled location.
#[derive(Debug)]
pub struct Call {
    notation: char,
    loc: String,
    replaces: usize,
    block: Block,
}

impl Clone for Call {
    fn clone(&self) -> (c: Call)
        ensures
            c.notation_view() == self.notation_view(),
            c.location_view() == self.location_view(),
            c.replaces_view() == self.replaces_view(),
            c.block_view()@ == self.block_view()@,
    {
        let block = self.block.clone();
        assert(block@ =~= self.block@);
        Call { notation: self.notation, loc: self.loc.clone(), replaces: self.replaces, block }
    }
}

impl Call {
    /// Creates a new `Call` from its parts.
    pub fn new(notation: char, loc: String, replaces: usize, block: Block) -> (c: Call)
        ensures
            c.notation_view() == notation,
            c.location_view() == loc@,
            c.replaces_view() == replaces,
            c.block_view() == block,
    {
        Call { notation, loc, replaces, block }
    }

    /// The character that represents this call.
    pub closed spec fn notation_view(&self) -> char {
        self.notation
    }

    /// The label of the location where this call is made.
    pub closed spec fn location_view(&self) -> Seq<char> {
        self.loc@
    }

    /// How many rows this call replaces.
    pub closed spec fn replaces_view(&self) -> usize {
        self.replaces
    }

    /// Gets the `char` that represents this `Call`.
    pub fn notation(&self) -> (c: char)
        ensures
            c == self.notation_view(),
    {
        self.notation
    }

    /// The overall effect of this `Call`: the leftover row of its block.  The block must be
    /// well-formed.
    pub fn transposition(&self) -> (r: &crate::bellcore::row::Row)
        requires
            self.block_view().wf(),
        ensures
            r@ == self.block_view()@.last().0,
    {
        &self.block.leftover_row().0
    }

    /// The block of this `Call`.
    pub closed spec fn block_view(&self) -> Block {
        self.block
    }

    /// Gets the label of the location where this `Call` is made.
    pub fn location(&self) -> (s: &str)
        ensures
            s@ == self.location_view(),
    {
        self.loc.as_str()
    }
}

} // verus!
