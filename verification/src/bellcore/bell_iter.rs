//! Reading bells one at a time from a row packed into a `u128`, one byte per bell with the first
//! bell in the least significant byte.

use vstd::prelude::*;
use super::bell::Bell;

verus! {

/// An iterator over the bells packed into the bytes of a `u128`, lowest byte first.
#[derive(Copy, Clone, Debug)]
pub struct BellIter {
    bells: u128,
    bells_left: usize,
}

impl BellIter {
    /// The bytes not yet read.
    pub closed spec fn packed(self) -> u128 {
        self.bells
    }

    /// How many bells are left to read.
    pub closed spec fn left(self) -> usize {
        self.bells_left
    }

    /// An iterator reading `bells_left` bells from the bytes of `bells`.
    pub fn new(bells: u128, bells_left: usize) -> (it: BellIter)
        ensures
            it.packed() == bells,
            it.left() == bells_left,
    {
        BellIter { bells, bells_left }
    }

    /// Reads the next bell: the one in the lowest byte not yet read.  Returns `None` once all the
    /// bells have been read.
    pub fn next(&mut self) -> (b: Option<Bell>)
        ensures
            old(self).left() == 0 ==> b is None && *final(self) == *old(self),
            old(self).left() > 0 ==> b == Some(Bell { index: (old(self).packed() % 256) as usize })
                && final(self).packed() == old(self).packed() / 256
                && final(self).left() == old(self).left() - 1,
    {
        // Mark that we're consuming another bell, and if the subtraction fails then the iterator
        // has finished
        self.bells_left = match self.bells_left.checked_sub(1) {
            Some(left) => left,
            None => return None,
        };
        // Read the lowest byte as a bell, then shift the next bell into the lowest byte
        let bells = self.bells;
        let index = (bells & 0xff) as usize;
        assert((bells & 0xff) == bells % 256) by (bit_vector);
        assert(bells >> 8 == bells / 256) by (bit_vector);
        self.bells = bells >> 8;
        Some(Bell::from_index(index))
    }
}

} // verus!
