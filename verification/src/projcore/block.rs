//! A `Block` is a generalisation of [`Perm`], where instead of taking a row and mapping it to a
//! single row, it is mapped to **multiple** rows.

use vstd::prelude::*;
use super::perm::{entries_in_range, id_seq, IncompatibleStages, Perm};
use crate::bellcore::stage::Stage;

verus! {

/// The permutations of a block: at least one, all of the same stage, and each with its indices
/// within that stage.
pub open spec fn block_perms_ok(perms: Seq<Seq<usize>>) -> bool {
    &&& perms.len() >= 1
    &&& forall|i: int| 0 <= i < perms.len() ==> (#[trigger] perms[i]).len() == perms[0].len()
        && entries_in_range(perms[i])
}

/// A `Block` is a generalisation of [`Perm`], where instead of taking a row and mapping it to a
/// single row, it is mapped to **multiple** rows.  All the [`Perm`]s permute the starting row
/// (not each other); there is an implicit identity [`Perm`] at the start which is not stored; and
/// the last [`Perm`] is left-over: it gives the starting row of whatever follows this `Block`.
#[derive(Debug, Clone, Eq, PartialEq, Hash)]
pub struct Block {
    perms: Vec<Perm>,
}

impl View for Block {
    type V = Seq<Seq<usize>>;

    closed spec fn view(&self) -> Seq<Seq<usize>> {
        Seq::new(self.perms@.len(), |i: int| self.perms@[i]@)
    }
}

impl Block {
    /// There is at least one [`Perm`], and they all have the same [`Stage`] and indices within
    /// it.
    pub open spec fn wf(self) -> bool {
        block_perms_ok(self@)
    }

    /// Creates a `Block` from its [`Perm`]s, returning `None` unless there is at least one
    /// [`Perm`] and they all have the same [`Stage`] and indices within it.
    pub fn from_perms(perms: Vec<Perm>) -> (b: Option<Block>)
        ensures
            b is Some <==> block_perms_ok(Seq::new(perms@.len(), |i: int| perms@[i]@)),
            b matches Some(block) ==> block@ == Seq::new(perms@.len(), |i: int| perms@[i]@),
    {
        let ghost v = Seq::new(perms@.len(), |i: int| perms@[i]@);
        if perms.len() == 0 {
            return None;
        }
        let n = perms[0].stage().num_bells;
        let mut i: usize = 0;
        while i < perms.len()
            invariant
                i <= perms@.len(),
                perms@.len() >= 1,
                v == Seq::new(perms@.len(), |i: int| perms@[i]@),
                n == v[0].len(),
                forall|j: int| 0 <= j < i ==> (#[trigger] v[j]).len() == n && entries_in_range(v[j]),
            decreases perms@.len() - i,
        {
            proof {
                assert(v[i as int] == perms@[i as int]@);
            }
            if perms[i].stage().num_bells != n {
                return None;
            }
            if !perms[i].in_range() {
                return None;
            }
            i += 1;
        }
        Some(Block { perms })
    }

    /// Gets the [`Stage`] of this `Block`.
    pub fn stage(&self) -> (s: Stage)
        requires
            self.wf(),
        ensures
            s.num_bells == self@[0].len(),
    {
        self.perms[0].stage()
    }

    /// Gets the length of this `Block`: the number of rows generated when it permutes a row.
    pub fn len(&self) -> (l: usize)
        ensures
            l == self@.len(),
    {
        self.perms.len()
    }

    /// Returns a [`PermIter`] which generates the permutations of `slice` given by this block.
    pub fn perm_iter<'b, 's, T: Clone>(&'b self, slice: &'s [T]) -> (r: Result<PermIter<'b, 's, T>, IncompatibleStages>)
        requires
            self.wf(),
        ensures
            slice@.len() != self@[0].len() ==> r == Err::<PermIter<'b, 's, T>, IncompatibleStages>(
                IncompatibleStages { length: slice@.len() as usize, perm_stage: Stage { num_bells: self@[0].len() as usize } },
            ),
            slice@.len() == self@[0].len() ==> (r matches Ok(it) && it.block_view() == self@ && it.slice_view() == slice@
                && it.produced() == 0),
    {
        PermIter::from_block(self, slice)
    }

    /// Returns the left-over [`Perm`] of this `Block`, which represents its overall effect.
    pub fn leftover_perm(&self) -> (p: &Perm)
        requires
            self.wf(),
        ensures
            p@ == self@.last(),
    {
        &self.perms[self.perms.len() - 1]
    }
}

/// The permutation by which the `k`th item (counting from 0) of a [`PermIter`] over a block is
/// made: the identity, then each permutation of the block but the left-over one; `None` once
/// they have all been used.
pub open spec fn perm_iter_item(block: Seq<Seq<usize>>, k: nat) -> Option<Seq<usize>> {
    if k == 0 {
        Some(id_seq(block[0].len()))
    } else if k < block.len() {
        Some(block[k - 1])
    } else {
        None
    }
}

/// A run of a [`PermIter`] over a block yields exactly as many items as the block has
/// permutations: first the slice itself, then the slice permuted by each permutation of the block
/// except the left-over one, in order.
pub proof fn law_perm_iter_run(block: Seq<Seq<usize>>)
    requires
        block.len() >= 1,
    ensures
        forall|k: nat| #[trigger] perm_iter_item(block, k) is Some <==> k < block.len(),
        perm_iter_item(block, 0) == Some(id_seq(block[0].len())),
        forall|k: int| 1 <= k < block.len() ==> #[trigger] perm_iter_item(block, k as nat) == Some(block[k - 1]),
{
}

/// The state of a [`PermIter`].
#[derive(Debug, Clone, Copy, PartialEq, Eq)]
enum IterState {
    /// Nothing has been returned yet, so the next item is the original slice.
    Identity,
    /// The items are now read from the [`Block`].
    PermFromBlock,
}

/// Takes a [`Block`] and a slice with the same length as the [`Block`]'s [`Stage`], and
/// generates the sequence of permutations of that slice that the [`Block`] gives (excluding the
/// left-over one).  The items are clones of the original items.
#[derive(Debug)]
pub struct PermIter<'block, 'slice, T: Clone> {
    block: &'block Block,
    next_perm: usize,
    state: IterState,
    slice: &'slice [T],
}

impl<'block, 'slice, T: Clone> Clone for PermIter<'block, 'slice, T> {
    fn clone(&self) -> (r: Self)
        ensures
            r.block_view() == self.block_view(),
            r.slice_view() == self.slice_view(),
            r.produced() == self.produced(),
    {
        proof {
            use_type_invariant(self);
        }
        PermIter { block: self.block, next_perm: self.next_perm, state: self.state, slice: self.slice }
    }
}

impl<'block, 'slice, T: Clone> PermIter<'block, 'slice, T> {
    #[verifier::type_invariant]
    spec fn is_valid(self) -> bool {
        &&& self.block.wf()
        &&& self.slice@.len() == self.block@[0].len()
        &&& self.next_perm < self.block@.len()
        &&& self.state == IterState::Identity ==> self.next_perm == 0
    }

    /// The permutations of the block being read.
    pub closed spec fn block_view(self) -> Seq<Seq<usize>> {
        self.block@
    }

    /// The items being permuted.
    pub closed spec fn slice_view(self) -> Seq<T> {
        self.slice@
    }

    /// How many items have been returned so far.
    pub closed spec fn produced(self) -> nat {
        match self.state {
            IterState::Identity => 0,
            IterState::PermFromBlock => (self.next_perm + 1) as nat,
        }
    }

    /// Creates a new `PermIter` given a [`Block`] and a slice of items.
    fn from_block(block: &'block Block, slice: &'slice [T]) -> (r: Result<Self, IncompatibleStages>)
        requires
            block.wf(),
        ensures
            slice@.len() != block@[0].len() ==> r == Err::<Self, IncompatibleStages>(
                IncompatibleStages { length: slice@.len() as usize, perm_stage: Stage { num_bells: block@[0].len() as usize } },
            ),
            slice@.len() == block@[0].len() ==> (r matches Ok(it) && it.block_view() == block@ && it.slice_view() == slice@
                && it.produced() == 0),
    {
        if block.stage().num_bells != slice.len() {
            return Err(IncompatibleStages::new(slice.len(), block.stage()));
        }
        Ok(PermIter { block, next_perm: 0, state: IterState::Identity, slice })
    }

    /// Returns the next permutation of the slice: first the slice itself, then the slice permuted
    /// by each [`Perm`] of the block except the left-over one, then `None`.
    pub fn next(&mut self) -> (r: Option<Vec<T>>)
        ensures
            final(self).block_view() == old(self).block_view(),
            final(self).slice_view() == old(self).slice_view(),
            old(self).produced() == 0 ==> final(self).produced() == 1 && (r matches Some(v)
                && v@.len() == old(self).slice_view().len() && forall|i: int| 0 <= i < v@.len()
                ==> cloned::<T>(old(self).slice_view()[i], #[trigger] v@[i])),
            old(self).produced() > 0 && old(self).produced() < old(self).block_view().len() ==> ({
                let p = old(self).block_view()[old(self).produced() - 1];
                &&& final(self).produced() == old(self).produced() + 1
                &&& r matches Some(v)
                &&& v@.len() == p.len()
                &&& forall|i: int| 0 <= i < v@.len() ==> cloned::<T>(old(self).slice_view()[p[i] as int], #[trigger] v@[i])
            }),
            old(self).produced() >= old(self).block_view().len() ==> r is None && final(self).produced() == old(self).produced(),
            r is Some <==> perm_iter_item(old(self).block_view(), old(self).produced()) is Some,
            r matches Some(v) ==> ({
                let p = perm_iter_item(old(self).block_view(), old(self).produced())->0;
                &&& v@.len() == p.len()
                &&& forall|i: int| 0 <= i < v@.len() ==> cloned::<T>(old(self).slice_view()[p[i] as int], #[trigger] v@[i])
            }),
    {
        proof {
            use_type_invariant(&*self);
        }
        match self.state {
            IterState::Identity => {
                self.state = IterState::PermFromBlock;
                let mut v: Vec<T> = Vec::new();
                let mut i: usize = 0;
                while i < self.slice.len()
                    invariant
                        i <= self.slice@.len(),
                        v@.len() == i,
                        forall|j: int| 0 <= j < i ==> cloned::<T>(self.slice@[j], #[trigger] v@[j]),
                    decreases self.slice@.len() - i,
                {
                    v.push(self.slice[i].clone());
                    i += 1;
                }
                Some(v)
            },
            IterState::PermFromBlock => {
                assert(self.next_perm < self.block.perms@.len());
                if self.next_perm < self.block.perms.len() - 1 {
                    let p = &self.block.perms[self.next_perm];
                    proof {
                        assert(self.block@[self.next_perm as int] == p@);
                    }
                    let r = p.permute(self.slice);
                    self.next_perm = self.next_perm + 1;
                    match r {
                        Ok(v) => Some(v),
                        Err(_) => None,
                    }
                } else {
                    None
                }
            },
        }
    }
}

} // verus!
