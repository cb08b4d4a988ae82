//! A representation of generic permutations (i.e. a [`Perm`] doesn't just have to permute
//! [`Row`](super::row::Row)s).

use vstd::prelude::*;
use crate::bellcore::stage::Stage;
use crate::text::{decimal, push_decimal};

verus! {

/// An error created when a [`Perm`] was used to permute something with the wrong length.
#[derive(Copy, Clone, Debug, Eq, PartialEq, Structural, Hash)]
pub struct IncompatibleStages {
    /// The length of the slice that was attempted to be permuted
    pub length: usize,
    /// The stage of the [`Perm`] that was doing the permuting
    pub perm_stage: Stage,
}

impl IncompatibleStages {
    /// Constructs a new [`IncompatibleStages`] from its constituent parts.
    pub fn new(length: usize, perm_stage: Stage) -> (e: IncompatibleStages)
        ensures
            e == (IncompatibleStages { length, perm_stage }),
    {
        IncompatibleStages { length, perm_stage }
    }

    /// Describes this error in words (as it is shown to the user).
    pub fn to_string(&self) -> (s: String)
        ensures
            s@ == "A Perm of stage "@ + decimal(self.perm_stage.num_bells as nat)
                + " can't permute a slice of len "@ + decimal(self.length as nat),
    {
        let mut s = String::new();
        s.append("A Perm of stage ");
        push_decimal(&mut s, self.perm_stage.num_bells);
        s.append(" can't permute a slice of len ");
        push_decimal(&mut s, self.length);
        proof {
            assert(s@ =~= "A Perm of stage "@ + decimal(self.perm_stage.num_bells as nat)
                + " can't permute a slice of len "@ + decimal(self.length as nat));
        }
        s
    }
}

/// Every entry of `p` is an index below `p.len()`.
pub open spec fn entries_in_range(p: Seq<usize>) -> bool {
    forall|i: int| 0 <= i < p.len() ==> #[trigger] p[i] < p.len()
}

/// The items of `slice` taken in the order given by the indices of `p`.
pub open spec fn permute_seq<T>(p: Seq<usize>, slice: Seq<T>) -> Seq<T> {
    Seq::new(p.len(), |i: int| slice[p[i] as int])
}

/// A representation of a permutation.  A permutation can be thought of as a function that takes
/// any sequence and returns the same sequence with the elements in a different order.
#[derive(Debug, Clone, Eq, PartialEq, Hash)]
pub struct Perm {
    /// The underlying permutation as a sequence of indices.
    vec: Vec<usize>,
}

impl View for Perm {
    type V = Seq<usize>;

    closed spec fn view(&self) -> Seq<usize> {
        self.vec@
    }
}

impl Perm {
    /// Returns the identity [`Perm`] on a given [`Stage`].
    pub fn id(stage: Stage) -> (p: Perm)
        ensures
            p@ == Seq::new(stage.num_bells as nat, |i: int| i as usize),
    {
        let mut vec: Vec<usize> = Vec::new();
        let mut i: usize = 0;
        while i < stage.num_bells
            invariant
                i <= stage.num_bells,
                vec@ == Seq::new(i as nat, |j: int| j as usize),
            decreases stage.num_bells - i,
        {
            vec.push(i);
            i += 1;
            proof {
                assert(vec@ =~= Seq::new(i as nat, |j: int| j as usize));
            }
        }
        Perm { vec }
    }

    /// Creates a `Perm` from its sequence of indices.
    pub fn from_vec(vec: Vec<usize>) -> (p: Perm)
        ensures
            p@ == vec@,
    {
        Perm { vec }
    }

    /// Whether every index of this `Perm` lies within its stage.
    pub fn in_range(&self) -> (b: bool)
        ensures
            b == entries_in_range(self@),
    {
        let mut i: usize = 0;
        while i < self.vec.len()
            invariant
                i <= self.vec@.len(),
                forall|j: int| 0 <= j < i ==> #[trigger] self.vec@[j] < self.vec@.len(),
            decreases self.vec@.len() - i,
        {
            if self.vec[i] >= self.vec.len() {
                return false;
            }
            i += 1;
        }
        true
    }

    /// Returns the [`Stage`] of this permutation.
    pub fn stage(&self) -> (s: Stage)
        ensures
            s.num_bells == self@.len(),
    {
        Stage::new(self.vec.len())
    }

    /// Permute a slice according to this [`Perm`], returning clones of the permuted items.  This
    /// fails if the slice does not have the same length as the [`Stage`] of this [`Perm`].  The
    /// indices of this [`Perm`] must lie within its stage.
    pub fn permute<T: Clone>(&self, slice: &[T]) -> (r: Result<Vec<T>, IncompatibleStages>)
        requires
            slice@.len() == self@.len() ==> entries_in_range(self@),
        ensures
            slice@.len() != self@.len() ==> r == Err::<Vec<T>, IncompatibleStages>(
                IncompatibleStages { length: slice@.len() as usize, perm_stage: Stage { num_bells: self@.len() as usize } },
            ),
            slice@.len() == self@.len() ==> (r matches Ok(v) && v@.len() == self@.len() && forall|i: int|
                0 <= i < v@.len() ==> cloned::<T>(slice@[self@[i] as int], #[trigger] v@[i])),
    {
        if slice.len() != self.vec.len() {
            return Err(IncompatibleStages { length: slice.len(), perm_stage: self.stage() });
        }
        let mut out: Vec<T> = Vec::new();
        let mut i: usize = 0;
        while i < self.vec.len()
            invariant
                i <= self.vec@.len(),
                slice@.len() == self.vec@.len(),
                entries_in_range(self.vec@),
                out@.len() == i,
                forall|j: int| 0 <= j < i ==> cloned::<T>(slice@[self.vec@[j] as int], #[trigger] out@[j]),
            decreases self.vec@.len() - i,
        {
            let item = slice[self.vec[i]].clone();
            out.push(item);
            i += 1;
        }
        Ok(out)
    }

    /// Multiply two [`Perm`]s together.  This has the effect of using the RHS to permute the LHS,
    /// which is opposite to the mathematical matrix-based representation of permutations.
    pub fn mul(&self, rhs: &Perm) -> (r: Result<Perm, IncompatibleStages>)
        requires
            self@.len() == rhs@.len() ==> entries_in_range(rhs@),
        ensures
            self@.len() != rhs@.len() ==> r == Err::<Perm, IncompatibleStages>(
                IncompatibleStages { length: self@.len() as usize, perm_stage: Stage { num_bells: rhs@.len() as usize } },
            ),
            self@.len() == rhs@.len() ==> (r matches Ok(p) && p@ == permute_seq(rhs@, self@)),
    {
        match rhs.permute(self.vec.as_slice()) {
            Err(e) => Err(e),
            Ok(v) => {
                proof {
                    assert(v@ =~= permute_seq(rhs@, self@));
                }
                Ok(Perm { vec: v })
            },
        }
    }
}

/// The identity permutation on `n` items.
pub open spec fn id_seq(n: nat) -> Seq<usize> {
    Seq::new(n, |i: int| i as usize)
}

/// The identity permutation leaves every sequence of its length unchanged, and is an identity for
/// multiplication on either side: `id * p == p * id == p` for every `p` of its stage whose entries
/// lie within the stage.
pub proof fn law_perm_identity<T>(xs: Seq<T>, p: Seq<usize>)
    requires
        xs.len() <= usize::MAX,
        p.len() <= usize::MAX,
        entries_in_range(p),
    ensures
        permute_seq(id_seq(xs.len()), xs) == xs,
        permute_seq(p, id_seq(p.len())) == p,
        permute_seq(id_seq(p.len()), p) == p,
        entries_in_range(id_seq(p.len())),
{
    assert(permute_seq(id_seq(xs.len()), xs) =~= xs);
    assert forall|i: int| 0 <= i < p.len() implies permute_seq(p, id_seq(p.len()))[i] == p[i] by {
        assert(p[i] < p.len());
    }
    assert(permute_seq(p, id_seq(p.len())) =~= p);
    assert(permute_seq(id_seq(p.len()), p) =~= p);
}

impl From<Vec<usize>> for Perm {
    fn from(vec: Vec<usize>) -> (p: Perm) {
        Perm { vec }
    }
}

impl vstd::std_specs::convert::FromSpecImpl<Vec<usize>> for Perm {
    open spec fn obeys_from_spec() -> bool {
        true
    }

    closed spec fn from_spec(v: Vec<usize>) -> Perm {
        Perm { vec: v }
    }
}

} // verus!
