//! Typed indices, and the locations of rows within a composition.

use vstd::prelude::*;

verus! {

/// The index of a fragment within a composition.
#[derive(Debug, Clone, Copy, PartialEq, Eq, Structural, Hash, PartialOrd, Ord)]
pub struct FragIdx {
    /// The underlying index.
    pub index: usize,
}

/// The index of a row within a fragment.
#[derive(Debug, Clone, Copy, PartialEq, Eq, Structural, Hash, PartialOrd, Ord)]
pub struct RowIdx {
    /// The underlying index.
    pub index: usize,
}

/// The index of a part of a composition.
#[derive(Debug, Clone, Copy, PartialEq, Eq, Structural, Hash, PartialOrd, Ord)]
pub struct PartIdx {
    /// The underlying index.
    pub index: usize,
}

/// The index of a method within a composition.
#[derive(Debug, Clone, Copy, PartialEq, Eq, Structural, Hash, PartialOrd, Ord)]
pub struct MethodIdx {
    /// The underlying index.
    pub index: usize,
}

/// The index of a chunk within a fragment.
#[derive(Debug, Clone, Copy, PartialEq, Eq, Structural, Hash, PartialOrd, Ord)]
pub struct ChunkIdx {
    /// The underlying index.
    pub index: usize,
}

impl FragIdx {
    /// Creates an index.
    pub fn new(index: usize) -> (r: Self)
        ensures
            r.index == index,
    {
        FragIdx { index }
    }
}

impl RowIdx {
    /// Creates an index.
    pub fn new(index: usize) -> (r: Self)
        ensures
            r.index == index,
    {
        RowIdx { index }
    }
}

impl PartIdx {
    /// Creates an index.
    pub fn new(index: usize) -> (r: Self)
        ensures
            r.index == index,
    {
        PartIdx { index }
    }
}

impl MethodIdx {
    /// Creates an index.
    pub fn new(index: usize) -> (r: Self)
        ensures
            r.index == index,
    {
        MethodIdx { index }
    }
}

impl ChunkIdx {
    /// Creates an index.
    pub fn new(index: usize) -> (r: Self)
        ensures
            r.index == index,
    {
        ChunkIdx { index }
    }
}

/// The position of a row within the source composition (i.e. before parts are expanded).  This
/// does not specify which part a row occurs in - for that, use [`RowLocation`].
#[derive(Debug, Clone, Copy, PartialEq, Eq, Structural, Hash)]
pub struct RowSource {
    pub frag_index: FragIdx,
    pub row_index: RowIdx,
}

/// The position of a row within the expanded composition - i.e. the same as [`RowSource`], but
/// also specifying the part.
#[derive(Debug, Clone, Copy, PartialEq, Eq, Structural, Hash)]
pub struct RowLocation {
    pub frag_index: FragIdx,
    pub row_index: RowIdx,
    pub part_index: PartIdx,
}

impl RowLocation {
    /// The position of this row in the source composition, forgetting the part.
    pub fn as_source(&self) -> (s: RowSource)
        ensures
            s == (RowSource { frag_index: self.frag_index, row_index: self.row_index }),
    {
        RowSource { frag_index: self.frag_index, row_index: self.row_index }
    }
}

} // verus!
