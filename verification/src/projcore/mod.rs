//! An earlier, smaller set of change-ringing primitives: bells, stages, rows, generic
//! permutations and blocks of permutations.

pub mod block;
pub mod perm;
pub mod row;

pub use crate::bellcore::bell::Bell;
pub use crate::bellcore::stage::Stage;
