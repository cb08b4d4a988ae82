//! Representations of the primitives of change ringing: bells, stages, rows, place notation and
//! blocks of rows.

pub mod bell;
pub mod bell_iter;
pub mod stage;
pub mod row;
pub mod place_not;
pub mod block;
pub mod laws;
pub mod call;
pub mod method;
