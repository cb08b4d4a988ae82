//! Small types shared across the composition state: indices into fragments, rows, parts and
//! methods, and locations of rows within a composition.

pub mod types;
