//! The state of a composition as the editor sees it: references to methods and calls, section
//! folding, serialisation predicates, and the derived state built from a composition.

pub mod ser_utils;
pub mod spec;
pub mod view;
pub mod derived_state;
pub mod falseness;
pub mod annotated;
pub mod links;
pub mod derived;
pub mod comp;
