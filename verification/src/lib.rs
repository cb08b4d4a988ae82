//! Verified building blocks of a change-ringing composition editor: bells, rows, place notation,
//! blocks of rows, permutations, and the bookkeeping that turns a composition into what the editor
//! displays.

pub mod bellcore;
pub mod text;
pub mod order;
pub mod count;
pub mod sorting;
pub mod save_load;
pub mod history;
pub mod group;
pub mod projcore;
pub mod utils;
pub mod proj;
pub mod compspec;
