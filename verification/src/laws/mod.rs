//! What the reader promises as a whole: how its operations fit together, and what
//! each of them is for.

pub mod blocks;
pub mod cells;
pub mod files;
pub mod frames;
pub mod grids;
pub mod inline;
pub mod keys;
pub mod screen;
pub mod texts;
pub mod views;
pub mod wrapping;
