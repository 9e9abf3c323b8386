//! A verified solver for fully determined 9x9 Sudoku grids.
//!
//! The solver works by pure elimination: each digit keeps an 81-bit mask of
//! board positions it can no longer occupy, and the 27 constraint groups
//! (rows, columns, 3x3 blocks) repeatedly deduce the placements that have
//! become forced, until the grid is full or no deduction remains.

pub mod layer;
pub mod mask;
pub mod puzzle;
pub mod segment;
