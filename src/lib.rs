//! Discrete smoothing of a grid of byte values: at each generation every cell
//! moves one step toward the weighted average of its neighbours.

pub mod cell;
pub mod universe;
