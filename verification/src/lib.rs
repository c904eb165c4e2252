//! A 9x9 Sudoku backtracking solver, verified end to end: the board model,
//! the placement validator and the depth-first search carry contracts, and
//! `solve` is proved to terminate, to keep every given, to undo all of its
//! writes on failure, and to fail only when no completion exists.

pub mod board;
pub mod render;
pub mod solver;
