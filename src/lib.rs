//! A verified solver for generalized Sudoku puzzles: an N×N grid (N = n²)
//! is completed by naked-single propagation and backtracking search, and
//! every completion is returned.

pub mod model;
pub mod util;
pub mod view;
pub mod lemmas;
pub mod solver;
pub mod laws;
pub use solver::Sudoku;
