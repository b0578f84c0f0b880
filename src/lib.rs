//! A Sudoku solver whose grid validation and search are verified.
pub mod grid;
pub mod laws;
pub mod rules;
pub mod search;
pub mod solver;

