//! A verified 9x9 Sudoku solver.
//!
//! A board is a 9x9 grid of cells; the value 0 marks an empty cell and
//! 1..=9 a placed digit. The solver fills every empty cell by a
//! depth-first, row-major backtracking search so that each row, each
//! column and each aligned 3x3 block holds the digits 1..=9 without
//! repetition. A loader turns whitespace-separated text into a board.

pub mod grid;
pub mod loader;
pub mod rules;
pub mod search;
pub mod solver;

pub use grid::Numple;
pub use loader::LoadError;
pub use solver::Solver;
