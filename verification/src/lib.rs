//! A 9x9 Sudoku solver.
//!
//! A [`grid::Sudoku`] is a fixed 9x9 board of digits, 0 standing for a blank
//! cell. [`solver::partial_solution`] fills the blanks by recursive
//! backtracking in row-major order, trying candidate digits in ascending
//! order, and returns the first completion in which every row, column and
//! 3x3 box is free of repeated digits, or `None` when no branch completes
//! the board. [`solver::solve`] wraps it for the caller who wants the board
//! back unchanged in that case, and [`text`] holds the textual helpers: a
//! parser for digit-line fixtures and a pipe-separated debugging formatter.

pub mod grid;
pub mod solver;
pub mod text;

pub use grid::Sudoku;
pub use solver::partial_solution;
pub use solver::solve;
