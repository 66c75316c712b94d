//! A 9x9 sudoku board with a verified conflict checker, backtracking solver,
//! and randomized puzzle generator.

pub mod gameboard;

pub use gameboard::Cell;
pub use gameboard::Gameboard;
