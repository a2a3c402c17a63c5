//! A 9×9 Sudoku board, its constraint structure, an incrementally maintained
//! candidate table, and a backtracking solver with constraint propagation.

pub mod units;
pub mod board;
pub mod candidates;
pub mod solver;
