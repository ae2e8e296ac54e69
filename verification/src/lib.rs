//! A verified 9×9 Sudoku solver based on constraint propagation and
//! checkpointed backtracking.

pub mod board;
pub mod cell;
pub mod counting;
pub mod digit_set;
pub mod grid;
pub mod laws;
pub mod point;
pub mod render;
pub mod search;
pub mod sudoku;
