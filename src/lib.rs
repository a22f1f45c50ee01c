//! A Sudoku board model: a 9×9 grid of digit cells, the peer-set queries of
//! rows, columns and boxes, a shift-based puzzle fill, and a controller that
//! turns pointer and keyboard input into board edits.

pub mod board;
pub mod controller;
