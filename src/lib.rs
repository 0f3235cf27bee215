//! A solver for 9×9 Sudoku puzzles: per-cell candidate sets, constraint
//! propagation to a fixed point, and backtracking search.

pub mod tile;
pub mod rules;
mod cells;
pub mod board;
