//! A Sudoku grid solver based on iterative constraint elimination.
//!
//! A `Board` holds a fixed 9x9 grid of `Cell`s, each with a set of
//! remaining candidate values.  `Board::initialize` loads a puzzle from a
//! comma-separated specification of 81 tokens, and
//! `Board::eliminate_conflicts` performs one elimination pass: every
//! unsolved cell drops the values of solved peers in its row, column and
//! 3x3 block, and becomes solved the moment a single candidate remains.
//! The caller repeats passes until the board is solved or a pass makes no
//! progress.  Pure elimination can stall on puzzles that need guessing;
//! detecting stagnation is the caller's concern.

pub mod board;
pub mod cell;
pub mod laws;
pub mod model;
pub mod parse;
pub mod render;
