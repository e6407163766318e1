//! A solver for standard 9×9 Sudoku puzzles.
//!
//! A puzzle is read from text into a grid of 81 cells. It is solved by
//! depth-first search, which tries the digits in an order computed from the
//! givens, by elimination over the candidates of each cell, or by both in
//! turn. What each of them returns is stated over sequences of cells and
//! proved.

pub mod grid;
pub mod search;
pub mod loader;
pub mod order;
pub mod units;
pub mod propagate;
pub mod solver;
