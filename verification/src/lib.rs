//! A verified Sudoku solver: constraint propagation plus backtracking
//! search over a 9×9 board stored as 81 cells in row-major order.
//!
//! - `grid`: the board and the candidate digits of a cell;
//! - `rules`: when a board is solved, and when one board completes another;
//! - `search`: the search as a mathematical function of the board;
//! - `solver`: the solver itself, proved to compute that function;
//! - `laws`: what follows for every board;
//! - `text` and `reader`: boards written as text and read from it.

pub mod grid;
pub mod laws;
pub mod reader;
pub mod rules;
pub mod search;
pub mod solver;
pub mod text;
