//! A backtracking Sudoku solver for square grids of any size, with its
//! behaviour stated in contracts and proved.
//!
//! A grid is a flat sequence of cells, read row by row; `0` marks an empty
//! cell. [`Sudoku`] holds one, checks whether a value may be placed at a
//! position, and fills the empty cells by exhaustive search.
//!
//! - `board`: the model of a grid that the contracts speak of, and the
//!   geometry of rows, columns and boxes;
//! - `grid`: the grid itself and its checks;
//! - `search`: what it means to fill a board, and the search;
//! - `rules`: rows, columns and boxes as lists of cells, and solved grids;
//! - `laws`: what holds of solving as a whole;
//! - `text`: the grid as text;
//! - `root`, `arith`: integer square roots and index arithmetic.

pub mod arith;
pub mod board;
pub mod grid;
pub mod laws;
pub mod root;
pub mod rules;
pub mod search;
pub mod text;

pub use crate::grid::Cell;
pub use crate::grid::Sudoku;
