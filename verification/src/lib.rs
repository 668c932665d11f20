//! A solver and generator for rectangular Sudoku grids, with the proofs of
//! what it computes.
//!
//! A grid is built from subregions of `subregion_rows` by
//! `subregion_columns` cells; its side, which is also its largest digit,
//! is their product.  A cell is a given or a slot.
//!
//! - `rules` and `validate`: the local rule for one cell, in two forms.
//! - `solution`, `search` and `solve`: what a solution is, and the
//!   backtracking search that finds the first one in dictionary order.
//! - `unique`: whether a grid can be completed, and whether the search
//!   finds one completion only.
//! - `generate` and `prune`: solved grids drawn at random, and puzzles
//!   pruned from them; `random` holds what is taken on trust from the
//!   `rand` crate.
//! - `laws` and `minimal`: what holds between these functions.
//! - `sudoku_view`, `message`, `text`, `save` and `style`: the state of a
//!   game at the table, without its windows, dialogs and files.

pub mod arith;
pub mod cell;
pub mod counting;
pub mod generate;
pub mod laws;
pub mod measure;
pub mod message;
pub mod minimal;
pub mod pattern;
pub mod prune;
pub mod random;
pub mod rules;
pub mod save;
pub mod search;
pub mod solution;
pub mod solve;
pub mod style;
pub mod sudoku;
pub mod sudoku_view;
pub mod text;
pub mod unique;
pub mod validate;

pub use cell::Cell;
pub use message::{FileOp, Message};
pub use save::SaveButtons;
pub use style::CellInput;
pub use sudoku_view::SudokuView;
pub use sudoku::Sudoku;
pub use validate::is_valid_subregion;
