//! Random generation and reduction of Sudoku-like puzzles on square grids that
//! are partitioned into equal blocks.
//!
//! A [`Generator`] fills an empty grid completely by randomized backtracking
//! under a [`Constraint`]. A [`Reducer`] then strips clues from a filled grid
//! for as long as its [`Solver`] still finds exactly one solution, which
//! turns an answer key into a puzzle whose difficulty the solver sets.
//!
//! The modules `search` and `reduction` hold the mathematical account of the
//! two algorithms and the laws proved of them; `random` holds the calls into
//! the random number generator, whose outcomes are taken on trust to lie in
//! the range asked for and are otherwise left open.

pub mod constraint;
pub mod error;
pub mod generator;
pub mod grid;
pub mod random;
pub mod reduction;
pub mod search;
pub mod shuffle;
pub mod solver;
pub mod sudoku;

pub use constraint::{Constraint, DefaultConstraint};
pub use error::{SudokuError, SudokuResult};
pub use generator::{Generator, Reducer};
pub use grid::{GridView, SudokuGrid};
pub use shuffle::{apply_picks, draw_picks, shuffle};
pub use solver::{BacktrackingSolver, Solution, Solver, Verdict};
pub use sudoku::Sudoku;
