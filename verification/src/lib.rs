//! Sudoku puzzle generation.
//!
//! A solved 9×9 grid is built by randomized constrained assignment: the cells
//! are filled one after the other, each with a digit drawn among those that its
//! row, column and block still allow, and an attempt that runs into a cell
//! with no such digit is thrown away and started over. A puzzle is then carved
//! from the solved grid by blanking a fixed number of cells in every row.
//!
//! - [`grid`]: cells and grids;
//! - [`rules`]: rows, columns and blocks, and what makes a grid a solution;
//! - [`digits`]: the digits still available to each row, column and block;
//! - [`solution`]: one attempt at a solved grid, as a function of its draws;
//! - [`carve`]: carving a puzzle, as a function of its draws;
//! - [`difficulty`]: the difficulty levels;
//! - [`error`]: why generation can fail;
//! - [`session`]: a playing session, which generates with fresh random draws.

pub mod carve;
pub mod difficulty;
pub mod digits;
pub mod error;
pub mod grid;
mod random;
pub mod rules;
pub mod session;
pub mod solution;
