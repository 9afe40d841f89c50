//! A verified solver for N x N Sudoku boards (N a perfect square).
//!
//! The board is a flattened, row-major grid of cells; a blank cell holds 0.
//! The solver fills every blank with a value in 1..=N such that no value
//! repeats within a row, a column, or an S x S sub-square (N = S * S),
//! by exhaustive depth-first backtracking in ascending candidate order.

pub mod board;
pub mod parse;
pub mod render;
pub mod solver;
