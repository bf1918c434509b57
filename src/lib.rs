//! A solver for binary-grid logic puzzles: an N×N grid of cells that are
//! unknown (-1), white (0) or black (1), to be colored so that every row and
//! column is balanced, has no run of three, and no two rows or columns repeat.
//!
//! - `grid`: the mathematical model of a board and the rules of the puzzle.
//! - `validator`: whether a board breaks no rule yet, and whether it is solved.
//! - `propagate`: forced inferences applied up to a fixed point.
//! - `ranker`: the unknown cells ordered by how constrained they are.
//! - `search`: one-cell lookahead on top of propagation, and the full solve.
//! - `task`: reading a puzzle page and decoding its run-length encoding.
pub mod grid;
pub mod validator;
pub mod propagate;
pub mod ranker;
pub mod search;
pub mod task;
