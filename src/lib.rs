//! The N-Queens problem: boards with one optional queen per column, their conflicts and
//! successors, and two solvers (exhaustive search and hill climbing).

pub mod board;
pub mod successor;
pub mod solvers;

pub use board::{BoardError, NQueens};
pub use successor::NQueensSuccessorIter;
