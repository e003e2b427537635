//! Incremental nonogram solving: a line constraint-propagation solver and a
//! board that round-robins it over every row and column of a grid.

pub mod board;
pub mod cell;
pub mod props;
pub mod solver;

pub use board::Board;
pub use board::BoardError;
pub use board::Side;
pub use board::SolveState;
pub use cell::Cell;
pub use solver::solve_line;
