//! Shortest synchronized command sequences for tokens on walled grids.
//!
//! One command is broadcast to every maze at once; each token reacts to the
//! walls and edges of its own grid. [`solve`] returns the shortest command
//! sequence that puts every token on its target at the same instant.
//!
//! - [`grid`], [`pos`], [`moves`], [`maze`]: the wall mask, coordinates,
//!   commands, and the rule by which one token takes one command.
//! - [`rules`], [`order`]: what a command sequence does to a whole puzzle,
//!   when it solves it, and which of several solutions is the answer.
//! - [`state`], [`visited`], [`search`], [`solver`]: the breadth-first
//!   search that finds the answer.
//! - [`trail`], [`space`]: why the search is right and why it ends.
//! - [`laws`]: what holds of every answer.

pub mod error;
pub mod grid;
pub mod laws;
pub mod maze;
pub mod moves;
pub mod order;
pub mod pos;
pub mod rules;
pub mod search;
pub mod solver;
pub mod space;
pub mod state;
pub mod trail;
pub mod visited;

pub use error::SolveError;
pub use grid::Grid;
pub use maze::Maze;
pub use moves::{render, Move};
pub use pos::{Pos, SIZE};
pub use search::{Progress, Search};
pub use solver::solve;
pub use state::State;
pub use visited::Visited;
