//! The search core of a chess engine, verified with Verus: a static evaluator,
//! a tree of explored positions that is walked with a cursor, and a
//! depth-limited alpha-beta search that runs as a loop over that tree. The
//! rules of chess themselves come from the `chess` crate.
//!
//! - [`rules`] is the boundary to `chess`: what is believed of it.
//! - [`eval`] scores a position.
//! - [`tree`] is the tree with its cursor.
//! - [`alphabeta`] says what the search computes, and [`pruning`] why pruning
//!   does not change it.
//! - [`search`] is the search itself.
//! - [`utils`] reads and draws boards as text.

pub mod alphabeta;
pub mod eval;
pub mod pruning;
pub mod rules;
pub mod search;
pub mod tree;
pub mod utils;
mod walk;
