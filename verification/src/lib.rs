//! Exact-cover tiling of a square grid by polyomino-like pieces.
//!
//! The crate holds the occupancy grid, the pieces with their symmetry
//! variants, and a backtracking search with dead-cell pruning. Every
//! executable function carries a contract. Verus proves each of them but
//! one: `text::push_char` stands for `String::push` of the standard library,
//! and its contract is taken on trust.

pub mod board;
pub mod board_tree;
pub mod piece;
pub mod position;
pub mod shape;
pub mod solve;
pub mod text;

pub use position::Position;
