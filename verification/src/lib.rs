//! A rectangular grid graph with a randomized depth-first maze carver.
//!
//! The grid is an arena of cells addressed by opaque cursors; carving
//! removes walls along a random depth-first walk until every cell has
//! been visited, leaving a perfect maze.

pub mod direction;
pub mod dot;
pub mod maze;
pub mod node;
pub mod strutil;
