//! Shortest-path search around polygonal obstacles.
//!
//! The crate builds a visibility graph over the vertices of a set of polygon
//! obstacles, runs one of two A*-family search strategies over it, and records
//! the whole search as an immutable sequence of snapshots that a caller can
//! replay step by step.

pub mod board;
pub mod mapset;
pub mod pathfinder;
pub mod point;
pub mod polygon;
pub mod search;

pub use board::{sample_board, Board};
pub use pathfinder::{Heuristic, SearchState};
pub use point::Point;
pub use polygon::{Edge, Polygon};
pub use search::{AStarPathfinder, Search, SearchVariant, VisibilityGraphPathfinder};
