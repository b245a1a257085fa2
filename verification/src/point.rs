//! A 2D point with integer coordinates.

use vstd::prelude::*;

verus! {

/// Largest coordinate magnitude the library accepts.
///
/// Scores and centroid sums are kept in `i32` like the points themselves, so
/// the boards a search runs on must live in a bounded window; every bound the
/// library needs (segment lengths, path costs, coordinate sums) follows from
/// this one limit together with the cap on how many vertices a board may hold.
pub const COORD_LIMIT: i32 = 10_000;

/// A 2D point on the board.
#[derive(Clone, Copy, Debug, PartialEq, Eq, Structural)]
pub struct Point {
    /// The X coordinate.
    pub x: i32,
    /// The Y coordinate.
    pub y: i32,
}

impl View for Point {
    type V = Point;

    open spec fn view(&self) -> Point {
        *self
    }
}

/// Whether a point lies inside the coordinate window the library accepts.
pub open spec fn in_range(p: Point) -> bool {
    &&& -COORD_LIMIT <= p.x <= COORD_LIMIT
    &&& -COORD_LIMIT <= p.y <= COORD_LIMIT
}

impl Point {
    /// Creates a new [`Point`] with the given coordinates.
    pub fn new(x: i32, y: i32) -> (p: Point)
        ensures
            p.x == x,
            p.y == y,
    {
        Point { x, y }
    }
}

} // verus!
