//! Grid coordinates.

use vstd::prelude::*;

verus! {

/// An x,y coordinate on a grid.
#[derive(PartialEq, Eq, Structural, Clone, Copy, Debug)]
pub struct Point {
    pub x: i32,
    pub y: i32,
}

impl Point {
    /// Whether the component-wise sum of two points is itself a point.
    pub open spec fn can_add(self, other: Point) -> bool {
        &&& i32::MIN <= self.x + other.x <= i32::MAX
        &&& i32::MIN <= self.y + other.y <= i32::MAX
    }

    /// Add another point to the current point and return a new point.
    pub fn add(&self, other_point: &Self) -> (out: Point)
        requires
            self.can_add(*other_point),
        ensures
            out.x == self.x + other_point.x,
            out.y == self.y + other_point.y,
    {
        Point { x: self.x + other_point.x, y: self.y + other_point.y }
    }
}

/// The Manhattan distance between two points: the sum of the absolute
/// differences of their coordinates.
pub open spec fn manhattan(a: Point, b: Point) -> int {
    (if a.x >= b.x { a.x - b.x } else { b.x - a.x }) + (if a.y >= b.y { a.y - b.y } else { b.y - a.y })
}

/// The Manhattan distance between two points.
pub fn manhattan_distance(a: &Point, b: &Point) -> (d: i64)
    ensures
        d == manhattan(*a, *b),
        0 <= d <= 2 * (u32::MAX as int),
{
    let dx: i64 = if a.x >= b.x { a.x as i64 - b.x as i64 } else { b.x as i64 - a.x as i64 };
    let dy: i64 = if a.y >= b.y { a.y as i64 - b.y as i64 } else { b.y as i64 - a.y as i64 };
    dx + dy
}

} // verus!
