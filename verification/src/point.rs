//! Positions on the pixel grid.

use vstd::prelude::*;

verus! {

/// A position on the pixel grid. `x` grows to the right and `y` downwards;
/// positions to the left of the canvas or above it are negative.
#[derive(Clone, Copy, Debug, PartialEq, Eq, Structural)]
pub struct Point {
    pub x: i32,
    pub y: i32,
}

/// The coordinate nearest to `v`: `v` itself where it fits, else the end of
/// the coordinate range on its side.
pub open spec fn saturate(v: int) -> int {
    if v < i32::MIN {
        i32::MIN as int
    } else if v > i32::MAX {
        i32::MAX as int
    } else {
        v
    }
}

/// Executable form of [`saturate`].
fn saturate_i64(v: i64) -> (c: i32)
    ensures
        c == saturate(v as int),
{
    if v < i32::MIN as i64 {
        i32::MIN
    } else if v > i32::MAX as i64 {
        i32::MAX
    } else {
        v as i32
    }
}

impl Point {
    /// The point nearest to column `x` and row `y`.
    pub open spec fn at(x: int, y: int) -> Point {
        Point { x: saturate(x) as i32, y: saturate(y) as i32 }
    }

    /// The point nearest to the sum of `self` and `other`, taken
    /// coordinate by coordinate.
    pub open spec fn sum(self, other: Point) -> Point {
        Point::at(self.x + other.x, self.y + other.y)
    }

    /// The top-left corner of the canvas.
    pub fn origin() -> (p: Point)
        ensures
            p == Point::at(0, 0),
    {
        Point { x: 0, y: 0 }
    }

    /// The point at column `x` and row `y`. A coordinate beyond the signed
    /// range is held at its upper end.
    pub fn new(x: u32, y: u32) -> (p: Point)
        ensures
            p == Point::at(x as int, y as int),
    {
        Point { x: saturate_i64(x as i64), y: saturate_i64(y as i64) }
    }

    /// Component-wise sum, each coordinate saturating at the ends of its
    /// range instead of wrapping.
    pub fn add(&self, other: &Point) -> (p: Point)
        ensures
            p == self.sum(*other),
    {
        Point {
            x: saturate_i64(self.x as i64 + other.x as i64),
            y: saturate_i64(self.y as i64 + other.y as i64),
        }
    }
}

} // verus!
