//! Points and rectangles with bounded integer coordinates.
//!
//! All geometry in this crate is expressed in whole logical units. Every
//! coordinate that enters the layout engine is kept within
//! [`COORD_LIMIT`], which leaves enough headroom in `i64` to accumulate
//! window-space offsets over an arbitrarily deep view tree without overflow.

use vstd::prelude::*;

verus! {

/// The largest magnitude a local coordinate may have.
pub const COORD_LIMIT: i64 = 0x4000_0000;

/// `x` forced into the interval `[-COORD_LIMIT, COORD_LIMIT]`.
pub open spec fn spec_clamp_coord(x: int) -> int {
    if x < -COORD_LIMIT {
        -COORD_LIMIT as int
    } else if x > COORD_LIMIT {
        COORD_LIMIT as int
    } else {
        x
    }
}

/// `x` forced into the interval `[0, COORD_LIMIT]`.
pub open spec fn spec_clamp_extent(x: int) -> int {
    if x < 0 {
        0
    } else if x > COORD_LIMIT {
        COORD_LIMIT as int
    } else {
        x
    }
}

/// Force a coordinate into the interval `[-COORD_LIMIT, COORD_LIMIT]`.
pub fn clamp_coord(x: i64) -> (r: i64)
    ensures
        r == spec_clamp_coord(x as int),
{
    if x < -COORD_LIMIT {
        -COORD_LIMIT
    } else if x > COORD_LIMIT {
        COORD_LIMIT
    } else {
        x
    }
}

/// Force an extent into the interval `[0, COORD_LIMIT]`.
pub fn clamp_extent(x: i64) -> (r: i64)
    ensures
        r == spec_clamp_extent(x as int),
{
    if x < 0 {
        0
    } else if x > COORD_LIMIT {
        COORD_LIMIT
    } else {
        x
    }
}

/// A point (or a 2D extent) in logical units.
#[derive(Clone, Copy, Debug, PartialEq, Eq, Structural)]
pub struct Point {
    pub x: i64,
    pub y: i64,
}

impl Point {
    /// Both coordinates are within the local-coordinate bound.
    pub open spec fn bounded(self) -> bool {
        -COORD_LIMIT <= self.x <= COORD_LIMIT && -COORD_LIMIT <= self.y <= COORD_LIMIT
    }

}

/// An axis-aligned rectangle given by its minimum and maximum corners.
#[derive(Clone, Copy, Debug, PartialEq, Eq, Structural)]
pub struct Rect {
    pub min: Point,
    pub max: Point,
}

impl Rect {
    /// All four coordinates are within the local-coordinate bound.
    pub open spec fn bounded(self) -> bool {
        self.min.bounded() && self.max.bounded()
    }

    /// The extent of the rectangle, as mathematical integers.
    pub open spec fn spec_size(self) -> (int, int) {
        (self.max.x - self.min.x, self.max.y - self.min.y)
    }

    /// Whether `p` lies inside the rectangle. The maximum edges are
    /// exclusive, so that adjacent rectangles do not both claim their
    /// shared boundary.
    pub open spec fn spec_contains(self, p: Point) -> bool {
        self.min.x <= p.x < self.max.x && self.min.y <= p.y < self.max.y
    }

    /// The extent of the rectangle.
    pub fn size(&self) -> (r: Point)
        requires
            self.bounded(),
        ensures
            r.x == self.spec_size().0,
            r.y == self.spec_size().1,
    {
        Point { x: self.max.x - self.min.x, y: self.max.y - self.min.y }
    }

    /// Whether the two rectangles have the same extent, regardless of
    /// their position.
    pub fn same_size(&self, other: &Rect) -> (r: bool)
        requires
            self.bounded(),
            other.bounded(),
        ensures
            r == (self.spec_size() == other.spec_size()),
    {
        self.max.x - self.min.x == other.max.x - other.min.x
            && self.max.y - self.min.y == other.max.y - other.min.y
    }

    pub fn contains(&self, p: Point) -> (r: bool)
        ensures
            r == self.spec_contains(p),
    {
        self.min.x <= p.x && p.x < self.max.x && self.min.y <= p.y && p.y < self.max.y
    }
}

} // verus!
