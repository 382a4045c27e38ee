//! Points of the unit sphere on an integer lattice.
//!
//! A place on the globe is kept as the lattice point nearest to its position on
//! the unit sphere. The sphere's centre lies at `(UNIT, UNIT, UNIT)` and its
//! radius is `UNIT` steps, so every coordinate of a point on it lies between 0
//! and `SPAN`. Distances between lattice points are exact integers.

use vstd::prelude::*;

verus! {

/// Lattice steps in one unit of length.
pub const UNIT: u64 = 0x4000_0000;

/// The largest coordinate a lattice point may have: two units.
pub const SPAN: u64 = 0x8000_0000;

/// A point of the lattice.
#[derive(Clone, Copy, Debug, PartialEq, Eq, Structural)]
pub struct Point {
    pub x: u64,
    pub y: u64,
    pub z: u64,
}

impl Point {
    /// Whether every coordinate lies between 0 and `SPAN`.
    pub open spec fn in_range(self) -> bool {
        self.x <= SPAN && self.y <= SPAN && self.z <= SPAN
    }

    /// The coordinate on an axis: 0 is x, 1 is y, anything else is z.
    pub open spec fn coord(self, axis: int) -> u64 {
        if axis == 0 {
            self.x
        } else if axis == 1 {
            self.y
        } else {
            self.z
        }
    }

    /// The squared Euclidean distance to `other`, in squared lattice steps.
    pub open spec fn sq_dist(self, other: Point) -> int {
        (self.x - other.x) * (self.x - other.x) + (self.y - other.y) * (self.y - other.y) + (self.z
            - other.z) * (self.z - other.z)
    }

    /// The point with the given coordinates, if it is in range.
    pub fn new(x: u64, y: u64, z: u64) -> (r: Option<Point>)
        ensures
            r == (if (Point { x, y, z }).in_range() {
                Some(Point { x, y, z })
            } else {
                None
            }),
    {
        let p = Point { x, y, z };
        if p.is_in_range() {
            Some(p)
        } else {
            None
        }
    }

    /// Tells whether the point is in range.
    pub fn is_in_range(&self) -> (r: bool)
        ensures
            r == self.in_range(),
    {
        self.x <= SPAN && self.y <= SPAN && self.z <= SPAN
    }

    /// The squared Euclidean distance between two points in range.
    pub fn squared_distance(&self, other: &Point) -> (d: u64)
        requires
            self.in_range(),
            other.in_range(),
        ensures
            d == self.sq_dist(*other),
    {
        let dx: u64 = gap(self.x, other.x);
        let dy: u64 = gap(self.y, other.y);
        let dz: u64 = gap(self.z, other.z);
        proof {
            lemma_square_bound(dx);
            lemma_square_bound(dy);
            lemma_square_bound(dz);
            lemma_square_of_gap(self.x, other.x);
            lemma_square_of_gap(self.y, other.y);
            lemma_square_of_gap(self.z, other.z);
        }
        dx * dx + dy * dy + dz * dz
    }
}

/// The absolute difference of two coordinates.
fn gap(a: u64, b: u64) -> (d: u64)
    ensures
        d == if a >= b { a - b } else { b - a },
{
    if a >= b {
        a - b
    } else {
        b - a
    }
}

proof fn lemma_square_bound(d: u64)
    requires
        d <= SPAN,
    ensures
        0 <= d * d <= 0x4000_0000_0000_0000,
{
    assert(0 <= d * d <= 0x8000_0000 * 0x8000_0000) by (nonlinear_arith)
        requires
            0 <= d <= 0x8000_0000,
    ;
}

proof fn lemma_square_of_gap(a: u64, b: u64)
    ensures
        (a - b) * (a - b) == (if a >= b { a - b } else { b - a }) * (if a >= b { a - b } else { b - a }),
{
    assert((a - b) * (a - b) == (b - a) * (b - a)) by (nonlinear_arith);
}

/// A squared distance is never negative.
pub proof fn lemma_sq_dist_nonnegative(a: Point, b: Point)
    ensures
        a.sq_dist(b) >= 0,
{
    assert((a.x - b.x) * (a.x - b.x) >= 0) by (nonlinear_arith);
    assert((a.y - b.y) * (a.y - b.y) >= 0) by (nonlinear_arith);
    assert((a.z - b.z) * (a.z - b.z) >= 0) by (nonlinear_arith);
}

/// Two points are at distance 0 exactly when they are the same point.
pub proof fn lemma_sq_dist_zero(a: Point, b: Point)
    ensures
        a.sq_dist(b) == 0 <==> a == b,
{
    let dx = a.x - b.x;
    let dy = a.y - b.y;
    let dz = a.z - b.z;
    assert(dx * dx >= 0 && (dx * dx == 0 <==> dx == 0)) by (nonlinear_arith);
    assert(dy * dy >= 0 && (dy * dy == 0 <==> dy == 0)) by (nonlinear_arith);
    assert(dz * dz >= 0 && (dz * dz == 0 <==> dz == 0)) by (nonlinear_arith);
}

} // verus!
