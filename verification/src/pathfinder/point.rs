//! Integer coordinates of a cell.

use vstd::prelude::*;

verus! {

/// The position of one cell of the world.
#[derive(Debug, Clone, Copy, PartialEq, Eq, Hash, Structural)]
pub struct Point3D {
    pub x: i32,
    pub y: i32,
    pub z: i32,
}

/// The absolute difference of two integers.
pub open spec fn gap(a: int, b: int) -> nat {
    if a >= b {
        (a - b) as nat
    } else {
        (b - a) as nat
    }
}

impl Point3D {
    /// The Manhattan distance to `other`: the per-axis gaps, added up.
    pub open spec fn distance(self, other: Point3D) -> nat {
        gap(self.x as int, other.x as int) + gap(self.y as int, other.y as int) + gap(
            self.z as int,
            other.z as int,
        )
    }

    /// The point with the coordinates `x`, `y` and `z`.
    pub fn new(x: i32, y: i32, z: i32) -> (p: Self)
        ensures
            p == (Point3D { x, y, z }),
    {
        Point3D { x, y, z }
    }

    /// The Manhattan distance as a `u64`, which holds it for every pair of points.
    pub fn distance_wide(&self, other: &Point3D) -> (d: u64)
        ensures
            d == self.distance(*other),
    {
        axis_gap(self.x, other.x) + axis_gap(self.y, other.y) + axis_gap(self.z, other.z)
    }

    /// The Manhattan distance to `other`. The distance has to fit the result.
    pub fn manhattan_distance(&self, other: &Point3D) -> (d: u32)
        requires
            self.distance(*other) <= u32::MAX,
        ensures
            d == self.distance(*other),
    {
        self.distance_wide(other) as u32
    }
}

/// The gap between two coordinates.
fn axis_gap(a: i32, b: i32) -> (d: u64)
    ensures
        d == gap(a as int, b as int),
        d <= u32::MAX,
{
    let wide: i64 = a as i64 - b as i64;
    if wide < 0 {
        (-wide) as u64
    } else {
        wide as u64
    }
}

} // verus!
