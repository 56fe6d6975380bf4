//! Points and directions on the integer grid.

use vstd::prelude::*;

verus! {

/// A point or a direction in space, by its three grid coordinates.
#[derive(Clone, Copy, Debug, PartialEq, Eq, Structural)]
pub struct Vec3 {
    pub x: i64,
    pub y: i64,
    pub z: i64,
}

impl Vec3 {
    /// The coordinate on an axis: 0 is x, 1 is y, anything else is z.
    pub open spec fn get(self, axis: int) -> int {
        if axis == 0 {
            self.x as int
        } else if axis == 1 {
            self.y as int
        } else {
            self.z as int
        }
    }

    /// The point or direction with these coordinates.
    pub fn new(x: i64, y: i64, z: i64) -> (v: Self)
        ensures
            v == (Vec3 { x, y, z }),
    {
        Vec3 { x, y, z }
    }

    /// The coordinate on one of the three axes.
    pub fn axis(&self, axis: usize) -> (c: i64)
        requires
            axis < 3,
        ensures
            c == self.get(axis as int),
    {
        if axis == 0 {
            self.x
        } else if axis == 1 {
            self.y
        } else {
            self.z
        }
    }
}

} // verus!
