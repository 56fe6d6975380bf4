//! Rays: a point of origin, a direction, and the moment at which the ray was cast.

use vstd::prelude::*;
use crate::vec3::Vec3;

verus! {

/// A ray. At parameter `t` it passes through `origin + t * dir`.
#[derive(Clone, Copy, Debug, PartialEq, Eq, Structural)]
pub struct Ray {
    pub origin: Vec3,
    pub dir: Vec3,
    pub time: i64,
}

impl Ray {
    /// The coordinate on an axis of the point that the ray reaches at parameter `t`.
    pub open spec fn coord(self, axis: int, t: int) -> int {
        self.origin.get(axis) + self.dir.get(axis) * t
    }

    /// The ray from `origin` along `dir`, cast at `time`.
    pub fn new(origin: Vec3, dir: Vec3, time: i64) -> (r: Self)
        ensures
            r == (Ray { origin, dir, time }),
    {
        Ray { origin, dir, time }
    }
}

} // verus!
