//! Axis-aligned bounding boxes and the slab test of a ray against one.

use vstd::prelude::*;
use crate::arith::{ceil_quotient, floor_quotient, lemma_floor_div};
use crate::ray::Ray;
use crate::vec3::Vec3;

verus! {

/// An axis-aligned box, by its corner of least and its corner of greatest coordinates.
#[derive(Clone, Copy, Debug, PartialEq, Eq, Structural)]
pub struct Aabb {
    pub min: Vec3,
    pub max: Vec3,
}

/// Whether `t` lies between `from` and `to` and `origin + dir * t` lies between `lo` and `hi`.
pub open spec fn in_slab(
    lo: int,
    hi: int,
    origin: int,
    dir: int,
    from: int,
    to: int,
    t: int,
) -> bool {
    from <= t <= to && lo <= origin + dir * t <= hi
}

/// Narrows the parameters `from..=to` to those at which the ray lies within one slab.
fn narrow(lo: i64, hi: i64, origin: i64, dir: i64, from: i128, to: i128) -> (r: (i128, i128))
    requires
        -0x2_0000_0000_0000_0000 <= from <= 0x2_0000_0000_0000_0000,
        -0x2_0000_0000_0000_0000 <= to <= 0x2_0000_0000_0000_0000,
    ensures
        -0x2_0000_0000_0000_0000 <= r.0 <= 0x2_0000_0000_0000_0000,
        -0x2_0000_0000_0000_0000 <= r.1 <= 0x2_0000_0000_0000_0000,
        forall|t: int|
            r.0 <= t <= r.1 <==> #[trigger] in_slab(
                lo as int,
                hi as int,
                origin as int,
                dir as int,
                from as int,
                to as int,
                t,
            ),
{
    if dir == 0 {
        if lo <= origin && origin <= hi {
            assert forall|t: int|
                from <= t <= to <==> #[trigger] in_slab(
                    lo as int,
                    hi as int,
                    origin as int,
                    dir as int,
                    from as int,
                    to as int,
                    t,
                ) by {
                assert(dir as int * t == 0) by (nonlinear_arith)
                    requires
                        dir as int == 0,
                ;
            }
            (from, to)
        } else {
            assert forall|t: int|
                1 <= t <= 0 <==> #[trigger] in_slab(
                    lo as int,
                    hi as int,
                    origin as int,
                    dir as int,
                    from as int,
                    to as int,
                    t,
                ) by {
                assert(dir as int * t == 0) by (nonlinear_arith)
                    requires
                        dir as int == 0,
                ;
            }
            (1, 0)
        }
    } else {
        // With a positive step e, the slab is entered where e * t reaches `near` and left
        // where it passes `far`.
        let (e, near, far): (i128, i128, i128) = if dir > 0 {
            (dir as i128, lo as i128 - origin as i128, hi as i128 - origin as i128)
        } else {
            (-(dir as i128), origin as i128 - hi as i128, origin as i128 - lo as i128)
        };
        let first = ceil_quotient(near, e);
        let last = floor_quotient(far, e);
        let f = if first > from { first } else { from };
        let l = if last < to { last } else { to };
        assert forall|t: int|
            f <= t <= l <==> #[trigger] in_slab(
                lo as int,
                hi as int,
                origin as int,
                dir as int,
                from as int,
                to as int,
                t,
            ) by {
            lemma_floor_div(near as int, e as int, t);
            lemma_floor_div(far as int, e as int, t);
            assert(dir as int * t == if dir > 0 { e as int * t } else { -(e as int * t) })
                by (nonlinear_arith)
                requires
                    e as int == if dir > 0 { dir as int } else { -(dir as int) },
            ;
        }
        (f, l)
    }
}

impl Aabb {
    /// The box's least coordinate on an axis.
    pub open spec fn lo(self, axis: int) -> int {
        self.min.get(axis)
    }

    /// The box's greatest coordinate on an axis.
    pub open spec fn hi(self, axis: int) -> int {
        self.max.get(axis)
    }

    /// Every axis has its least coordinate no greater than its greatest.
    pub open spec fn well_formed(self) -> bool {
        forall|axis: int| 0 <= axis < 3 ==> self.lo(axis) <= self.hi(axis)
    }

    /// Whether `inner` lies wholly within this box.
    pub open spec fn contains(self, inner: Aabb) -> bool {
        forall|axis: int|
            0 <= axis < 3 ==> self.lo(axis) <= inner.lo(axis) && inner.hi(axis) <= self.hi(axis)
    }

    /// The smallest box that holds both `self` and `other`.
    pub open spec fn union(self, other: Aabb) -> Aabb {
        Aabb {
            min: Vec3 {
                x: if self.min.x <= other.min.x { self.min.x } else { other.min.x },
                y: if self.min.y <= other.min.y { self.min.y } else { other.min.y },
                z: if self.min.z <= other.min.z { self.min.z } else { other.min.z },
            },
            max: Vec3 {
                x: if self.max.x >= other.max.x { self.max.x } else { other.max.x },
                y: if self.max.y >= other.max.y { self.max.y } else { other.max.y },
                z: if self.max.z >= other.max.z { self.max.z } else { other.max.z },
            },
        }
    }

    /// Whether the ray at parameter `t` is at a point of the box.
    pub open spec fn holds(self, ray: Ray, t: int) -> bool {
        forall|axis: int|
            0 <= axis < 3 ==> self.lo(axis) <= #[trigger] ray.coord(axis, t) <= self.hi(axis)
    }

    /// Whether the ray is at a point of the box for some parameter strictly between `t_min`
    /// and `t_max`.
    pub open spec fn crossed_by(self, ray: Ray, t_min: int, t_max: int) -> bool {
        exists|t: int| t_min < t < t_max && #[trigger] self.holds(ray, t)
    }

    /// The box between two corners, in either order.
    pub fn new(a: Vec3, b: Vec3) -> (bbox: Self)
        ensures
            bbox.well_formed(),
            bbox == (Aabb { min: a, max: a }).union(Aabb { min: b, max: b }),
            a.x <= b.x && a.y <= b.y && a.z <= b.z ==> bbox == (Aabb { min: a, max: b }),
    {
        let bbox = Aabb {
            min: Vec3 {
                x: if a.x <= b.x { a.x } else { b.x },
                y: if a.y <= b.y { a.y } else { b.y },
                z: if a.z <= b.z { a.z } else { b.z },
            },
            max: Vec3 {
                x: if a.x >= b.x { a.x } else { b.x },
                y: if a.y >= b.y { a.y } else { b.y },
                z: if a.z >= b.z { a.z } else { b.z },
            },
        };
        assert forall|axis: int| 0 <= axis < 3 implies bbox.lo(axis) <= bbox.hi(axis) by {}
        bbox
    }

    /// The smallest box that holds both `a` and `b`.
    pub fn surrounding_box(a: &Aabb, b: &Aabb) -> (u: Aabb)
        ensures
            u == a.union(*b),
            a.well_formed() && b.well_formed() ==> u.well_formed(),
    {
        let u = Aabb {
            min: Vec3 {
                x: if a.min.x <= b.min.x { a.min.x } else { b.min.x },
                y: if a.min.y <= b.min.y { a.min.y } else { b.min.y },
                z: if a.min.z <= b.min.z { a.min.z } else { b.min.z },
            },
            max: Vec3 {
                x: if a.max.x >= b.max.x { a.max.x } else { b.max.x },
                y: if a.max.y >= b.max.y { a.max.y } else { b.max.y },
                z: if a.max.z >= b.max.z { a.max.z } else { b.max.z },
            },
        };
        proof {
            if a.well_formed() && b.well_formed() {
                assert forall|axis: int| 0 <= axis < 3 implies u.lo(axis) <= u.hi(axis) by {
                    assert(a.lo(axis) <= a.hi(axis));
                    assert(b.lo(axis) <= b.hi(axis));
                }
            }
        }
        u
    }

    /// The slab test: whether the ray passes through the box at a parameter strictly between
    /// `t_min` and `t_max`.
    pub fn hit(&self, ray: &Ray, t_min: i64, t_max: i64) -> (crossed: bool)
        ensures
            crossed == self.crossed_by(*ray, t_min as int, t_max as int),
    {
        let from: i128 = t_min as i128 + 1;
        let to: i128 = t_max as i128 - 1;
        let (fx, tx) = narrow(self.min.x, self.max.x, ray.origin.x, ray.dir.x, from, to);
        let (fy, ty) = narrow(self.min.y, self.max.y, ray.origin.y, ray.dir.y, fx, tx);
        let (fz, tz) = narrow(self.min.z, self.max.z, ray.origin.z, ray.dir.z, fy, ty);
        proof {
            assert forall|t: int| fz <= t <= tz <==> t_min < t < t_max && self.holds(*ray, t) by {
                let inx = in_slab(
                    self.min.x as int,
                    self.max.x as int,
                    ray.origin.x as int,
                    ray.dir.x as int,
                    from as int,
                    to as int,
                    t,
                );
                let iny = in_slab(
                    self.min.y as int,
                    self.max.y as int,
                    ray.origin.y as int,
                    ray.dir.y as int,
                    fx as int,
                    tx as int,
                    t,
                );
                let inz = in_slab(
                    self.min.z as int,
                    self.max.z as int,
                    ray.origin.z as int,
                    ray.dir.z as int,
                    fy as int,
                    ty as int,
                    t,
                );
                assert(inx <==> fx <= t <= tx);
                assert(iny <==> fy <= t <= ty);
                assert(inz <==> fz <= t <= tz);
                assert(ray.coord(0, t) == ray.origin.x + ray.dir.x * t);
                assert(ray.coord(1, t) == ray.origin.y + ray.dir.y * t);
                assert(ray.coord(2, t) == ray.origin.z + ray.dir.z * t);
            }
            if fz <= tz {
                assert(self.holds(*ray, fz as int));
            }
        }
        fz <= tz
    }

    /// A box that holds two boxes holds their union, and the union holds both.
    pub proof fn lemma_union_is_least(a: Aabb, b: Aabb, outer: Aabb)
        ensures
            a.union(b).contains(a),
            a.union(b).contains(b),
            outer.contains(a) && outer.contains(b) ==> outer.contains(a.union(b)),
    {
        if outer.contains(a) && outer.contains(b) {
            assert forall|axis: int| 0 <= axis < 3 implies outer.lo(axis) <= a.union(b).lo(axis)
                && a.union(b).hi(axis) <= outer.hi(axis) by {
                assert(outer.lo(axis) <= a.lo(axis) && a.hi(axis) <= outer.hi(axis));
                assert(outer.lo(axis) <= b.lo(axis) && b.hi(axis) <= outer.hi(axis));
            }
        }
    }

    /// The union of boxes does not depend on their order.
    pub proof fn lemma_union_commutative(a: Aabb, b: Aabb)
        ensures
            a.union(b) == b.union(a),
    {
    }

    /// The union of boxes does not depend on how they are grouped.
    pub proof fn lemma_union_associative(a: Aabb, b: Aabb, c: Aabb)
        ensures
            a.union(b).union(c) == a.union(b.union(c)),
    {
    }

    /// Containment of boxes is transitive and every box contains itself.
    pub proof fn lemma_contains_transitive(a: Aabb, b: Aabb, c: Aabb)
        requires
            a.contains(b),
            b.contains(c),
        ensures
            a.contains(c),
            a.contains(a),
    {
        assert forall|axis: int| 0 <= axis < 3 implies a.lo(axis) <= c.lo(axis) && c.hi(axis)
            <= a.hi(axis) by {
            assert(a.lo(axis) <= b.lo(axis) && b.hi(axis) <= a.hi(axis));
            assert(b.lo(axis) <= c.lo(axis) && c.hi(axis) <= b.hi(axis));
        }
    }

    /// A ray that is inside a box at some parameter is inside every box that contains it.
    pub proof fn lemma_holds_grows(inner: Aabb, outer: Aabb, ray: Ray, t: int)
        requires
            outer.contains(inner),
            inner.holds(ray, t),
        ensures
            outer.holds(ray, t),
    {
        assert forall|axis: int| 0 <= axis < 3 implies outer.lo(axis) <= #[trigger] ray.coord(
            axis,
            t,
        ) <= outer.hi(axis) by {
            assert(outer.lo(axis) <= inner.lo(axis) && inner.hi(axis) <= outer.hi(axis));
        }
    }
}

} // verus!
