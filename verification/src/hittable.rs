//! What the tracer asks of a scene object: a bounding box and the nearest hit of a ray.

use vstd::prelude::*;
use crate::aabb::Aabb;
use crate::ray::Ray;
use crate::vec3::Vec3;

verus! {

/// Where and how a ray met a surface.
#[derive(Debug, PartialEq, Eq)]
pub struct HitRecord<M> {
    /// The point that was hit.
    pub p: Vec3,
    /// The surface normal there.
    pub normal: Vec3,
    /// The ray parameter of the hit.
    pub t: i64,
    /// The material of the surface.
    pub material: M,
    /// Whether the ray met the surface from outside.
    pub front_face: bool,
}

/// A scene object: it can report a box that bounds it over a time interval, and it can be
/// intersected by a ray over a range of parameters.
///
/// Both answers are functions of the arguments: `spec_bounding_box` and `spec_hit` name them.
pub trait Boundable {
    /// The material that hits of this object carry.
    type Material;

    /// The answer of `bounding_box`.
    spec fn spec_bounding_box(&self, time0: i64, time1: i64) -> Option<Aabb>;

    /// The answer of `hit`.
    spec fn spec_hit(&self, ray: Ray, t_min: i64, t_max: i64) -> Option<HitRecord<Self::Material>>;

    /// A box that bounds the object throughout the time interval, or `None` for an object
    /// without bounds.
    fn bounding_box(&self, time0: i64, time1: i64) -> (bbox: Option<Aabb>)
        ensures
            bbox == self.spec_bounding_box(time0, time1),
    ;

    /// The hit of the ray at a parameter strictly between `t_min` and `t_max`, if there is one.
    fn hit(&self, ray: &Ray, t_min: i64, t_max: i64) -> (found: Option<HitRecord<Self::Material>>)
        ensures
            found == self.spec_hit(*ray, t_min, t_max),
    ;
}

/// A hit, kept only where it lies before `t_max`.
pub open spec fn cut<M>(first: Option<HitRecord<M>>, t_max: i64) -> Option<HitRecord<M>> {
    match first {
        Some(h) => if h.t < t_max {
            first
        } else {
            None
        },
        None => None,
    }
}

/// The object reports, for this ray and lower bound, its first hit past `t_min` whenever that
/// hit lies before the upper bound, and nothing otherwise.
pub open spec fn reports_nearest<T: Boundable>(object: T, ray: Ray, t_min: i64) -> bool {
    let first = object.spec_hit(ray, t_min, i64::MAX);
    &&& first matches Some(h) ==> t_min < h.t
    &&& forall|t_max: i64| #[trigger] object.spec_hit(ray, t_min, t_max) == cut(first, t_max)
}

/// Every hit that the object reports for this ray and lower bound lies inside `bbox`.
pub open spec fn hits_within<T: Boundable>(object: T, bbox: Aabb, ray: Ray, t_min: i64) -> bool {
    forall|t_max: i64| #[trigger]
        object.spec_hit(ray, t_min, t_max) matches Some(h) ==> bbox.holds(ray, h.t as int)
}

/// `found` is a closest hit among those that the objects report one by one: it is the hit of
/// one of them, and none of them reports a hit at a smaller parameter.
pub open spec fn is_closest_hit<T: Boundable>(
    objects: Seq<T>,
    ray: Ray,
    t_min: i64,
    t_max: i64,
    found: Option<HitRecord<T::Material>>,
) -> bool {
    match found {
        Some(h) => {
            &&& exists|i: int|
                0 <= i < objects.len() && #[trigger] objects[i].spec_hit(ray, t_min, t_max)
                    == found
            &&& forall|i: int|
                0 <= i < objects.len() ==> (#[trigger] objects[i].spec_hit(ray, t_min, t_max)
                    matches Some(g) ==> h.t <= g.t)
        },
        None => forall|i: int|
            0 <= i < objects.len() ==> #[trigger] objects[i].spec_hit(ray, t_min, t_max) is None,
    }
}

/// What a hierarchy relies on in an object, for one ray and lower bound: that it reports its
/// nearest hit, and that its hits lie inside the box that it reports for the time interval.
pub open spec fn behaves<T: Boundable>(
    object: T,
    ray: Ray,
    t_min: i64,
    time0: i64,
    time1: i64,
) -> bool {
    &&& reports_nearest(object, ray, t_min)
    &&& object.spec_bounding_box(time0, time1) matches Some(bbox) ==> hits_within(
        object,
        bbox,
        ray,
        t_min,
    )
}

/// Whether every one of the objects behaves.
pub open spec fn all_behave<T: Boundable>(
    objects: Seq<T>,
    ray: Ray,
    t_min: i64,
    time0: i64,
    time1: i64,
) -> bool {
    forall|i: int|
        0 <= i < objects.len() ==> behaves(#[trigger] objects[i], ray, t_min, time0, time1)
}

/// A closest hit among some objects is a closest hit among the same objects in any order.
pub proof fn lemma_closest_hit_permuted<T: Boundable>(
    a: Seq<T>,
    b: Seq<T>,
    ray: Ray,
    t_min: i64,
    t_max: i64,
    found: Option<HitRecord<T::Material>>,
)
    requires
        a.to_multiset() == b.to_multiset(),
        is_closest_hit(a, ray, t_min, t_max, found),
    ensures
        is_closest_hit(b, ray, t_min, t_max, found),
{
    assert forall|i: int| 0 <= i < b.len() implies a.contains(#[trigger] b[i]) by {
        assert(b.contains(b[i]));
        vstd::seq_lib::to_multiset_contains(a, b[i]);
        vstd::seq_lib::to_multiset_contains(b, b[i]);
    }
    assert forall|i: int| 0 <= i < a.len() implies b.contains(#[trigger] a[i]) by {
        assert(a.contains(a[i]));
        vstd::seq_lib::to_multiset_contains(a, a[i]);
        vstd::seq_lib::to_multiset_contains(b, a[i]);
    }
    match found {
        Some(h) => {
            let i = choose|i: int|
                0 <= i < a.len() && #[trigger] a[i].spec_hit(ray, t_min, t_max) == found;
            assert(b.contains(a[i]));
            let j = choose|j: int| 0 <= j < b.len() && b[j] == a[i];
            assert(b[j].spec_hit(ray, t_min, t_max) == found);
            assert forall|k: int| 0 <= k < b.len() implies (#[trigger] b[k].spec_hit(
                ray,
                t_min,
                t_max,
            ) matches Some(g) ==> h.t <= g.t) by {
                assert(a.contains(b[k]));
                let m = choose|m: int| 0 <= m < a.len() && a[m] == b[k];
                assert(a[m].spec_hit(ray, t_min, t_max) == b[k].spec_hit(ray, t_min, t_max));
            }
        },
        None => {
            assert forall|k: int| 0 <= k < b.len() implies #[trigger] b[k].spec_hit(
                ray,
                t_min,
                t_max,
            ) is None by {
                assert(a.contains(b[k]));
                let m = choose|m: int| 0 <= m < a.len() && a[m] == b[k];
                assert(a[m].spec_hit(ray, t_min, t_max) == b[k].spec_hit(ray, t_min, t_max));
            }
        },
    }
}

} // verus!
