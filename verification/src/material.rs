//! What the tracer asks of a surface material.

use vstd::prelude::*;
use crate::color::Color;
use crate::hittable::HitRecord;
use crate::pdf::CosineDensity;
use crate::ray::Ray;

verus! {

/// How a surface sends a ray on.
pub enum ReflectionRecord<D> {
    /// A mirror-like bounce along one ray.
    Specular { specular_ray: Ray, attenuation: Color },
    /// A diffuse or glossy bounce, by the density of its directions.
    Scatter { pdf: D, attenuation: Color },
}

impl<D> ReflectionRecord<D> {
    /// The colour by which the bounce weakens the light that it carries.
    pub open spec fn attenuation(self) -> Color {
        match self {
            ReflectionRecord::Specular { attenuation, .. } => attenuation,
            ReflectionRecord::Scatter { attenuation, .. } => attenuation,
        }
    }
}

/// A surface material. Its three answers are functions of the arguments, which the spec
/// functions name.
pub trait Material: Sized {
    /// The density from which diffuse bounces off this material draw directions.
    type Density: CosineDensity;

    /// The answer of `emitted`.
    spec fn spec_emitted(&self, ray: Ray, hit: HitRecord<Self>) -> Color;

    /// The answer of `scatter`.
    spec fn spec_scatter(&self, ray: Ray, hit: HitRecord<Self>) -> Option<
        ReflectionRecord<Self::Density>,
    >;

    /// The answer of `scattering_pdf`.
    spec fn spec_scattering_pdf(&self, ray: Ray, hit: HitRecord<Self>, scattered: Ray) -> i64;

    /// The light that the surface gives off at the hit.
    fn emitted(&self, ray: &Ray, hit: &HitRecord<Self>) -> (light: Color)
        ensures
            light == self.spec_emitted(*ray, *hit),
    ;

    /// How the surface sends the ray on, or `None` where it swallows it.
    fn scatter(&self, ray: &Ray, hit: &HitRecord<Self>) -> (outcome: Option<
        ReflectionRecord<Self::Density>,
    >)
        ensures
            outcome == self.spec_scatter(*ray, *hit),
    ;

    /// The density with which the surface itself scatters `ray` into `scattered`.
    fn scattering_pdf(&self, ray: &Ray, hit: &HitRecord<Self>, scattered: &Ray) -> (density: i64)
        ensures
            density == self.spec_scattering_pdf(*ray, *hit, *scattered),
    ;
}

} // verus!
