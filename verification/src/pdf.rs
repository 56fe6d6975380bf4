//! Sampling densities: where the tracer draws its directions from, and how likely each was.

use vstd::prelude::*;
use rand::seq::SliceRandom;
use crate::fixed::{mean, mean_of};
use crate::vec3::Vec3;

verus! {

/// A density over directions. `generate` draws a direction, by chance: `draws` says which
/// directions it may draw. `value` is the density at a direction, a function of the
/// direction that `spec_value` names.
pub trait Pdf {
    /// Whether `generate` may draw this direction.
    spec fn draws(&self, direction: Vec3) -> bool;

    /// The answer of `value`.
    spec fn spec_value(&self, direction: Vec3) -> i64;

    /// A direction drawn from the density.
    fn generate(&self) -> (direction: Vec3)
        ensures
            self.draws(direction),
    ;

    /// The density at a direction.
    fn value(&self, direction: &Vec3) -> (density: i64)
        ensures
            density == self.spec_value(*direction),
    ;
}

/// A density that can be set up as the cosine-weighted density over the hemisphere about a
/// surface normal.
pub trait CosineDensity: Pdf + Sized {
    /// The answer of `around`.
    spec fn spec_around(normal: Vec3) -> Self;

    /// The cosine-weighted density about a normal.
    fn around(normal: &Vec3) -> (density: Self)
        ensures
            density == Self::spec_around(*normal),
    ;
}

/// What light-directed sampling asks of an emitter.
pub trait Light {
    /// Whether `random` may draw this direction from `origin`.
    spec fn aims(&self, origin: Vec3, direction: Vec3) -> bool;

    /// The answer of `pdf_value`.
    spec fn spec_pdf_value(&self, origin: Vec3, direction: Vec3) -> i64;

    /// The density with which `random`, from `origin`, draws `direction`.
    fn pdf_value(&self, origin: &Vec3, direction: &Vec3) -> (density: i64)
        ensures
            density == self.spec_pdf_value(*origin, *direction),
    ;

    /// A direction from `origin` towards a point of the emitter, drawn by chance.
    fn random(&self, origin: &Vec3) -> (direction: Vec3)
        ensures
            self.aims(*origin, direction),
    ;
}

/// The density of directions from a point towards a light.
pub struct LightPdf<'a, L> {
    pub origin: Vec3,
    pub light: &'a L,
}

/// The even mixture of two densities.
pub struct MixturePdf<A, B> {
    pub first: A,
    pub second: B,
}

/// A fair coin, by `rand::random`. Nothing is claimed of the outcome.
#[verifier::external_body]
fn flip() -> bool {
    rand::random::<bool>()
}

/// One of the lights, by `SliceRandom::choose` with the thread's generator: none where the
/// list is empty, else a light of the list. Nothing is claimed of which.
#[verifier::external_body]
pub(crate) fn choose_light<L>(lights: &Vec<L>) -> (chosen: Option<&L>)
    ensures
        chosen is None <==> lights.len() == 0,
        chosen matches Some(light) ==> lights@.contains(*light),
{
    lights.choose(&mut rand::thread_rng())
}

impl<'a, L: Light> LightPdf<'a, L> {
    /// The density of directions from `origin` towards `light`.
    pub fn new(origin: Vec3, light: &'a L) -> (pdf: Self)
        ensures
            pdf.origin == origin,
            pdf.light == light,
    {
        LightPdf { origin, light }
    }
}

impl<'a, L: Light> Pdf for LightPdf<'a, L> {
    open spec fn draws(&self, direction: Vec3) -> bool {
        self.light.aims(self.origin, direction)
    }

    open spec fn spec_value(&self, direction: Vec3) -> i64 {
        self.light.spec_pdf_value(self.origin, direction)
    }

    fn generate(&self) -> (direction: Vec3) {
        self.light.random(&self.origin)
    }

    fn value(&self, direction: &Vec3) -> (density: i64) {
        self.light.pdf_value(&self.origin, direction)
    }
}

impl<A: Pdf, B: Pdf> MixturePdf<A, B> {
    /// The even mixture of `first` and `second`.
    pub fn new(first: A, second: B) -> (pdf: Self)
        ensures
            pdf.first == first,
            pdf.second == second,
    {
        MixturePdf { first, second }
    }
}

impl<A: Pdf, B: Pdf> Pdf for MixturePdf<A, B> {
    /// What either of the two densities may draw.
    open spec fn draws(&self, direction: Vec3) -> bool {
        self.first.draws(direction) || self.second.draws(direction)
    }

    /// The arithmetic mean of the two densities, whichever of them drew the direction.
    open spec fn spec_value(&self, direction: Vec3) -> i64 {
        mean_of(self.first.spec_value(direction), self.second.spec_value(direction))
    }

    /// A direction drawn from one of the two densities, chosen by a fair coin.
    fn generate(&self) -> (direction: Vec3) {
        if flip() {
            self.first.generate()
        } else {
            self.second.generate()
        }
    }

    fn value(&self, direction: &Vec3) -> (density: i64) {
        mean(self.first.value(direction), self.second.value(direction))
    }
}

} // verus!
