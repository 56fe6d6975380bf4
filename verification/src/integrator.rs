//! The path-tracing integrator: a depth-bounded estimate of the radiance that arrives along
//! a ray.

use vstd::prelude::*;
use crate::color::Color;
use crate::fixed::mean_of;
use crate::hittable::{Boundable, HitRecord};
use crate::material::{Material, ReflectionRecord};
use crate::pdf::{choose_light, CosineDensity, Light, LightPdf, MixturePdf, Pdf};
use crate::ray::Ray;
use crate::vec3::Vec3;

verus! {

/// Hits at ray parameters up to this one are ignored, so that a bounce does not hit the
/// surface that it leaves.
pub const T_MIN: i64 = 1;

/// The upper end of the parameters at which hits are looked for: there is none.
pub const T_MAX: i64 = i64::MAX;

/// What chance decided at one diffuse bounce: the light that was sampled towards, by its
/// place in the list of lights, and the direction that was drawn.
pub struct Bounce {
    pub light: int,
    pub direction: Vec3,
}

/// The light of one diffuse bounce: what the surface gives off, and what arrives along the
/// scattered ray, weakened by the surface, weighted by the surface's own scattering density
/// and divided by the density with which the direction was drawn. Where that density is not
/// positive the bounce contributes nothing.
pub open spec fn estimate_of(
    emitted: Color,
    attenuation: Color,
    scattering_pdf: i64,
    incoming: Color,
    pdf_val: i64,
) -> Color {
    if pdf_val <= 0 {
        emitted
    } else {
        emitted.spec_plus(
            attenuation.spec_scaled(scattering_pdf).spec_times(incoming).spec_over(pdf_val),
        )
    }
}

/// The density with which the direction of a bounce was drawn. In a scene with lights it is
/// the arithmetic mean of the density towards the bounce's light and the density of the
/// material; in a scene without, the cosine density about the surface normal.
pub open spec fn density_of<M: Material, L: Light>(
    lights: Seq<L>,
    hit: HitRecord<M>,
    pdf: M::Density,
    bounce: Bounce,
) -> i64 {
    if lights.len() == 0 {
        M::Density::spec_around(hit.normal).spec_value(bounce.direction)
    } else {
        mean_of(
            lights[bounce.light].spec_pdf_value(hit.p, bounce.direction),
            pdf.spec_value(bounce.direction),
        )
    }
}

/// The radiance along a ray, given what chance decides at the diffuse bounces of its path.
///
/// With no depth left it is black. A ray that hits nothing brings the background. At a hit,
/// a surface that does not scatter gives what it emits; a specular surface gives what
/// arrives along the mirrored ray, weakened, and nothing of its own; a diffuse surface gives
/// `estimate_of` along the ray from the hit in the drawn direction, at the time of the
/// incoming ray.
pub open spec fn radiance_along<W: Boundable, L: Light>(
    world: W,
    lights: Seq<L>,
    background: Color,
    ray: Ray,
    depth: int,
    path: Seq<Bounce>,
) -> Color where W::Material: Material
    decreases depth,
{
    if depth <= 0 {
        Color::black()
    } else {
        match world.spec_hit(ray, T_MIN, T_MAX) {
            None => background,
            Some(hit) => {
                let emitted = hit.material.spec_emitted(ray, hit);
                match hit.material.spec_scatter(ray, hit) {
                    None => emitted,
                    Some(ReflectionRecord::Specular { specular_ray, attenuation }) => {
                        attenuation.spec_times(
                            radiance_along(
                                world,
                                lights,
                                background,
                                specular_ray,
                                depth - 1,
                                path,
                            ),
                        )
                    },
                    Some(ReflectionRecord::Scatter { pdf, attenuation }) => {
                        let bounce = path[0];
                        let scattered = Ray {
                            origin: hit.p,
                            dir: bounce.direction,
                            time: ray.time,
                        };
                        let pdf_val = density_of(lights, hit, pdf, bounce);
                        estimate_of(
                            emitted,
                            attenuation,
                            hit.material.spec_scattering_pdf(ray, hit, scattered),
                            radiance_along(
                                world,
                                lights,
                                background,
                                scattered,
                                depth - 1,
                                path.drop_first(),
                            ),
                            pdf_val,
                        )
                    },
                }
            },
        }
    }
}

/// How many bounces the path of `radiance_along` makes before it ends.
pub open spec fn bounces_along<W: Boundable, L: Light>(
    world: W,
    lights: Seq<L>,
    ray: Ray,
    depth: int,
    path: Seq<Bounce>,
) -> int where W::Material: Material
    decreases depth,
{
    if depth <= 0 {
        0
    } else {
        match world.spec_hit(ray, T_MIN, T_MAX) {
            None => 0,
            Some(hit) => match hit.material.spec_scatter(ray, hit) {
                None => 0,
                Some(ReflectionRecord::Specular { specular_ray, attenuation }) => 1
                    + bounces_along(world, lights, specular_ray, depth - 1, path),
                Some(ReflectionRecord::Scatter { pdf, attenuation }) => {
                    let scattered = Ray {
                        origin: hit.p,
                        dir: path[0].direction,
                        time: ray.time,
                    };
                    if density_of(lights, hit, pdf, path[0]) <= 0 {
                        1
                    } else {
                        1 + bounces_along(world, lights, scattered, depth - 1, path.drop_first())
                    }
                },
            },
        }
    }
}

/// Whether chance can have decided a bounce so: its light is one of the list, and its
/// direction one that the density of the bounce may draw. In a scene with lights that is the
/// mixture of the density towards the light and the density of the material; in a scene
/// without, the cosine density about the surface normal.
pub open spec fn drawn_by<M: Material, L: Light>(
    lights: Seq<L>,
    hit: HitRecord<M>,
    pdf: M::Density,
    bounce: Bounce,
) -> bool {
    if lights.len() == 0 {
        M::Density::spec_around(hit.normal).draws(bounce.direction)
    } else {
        &&& 0 <= bounce.light < lights.len()
        &&& lights[bounce.light].aims(hit.p, bounce.direction) || pdf.draws(bounce.direction)
    }
}

/// Whether `path` lists what chance can have decided along the path of `radiance_along`:
/// one bounce for every diffuse bounce of the path, each `drawn_by` the density at its hit,
/// and nothing more.
pub open spec fn follows<W: Boundable, L: Light>(
    world: W,
    lights: Seq<L>,
    ray: Ray,
    depth: int,
    path: Seq<Bounce>,
) -> bool where W::Material: Material
    decreases depth,
{
    if depth <= 0 {
        path.len() == 0
    } else {
        match world.spec_hit(ray, T_MIN, T_MAX) {
            None => path.len() == 0,
            Some(hit) => match hit.material.spec_scatter(ray, hit) {
                None => path.len() == 0,
                Some(ReflectionRecord::Specular { specular_ray, attenuation }) => follows(
                    world,
                    lights,
                    specular_ray,
                    depth - 1,
                    path,
                ),
                Some(ReflectionRecord::Scatter { pdf, attenuation }) => {
                    let scattered = Ray {
                        origin: hit.p,
                        dir: path[0].direction,
                        time: ray.time,
                    };
                    &&& path.len() > 0
                    &&& drawn_by(lights, hit, pdf, path[0])
                    &&& if density_of(lights, hit, pdf, path[0]) <= 0 {
                        path.len() == 1
                    } else {
                        follows(world, lights, scattered, depth - 1, path.drop_first())
                    }
                },
            },
        }
    }
}

/// A material that gives off no negative light, weakens by no negative colour and scatters
/// with no negative density.
pub open spec fn is_physical<M: Material>(material: M) -> bool {
    &&& forall|ray: Ray, hit: HitRecord<M>| (#[trigger] material.spec_emitted(ray, hit)).is_nonneg()
    &&& forall|ray: Ray, hit: HitRecord<M>| #[trigger]
        material.spec_scatter(ray, hit) matches Some(outcome) ==> outcome.attenuation().is_nonneg()
    &&& forall|ray: Ray, hit: HitRecord<M>, scattered: Ray| #[trigger]
        material.spec_scattering_pdf(ray, hit, scattered) >= 0
}

/// A scene in which every surface that a ray can hit has a physical material.
pub open spec fn is_physical_scene<W: Boundable>(world: W) -> bool where W::Material: Material {
    forall|ray: Ray, t_min: i64, t_max: i64| #[trigger]
        world.spec_hit(ray, t_min, t_max) matches Some(hit) ==> is_physical(hit.material)
}

/// The light of one diffuse bounce, from what the material and the density answered.
pub fn estimate(
    emitted: Color,
    attenuation: Color,
    scattering_pdf: i64,
    incoming: Color,
    pdf_val: i64,
) -> (color: Color)
    ensures
        color == estimate_of(emitted, attenuation, scattering_pdf, incoming, pdf_val),
        emitted.is_nonneg() && attenuation.is_nonneg() && scattering_pdf >= 0
            && incoming.is_nonneg() ==> color.is_nonneg(),
{
    if pdf_val <= 0 {
        emitted
    } else {
        proof {
            if emitted.is_nonneg() && attenuation.is_nonneg() && scattering_pdf >= 0
                && incoming.is_nonneg() {
                let weighted = attenuation.spec_scaled(scattering_pdf);
                attenuation.lemma_nonneg(attenuation, scattering_pdf);
                weighted.lemma_nonneg(incoming, pdf_val);
                weighted.spec_times(incoming).lemma_nonneg(incoming, pdf_val);
                emitted.lemma_nonneg(weighted.spec_times(incoming).spec_over(pdf_val), pdf_val);
            }
        }
        emitted.plus(attenuation.scaled(scattering_pdf).times(incoming).over(pdf_val))
    }
}

/// The radiance that arrives along `ray`, estimated over one path of at most `depth` bounces.
///
/// The result is `radiance_along` for what chance decided on the way: which light each
/// diffuse bounce sampled towards, and the direction that it drew.
pub fn radiance<W: Boundable, L: Light>(
    ray: Ray,
    background: Color,
    world: &W,
    lights: &Vec<L>,
    depth: i32,
) -> (color: Color) where W::Material: Material
    ensures
        exists|path: Seq<Bounce>| #[trigger]
            follows(*world, lights@, ray, depth as int, path) && color == radiance_along(
                *world,
                lights@,
                background,
                ray,
                depth as int,
                path,
            ),
        depth <= 0 ==> color == Color::black(),
        background.is_nonneg() && is_physical_scene(*world) ==> color.is_nonneg(),
    decreases depth,
{
    let ghost none: Seq<Bounce> = Seq::empty();
    if depth <= 0 {
        assert(follows(*world, lights@, ray, depth as int, none));
        return Color::new_empty();
    }
    match world.hit(&ray, T_MIN, T_MAX) {
        Some(hit) => {
            let emitted = hit.material.emitted(&ray, &hit);
            match hit.material.scatter(&ray, &hit) {
                Some(ReflectionRecord::Specular { specular_ray, attenuation }) => {
                    let incoming = radiance(specular_ray, background, world, lights, depth - 1);
                    let color = attenuation.times(incoming);
                    proof {
                        let path = choose|path: Seq<Bounce>| #[trigger]
                            follows(*world, lights@, specular_ray, depth - 1, path) && incoming
                                == radiance_along(
                                *world,
                                lights@,
                                background,
                                specular_ray,
                                depth - 1,
                                path,
                            );
                        assert(follows(*world, lights@, ray, depth as int, path));
                        if background.is_nonneg() && is_physical_scene(*world) {
                            assert(is_physical(hit.material));
                            attenuation.lemma_nonneg(incoming, 0);
                        }
                    }
                    color
                },
                Some(ReflectionRecord::Scatter { pdf, attenuation }) => {
                    let chosen = if lights.len() == 1 {
                        Some(&lights[0])
                    } else {
                        choose_light(lights)
                    };
                    let ghost mut index: int = 0;
                    let (direction, pdf_val) = match chosen {
                        Some(light) => {
                            proof {
                                index = choose|i: int|
                                    0 <= i < lights@.len() && lights@[i] == *light;
                            }
                            let mixture = MixturePdf::new(LightPdf::new(hit.p, light), pdf);
                            let direction = mixture.generate();
                            let pdf_val = mixture.value(&direction);
                            (direction, pdf_val)
                        },
                        None => {
                            // no lights, so no sampling towards them
                            let cosine = <W::Material as Material>::Density::around(&hit.normal);
                            let direction = cosine.generate();
                            let pdf_val = cosine.value(&direction);
                            (direction, pdf_val)
                        },
                    };
                    let ghost bounce = Bounce { light: index, direction };
                    assert(pdf_val == density_of(lights@, hit, pdf, bounce));
                    assert(drawn_by(lights@, hit, pdf, bounce));
                    let scattered = Ray::new(hit.p, direction, ray.time);
                    let scattering_pdf = hit.material.scattering_pdf(&ray, &hit, &scattered);
                    let ghost mut path: Seq<Bounce> = seq![bounce];
                    let incoming = if pdf_val <= 0 {
                        Color::new_empty()
                    } else {
                        let incoming = radiance(scattered, background, world, lights, depth - 1);
                        proof {
                            let rest = choose|rest: Seq<Bounce>| #[trigger]
                                follows(*world, lights@, scattered, depth - 1, rest) && incoming
                                    == radiance_along(
                                    *world,
                                    lights@,
                                    background,
                                    scattered,
                                    depth - 1,
                                    rest,
                                );
                            path = seq![bounce] + rest;
                            assert(path.drop_first() =~= rest);
                        }
                        incoming
                    };
                    let color = estimate(emitted, attenuation, scattering_pdf, incoming, pdf_val);
                    proof {
                        assert(path[0] == bounce);
                        assert(follows(*world, lights@, ray, depth as int, path));
                        if background.is_nonneg() && is_physical_scene(*world) {
                            assert(is_physical(hit.material));
                        }
                    }
                    color
                },
                None => {
                    assert(follows(*world, lights@, ray, depth as int, none));
                    proof {
                        if background.is_nonneg() && is_physical_scene(*world) {
                            assert(is_physical(hit.material));
                        }
                    }
                    emitted
                },
            }
        },
        None => {
            assert(follows(*world, lights@, ray, depth as int, none));
            background
        },
    }
}

/// A scene in which no surface that a ray can hit scatters diffusely: nothing is left to
/// chance on a path through it.
pub open spec fn leaves_nothing_to_chance<W: Boundable>(world: W) -> bool where
    W::Material: Material,
{
    forall|ray: Ray, t_min: i64, t_max: i64| #[trigger]
        world.spec_hit(ray, t_min, t_max) matches Some(hit) ==> !(hit.material.spec_scatter(
            ray,
            hit,
        ) matches Some(ReflectionRecord::Scatter { .. }))
}

/// A path that chance can have decided has no more bounces than the depth allows.
pub proof fn lemma_path_bounded<W: Boundable, L: Light>(
    world: W,
    lights: Seq<L>,
    ray: Ray,
    depth: int,
    path: Seq<Bounce>,
) where W::Material: Material
    requires
        follows(world, lights, ray, depth, path),
    ensures
        path.len() <= depth || path.len() == 0,
        path.len() <= bounces_along(world, lights, ray, depth, path),
    decreases depth,
{
    if depth > 0 {
        match world.spec_hit(ray, T_MIN, T_MAX) {
            None => {},
            Some(hit) => match hit.material.spec_scatter(ray, hit) {
                None => {},
                Some(ReflectionRecord::Specular { specular_ray, attenuation }) => {
                    lemma_path_bounded(world, lights, specular_ray, depth - 1, path);
                },
                Some(ReflectionRecord::Scatter { pdf, attenuation }) => {
                    let scattered = Ray {
                        origin: hit.p,
                        dir: path[0].direction,
                        time: ray.time,
                    };
                    if density_of(lights, hit, pdf, path[0]) > 0 {
                        lemma_path_bounded(world, lights, scattered, depth - 1, path.drop_first());
                    }
                },
            },
        }
    }
}

/// Termination: a path makes no more bounces than the depth that it was given.
pub proof fn lemma_bounces_bounded<W: Boundable, L: Light>(
    world: W,
    lights: Seq<L>,
    ray: Ray,
    depth: int,
    path: Seq<Bounce>,
) where W::Material: Material
    ensures
        0 <= bounces_along(world, lights, ray, depth, path),
        bounces_along(world, lights, ray, depth, path) <= depth || depth < 0,
        depth <= 0 ==> bounces_along(world, lights, ray, depth, path) == 0,
    decreases depth,
{
    if depth > 0 {
        match world.spec_hit(ray, T_MIN, T_MAX) {
            None => {},
            Some(hit) => match hit.material.spec_scatter(ray, hit) {
                None => {},
                Some(ReflectionRecord::Specular { specular_ray, attenuation }) => {
                    lemma_bounces_bounded(world, lights, specular_ray, depth - 1, path);
                },
                Some(ReflectionRecord::Scatter { pdf, attenuation }) => {
                    let scattered = Ray {
                        origin: hit.p,
                        dir: path[0].direction,
                        time: ray.time,
                    };
                    lemma_bounces_bounded(world, lights, scattered, depth - 1, path.drop_first());
                },
            },
        }
    }
}

/// With no depth left the radiance is black, whatever the scene and the ray.
pub proof fn lemma_black_at_depth_zero<W: Boundable, L: Light>(
    world: W,
    lights: Seq<L>,
    background: Color,
    ray: Ray,
    path: Seq<Bounce>,
) where W::Material: Material
    ensures
        radiance_along(world, lights, background, ray, 0, path) == Color::black(),
{
}

/// Energy is not negative: in a physical scene under a background without a negative
/// channel, the radiance along any path has no negative channel.
pub proof fn lemma_radiance_nonneg<W: Boundable, L: Light>(
    world: W,
    lights: Seq<L>,
    background: Color,
    ray: Ray,
    depth: int,
    path: Seq<Bounce>,
) where W::Material: Material
    requires
        background.is_nonneg(),
        is_physical_scene(world),
    ensures
        radiance_along(world, lights, background, ray, depth, path).is_nonneg(),
    decreases depth,
{
    if depth > 0 {
        match world.spec_hit(ray, T_MIN, T_MAX) {
            None => {},
            Some(hit) => {
                assert(is_physical(hit.material));
                let emitted = hit.material.spec_emitted(ray, hit);
                match hit.material.spec_scatter(ray, hit) {
                    None => {},
                    Some(ReflectionRecord::Specular { specular_ray, attenuation }) => {
                        lemma_radiance_nonneg(
                            world,
                            lights,
                            background,
                            specular_ray,
                            depth - 1,
                            path,
                        );
                        let outcome = hit.material.spec_scatter(ray, hit).unwrap();
                        assert(outcome.attenuation() == attenuation);
                        let incoming = radiance_along(
                            world,
                            lights,
                            background,
                            specular_ray,
                            depth - 1,
                            path,
                        );
                        attenuation.lemma_nonneg(incoming, 0);
                    },
                    Some(ReflectionRecord::Scatter { pdf, attenuation }) => {
                        let scattered = Ray {
                            origin: hit.p,
                            dir: path[0].direction,
                            time: ray.time,
                        };
                        lemma_radiance_nonneg(
                            world,
                            lights,
                            background,
                            scattered,
                            depth - 1,
                            path.drop_first(),
                        );
                        let outcome = hit.material.spec_scatter(ray, hit).unwrap();
                        assert(outcome.attenuation() == attenuation);
                        let incoming = radiance_along(
                            world,
                            lights,
                            background,
                            scattered,
                            depth - 1,
                            path.drop_first(),
                        );
                        let scattering_pdf = hit.material.spec_scattering_pdf(ray, hit, scattered);
                        let pdf_val = density_of(lights, hit, pdf, path[0]);
                        if pdf_val > 0 {
                            let weighted = attenuation.spec_scaled(scattering_pdf);
                            attenuation.lemma_nonneg(attenuation, scattering_pdf);
                            weighted.lemma_nonneg(incoming, pdf_val);
                            weighted.spec_times(incoming).lemma_nonneg(incoming, pdf_val);
                            emitted.lemma_nonneg(
                                weighted.spec_times(incoming).spec_over(pdf_val),
                                pdf_val,
                            );
                        }
                    },
                }
            },
        }
    }
}

/// Where nothing is left to chance, the radiance is the same along every path.
pub proof fn lemma_radiance_without_chance<W: Boundable, L: Light>(
    world: W,
    lights: Seq<L>,
    background: Color,
    ray: Ray,
    depth: int,
    path: Seq<Bounce>,
    other: Seq<Bounce>,
) where W::Material: Material
    requires
        leaves_nothing_to_chance(world),
    ensures
        radiance_along(world, lights, background, ray, depth, path) == radiance_along(
            world,
            lights,
            background,
            ray,
            depth,
            other,
        ),
    decreases depth,
{
    if depth > 0 {
        match world.spec_hit(ray, T_MIN, T_MAX) {
            None => {},
            Some(hit) => match hit.material.spec_scatter(ray, hit) {
                None => {},
                Some(ReflectionRecord::Specular { specular_ray, attenuation }) => {
                    lemma_radiance_without_chance(
                        world,
                        lights,
                        background,
                        specular_ray,
                        depth - 1,
                        path,
                        other,
                    );
                },
                Some(ReflectionRecord::Scatter { pdf, attenuation }) => {},
            },
        }
    }
}

} // verus!
