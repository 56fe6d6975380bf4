use std::sync::atomic::{AtomicI64, AtomicUsize, Ordering};
use std::sync::Arc;

use pathtracer::aabb::Aabb;
use pathtracer::color::Color;
use pathtracer::fixed::{mean, product, quotient, sum, ONE};
use pathtracer::hittable::{Boundable, HitRecord};
use pathtracer::integrator::{estimate, radiance, T_MAX, T_MIN};
use pathtracer::material::{Material, ReflectionRecord};
use pathtracer::pdf::{CosineDensity, Light, LightPdf, MixturePdf, Pdf};
use pathtracer::ray::Ray;
use pathtracer::jitter::{fixed_from_bits, halton, HALTON_TERMS};
use pathtracer::render::{
    render, render_pixel, render_row, render_with, screen_coordinate, share, Camera, Framebuffer,
    RenderConfig, Scene,
};
use pathtracer::vec3::Vec3;

const HORIZON: i64 = 80;

/// Counts what a test wants counted.
#[derive(Clone, Debug, Default)]
struct Tally(Arc<AtomicUsize>);

impl Tally {
    fn bump(&self) {
        self.0.fetch_add(1, Ordering::SeqCst);
    }

    fn read(&self) -> usize {
        self.0.load(Ordering::SeqCst)
    }
}

fn v(x: i64, y: i64, z: i64) -> Vec3 {
    Vec3 { x, y, z }
}

fn rgb(r: i64, g: i64, b: i64) -> Color {
    Color { r, g, b }
}

fn cube(min: (i64, i64, i64), max: (i64, i64, i64)) -> Aabb {
    Aabb { min: v(min.0, min.1, min.2), max: v(max.0, max.1, max.2) }
}

fn at(ray: &Ray, t: i64) -> Vec3 {
    v(ray.origin.x + ray.dir.x * t, ray.origin.y + ray.dir.y * t, ray.origin.z + ray.dir.z * t)
}

fn inside(region: &Aabb, p: Vec3) -> bool {
    region.min.x <= p.x
        && p.x <= region.max.x
        && region.min.y <= p.y
        && p.y <= region.max.y
        && region.min.z <= p.z
        && p.z <= region.max.z
}

/// A density that always draws the same direction and has the same value everywhere.
#[derive(Clone, Debug)]
struct Dial {
    direction: Vec3,
    density: i64,
    uses: Tally,
}

fn dial(direction: Vec3, density: i64) -> Dial {
    Dial { direction, density, uses: Tally::default() }
}

const COSINE: i64 = ONE / 4;

impl Pdf for Dial {
    fn draws(&self, direction: Vec3) -> bool {
        direction == self.direction
    }

    fn spec_value(&self, direction: Vec3) -> i64 {
        self.value(&direction)
    }

    fn generate(&self) -> Vec3 {
        self.direction
    }

    fn value(&self, _direction: &Vec3) -> i64 {
        self.uses.bump();
        self.density
    }
}

impl CosineDensity for Dial {
    fn spec_around(normal: Vec3) -> Self {
        Self::around(&normal)
    }

    fn around(normal: &Vec3) -> Self {
        dial(*normal, COSINE)
    }
}

#[derive(Clone, Debug)]
enum Surface {
    Lamp { glow: Color },
    Mirror { tint: Color, out: Vec3, glow: Color },
    Matte { tint: Color, glow: Color, own: i64, density: Dial, scattered_at: Arc<AtomicI64> },
}

impl Material for Surface {
    type Density = Dial;

    fn spec_emitted(&self, ray: Ray, hit: HitRecord<Self>) -> Color {
        self.emitted(&ray, &hit)
    }

    fn spec_scatter(&self, ray: Ray, hit: HitRecord<Self>) -> Option<ReflectionRecord<Dial>> {
        self.scatter(&ray, &hit)
    }

    fn spec_scattering_pdf(&self, ray: Ray, hit: HitRecord<Self>, scattered: Ray) -> i64 {
        self.scattering_pdf(&ray, &hit, &scattered)
    }

    fn emitted(&self, _ray: &Ray, _hit: &HitRecord<Self>) -> Color {
        match self {
            Surface::Lamp { glow } => *glow,
            Surface::Mirror { glow, .. } => *glow,
            Surface::Matte { glow, .. } => *glow,
        }
    }

    fn scatter(&self, ray: &Ray, hit: &HitRecord<Self>) -> Option<ReflectionRecord<Dial>> {
        match self {
            Surface::Lamp { .. } => None,
            Surface::Mirror { tint, out, .. } => Some(ReflectionRecord::Specular {
                specular_ray: Ray { origin: hit.p, dir: *out, time: ray.time },
                attenuation: *tint,
            }),
            Surface::Matte { tint, density, .. } => {
                Some(ReflectionRecord::Scatter { pdf: density.clone(), attenuation: *tint })
            }
        }
    }

    fn scattering_pdf(&self, _ray: &Ray, _hit: &HitRecord<Self>, scattered: &Ray) -> i64 {
        match self {
            Surface::Matte { own, scattered_at, .. } => {
                scattered_at.store(scattered.time, Ordering::SeqCst);
                *own
            }
            _ => 0,
        }
    }
}

/// Solid blocks, each with its surface; all normals point along z.
struct Stage {
    blocks: Vec<(Aabb, Surface)>,
    queries: Tally,
}

fn stage(blocks: Vec<(Aabb, Surface)>) -> Stage {
    Stage { blocks, queries: Tally::default() }
}

impl Boundable for Stage {
    type Material = Surface;

    fn spec_bounding_box(&self, time0: i64, time1: i64) -> Option<Aabb> {
        self.bounding_box(time0, time1)
    }

    fn spec_hit(&self, ray: Ray, t_min: i64, t_max: i64) -> Option<HitRecord<Surface>> {
        self.hit(&ray, t_min, t_max)
    }

    fn bounding_box(&self, _time0: i64, _time1: i64) -> Option<Aabb> {
        None
    }

    fn hit(&self, ray: &Ray, t_min: i64, t_max: i64) -> Option<HitRecord<Surface>> {
        self.queries.bump();
        let mut t = t_min + 1;
        while t < t_max && t <= HORIZON {
            let p = at(ray, t);
            for (region, surface) in self.blocks.iter() {
                if inside(region, p) {
                    return Some(HitRecord {
                        p,
                        normal: v(0, 0, 1),
                        t,
                        material: surface.clone(),
                        front_face: true,
                    });
                }
            }
            t += 1;
        }
        None
    }
}

/// A light that is sampled in one direction with one density.
#[derive(Clone, Debug)]
struct Beacon {
    toward: Vec3,
    density: i64,
    uses: Tally,
}

fn beacon(toward: Vec3, density: i64) -> Beacon {
    Beacon { toward, density, uses: Tally::default() }
}

impl Light for Beacon {
    fn aims(&self, _origin: Vec3, direction: Vec3) -> bool {
        direction == self.toward
    }

    fn spec_pdf_value(&self, origin: Vec3, direction: Vec3) -> i64 {
        self.pdf_value(&origin, &direction)
    }

    fn pdf_value(&self, _origin: &Vec3, _direction: &Vec3) -> i64 {
        self.uses.bump();
        self.density
    }

    fn random(&self, _origin: &Vec3) -> Vec3 {
        self.uses.bump();
        self.toward
    }
}

/// A camera that looks along x: the screen coordinates, eight grid steps to the unit, are
/// the z and the y of the ray's origin.
struct Window;

impl Camera for Window {
    fn casts(&self, u: i64, v: i64, ray: Ray) -> bool {
        self.get_ray(u, v) == ray
    }

    fn get_ray(&self, u: i64, v_: i64) -> Ray {
        Ray { origin: v(0, v_ * 8 / ONE, u * 8 / ONE), dir: v(1, 0, 0), time: 3 }
    }
}

const GLOW: Color = Color { r: 16384, g: 0, b: 65536 };
const TINT: Color = Color { r: 32768, g: 16384, b: 65536 };
const SKY: Color = Color { r: 32768, g: 49152, b: 65536 };
const LAMP: Color = Color { r: 131072, g: 32768, b: 12345 };

fn forward() -> Ray {
    Ray { origin: v(0, 0, 0), dir: v(1, 0, 0), time: 7 }
}

fn matte(density: i64) -> Surface {
    Surface::Matte {
        tint: TINT,
        glow: GLOW,
        own: ONE / 2,
        density: dial(v(0, 0, 1), density),
        scattered_at: Arc::new(AtomicI64::new(-1)),
    }
}

fn density_uses(surface: &Surface) -> usize {
    match surface {
        Surface::Matte { density, .. } => density.uses.read(),
        _ => 0,
    }
}

fn mirror(tint: Color, out: Vec3) -> Surface {
    Surface::Mirror { tint, out, glow: GLOW }
}

fn stage_with(surface: Surface) -> Stage {
    stage(vec![(cube((10, -1, -1), (12, 1, 1)), surface)])
}

fn no_lights() -> Vec<Beacon> {
    Vec::new()
}

#[test]
fn fixed_point_sums_saturate() {
    assert_eq!(sum(5, -7), -2);
    assert_eq!(sum(ONE, ONE / 2), 98304);
    assert_eq!(sum(i64::MAX, 1), i64::MAX);
    assert_eq!(sum(i64::MIN, -1), i64::MIN);
}

#[test]
fn fixed_point_products_round_down() {
    assert_eq!(product(98304, 98304), 147456);
    assert_eq!(product(ONE, 12345), 12345);
    assert_eq!(product(1, 65535), 0);
    assert_eq!(product(3, -1), -1);
    assert_eq!(product(-65537, ONE), -65537);
    assert_eq!(product(i64::MAX, i64::MAX), i64::MAX);
    assert_eq!(product(i64::MIN, i64::MAX), i64::MIN);
    assert_eq!(product(0, i64::MIN), 0);
}

#[test]
fn fixed_point_quotients_round_down() {
    assert_eq!(quotient(ONE, 2 * ONE), 32768);
    assert_eq!(quotient(1, 3), 21845);
    assert_eq!(quotient(-1, 3), -21846);
    assert_eq!(quotient(-ONE, 3 * ONE), -21846);
    assert_eq!(quotient(5, i64::MAX), 0);
    assert_eq!(quotient(i64::MAX, 1), i64::MAX);
    assert_eq!(quotient(i64::MIN, 1), i64::MIN);
}

#[test]
fn fixed_point_means_round_down() {
    assert_eq!(mean(3, 4), 3);
    assert_eq!(mean(-3, -4), -4);
    assert_eq!(mean(-1, 0), -1);
    assert_eq!(mean(49152, 16384), 32768);
    assert_eq!(mean(i64::MAX, i64::MAX), i64::MAX);
    assert_eq!(mean(i64::MIN, i64::MIN), i64::MIN);
    assert_eq!(mean(i64::MIN, i64::MAX), -1);
}

#[test]
fn colours_work_channel_by_channel() {
    let a = Color::new(ONE, -ONE / 2, 3);
    let b = rgb(ONE / 2, ONE * 3, -1);
    assert_eq!(Color::new_empty(), rgb(0, 0, 0));
    assert_eq!(a.plus(b), rgb(98304, 163840, 2));
    assert_eq!(a.times(b), rgb(32768, -98304, -1));
    assert_eq!(a.scaled(ONE / 4), rgb(16384, -8192, 0));
    assert_eq!(a.over(ONE / 4), rgb(262144, -131072, 12));
    assert_eq!(rgb(i64::MAX, i64::MIN, 0).plus(rgb(1, -1, 0)), rgb(i64::MAX, i64::MIN, 0));
}

#[test]
fn estimate_follows_the_formula() {
    assert_eq!(estimate(GLOW, TINT, ONE / 2, SKY, COSINE), rgb(49152, 24576, 196608));
    assert_eq!(
        estimate(rgb(1, 2, 3), rgb(100000, 7, -5), 3000, rgb(70000, 65536, 65536), 1000),
        rgb(320340, 2, -63)
    );
    assert_eq!(
        estimate(rgb(1, 2, 3), rgb(100000, 7, -5), 3000, rgb(70000, 65536, 65536), 7),
        rgb(45762853, 2, -9360)
    );
}

#[test]
fn estimate_skips_a_bounce_drawn_with_no_density() {
    assert_eq!(estimate(GLOW, TINT, ONE / 2, SKY, 0), GLOW);
    assert_eq!(estimate(GLOW, TINT, ONE / 2, SKY, -5), GLOW);
    assert_eq!(estimate(GLOW, TINT, ONE / 2, SKY, i64::MIN), GLOW);
}

#[test]
fn estimate_saturates() {
    let max = i64::MAX;
    assert_eq!(
        estimate(rgb(max, 0, i64::MIN), rgb(max, max, max), max, rgb(max, max, -max), 1),
        rgb(max, max, i64::MIN)
    );
}

#[test]
fn mixture_density_is_the_mean_of_its_parts() {
    let light = beacon(v(1, 2, 3), 49152);
    let towards = LightPdf::new(v(0, 0, 0), &light);
    assert_eq!(towards.value(&v(9, 9, 9)), 49152);
    assert_eq!(towards.generate(), v(1, 2, 3));
    let other = dial(v(0, 0, 1), 16384);
    let mixture = MixturePdf::new(towards, other);
    assert_eq!(mixture.value(&v(1, 2, 3)), 32768);
    assert_eq!(mixture.value(&v(0, 0, 1)), 32768);
    let odd = MixturePdf::new(
dial(v(1, 0, 0), 7), dial(v(0, 1, 0), 10)
    );
    assert_eq!(odd.value(&v(0, 1, 0)), 8);
}

#[test]
fn mixture_draws_from_both_of_its_parts() {
    let mixture = MixturePdf::new(
dial(v(1, 0, 0), 7), dial(v(0, 1, 0), 10)
    );
    let mut first = 0;
    let mut second = 0;
    for _ in 0..400 {
        let d = mixture.generate();
        if d == v(1, 0, 0) {
            first += 1;
        } else if d == v(0, 1, 0) {
            second += 1;
        }
    }
    assert_eq!(first + second, 400);
    assert!(first > 100 && second > 100);
}

#[test]
fn radiance_is_black_without_depth() {
    let world = stage_with(Surface::Lamp { glow: LAMP });
    assert_eq!(radiance(forward(), SKY, &world, &no_lights(), 0), rgb(0, 0, 0));
    assert_eq!(radiance(forward(), SKY, &world, &no_lights(), -3), rgb(0, 0, 0));
    assert_eq!(world.queries.read(), 0);
    let empty = stage(Vec::new());
    assert_eq!(radiance(forward(), SKY, &empty, &no_lights(), 0), rgb(0, 0, 0));
}

#[test]
fn radiance_of_a_miss_is_the_background() {
    let world = stage_with(Surface::Lamp { glow: LAMP });
    let away = Ray { origin: v(0, 0, 0), dir: v(-1, 0, 0), time: 0 };
    assert_eq!(radiance(away, SKY, &world, &no_lights(), 5), SKY);
    assert_eq!(world.queries.read(), 1);
}

#[test]
fn radiance_ignores_hits_up_to_the_lower_bound() {
    assert_eq!(T_MIN, 1);
    assert_eq!(T_MAX, i64::MAX);
    // the ray starts inside the first block and is inside it still at parameter 1
    let world = stage(vec![
        (cube((0, -1, -1), (1, 1, 1)), Surface::Lamp { glow: GLOW }),
        (cube((2, -1, -1), (3, 1, 1)), Surface::Lamp { glow: LAMP }),
    ]);
    assert_eq!(radiance(forward(), SKY, &world, &no_lights(), 5), LAMP);
}

#[test]
fn radiance_of_a_surface_that_does_not_scatter_is_what_it_emits() {
    let world = stage_with(Surface::Lamp { glow: LAMP });
    assert_eq!(radiance(forward(), SKY, &world, &no_lights(), 1), LAMP);
    assert_eq!(radiance(forward(), SKY, &world, &no_lights(), 50), LAMP);
}

#[test]
fn specular_bounce_weakens_what_arrives_and_adds_nothing() {
    let world = stage(vec![
        (cube((10, -1, -1), (12, 1, 1)), mirror(TINT, v(0, 1, 0))),
        (cube((9, 20, -1), (13, 22, 1)), Surface::Lamp { glow: LAMP }),
    ]);
    assert_eq!(radiance(forward(), SKY, &world, &no_lights(), 2), rgb(65536, 8192, 12345));
    // with one bounce allowed the mirrored ray brings nothing
    assert_eq!(radiance(forward(), SKY, &world, &no_lights(), 1), rgb(0, 0, 0));
    // a mirrored ray that hits nothing brings the background
    let lone = stage_with(mirror(TINT, v(0, 0, 1)));
    assert_eq!(radiance(forward(), SKY, &lone, &no_lights(), 2), rgb(16384, 12288, 65536));
}

#[test]
fn recursion_stops_at_the_depth() {
    // two mirrors that face each other
    let white = rgb(ONE, ONE, ONE);
    let world = stage(vec![
        (cube((10, -1, -1), (12, 1, 1)), mirror(white, v(-1, 0, 0))),
        (cube((-12, -1, -1), (-10, 1, 1)), mirror(white, v(1, 0, 0))),
    ]);
    for depth in [1, 2, 5, 50] {
        let before = world.queries.read();
        assert_eq!(radiance(forward(), SKY, &world, &no_lights(), depth), rgb(0, 0, 0));
        assert_eq!(world.queries.read() - before, depth as usize);
    }
}

#[test]
fn scene_without_lights_samples_the_cosine_density_only() {
    // the density of the material is 5 and the cosine density a quarter: the colour tells
    // which of them the bounce was weighted with
    let surface = matte(ONE * 5);
    let world = stage_with(surface.clone());
    let color = radiance(forward(), SKY, &world, &no_lights(), 2);
    assert_eq!(color, rgb(49152, 24576, 196608));
    assert_eq!(density_uses(&surface), 0);
}

#[test]
fn scattered_ray_keeps_the_time_of_the_incoming_ray() {
    let surface = matte(ONE * 5);
    let world = stage_with(surface.clone());
    let ray = Ray { origin: v(0, 0, 0), dir: v(1, 0, 0), time: 41 };
    radiance(ray, SKY, &world, &no_lights(), 2);
    match surface {
        Surface::Matte { scattered_at, .. } => assert_eq!(scattered_at.load(Ordering::SeqCst), 41),
        _ => unreachable!(),
    }
}

#[test]
fn one_light_is_mixed_evenly_with_the_material() {
    let surface = matte(ONE / 4);
    let world = stage_with(surface.clone());
    let lights = vec![beacon(v(0, 0, 1), 49152)];
    let color = radiance(forward(), SKY, &world, &lights, 2);
    assert_eq!(color, rgb(32768, 12288, 131072));
    assert!(lights[0].uses.read() >= 1);
    assert_eq!(density_uses(&surface), 1);
}

#[test]
fn one_of_several_lights_is_chosen() {
    let world = stage_with(matte(ONE / 4));
    let up = v(0, 0, 1);
    let lights = vec![beacon(up, 49152), beacon(up, 114688), beacon(up, 245760)];
    let expected = [rgb(32768, 12288, 131072), rgb(24576, 6144, 98304), rgb(20480, 3072, 81920)];
    let mut seen = [0usize; 3];
    for _ in 0..600 {
        let color = radiance(forward(), SKY, &world, &lights, 2);
        let which = expected.iter().position(|e| *e == color);
        assert!(which.is_some());
        seen[which.unwrap()] += 1;
    }
    assert!(seen[0] > 50 && seen[1] > 50 && seen[2] > 50);
}

#[test]
fn bounce_drawn_with_no_density_gives_what_the_surface_emits() {
    let world = stage_with(matte(0));
    let dark = vec![beacon(v(0, 0, 1), 0)];
    assert_eq!(radiance(forward(), SKY, &world, &dark, 2), GLOW);
    let negative = vec![beacon(v(0, 0, 1), -ONE)];
    assert_eq!(radiance(forward(), SKY, &world, &negative, 2), GLOW);
}

#[test]
fn diffuse_bounce_at_the_last_depth_brings_nothing_in() {
    let world = stage_with(matte(ONE * 5));
    assert_eq!(radiance(forward(), SKY, &world, &no_lights(), 1), GLOW);
}

#[test]
fn radiance_has_no_negative_channel() {
    let worlds = [
        stage_with(matte(ONE / 4)),
        stage_with(Surface::Lamp { glow: LAMP }),
        stage_with(mirror(TINT, v(0, 1, 0))),
    ];
    let lights = vec![beacon(v(0, 1, 0), 3), beacon(v(0, 0, 1), 1 << 40)];
    for world in worlds.iter() {
        for depth in 0..6 {
            for dir in [v(1, 0, 0), v(-1, 0, 0), v(1, 0, 1), v(5, 0, 0)] {
                let ray = Ray { origin: v(0, 0, 0), dir, time: 0 };
                let with = radiance(ray, SKY, world, &lights, depth);
                let without = radiance(ray, SKY, world, &no_lights(), depth);
                assert!(with.r >= 0 && with.g >= 0 && with.b >= 0);
                assert!(without.r >= 0 && without.g >= 0 && without.b >= 0);
            }
        }
    }
}

#[test]
fn screen_coordinates_run_from_zero_to_one() {
    assert_eq!(screen_coordinate(0, 0, 500), 0);
    assert_eq!(screen_coordinate(499, 0, 500), ONE);
    assert_eq!(screen_coordinate(1, ONE / 2, 5), 24576);
    assert_eq!(screen_coordinate(2, ONE / 4, 5), 36864);
    assert_eq!(screen_coordinate(3, 65535, 5), 65535);
    assert_eq!(screen_coordinate(1, 1, 4), 21845);
    assert_eq!(screen_coordinate(0, -1, 3), -1);
    assert_eq!(screen_coordinate(usize::MAX, i64::MAX, 2), i64::MAX);
}

#[test]
fn sums_are_shared_out_rounding_down() {
    assert_eq!(share(rgb(10, -10, 7), 3), rgb(3, -4, 2));
    assert_eq!(share(rgb(10, -10, 7), 1), rgb(10, -10, 7));
    assert_eq!(share(rgb(i64::MAX, i64::MIN, 0), 2), rgb(i64::MAX / 2, i64::MIN / 2, 0));
}

#[test]
fn configuration_needs_two_pixels_each_way_and_a_sample() {
    assert_eq!(
        RenderConfig::new(500, 500, 1000, 50),
        Some(RenderConfig { width: 500, height: 500, samples_per_pixel: 1000, max_depth: 50 })
    );
    assert_eq!(
        RenderConfig::new(2, 2, 1, 0),
        Some(RenderConfig { width: 2, height: 2, samples_per_pixel: 1, max_depth: 0 })
    );
    assert_eq!(RenderConfig::new(1, 500, 10, 50), None);
    assert_eq!(RenderConfig::new(500, 1, 10, 50), None);
    assert_eq!(RenderConfig::new(500, 500, 0, 50), None);
    assert_eq!(RenderConfig::new(0, 0, 0, 0), None);
    assert!(RenderConfig::new(500, 500, usize::MAX, i32::MIN).is_some());
}

fn lamp_scene() -> Scene<Window, Stage, Beacon> {
    Scene {
        camera: Window,
        world: stage(vec![(cube((10, 2, 4), (12, 4, 6)), Surface::Lamp { glow: LAMP })]),
        lights: Vec::new(),
        background: SKY,
    }
}

#[test]
fn single_lamp_renders_as_its_emission_on_the_background() {
    let config = RenderConfig::new(5, 5, 1, 1).unwrap();
    let scene = lamp_scene();
    let image = render_with(&config, &scene, &vec![0], &vec![0]);
    assert_eq!(image.pixels.len(), 5);
    for y in 0..5 {
        assert_eq!(image.pixels[y].len(), 5);
        for x in 0..5 {
            // pixel (x, y) looks along x from (0, 2y, 2x)
            let lit = (y == 1 || y == 2) && (x == 2 || x == 3);
            assert_eq!(image.pixels[y][x], if lit { LAMP } else { SKY });
        }
    }
}

#[test]
fn pixel_is_the_mean_of_its_samples() {
    // the second sample of every pixel is cast half a pixel further up and to the right
    let config = RenderConfig::new(5, 5, 2, 1).unwrap();
    let scene = lamp_scene();
    let hx = vec![0, ONE / 2];
    let hy = vec![0, ONE / 2];
    let half = rgb((131072 + 32768) / 2, (32768 + 49152) / 2, (12345 + 65536) / 2);
    // pixel (1, 1): from (0, 2, 2) the ray misses, from (0, 3, 3) it misses
    assert_eq!(render_pixel(&config, &scene, &hx, &hy, 1, 1), SKY);
    // pixel (2, 1): from (0, 2, 4) it hits, from (0, 3, 5) it hits
    assert_eq!(render_pixel(&config, &scene, &hx, &hy, 2, 1), LAMP);
    // pixel (3, 2): from (0, 4, 6) it hits, from (0, 5, 7) it misses
    assert_eq!(render_pixel(&config, &scene, &hx, &hy, 3, 2), half);
    // pixel (1, 2): from (0, 4, 2) it misses, from (0, 5, 3) it misses
    assert_eq!(render_pixel(&config, &scene, &hx, &hy, 1, 2), SKY);
    // row 2: the first samples start at y = 4 and hit where z is 4 or 6, the second start
    // at y = 5 and miss
    let row = render_row(&config, &scene, &hx, &hy, 2);
    assert_eq!(row, vec![SKY, SKY, half, half, SKY]);
    let row = render_row(&config, &scene, &hx, &hy, 1);
    assert_eq!(row, vec![SKY, SKY, LAMP, half, SKY]);
}

#[test]
fn rendering_twice_gives_the_same_image() {
    let config = RenderConfig::new(6, 4, 3, 4).unwrap();
    let scene = Scene {
        camera: Window,
        world: stage(vec![
            (cube((10, 0, 0), (12, 3, 3)), mirror(TINT, v(0, 0, 1))),
            (cube((8, 0, 20), (14, 6, 22)), Surface::Lamp { glow: LAMP }),
        ]),
        lights: no_lights(),
        background: SKY,
    };
    let hx = vec![0, ONE / 2, ONE / 4];
    let hy = vec![0, ONE / 3, 2 * ONE / 3];
    let first = render_with(&config, &scene, &hx, &hy);
    let second = render_with(&config, &scene, &hx, &hy);
    assert_eq!(first.pixels, second.pixels);
    assert_eq!(first.scanlines(6), second.scanlines(6));
    assert_eq!(first.pixels.len(), 4);
    assert!(first.pixels.iter().all(|row| row.len() == 6));
    // the rays of pixel (0, 0) meet the mirror twice on their way to the lamp
    assert_eq!(first.pixels[0][0], rgb(32768, 2048, 12345));
    assert_eq!(first.pixels[3][5], SKY);
}

#[test]
fn rows_are_rendered_each_in_its_place() {
    let config = RenderConfig::new(4, 7, 1, 1).unwrap();
    let scene = lamp_scene();
    let hx = vec![0];
    let hy = vec![0];
    let image = render_with(&config, &scene, &hx, &hy);
    assert_eq!(image.pixels.len(), 7);
    for y in 0..7 {
        assert_eq!(image.pixels[y], render_row(&config, &scene, &hx, &hy, y));
    }
    assert_eq!(image.pixels[1], vec![SKY, SKY, SKY, SKY]);
    assert_eq!(image.pixels[2], vec![SKY, SKY, LAMP, SKY]);
    assert_eq!(image.pixels[3], vec![SKY, SKY, LAMP, SKY]);
    assert_eq!(image.pixels[4], vec![SKY, SKY, SKY, SKY]);
}

#[test]
fn scan_order_puts_the_top_row_first() {
    let a = rgb(1, 1, 1);
    let b = rgb(2, 2, 2);
    let c = rgb(3, 3, 3);
    let d = rgb(4, 4, 4);
    let e = rgb(5, 5, 5);
    let f = rgb(6, 6, 6);
    let image = Framebuffer { pixels: vec![vec![a, b], vec![c, d], vec![e, f]] };
    assert_eq!(image.scanlines(2), vec![e, f, c, d, a, b]);
    let flat = Framebuffer { pixels: vec![vec![a, b, c]] };
    assert_eq!(flat.scanlines(3), vec![a, b, c]);
    let none = Framebuffer { pixels: Vec::new() };
    assert_eq!(none.scanlines(4), Vec::new());
}

#[test]
fn doubles_are_read_by_their_bits() {
    let cases: [(u64, i64); 32] = [
        (0x3fe0000000000000, 32768),                // 0.5
        (0x3fd0000000000000, 16384),                // 0.25
        (0x3fe8000000000000, 49152),                // 0.75
        (0x3fd5555555555555, 21845),                // a third
        (0x3fe5555555555555, 43690),                // two thirds
        (0x3fbc71c71c71c71c, 7281),                 // a ninth
        (0x0000000000000000, 0),                    // 0
        (0x8000000000000000, 0),                    // -0
        (0x3ff0000000000000, 65536),                // 1
        (0xbff0000000000000, -65536),               // -1
        (0xbfe0000000000000, -32768),               // -0.5
        (0x01a56e1fc2f8f359, 0),                    // 1e-300
        (0x81a56e1fc2f8f359, -1),                   // -1e-300
        (0x0000000000000001, 0),                    // the least positive double
        (0x8000000000000001, -1),                   // the greatest negative double
        (0x7e37e43c8800759c, i64::MAX),             // 1e300
        (0xfe37e43c8800759c, i64::MIN),             // -1e300
        (0x7ff0000000000000, i64::MAX),             // infinity
        (0xfff0000000000000, i64::MIN),             // -infinity
        (0x7ff8000000000000, 0),                    // no number
        (0x42dfffffffffffff, 9223372036854774784),  // just below 2^47
        (0x42e0000000000000, i64::MAX),             // 2^47
        (0xc2e0000000000000, i64::MIN),             // -2^47
        (0xc2e0000000000010, i64::MIN),             // just below -2^47
        (0x4008000400000000, 196608),               // just above 3
        (0xc008000400000000, -196609),              // just below -3
        (0x40efffffffeb074a, 4294967295),           // 65535.99999
        (0x3ef0000000000000, 1),                    // 2^-16
        (0x3ee0000000000000, 0),                    // 2^-17
        (0xbee0000000000000, -1),                   // -2^-17
        (0x3f08000000000000, 3),                    // 3 * 2^-16
        (0x3fefffffff768fa1, 65535),                // 0.999999999
    ];
    for (bits, fixed) in cases.iter() {
        assert_eq!(fixed_from_bits(*bits), *fixed);
    }
}

#[test]
fn doubles_read_by_their_bits_agree_with_their_arithmetic() {
    let mut state: u64 = 99;
    for _ in 0..2000 {
        state = state.wrapping_mul(6364136223846793005).wrapping_add(1442695040888963407);
        // doubles between -2^40 and 2^40, of which 65536 times fit a double exactly or round
        // to a neighbour that has the same whole part
        let whole = ((state >> 20) % (1 << 30)) as f64 - (1u64 << 29) as f64;
        let x = whole / 1024.0;
        let expected = (x * 65536.0).floor() as i64;
        assert_eq!(fixed_from_bits(x.to_bits()), expected);
        let small = whole / (1u64 << 46) as f64;
        let expected = (small * 65536.0).floor() as i64;
        assert_eq!(fixed_from_bits(small.to_bits()), expected);
    }
}

#[test]
fn halton_sequences_begin_as_they_should() {
    assert_eq!(halton(2, 8), vec![32768, 16384, 49152, 8192, 40960, 24576, 57344, 4096]);
    assert_eq!(halton(3, 8), vec![21845, 43690, 7281, 29127, 50972, 14563, 36408, 58254]);
    assert_eq!(halton(17, 21)[20], 15647);
    assert_eq!(halton(2, 0), Vec::<i64>::new());
    assert_eq!(HALTON_TERMS, 1048575);
    // the sequence to the base two gives out after its last term, twenty ones in binary
    let all = halton(2, HALTON_TERMS + 10);
    assert_eq!(all.len(), HALTON_TERMS);
    assert_eq!(all[HALTON_TERMS - 1], 65535);
    assert_eq!(halton(5, 1000).len(), 1000);
    assert!(halton(5, 1000).iter().all(|term| 0 < *term && *term < ONE));
}

#[test]
fn samples_are_jittered_by_the_halton_sequences() {
    // the first terms, a half and a third, move the one sample of each pixel to
    // (0, 2y, 2x + 1)
    let config = RenderConfig::new(5, 5, 1, 1).unwrap();
    let scene = lamp_scene();
    let image = render(&config, &scene);
    assert_eq!(image.pixels.len(), 5);
    for y in 0..5 {
        assert_eq!(image.pixels[y].len(), 5);
        for x in 0..5 {
            let lit = (y == 1 || y == 2) && x == 2;
            assert_eq!(image.pixels[y][x], if lit { LAMP } else { SKY });
        }
    }
    let config = RenderConfig::new(7, 6, 5, 3).unwrap();
    let image = render(&config, &scene);
    let same = render_with(&config, &scene, &halton(2, 5), &halton(3, 5));
    assert_eq!(image.pixels, same.pixels);
    let again = render(&config, &scene);
    assert_eq!(image.pixels, again.pixels);
}
