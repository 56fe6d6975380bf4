//! The render scheduler: one radiance estimate per pixel and sample, at screen coordinates
//! jittered by two low-discrepancy sequences; rows rendered in parallel; pixels handed out
//! in scan order.

use vstd::prelude::*;
use rayon::iter::{IntoParallelIterator, ParallelIterator};
use crate::arith::{clamp, floor_div, floor_quotient, lemma_floor_div_bounds, saturate};
use crate::color::Color;
use crate::fixed::ONE;
use crate::hittable::Boundable;
use crate::integrator::{
    follows,
    is_physical_scene,
    leaves_nothing_to_chance,
    lemma_radiance_without_chance,
    radiance,
    radiance_along,
    Bounce,
};
use crate::jitter::{halton, halton_terms, HALTON_TERMS};
use crate::material::Material;
use crate::pdf::Light;
use crate::ray::Ray;

verus! {

/// A camera: it turns screen coordinates into a ray. Which ray may depend on chance (a lens
/// is sampled); `casts` says which rays it may be.
pub trait Camera {
    /// Whether `get_ray` may answer `ray` at these screen coordinates.
    spec fn casts(&self, u: i64, v: i64, ray: Ray) -> bool;

    /// A ray through the screen at `(u, v)`, both in fixed-point numbers.
    fn get_ray(&self, u: i64, v: i64) -> (ray: Ray)
        ensures
            self.casts(u, v, ray),
    ;
}

/// The size of the image, the samples taken per pixel and the bounces allowed per path.
#[derive(Clone, Copy, Debug, PartialEq, Eq, Structural)]
pub struct RenderConfig {
    pub width: usize,
    pub height: usize,
    pub samples_per_pixel: usize,
    pub max_depth: i32,
}

/// What is rendered: a camera, the world that rays are cast into, the lights that are
/// sampled towards, and the colour of rays that hit nothing.
pub struct Scene<C, W, L> {
    pub camera: C,
    pub world: W,
    pub lights: Vec<L>,
    pub background: Color,
}

/// What chance decided for one sample of a pixel: the ray that the camera cast, and the
/// bounces of its path.
pub struct Sample {
    pub ray: Ray,
    pub path: Seq<Bounce>,
}

/// The rendered image: a grid of colours, row `y` at `pixels[y]`, the bottom row first.
pub struct Framebuffer {
    pub pixels: Vec<Vec<Color>>,
}

/// The screen coordinate of a sample, as a fixed-point number: the pixel's position plus
/// the jitter, over the number of pixels less one.
pub open spec fn screen_coord(pixel: int, jitter: i64, extent: int) -> i64 {
    clamp(floor_div(pixel * ONE + jitter, extent - 1)) as i64
}

/// The sum of the radiance along the rays of the samples.
pub open spec fn radiance_sum<W: Boundable, L: Light>(
    world: W,
    lights: Seq<L>,
    background: Color,
    depth: int,
    samples: Seq<Sample>,
) -> Color where W::Material: Material
    decreases samples.len(),
{
    if samples.len() == 0 {
        Color::black()
    } else {
        radiance_sum(world, lights, background, depth, samples.drop_last()).spec_plus(
            radiance_along(
                world,
                lights,
                background,
                samples.last().ray,
                depth,
                samples.last().path,
            ),
        )
    }
}

/// A colour shared out into `count` equal parts.
pub open spec fn shared(sum: Color, count: int) -> Color {
    Color {
        r: floor_div(sum.r as int, count) as i64,
        g: floor_div(sum.g as int, count) as i64,
        b: floor_div(sum.b as int, count) as i64,
    }
}

impl RenderConfig {
    /// At least two pixels each way and one sample per pixel.
    pub open spec fn is_valid(self) -> bool {
        self.width >= 2 && self.height >= 2 && self.samples_per_pixel >= 1
    }

    /// The configuration, where it is valid.
    pub fn new(width: usize, height: usize, samples_per_pixel: usize, max_depth: i32) -> (config:
        Option<RenderConfig>)
        ensures
            config == if (RenderConfig { width, height, samples_per_pixel, max_depth }).is_valid() {
                Some(RenderConfig { width, height, samples_per_pixel, max_depth })
            } else {
                None
            },
    {
        if width >= 2 && height >= 2 && samples_per_pixel >= 1 {
            Some(RenderConfig { width, height, samples_per_pixel, max_depth })
        } else {
            None
        }
    }
}

impl<C: Camera, W: Boundable, L: Light> Scene<C, W, L> where W::Material: Material {
    /// Whether these can be the first `count` samples of pixel `(x, y)`: the camera cast
    /// each ray at the pixel's position jittered by the sample's terms of the two
    /// sequences, and each path is one that chance can have decided along that ray.
    pub open spec fn samples_of(
        self,
        config: RenderConfig,
        hx: Seq<i64>,
        hy: Seq<i64>,
        x: int,
        y: int,
        samples: Seq<Sample>,
        count: int,
    ) -> bool {
        &&& samples.len() == count
        &&& forall|i: int|
            0 <= i < count ==> {
                &&& self.camera.casts(
                    screen_coord(x, hx[i], config.width as int),
                    screen_coord(y, hy[i], config.height as int),
                    (#[trigger] samples[i]).ray,
                )
                &&& follows(
                    self.world,
                    self.lights@,
                    samples[i].ray,
                    config.max_depth as int,
                    samples[i].path,
                )
            }
    }

    /// Whether `color` can be the colour of pixel `(x, y)`: the mean, over the samples of
    /// the pixel, of the radiance along their rays.
    pub open spec fn is_pixel(
        self,
        config: RenderConfig,
        hx: Seq<i64>,
        hy: Seq<i64>,
        x: int,
        y: int,
        color: Color,
    ) -> bool {
        exists|samples: Seq<Sample>| #[trigger]
            self.samples_of(config, hx, hy, x, y, samples, config.samples_per_pixel as int)
                && color == shared(
                radiance_sum(
                    self.world,
                    self.lights@,
                    self.background,
                    config.max_depth as int,
                    samples,
                ),
                config.samples_per_pixel as int,
            )
    }

    /// Whether `row` can be row `y` of the image.
    pub open spec fn is_row(
        self,
        config: RenderConfig,
        hx: Seq<i64>,
        hy: Seq<i64>,
        y: int,
        row: Seq<Color>,
    ) -> bool {
        &&& row.len() == config.width
        &&& forall|x: int|
            0 <= x < config.width ==> self.is_pixel(config, hx, hy, x, y, #[trigger] row[x])
    }

    /// Whether the rows can be the image.
    pub open spec fn is_image(
        self,
        config: RenderConfig,
        hx: Seq<i64>,
        hy: Seq<i64>,
        rows: Seq<Seq<Color>>,
    ) -> bool {
        &&& rows.len() == config.height
        &&& forall|y: int|
            0 <= y < config.height ==> self.is_row(config, hx, hy, y, #[trigger] rows[y])
    }

    /// A scene that leaves nothing to chance: its camera casts one ray at each point of the
    /// screen, and no surface of its world scatters diffusely.
    pub open spec fn is_steady(self) -> bool {
        &&& leaves_nothing_to_chance(self.world)
        &&& forall|u: i64, v: i64, a: Ray, b: Ray|
            #[trigger] self.camera.casts(u, v, a) && #[trigger] self.camera.casts(u, v, b) ==> a
                == b
    }

    /// The samples of a pixel of a steady scene bring the same light, whatever chance
    /// decided for them.
    proof fn lemma_sum_without_chance(
        self,
        config: RenderConfig,
        hx: Seq<i64>,
        hy: Seq<i64>,
        x: int,
        y: int,
        a: Seq<Sample>,
        b: Seq<Sample>,
        count: int,
    )
        requires
            self.is_steady(),
            self.samples_of(config, hx, hy, x, y, a, count),
            self.samples_of(config, hx, hy, x, y, b, count),
        ensures
            radiance_sum(self.world, self.lights@, self.background, config.max_depth as int, a)
                == radiance_sum(
                self.world,
                self.lights@,
                self.background,
                config.max_depth as int,
                b,
            ),
        decreases a.len(),
    {
        if a.len() > 0 {
            let last = count - 1;
            assert(self.camera.casts(
                screen_coord(x, hx[last], config.width as int),
                screen_coord(y, hy[last], config.height as int),
                a[last].ray,
            ));
            assert(self.camera.casts(
                screen_coord(x, hx[last], config.width as int),
                screen_coord(y, hy[last], config.height as int),
                b[last].ray,
            ));
            assert(a.last().ray == b.last().ray);
            lemma_radiance_without_chance(
                self.world,
                self.lights@,
                self.background,
                a.last().ray,
                config.max_depth as int,
                a.last().path,
                b.last().path,
            );
            assert forall|i: int| 0 <= i < count - 1 implies {
                &&& self.camera.casts(
                    screen_coord(x, hx[i], config.width as int),
                    screen_coord(y, hy[i], config.height as int),
                    (#[trigger] a.drop_last()[i]).ray,
                )
                &&& follows(
                    self.world,
                    self.lights@,
                    a.drop_last()[i].ray,
                    config.max_depth as int,
                    a.drop_last()[i].path,
                )
            } by {
                assert(a.drop_last()[i] == a[i]);
            }
            assert forall|i: int| 0 <= i < count - 1 implies {
                &&& self.camera.casts(
                    screen_coord(x, hx[i], config.width as int),
                    screen_coord(y, hy[i], config.height as int),
                    (#[trigger] b.drop_last()[i]).ray,
                )
                &&& follows(
                    self.world,
                    self.lights@,
                    b.drop_last()[i].ray,
                    config.max_depth as int,
                    b.drop_last()[i].path,
                )
            } by {
                assert(b.drop_last()[i] == b[i]);
            }
            self.lemma_sum_without_chance(
                config,
                hx,
                hy,
                x,
                y,
                a.drop_last(),
                b.drop_last(),
                count - 1,
            );
        }
    }

    /// Determinism: two renderings of a steady scene with the same configuration and the
    /// same two sequences are the same image, pixel for pixel.
    pub proof fn lemma_render_is_determined(
        self,
        config: RenderConfig,
        hx: Seq<i64>,
        hy: Seq<i64>,
        first: Seq<Seq<Color>>,
        second: Seq<Seq<Color>>,
    )
        requires
            self.is_steady(),
            self.is_image(config, hx, hy, first),
            self.is_image(config, hx, hy, second),
        ensures
            first == second,
    {
        assert forall|y: int| 0 <= y < config.height implies first[y] == second[y] by {
            assert(self.is_row(config, hx, hy, y, first[y]));
            assert(self.is_row(config, hx, hy, y, second[y]));
            assert forall|x: int| 0 <= x < config.width implies first[y][x] == second[y][x] by {
                assert(self.is_pixel(config, hx, hy, x, y, first[y][x]));
                assert(self.is_pixel(config, hx, hy, x, y, second[y][x]));
                let count = config.samples_per_pixel as int;
                let a = choose|samples: Seq<Sample>| #[trigger]
                    self.samples_of(config, hx, hy, x, y, samples, count) && first[y][x] == shared(
                        radiance_sum(
                            self.world,
                            self.lights@,
                            self.background,
                            config.max_depth as int,
                            samples,
                        ),
                        count,
                    );
                let b = choose|samples: Seq<Sample>| #[trigger]
                    self.samples_of(config, hx, hy, x, y, samples, count) && second[y][x]
                        == shared(
                        radiance_sum(
                            self.world,
                            self.lights@,
                            self.background,
                            config.max_depth as int,
                            samples,
                        ),
                        count,
                    );
                self.lemma_sum_without_chance(config, hx, hy, x, y, a, b, count);
            }
            assert(first[y] =~= second[y]);
        }
        assert(first =~= second);
    }

    /// A scene with a physical world under a background without a negative channel.
    pub open spec fn is_physical(self) -> bool {
        self.background.is_nonneg() && is_physical_scene(self.world)
    }
}

/// The screen coordinate of a sample.
pub fn screen_coordinate(pixel: usize, jitter: i64, extent: usize) -> (coordinate: i64)
    requires
        extent >= 2,
    ensures
        coordinate == screen_coord(pixel as int, jitter, extent as int),
{
    assert(pixel as int * ONE as int <= 0x1_0000_0000_0000_0000_0000) by (nonlinear_arith)
        requires
            ONE as int == 65536,
            0 <= pixel as int <= 0xffff_ffff_ffff_ffff,
    ;
    assert(pixel as int * ONE as int >= 0) by (nonlinear_arith)
        requires
            ONE as int == 65536,
            0 <= pixel as int,
    ;
    saturate(floor_quotient(pixel as i128 * ONE as i128 + jitter as i128, extent as i128 - 1))
}

/// The colour shared out into `count` equal parts.
pub fn share(sum: Color, count: usize) -> (color: Color)
    requires
        count >= 1,
    ensures
        color == shared(sum, count as int),
        sum.is_nonneg() ==> color.is_nonneg(),
{
    proof {
        lemma_floor_div_bounds(sum.r as int, count as int);
        lemma_floor_div_bounds(sum.g as int, count as int);
        lemma_floor_div_bounds(sum.b as int, count as int);
    }
    Color {
        r: floor_quotient(sum.r as i128, count as i128) as i64,
        g: floor_quotient(sum.g as i128, count as i128) as i64,
        b: floor_quotient(sum.b as i128, count as i128) as i64,
    }
}

/// The colour of one pixel: the mean of one radiance estimate per sample.
pub fn render_pixel<C: Camera, W: Boundable, L: Light>(
    config: &RenderConfig,
    scene: &Scene<C, W, L>,
    hx: &Vec<i64>,
    hy: &Vec<i64>,
    x: usize,
    y: usize,
) -> (color: Color) where W::Material: Material
    requires
        config.is_valid(),
        hx.len() >= config.samples_per_pixel,
        hy.len() >= config.samples_per_pixel,
    ensures
        scene.is_pixel(*config, hx@, hy@, x as int, y as int, color),
        scene.is_physical() ==> color.is_nonneg(),
{
    let mut pixel_color = Color::new_empty();
    let ghost mut samples: Seq<Sample> = Seq::empty();
    let mut i: usize = 0;
    while i < config.samples_per_pixel
        invariant
            config.is_valid(),
            hx.len() >= config.samples_per_pixel,
            hy.len() >= config.samples_per_pixel,
            i <= config.samples_per_pixel,
            scene.samples_of(*config, hx@, hy@, x as int, y as int, samples, i as int),
            pixel_color == radiance_sum(
                scene.world,
                scene.lights@,
                scene.background,
                config.max_depth as int,
                samples,
            ),
            scene.is_physical() ==> pixel_color.is_nonneg(),
        decreases config.samples_per_pixel - i,
    {
        let u = screen_coordinate(x, hx[i], config.width);
        let v = screen_coordinate(y, hy[i], config.height);
        let ray = scene.camera.get_ray(u, v);
        let light = radiance(ray, scene.background, &scene.world, &scene.lights, config.max_depth);
        proof {
            let path = choose|path: Seq<Bounce>| #[trigger]
                follows(scene.world, scene.lights@, ray, config.max_depth as int, path) && light
                    == radiance_along(
                    scene.world,
                    scene.lights@,
                    scene.background,
                    ray,
                    config.max_depth as int,
                    path,
                );
            let next = samples.push(Sample { ray, path });
            assert(next.drop_last() =~= samples);
            assert(next.last() == Sample { ray, path });
            assert forall|k: int| 0 <= k < i + 1 implies {
                &&& scene.camera.casts(
                    screen_coord(x as int, hx@[k], config.width as int),
                    screen_coord(y as int, hy@[k], config.height as int),
                    (#[trigger] next[k]).ray,
                )
                &&& follows(
                    scene.world,
                    scene.lights@,
                    next[k].ray,
                    config.max_depth as int,
                    next[k].path,
                )
            } by {
                if k < i {
                    assert(next[k] == samples[k]);
                }
            }
            if scene.is_physical() {
                pixel_color.lemma_nonneg(light, 0);
            }
            samples = next;
        }
        pixel_color = pixel_color.plus(light);
        i += 1;
    }
    share(pixel_color, config.samples_per_pixel)
}

/// The colours of one row of the image, from left to right.
pub fn render_row<C: Camera, W: Boundable, L: Light>(
    config: &RenderConfig,
    scene: &Scene<C, W, L>,
    hx: &Vec<i64>,
    hy: &Vec<i64>,
    y: usize,
) -> (row: Vec<Color>) where W::Material: Material
    requires
        config.is_valid(),
        hx.len() >= config.samples_per_pixel,
        hy.len() >= config.samples_per_pixel,
    ensures
        scene.is_row(*config, hx@, hy@, y as int, row@),
        scene.is_physical() ==> forall|x: int|
            0 <= x < row.len() ==> (#[trigger] row[x]).is_nonneg(),
{
    let mut row: Vec<Color> = Vec::new();
    let mut x: usize = 0;
    while x < config.width
        invariant
            config.is_valid(),
            hx.len() >= config.samples_per_pixel,
            hy.len() >= config.samples_per_pixel,
            x <= config.width,
            row.len() == x,
            forall|k: int|
                0 <= k < x ==> scene.is_pixel(*config, hx@, hy@, k, y as int, #[trigger] row[k]),
            scene.is_physical() ==> forall|k: int| 0 <= k < x ==> (#[trigger] row[k]).is_nonneg(),
        decreases config.width - x,
    {
        let color = render_pixel(config, scene, hx, hy, x, y);
        row.push(color);
        x += 1;
    }
    row
}

/// The rows of the image, each rendered by `render_row` on a worker of rayon's pool: the
/// range of rows as a parallel iterator, mapped and collected. Row `y` of the result is what
/// `render_row` returned for `y`, so it is a row of the image for some outcome of chance.
#[verifier::external_body]
fn render_rows<C: Camera + Sync, W: Boundable + Sync, L: Light + Sync>(
    config: &RenderConfig,
    scene: &Scene<C, W, L>,
    hx: &Vec<i64>,
    hy: &Vec<i64>,
) -> (rows: Vec<Vec<Color>>) where W::Material: Material
    requires
        config.is_valid(),
        hx.len() >= config.samples_per_pixel,
        hy.len() >= config.samples_per_pixel,
    ensures
        rows.len() == config.height,
        forall|y: int|
            0 <= y < config.height ==> scene.is_row(*config, hx@, hy@, y, (#[trigger] rows[y])@),
        scene.is_physical() ==> forall|y: int, x: int|
            0 <= y < rows.len() && 0 <= x < rows[y].len() ==> (#[trigger] rows[y][x]).is_nonneg(),
{
    (0..config.height).into_par_iter().map(|y| render_row(config, scene, hx, hy, y)).collect()
}

impl Framebuffer {
    /// The rows of the image, the bottom row first.
    pub open spec fn rows(self) -> Seq<Seq<Color>> {
        Seq::new(self.pixels@.len(), |y: int| self.pixels@[y]@)
    }

    /// Whether the image is `height` rows of `width` pixels.
    pub open spec fn has_size(self, width: int, height: int) -> bool {
        &&& self.pixels@.len() == height
        &&& forall|y: int| 0 <= y < height ==> (#[trigger] self.pixels@[y])@.len() == width
    }

    /// The pixels in scan order: the top row, which is the last, comes first, and every row
    /// runs from left to right.
    pub open spec fn scan_order(self, width: int) -> Seq<Color> {
        Seq::new(
            (self.pixels@.len() * width) as nat,
            |k: int| self.pixels@[self.pixels@.len() - 1 - k / width]@[k % width],
        )
    }

    /// The pixels in scan order.
    pub fn scanlines(&self, width: usize) -> (out: Vec<Color>)
        requires
            width >= 1,
            self.has_size(width as int, self.pixels@.len() as int),
        ensures
            out@ == self.scan_order(width as int),
    {
        let height = self.pixels.len();
        let mut out: Vec<Color> = Vec::new();
        let mut done: usize = 0;
        while done < height
            invariant
                width >= 1,
                height == self.pixels@.len(),
                self.has_size(width as int, height as int),
                done <= height,
                out@.len() == done * width,
                forall|k: int|
                    0 <= k < out@.len() ==> out@[k] == self.pixels@[height - 1 - k / (
                    width as int)]@[k % (width as int)],
            decreases height - done,
        {
            let y = height - 1 - done;
            let row = &self.pixels[y];
            let mut x: usize = 0;
            while x < width
                invariant
                    width >= 1,
                    height == self.pixels@.len(),
                    self.has_size(width as int, height as int),
                    done < height,
                    y == height - 1 - done,
                    row == self.pixels@[y as int],
                    row@.len() == width,
                    x <= width,
                    out@.len() == done * width + x,
                    forall|k: int|
                        0 <= k < out@.len() ==> out@[k] == self.pixels@[height - 1 - k / (
                        width as int)]@[k % (width as int)],
                decreases width - x,
            {
                proof {
                    let k = done * width + x;
                    vstd::arithmetic::div_mod::lemma_fundamental_div_mod_converse(
                        k,
                        width as int,
                        done as int,
                        x as int,
                    );
                }
                out.push(row[x]);
                x += 1;
            }
            proof {
                assert(done * width + width == (done + 1) * width) by (nonlinear_arith);
            }
            done += 1;
        }
        assert(out@ =~= self.scan_order(width as int));
        out
    }
}

/// Renders the image with the samples jittered by the given two sequences: every row by
/// itself, the rows in parallel, each pixel written once, by the worker that rendered its
/// row.
pub fn render_with<C: Camera + Sync, W: Boundable + Sync, L: Light + Sync>(
    config: &RenderConfig,
    scene: &Scene<C, W, L>,
    hx: &Vec<i64>,
    hy: &Vec<i64>,
) -> (image: Framebuffer) where W::Material: Material
    requires
        config.is_valid(),
        hx.len() >= config.samples_per_pixel,
        hy.len() >= config.samples_per_pixel,
    ensures
        image.has_size(config.width as int, config.height as int),
        scene.is_image(*config, hx@, hy@, image.rows()),
        scene.is_physical() ==> forall|y: int, x: int|
            0 <= y < config.height && 0 <= x < config.width ==> (
            #[trigger] image.rows()[y][x]).is_nonneg(),
{
    let pixels = render_rows(config, scene, hx, hy);
    let image = Framebuffer { pixels };
    proof {
        assert forall|y: int| 0 <= y < config.height implies scene.is_row(
            *config,
            hx@,
            hy@,
            y,
            #[trigger] image.rows()[y],
        ) by {
            assert(image.rows()[y] == image.pixels@[y]@);
        }
    }
    image
}

/// Renders the image, the samples of every pixel jittered by the Halton sequences to the
/// bases two and three. There can be no more samples to the pixel than the sequences have
/// terms.
pub fn render<C: Camera + Sync, W: Boundable + Sync, L: Light + Sync>(
    config: &RenderConfig,
    scene: &Scene<C, W, L>,
) -> (image: Framebuffer) where W::Material: Material
    requires
        config.is_valid(),
        config.samples_per_pixel <= HALTON_TERMS,
    ensures
        image.has_size(config.width as int, config.height as int),
        scene.is_image(
            *config,
            halton_terms(2, config.samples_per_pixel as int),
            halton_terms(3, config.samples_per_pixel as int),
            image.rows(),
        ),
        scene.is_physical() ==> forall|y: int, x: int|
            0 <= y < config.height && 0 <= x < config.width ==> (
            #[trigger] image.rows()[y][x]).is_nonneg(),
{
    // deterministic and low-discrepancy sequences for the samples
    let hx = halton(2, config.samples_per_pixel);
    let hy = halton(3, config.samples_per_pixel);
    render_with(config, scene, &hx, &hy)
}

} // verus!
