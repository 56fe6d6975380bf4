//! A verified core for Monte Carlo path tracing: a bounding-volume hierarchy over the
//! objects of a scene, a depth-bounded estimator of the radiance along a ray, and a scheduler
//! that renders an image row by row, the rows in parallel.
//!
//! The core computes in integers. Points and directions have three `i64` coordinates, a ray
//! is at `origin + t * dir` at the integer parameter `t`, and a hit lies strictly between the
//! two bounds of the query. Colours, densities and screen coordinates are fixed-point
//! numbers, `i64`s that count 65536ths. Geometry, materials, sampling densities and the
//! camera belong to the caller and are asked through traits; what the core relies on in
//! their answers is stated in its contracts.
//!
//! The traits name the answers of their methods by functions that only proofs use:
//! `spec_hit` for `hit`, `casts` for `get_ray`, and so on. Where a trait is implemented in
//! code that is not verified, such a function can return what the method returns.

pub mod aabb;
pub mod arith;
pub mod bvh;
pub mod color;
pub mod fixed;
pub mod hittable;
pub mod integrator;
pub mod jitter;
pub mod material;
pub mod order;
pub mod pdf;
pub mod ray;
pub mod render;
pub mod vec3;
