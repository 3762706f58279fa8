//! The decisions of a sphere path tracer, verified.
//!
//! A path tracer multiplies and adds floating-point numbers, and between the
//! sums it decides: which root of a quadratic is the hit, which member of a
//! scene is nearest, whether a surface scatters a ray or absorbs it, when the
//! recursion stops, which byte a radiance becomes, where a pixel lands in the
//! output. This crate holds those decisions. Numbers reach it as IEEE 754
//! binary32 encodings, and each contract speaks of the exact values that the
//! encodings denote.
//!
//! - [`scalar`]: a number as its encoding, its value, and its comparisons.
//! - [`vec3`]: triples of numbers, the rules of the random samplers, and the
//!   bytes of a colour.
//! - [`ray`]: rays.
//! - [`hittable`]: spheres, scenes, and the hit that a ray sees.
//! - [`material`]: matte, metal and glass surfaces.
//! - [`integrator`]: the walk of a ray from bounce to bounce.
//! - [`image`]: the order of the pixels and the text of a pixel map.

pub mod scalar;
pub mod vec3;
pub mod ray;
pub mod material;
pub mod hittable;
pub mod integrator;
pub mod image;
