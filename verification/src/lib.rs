//! A Monte-Carlo path tracer over fixed-point arithmetic.
//!
//! Geometry, colors and ray parameters are signed 16.16 fixed-point numbers
//! (see `fixed`), so every arithmetic step has an exact integer meaning and
//! the renderer's behaviour is pinned down by contracts: ray/sphere
//! intersection, nearest-hit resolution over a scene, material scattering
//! (diffuse, metal, dielectric), the bounce loop, and the per-pixel sampling
//! driver. Randomness is drawn through an explicit `Sampler`, so a render
//! with a seeded sampler is a mathematical function of its inputs.

pub mod camera;
pub mod color;
pub mod object;
pub mod ppm;
pub mod fixed;
pub mod sampler;
pub mod vector;
