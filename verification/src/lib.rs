//! A CPU path tracer whose arithmetic is IEEE-754 binary32, carried as bit
//! patterns and computed in integers, so that every rule of the renderer is
//! stated over exact values.
//!
//! The arithmetic: `scalar` holds the values and their order, `rounding` the
//! rounding to nearest with ties to even, `arith` the four operations,
//! `root` the square root, `convert` the conversions from and to whole
//! numbers, `exact` and `order` what the operations keep exact and in order.
//!
//! The renderer: `vector`, `ray` and `shape` hold the geometry, `material`
//! what becomes of a ray at a hit, `scene` the search for the nearest hit
//! and the estimate of the light along a ray, `render` the camera and the
//! pixel buffer, `color` the encoding of pixels, and `random` the source of
//! the random draws.

pub mod arith;
pub mod color;
pub mod convert;
pub mod exact;
pub mod material;
pub mod order;
pub mod random;
pub mod ray;
pub mod render;
pub mod root;
pub mod rounding;
pub mod scalar;
pub mod scene;
pub mod shape;
pub mod vector;
