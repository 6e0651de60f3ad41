//! A software ray tracer over a raster framebuffer.
//!
//! The scene is a collection of spheres lit by a single point light. All
//! arithmetic is exact fixed-point integer arithmetic: positions and
//! distances are whole scene units, while directions, normals and light
//! intensity are scaled by `geometry::UNIT` (one is `UNIT`). Every function
//! carries a contract that pins its result down to the integer formulas in
//! the accompanying spec functions.
//!
//! Writing the finished raster to an output device is left to the caller;
//! the library only fills the in-memory buffer of a `Display`.

pub mod framebuffer;
pub mod geometry;
pub mod raytracer;
