//! A bounding-volume hierarchy for ray queries, over fixed-point coordinates.
//!
//! Coordinates are `i64` values in a unit of length that the caller picks
//! (for instance 1/1024 of a scene unit). All arithmetic on them is exact,
//! so the ray/box test decides geometric facts rather than approximating them.
//!
//! - `intervals`: closed ranges on one axis, their intersection and cover.
//! - `slab`: the parameters along a ray at which it lies within one slab.
//! - `boundingvolume`: axis-aligned boxes, the ray/box test, and the
//!   hierarchy: its build and its pruned depth-first walk.
//! - `geometry`: the boxes of scene objects.
pub mod boundingvolume;
pub mod geometry;
pub mod intervals;
pub mod ray;
pub mod slab;
pub mod vector;
