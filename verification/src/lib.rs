//! Verified core of an offline path tracer.
//!
//! Real numbers are held by the integers that order them ([`scalar`]), so
//! that everything the renderer decides by comparing is decided here:
//! bounding boxes and the slab test ([`aabb`]), the bounding-volume hierarchy
//! and its construction ([`bvh`]), the nearest-hit walk over a hierarchy or a
//! list ([`traversal`], [`hittable_list`], with the proof that both find the
//! same hit in [`closest`]), and the reading of a hit ([`hittable`]). The
//! bounce rule of the integrator is in [`integrator`], the tile schedule that
//! the render workers share in [`raytracer`], the rules on the options of a
//! render in [`args`], and the byte framing of the image files in [`output`].
//! Arithmetic on the numbers, and with it the geometry of rays, surfaces and
//! the camera, is the caller's part.

pub mod aabb;
pub mod args;
pub mod bvh;
pub mod closest;
pub mod color;
pub mod hittable;
pub mod hittable_list;
pub mod integrator;
pub mod output;
pub mod perlin;
pub mod random;
pub mod raytracer;
pub mod scalar;
pub mod traversal;
pub mod vec3;
