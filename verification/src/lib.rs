//! A verified core of a small path tracer over fixed-point arithmetic:
//! axis-aligned bounding boxes with the slab test, sphere intersection, a
//! bounding-volume hierarchy, material scattering and the recursive colour
//! integrator.
use vstd::prelude::*;

pub mod rtweekend;
pub mod vec3;
pub mod ray;
pub mod aabb;
pub mod hittable;
pub mod material;
pub mod sphere;
pub mod hittable_list;
pub mod bvh;
pub mod render;

verus! {

} // verus!
