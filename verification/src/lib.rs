//! A Monte-Carlo path tracer over fixed-point arithmetic: axis-aligned
//! bounding boxes, a bounding-volume hierarchy for ray queries, materials,
//! textures, and the recursive ray-color integrator.

pub mod aabb;
pub mod bvh;
pub mod camera;
pub mod constant_medium;
pub mod fixed;
pub mod hittable;
pub mod material;
pub mod perlin;
pub mod quad;
pub mod ray;
pub mod rng;
pub mod scene;
pub mod sphere;
pub mod texture;
pub mod vector;
