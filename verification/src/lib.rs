//! Geometry kernel of a "Ray Tracing: The Next Week" style renderer, held in
//! exact fixed-point integer arithmetic so that its behaviour can be proved.
//!
//! Every real quantity (a coordinate, a ray parameter, a colour channel) is an
//! integer count of `1 / UNITS_PER_WORLD` (see [`common::UNITS_PER_WORLD`]).

pub mod common;
pub mod interval;
pub mod vec3;
pub mod ray;
pub mod aabb;
pub mod bvh;
pub mod perlin;
pub mod texture;
pub mod material;
pub mod gpu;
