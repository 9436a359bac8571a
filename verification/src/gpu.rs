//! The scene description handed to the GPU renderer: flat arrays of spheres,
//! materials and textures, and a bounding-volume hierarchy flattened into an
//! array of nodes.

pub mod ppm;
pub mod scene;
