//! The verified core of a path tracer: Morton codes, the bounding volume hierarchy, scene
//! tables, texel addressing and the integer side of mesh loading.

pub mod geometry;
pub mod larp;
pub mod material;
pub mod morton;
pub mod renderer;
pub mod scene;
pub mod texture;
