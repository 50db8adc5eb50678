//! Growth planning for fractal surface detail on triangle meshes.
//!
//! A grown mesh is described symbolically: each output triangle names the base triangle
//! it copies and the chain of base triangles it was placed on. Turning a plan into
//! coordinates is plain geometry, done by the caller.

pub mod plan;
pub mod sampling;
pub mod laws;
