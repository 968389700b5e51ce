//! The verified core of a software 3D renderer.
//!
//! - `transform`: fixed-point matrices, the vertex transform and the perspective divide
//! - `view`: the look-at view matrix and the orthonormality of its basis
//! - `raster`: fixed-point triangle rasterization with exact barycentric weights
//! - `lighting`: per-fragment attribute interpolation and Lambertian lighting
//! - `vector`: fixed-point vectors and their normalization
//! - `framebuffer`: color and depth storage with a closer-wins depth test
//! - `render`: depth-tested writes of shaded fragments
//! - `noise`: the integer decisions of the procedural noise functions

pub mod framebuffer;
pub mod lighting;
pub mod noise;
pub mod raster;
pub mod render;
pub mod transform;
pub mod vector;
pub mod view;
