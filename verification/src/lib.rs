//! A small verified 2D software rasterizer.
//!
//! The pipeline takes vector primitives (rectangles, triangles, convex
//! polygons) together with a shader (constant color or sampled bitmap) and a
//! current transform matrix, and produces a premultiplied-alpha ARGB raster
//! image that can be serialized as an ASCII PPM file.
//!
//! All geometry is carried in binary fixed point: device coordinates use
//! 16.16 fixed point (one unit is 1/65536 of a pixel), and the triangle
//! rasterizer works on 28.4 fixed-point vertices derived from them.

pub mod bitmap;
pub mod bounds;
pub mod canvas;
pub mod color;
pub mod matrix;
pub mod pixel;
pub mod point;
pub mod ppm;
pub mod raster;
pub mod rect;
pub mod shader;
pub mod triangle;
pub mod util;
