//! A small integer-only 2D rasterizer: line segments and scanline-filled
//! polygons drawn into an in-memory pixel surface, with an uncompressed
//! bitmap encoder for the result.

pub mod bmp;
pub mod color;
pub mod fill_rule;
pub mod framebuffer;
pub mod geometry;
pub mod line;
pub mod polygon;
pub mod surface;
