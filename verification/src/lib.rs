//! The core of a software rasterizer.
//!
//! A [`rasterizer::Rasterizer`] owns a frame buffer and a depth buffer. It
//! takes the fragments of projected triangles through a depth test, and it
//! draws lines, polygons, hyperbolas and a crosshair straight into the
//! frame buffer. Every drawing function states the exact set of pixels
//! that it paints.
//!
//! The library computes with integers only. Depths are handed to it as
//! integer keys that keep the order of the single-precision numbers they
//! stand for; colors are four bytes. Transforming, projecting,
//! interpolating and shading, which are arithmetic on reals, are left to
//! the caller.

pub mod color;
pub mod conic;
pub mod crosshair;
pub mod depth;
pub mod line;
pub mod mesh;
pub mod polygon;
pub mod rasterizer;
pub mod shaders;
pub mod texture;
