//! The core of a software renderer: primitive assembly, triangle
//! rasterization on a fixed-point screen, shader selection, and a
//! depth-tested framebuffer with line and path overlays.
//!
//! The library works on integers only. A caller transforms its vertices to
//! screen space and hands them over in fixed point; the library assembles
//! and rasterizes them, calls back for the colour and the depth of each
//! sample, and writes the fragments through the depth test.
//!
//! Triangles are given in fixed point, 256 steps to the pixel, and cover
//! the pixels whose centres they hold; lines and paths run between whole
//! pixels. Depths are unsigned keys that compare as the depths do, with the
//! largest key for "infinitely far".

pub mod assembly;
pub mod color;
pub mod coverage;
pub mod depth;
pub mod fragment;
pub mod framebuffer;
pub mod geometry;
pub mod grid;
pub mod line;
pub mod overlay;
pub mod raster;
pub mod render;
pub mod sample;
pub mod shader;
