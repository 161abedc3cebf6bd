//! A 2D rasterization core: geometric primitives (point, line, circle,
//! triangle) that draw themselves, anti-aliased or not, onto a pixel buffer
//! provided by the `raster` crate.
//!
//! All pixel selection is done in integer arithmetic, exactly as the classic
//! midpoint and Bresenham derivations demand; every rasterizer is specified by
//! the sequence of pixel writes it emits.

pub mod canvas;
pub mod color;
pub mod geometric;
pub mod graphic;
