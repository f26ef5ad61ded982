//! Escape-time rasterization of the Mandelbrot set: the integer side of it.
//!
//! The floating-point work (mapping a pixel to a complex point and squaring
//! it) is handed in by the caller; this library decides what the iteration
//! result is, which intensity a result gets, how the output buffer splits into
//! bands and where each value is written.
pub mod escape;
pub mod grid;
pub mod intensity;
pub mod render;
