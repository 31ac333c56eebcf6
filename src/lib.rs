//! Mandelbrot rendering: the integer side of the renderer.
//!
//! The rows of the pixel buffer are split into horizontal bands, each band
//! is filled independently from per-pixel escape counts, and every escape
//! count becomes a grayscale intensity. Command-line pairs such as
//! `800x600` are parsed here as well.
pub mod band;
pub mod intensity;
pub mod pair;
pub mod render;
