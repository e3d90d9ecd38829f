//! Pixel buffers, points and palettes.

pub mod pal;
pub mod pixels;
pub mod point;
