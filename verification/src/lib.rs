//! A small software rasterizer: an in-memory PPM framebuffer with a depth
//! buffer, coordinate wrapping and inversion, an octant-correct integer line
//! rasterizer, a turtle-graphics client, and the two PPM wire encodings with
//! a companion decoder.

pub mod color;
pub mod ppm;
pub mod screen;
pub mod turtle;
pub mod codec;
