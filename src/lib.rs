//! Straight-alpha "source over" compositing of one RGBA8 image onto another.
//!
//! Buffers are row-major, four bytes (R, G, B, A) per pixel, with no padding
//! between rows. `composite_rgba` lays an overlay over a base at an offset,
//! clipping it to the base, and is proved to compute `composite::composited`
//! exactly without reading or writing past either buffer.

pub mod blend;
pub mod composite;
pub mod geometry;

pub use blend::{blend_alpha, blend_channel, blend_pixel};
pub use composite::composite_rgba;
