//! Procedural character-cell animation: a color model, a frame buffer of
//! glyphs, line clipping and rasterisation, and a playlist scheduler.
pub mod color;
mod random;
pub mod frame;
pub mod utils;
pub mod filters;
pub mod animations;
pub mod schedule;
