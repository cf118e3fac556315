//! The generator interface, and the generators whose logic is exact integer
//! work: the game of life, moving blocks, random walkers, a text overlay, and
//! a QR code drawn as an image of half-block glyphs.
use vstd::prelude::*;

use crate::frame::Frame;

pub mod gol;
pub mod grid;
pub mod moving_blocks;
pub mod pixel;
pub mod qrcode;
pub mod random_walkers;
pub mod text_overlay;

pub use gol::GOL;
pub use grid::BoolMatrix;
pub use moving_blocks::MovingBlocks;
pub use pixel::Pixels;
pub use qrcode::QrCode;
pub use random_walkers::RandomWalkers;
pub use text_overlay::TextOverlay;

verus! {

/// A visual generator: each call of `render` draws its next step into the
/// frame it is handed, keeping the frame's size.
pub trait Animation {
    /// The name of the animation.
    fn name(&self) -> &'static str;

    /// The author of the animation.
    fn author(&self) -> &'static str;

    /// Writes the next animation step into the given frame.
    fn render(&mut self, frame: &mut Frame)
        requires
            old(frame).wf(),
        ensures
            final(frame).wf(),
            final(frame).x == old(frame).x,
            final(frame).y == old(frame).y,
    ;
}

} // verus!
