//! Pixel grids: the carrier and stego images as plain values.

use vstd::prelude::*;

verus! {

/// One 4-channel 8-bit pixel. Only the red channel ever carries payload data.
#[derive(Clone, Copy, PartialEq, Eq, Structural, Debug)]
pub struct Pixel {
    pub r: u8,
    pub g: u8,
    pub b: u8,
    pub a: u8,
}

/// A 2-D grid of pixels, stored row-major: the pixel at column `x` of row
/// `y` is `pixels[y * width + x]`.
#[derive(Debug)]
pub struct PixelGrid {
    pub width: usize,
    pub height: usize,
    pub pixels: Vec<Pixel>,
}

impl PixelGrid {
    /// A grid is well-formed when it is at least 2 by 2 and holds exactly
    /// one pixel per cell.
    pub open spec fn wf(self) -> bool {
        &&& self.width >= 2
        &&& self.height >= 2
        &&& self.pixels@.len() == self.width * self.height
    }
}

} // verus!
