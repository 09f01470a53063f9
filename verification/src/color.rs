//! Opaque colors and the bytes they are stored as.

use vstd::prelude::*;

verus! {

/// The alpha byte of every stored pixel: no pixel is translucent.
pub const OPAQUE: u8 = 255;

/// The four bytes of one pixel in storage order: red, green, blue, alpha.
pub type Rgba = (u8, u8, u8, u8);

/// A color without translucency.
#[derive(Clone, Copy, Debug)]
pub struct Rgb {
    pub r: u8,
    pub g: u8,
    pub b: u8,
}

impl Rgb {
    /// The byte this color stores in channel `c` of a pixel (0 red, 1 green,
    /// 2 blue, 3 alpha).
    pub open spec fn channel(self, c: int) -> u8 {
        if c == 0 {
            self.r
        } else if c == 1 {
            self.g
        } else if c == 2 {
            self.b
        } else {
            OPAQUE
        }
    }

    /// The pixel that painting with this color stores.
    pub open spec fn rgba(self) -> Rgba {
        (self.r, self.g, self.b, OPAQUE)
    }
}

} // verus!
