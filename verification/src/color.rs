//! Colors as RGB triples with 8-bit channels.

use vstd::prelude::*;

verus! {

/// An RGB triple. Channels are 8-bit, the standard RGB space; the PPM
/// formats would allow up to 16 bits per channel, and a buffer's
/// `color_depth` records the nominal maximum, but channel values are not
/// validated against it anywhere (a documented, non-enforced invariant).
#[derive(Copy, Clone, PartialEq, Eq, Structural, Debug)]
pub struct Rgb {
    pub red: u8,
    pub green: u8,
    pub blue: u8,
}

impl Rgb {
    /// Pure white, the brightest gray.
    pub open spec fn white() -> Rgb {
        Rgb { red: 255, green: 255, blue: 255 }
    }

    /// Pure black, the darkest gray.
    pub open spec fn black() -> Rgb {
        Rgb { red: 0, green: 0, blue: 0 }
    }

    /// Make an `Rgb` on grayscale: `0` gives black, `255` gives white.
    pub fn gray(depth: u8) -> (c: Rgb)
        ensures
            c.red == depth,
            c.green == depth,
            c.blue == depth,
    {
        Rgb { red: depth, green: depth, blue: depth }
    }

    /// Function constructor, more succinct than the struct notation.
    pub fn new(red: u8, green: u8, blue: u8) -> (c: Rgb)
        ensures
            c.red == red,
            c.green == green,
            c.blue == blue,
    {
        Rgb { red, green, blue }
    }
}

} // verus!
