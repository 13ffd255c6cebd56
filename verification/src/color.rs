//! The RGB pixel: three 8-bit channels, no alpha.

use vstd::prelude::*;

verus! {

/// One pixel of an LED strip. The default value is all channels off.
#[derive(Clone, Copy, PartialEq, Eq, Structural, Debug)]
pub struct Rgb {
    pub r: u8,
    pub g: u8,
    pub b: u8,
}

impl Rgb {
    /// The all-off pixel.
    pub fn off() -> (p: Rgb)
        ensures
            p == (Rgb { r: 0, g: 0, b: 0 }),
    {
        Rgb { r: 0, g: 0, b: 0 }
    }
}

impl Default for Rgb {
    fn default() -> (p: Rgb)
        ensures
            p == (Rgb { r: 0, g: 0, b: 0 }),
    {
        Rgb { r: 0, g: 0, b: 0 }
    }
}

/// The pixel `p` with one channel replaced by `byte`: channel 0 is red,
/// 1 is green, 2 is blue. Other channel numbers leave the pixel unchanged.
pub open spec fn with_channel(p: Rgb, channel: int, byte: u8) -> Rgb {
    if channel == 0 {
        Rgb { r: byte, ..p }
    } else if channel == 1 {
        Rgb { g: byte, ..p }
    } else if channel == 2 {
        Rgb { b: byte, ..p }
    } else {
        p
    }
}

} // verus!
