use vstd::prelude::*;

verus! {

/// A pixel of the frame buffer: blue, green, red and an unused alpha channel.
#[derive(Clone, Copy, Debug, PartialEq, Eq, Structural)]
pub struct Bgra8 {
    pub b: u8,
    pub g: u8,
    pub r: u8,
    pub a: u8,
}

/// The 32-bit word that a display surface reads for a pixel: blue in the
/// lowest byte, then green, red and alpha.
pub open spec fn packed(c: Bgra8) -> int {
    c.b as int + 256 * (c.g as int) + 65536 * (c.r as int) + 16777216 * (c.a as int)
}

impl Default for Bgra8 {
    /// The zero color, which every pixel has after a clear.
    fn default() -> (color: Self)
        ensures
            color == (Bgra8 { b: 0, g: 0, r: 0, a: 0 }),
    {
        Bgra8 { b: 0, g: 0, r: 0, a: 0 }
    }
}

impl Bgra8 {
    /// The pixel packed into one word for readout.
    pub fn to_u32(self) -> (word: u32)
        ensures
            word as int == packed(self),
    {
        (self.b as u32) + 256 * (self.g as u32) + 65536 * (self.r as u32) + 16777216 * (self.a as u32)
    }
}

} // verus!
