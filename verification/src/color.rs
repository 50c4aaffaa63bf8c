//! A color value carried through the engine as plain data.

use vstd::prelude::*;

verus! {

/// An RGBA color. Each channel is a 16-bit fixed-point fraction of full
/// intensity: 0 means none, `u16::MAX` means full. The engine never
/// interprets channel values; it only copies them into drawing commands,
/// and the renderer maps them to its own color space.
#[derive(Debug, Copy, Clone, PartialEq, Eq, Structural)]
pub struct Rgba {
    pub r: u16,
    pub g: u16,
    pub b: u16,
    pub a: u16,
}

impl Rgba {
    pub fn new(r: u16, g: u16, b: u16, a: u16) -> (c: Rgba)
        ensures
            c == (Rgba { r, g, b, a }),
    {
        Rgba { r, g, b, a }
    }
}

} // verus!
