//! An RGBA color value with 8-bit channels.

use vstd::prelude::*;

verus! {

/// An RGBA color. A plain, freely copied value; the alpha channel is fully
/// opaque (255) unless set explicitly.
#[derive(Clone, Copy, PartialEq, Eq, Structural, Debug)]
pub struct Color {
    /// Red channel.
    pub r: u8,
    /// Green channel.
    pub g: u8,
    /// Blue channel.
    pub b: u8,
    /// Alpha channel.
    pub a: u8,
}

impl Color {
    /// An opaque color from red, green and blue channels.
    pub fn rgb(r: u8, g: u8, b: u8) -> (c: Color)
        ensures
            c == (Color { r, g, b, a: 255 }),
    {
        Color { r, g, b, a: 255 }
    }

    /// A color from all four channels.
    pub fn rgba(r: u8, g: u8, b: u8, a: u8) -> (c: Color)
        ensures
            c == (Color { r, g, b, a }),
    {
        Color { r, g, b, a }
    }

    /// Opaque white.
    pub fn white() -> (c: Color)
        ensures
            c == (Color { r: 255, g: 255, b: 255, a: 255 }),
    {
        Color { r: 255, g: 255, b: 255, a: 255 }
    }

    /// Opaque black, the value a blank buffer is filled with.
    pub fn black() -> (c: Color)
        ensures
            c == (Color { r: 0, g: 0, b: 0, a: 255 }),
    {
        Color { r: 0, g: 0, b: 0, a: 255 }
    }
}

} // verus!
