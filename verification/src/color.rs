//! RGBA colors and palettes.
//!
//! The index of a color inside a [`Palette`] is its color id: track `i` of the
//! generated MIDI file plays palette color `i`.

use vstd::prelude::*;

verus! {

/// An 8-bit-per-channel RGBA color. Pixels with `a < 128` count as
/// transparent and never produce notes.
#[derive(Clone, Copy, Debug, Default, PartialEq, Eq, Hash, Structural)]
pub struct Color {
    /// Red channel.
    pub r: u8,
    /// Green channel.
    pub g: u8,
    /// Blue channel.
    pub b: u8,
    /// Alpha channel; values below 128 count as transparent.
    pub a: u8,
}

/// Opaque black, as a value usable in specifications.
pub open spec fn black_color() -> Color {
    Color { r: 0, g: 0, b: 0, a: 255 }
}

/// Whether a color counts as opaque (alpha at least 128).
pub open spec fn is_opaque(c: Color) -> bool {
    c.a >= 128
}

impl Color {
    /// Opaque black (`#000000`).
    pub fn black() -> (c: Color)
        ensures
            c == black_color(),
    {
        Color { r: 0, g: 0, b: 0, a: 255 }
    }

    /// Create a color from its four channels.
    pub fn new(r: u8, g: u8, b: u8, a: u8) -> (c: Color)
        ensures
            c == (Color { r, g, b, a }),
    {
        Color { r, g, b, a }
    }
}

/// An ordered list of colors; the index of a color is its track number.
#[derive(Clone, Debug, Default)]
pub struct Palette {
    /// The palette entries.
    pub colors: Vec<Color>,
}

impl Palette {
    /// Wrap a vector of colors into a palette.
    pub fn new(colors: Vec<Color>) -> (p: Palette)
        ensures
            p.colors@ == colors@,
    {
        Palette { colors }
    }
}

} // verus!
