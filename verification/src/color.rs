//! Colours and their packed form.
use vstd::prelude::*;

verus! {

/// The packed value that a framebuffer treats as "no colour": a write of it
/// leaves the pixel alone.
pub const EMPTY: u32 = 0;

/// An opaque colour of three 8-bit channels.
#[derive(Clone, Copy, PartialEq, Eq, Structural, Debug)]
pub struct Color {
    pub r: u8,
    pub g: u8,
    pub b: u8,
}

/// The packed form of three channels: `0x00RRGGBB`.
pub open spec fn pack(r: u8, g: u8, b: u8) -> int {
    r * 0x1_0000 + g * 0x100 + b
}

impl Color {
    /// The packed form of this colour, with the top byte zero.
    pub open spec fn hex(self) -> int {
        pack(self.r, self.g, self.b)
    }

    /// The colour held in the low 24 bits of `hex`; the top byte is ignored.
    pub open spec fn of_hex(hex: u32) -> Color {
        Color {
            r: ((hex / 0x1_0000) % 0x100) as u8,
            g: ((hex / 0x100) % 0x100) as u8,
            b: (hex % 0x100) as u8,
        }
    }

    pub fn new(r: u8, g: u8, b: u8) -> (c: Color)
        ensures
            c == (Color { r, g, b }),
    {
        Color { r, g, b }
    }

    /// Unpacks `0x??RRGGBB`.
    pub fn from_hex(hex: u32) -> (c: Color)
        ensures
            c == Color::of_hex(hex),
            c.hex() == hex % 0x100_0000,
    {
        Color {
            r: ((hex / 0x1_0000) % 0x100) as u8,
            g: ((hex / 0x100) % 0x100) as u8,
            b: (hex % 0x100) as u8,
        }
    }

    /// Packs the colour as `0x00RRGGBB`.
    pub fn to_hex(&self) -> (hex: u32)
        ensures
            hex == self.hex(),
            hex < 0x100_0000,
            Color::of_hex(hex) == *self,
    {
        (self.r as u32) * 0x1_0000 + (self.g as u32) * 0x100 + (self.b as u32)
    }
}

/// Packing and unpacking are inverse to each other on the 24 bits that a
/// colour has: unpacking what was packed gives the colour back, and packing
/// what was unpacked gives the low 24 bits back.
pub proof fn lemma_pack_round_trip(c: Color, hex: u32)
    ensures
        0 <= c.hex() < 0x100_0000,
        Color::of_hex(c.hex() as u32) == c,
        Color::of_hex(hex).hex() == hex % 0x100_0000,
        (c.hex() == EMPTY) <==> (c.r == 0 && c.g == 0 && c.b == 0),
{
}

} // verus!
