//! 24-bit RGB colors.

use vstd::prelude::*;

verus! {

/// An RGB color with 8 bits per channel.
#[derive(Clone, Copy, Debug, PartialEq, Eq, Structural)]
pub struct Color {
    pub r: u8,
    pub g: u8,
    pub b: u8,
}

impl Color {
    /// The color packed as `0xRRGGBB`, as a mathematical integer.
    pub open spec fn packed(self) -> int {
        self.r * 65536 + self.g * 256 + self.b
    }

    /// The color whose channels are the three low bytes of `hex`;
    /// the top byte is ignored.
    pub open spec fn unpacked(hex: u32) -> Color {
        Color {
            r: ((hex / 65536) % 256) as u8,
            g: ((hex / 256) % 256) as u8,
            b: (hex % 256) as u8,
        }
    }

    pub fn new(r: u8, g: u8, b: u8) -> (c: Color)
        ensures
            c == (Color { r, g, b }),
    {
        Color { r, g, b }
    }

    /// Builds a color from a packed `0xRRGGBB` value.
    pub fn from_hex(hex: u32) -> (c: Color)
        ensures
            c == Color::unpacked(hex),
    {
        assert((hex >> 16u32) & 0xFF == (hex / 65536) % 256) by (bit_vector);
        assert((hex >> 8u32) & 0xFF == (hex / 256) % 256) by (bit_vector);
        assert(hex & 0xFF == hex % 256) by (bit_vector);
        let r = ((hex >> 16u32) & 0xFF) as u8;
        let g = ((hex >> 8u32) & 0xFF) as u8;
        let b = (hex & 0xFF) as u8;
        Color { r, g, b }
    }

    /// Packs the color as `0xRRGGBB`.
    pub fn to_hex(&self) -> (hex: u32)
        ensures
            hex == self.packed(),
    {
        let r = self.r as u32;
        let g = self.g as u32;
        let b = self.b as u32;
        assert((r << 16u32) | (g << 8u32) | b == r * 65536 + g * 256 + b) by (bit_vector)
            requires
                r < 256,
                g < 256,
                b < 256,
        ;
        (r << 16u32) | (g << 8u32) | b
    }

    /// Channel-wise sum, each channel saturating at 255.
    pub fn sum(&self, other: &Color) -> (c: Color)
        ensures
            c.r == if self.r + other.r > 255 { 255 } else { self.r + other.r },
            c.g == if self.g + other.g > 255 { 255 } else { self.g + other.g },
            c.b == if self.b + other.b > 255 { 255 } else { self.b + other.b },
    {
        let r = self.r.saturating_add(other.r);
        let g = self.g.saturating_add(other.g);
        let b = self.b.saturating_add(other.b);
        Color { r, g, b }
    }

    /// Scales every channel by `constant / 255`, rounding down.
    pub fn multiply(&self, constant: u8) -> (c: Color)
        ensures
            c.r == self.r * constant / 255,
            c.g == self.g * constant / 255,
            c.b == self.b * constant / 255,
    {
        let r = Self::scale(self.r, constant);
        let g = Self::scale(self.g, constant);
        let b = Self::scale(self.b, constant);
        Color { r, g, b }
    }

    fn scale(channel: u8, constant: u8) -> (scaled: u8)
        ensures
            scaled == channel * constant / 255,
    {
        assert(channel * constant <= 255 * 255) by (nonlinear_arith)
            requires
                channel <= 255,
                constant <= 255,
        ;
        let product: u32 = channel as u32 * constant as u32;
        (product / 255) as u8
    }
}

/// Packing a color and unpacking the result gives the color back;
/// unpacking a value and packing the result keeps its three low bytes.
pub proof fn lemma_hex_round_trip(c: Color, hex: u32)
    ensures
        0 <= c.packed() <= 0xFFFFFF,
        Color::unpacked(c.packed() as u32) == c,
        Color::unpacked(hex).packed() == hex % 0x1000000,
{
    let r = c.r as int;
    let g = c.g as int;
    let b = c.b as int;
    let p = c.packed();
    vstd::arithmetic::div_mod::lemma_fundamental_div_mod_converse(p, 256, r * 256 + g, b);
    vstd::arithmetic::div_mod::lemma_fundamental_div_mod_converse(p / 256, 256, r, g);
    vstd::arithmetic::div_mod::lemma_fundamental_div_mod_converse(p, 65536, r, g * 256 + b);
    assert(r % 256 == r);
    assert(Color::unpacked(hex).packed() == hex % 0x1000000) by (bit_vector)
        requires
            Color::unpacked(hex).packed() == ((hex / 65536) % 256) * 65536 + ((hex / 256) % 256)
                * 256 + hex % 256,
    ;
}

} // verus!
