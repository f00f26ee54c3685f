//! Packed colours.
//!
//! A cell of the frame buffer holds red, green and blue with eight bits
//! each, red in bits 16 to 23, green in bits 8 to 15 and blue in bits 0 to 7.
//! The bits above are not used. 0, black, is the value of a pixel on which
//! nothing is drawn.

use crate::raster::CONTOUR;
use vstd::prelude::*;

verus! {

/// A colour with eight bits for each of red, green and blue.
#[derive(Clone, Copy, Debug, PartialEq, Eq, Structural)]
pub struct Color {
    pub r: u8,
    pub g: u8,
    pub b: u8,
}

impl Color {
    /// The colour as one number.
    pub open spec fn packed(self) -> int {
        self.r * 0x1_0000 + self.g * 0x100 + self.b
    }

    /// The colour that the low 24 bits of `packed` hold.
    pub open spec fn unpacked(packed: int) -> Color {
        Color {
            r: ((packed / 0x1_0000) % 0x100) as u8,
            g: ((packed / 0x100) % 0x100) as u8,
            b: (packed % 0x100) as u8,
        }
    }

    /// The colour with the given channels.
    pub fn new(r: u8, g: u8, b: u8) -> (c: Color)
        ensures
            c == (Color { r, g, b }),
    {
        Color { r, g, b }
    }

    /// Packs the colour for the frame buffer.
    pub fn as_u32(&self) -> (packed: u32)
        ensures
            packed == self.packed(),
            packed <= 0xff_ffff,
    {
        let r = self.r as u32;
        let g = self.g as u32;
        let b = self.b as u32;
        let mut color: u32 = r;
        assert(color << 8 == color * 0x100) by (bit_vector)
            requires
                color < 0x100,
        ;
        color = (color << 8) + g;
        assert(color << 8 == color * 0x100) by (bit_vector)
            requires
                color < 0x1_0000,
        ;
        color = (color << 8) + b;
        color
    }

    /// Unpacks a cell of the frame buffer. Bits above the 24th are ignored.
    pub fn as_rgb(color: u32) -> (c: Color)
        ensures
            c == Color::unpacked(color as int),
    {
        assert((color >> 16) & 0xff == (color / 0x1_0000) % 0x100) by (bit_vector);
        assert((color >> 8) & 0xff == (color / 0x100) % 0x100) by (bit_vector);
        assert(color & 0xff == color % 0x100) by (bit_vector);
        Color {
            r: ((color >> 16) & 0xff) as u8,
            g: ((color >> 8) & 0xff) as u8,
            b: (color & 0xff) as u8,
        }
    }
}

/// Unpacking a packed colour gives the colour back, channel for channel.
pub proof fn lemma_unpack_inverts_pack(c: Color)
    ensures
        Color::unpacked(c.packed()) == c,
{
}

/// Packing an unpacked value gives its low 24 bits back.
pub proof fn lemma_pack_inverts_unpack(packed: u32)
    ensures
        Color::unpacked(packed as int).packed() == packed % 0x100_0000,
{
}

/// The rasterizer draws in full green.
pub proof fn lemma_contour_is_green()
    ensures
        CONTOUR == (Color { r: 0, g: 0xff, b: 0 }).packed(),
{
}

} // verus!
