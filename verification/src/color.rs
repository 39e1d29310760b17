use vstd::prelude::*;

verus! {

/// A color as `0xRRGGBBAA`: red, green, blue and alpha bytes, most significant first.
#[derive(Clone, Copy, Debug, PartialEq, Eq, Structural)]
pub struct Color(pub u32);

/// The byte of `color` that starts `shift` bits from the least significant end.
pub open spec fn color_byte(color: u32, shift: u32) -> u8 {
    ((color as nat / pow2_u32(shift)) % 256) as u8
}

/// Two to the power `shift`, for the byte positions of a color.
pub open spec fn pow2_u32(shift: u32) -> nat {
    if shift == 24 {
        0x1000000
    } else if shift == 16 {
        0x10000
    } else if shift == 8 {
        0x100
    } else {
        1
    }
}

impl Color {
    /// The red, green, blue and alpha bytes of the color.
    pub fn channels(self) -> (c: (u8, u8, u8, u8))
        ensures
            c.0 == color_byte(self.0, 24),
            c.1 == color_byte(self.0, 16),
            c.2 == color_byte(self.0, 8),
            c.3 == color_byte(self.0, 0),
    {
        let v = self.0;
        let r = (v >> 24u32) & 0xFF;
        let g = (v >> 16u32) & 0xFF;
        let b = (v >> 8u32) & 0xFF;
        let a = v & 0xFF;
        assert(r == (v / 0x1000000) % 256) by (bit_vector)
            requires
                r == (v >> 24u32) & 0xFF,
        ;
        assert(g == (v / 0x10000) % 256) by (bit_vector)
            requires
                g == (v >> 16u32) & 0xFF,
        ;
        assert(b == (v / 0x100) % 256) by (bit_vector)
            requires
                b == (v >> 8u32) & 0xFF,
        ;
        assert(a == v % 256) by (bit_vector)
            requires
                a == v & 0xFF,
        ;
        (r as u8, g as u8, b as u8, a as u8)
    }
}

} // verus!

verus! {

/// The four channel bytes of a color put back together give the color.
pub proof fn law_channels_recompose(color: Color)
    ensures
        color_byte(color.0, 24) * 0x1000000 + color_byte(color.0, 16) * 0x10000 + color_byte(color.0, 8) * 0x100
            + color_byte(color.0, 0) == color.0,
{
    let v = color.0;
    let r = (v as nat / 0x1000000) % 256;
    let g = (v as nat / 0x10000) % 256;
    let b = (v as nat / 0x100) % 256;
    let a = v as nat % 256;
    assert(r * 0x1000000 + g * 0x10000 + b * 0x100 + a == v) by (nonlinear_arith)
        requires
            r == (v as nat / 0x1000000) % 256,
            g == (v as nat / 0x10000) % 256,
            b == (v as nat / 0x100) % 256,
            a == v as nat % 256,
            v <= 0xFFFFFFFF,
    ;
}

} // verus!
