use vstd::prelude::*;
use crate::color::Color;

verus! {

/// A premultiplied-alpha ARGB pixel with four 8-bit channels.
///
/// The color channels are stored already scaled by the alpha channel, so a
/// well-formed pixel never has a color channel above its alpha channel.
#[derive(Copy, Clone, PartialEq, Eq, Structural, Debug)]
pub struct Pixel {
    pub a: u8,
    pub r: u8,
    pub g: u8,
    pub b: u8,
}

/// Premultiplied form: no color channel exceeds the alpha channel.
pub open spec fn pixel_wf(p: Pixel) -> bool {
    p.r <= p.a && p.g <= p.a && p.b <= p.a
}

impl Pixel {
    /// Packs four channels that are already in premultiplied form.
    pub fn pack_argb(a: u8, r: u8, g: u8, b: u8) -> (p: Pixel)
        requires
            r <= a,
            g <= a,
            b <= a,
        ensures
            p == (Pixel { a, r, g, b }),
            pixel_wf(p),
    {
        Pixel { a, r, g, b }
    }

    /// Packs an opaque pixel from plain color channels.
    pub fn pack_rgb(r: u8, g: u8, b: u8) -> (p: Pixel)
        ensures
            p == (Pixel { a: 255u8, r, g, b }),
            pixel_wf(p),
    {
        Pixel::pack_argb(255, r, g, b)
    }

    /// Converts back to a straight (unpremultiplied) color: the alpha
    /// channel becomes `a / 255` and each color channel becomes `c / a`,
    /// both rounded to nearest in 16.16 fixed point.
    pub fn to_color(&self) -> (c: Color)
        ensures
            c == to_color_spec(*self),
    {
        let a_fx = (((self.a as i64) * 0x10000 + 127) / 255) as i32;

        if self.a == 0 {
            return Color::make_argb(a_fx, 0, 0, 0);
        }

        let a = self.a as i64;
        proof {
            lemma_unpremul_ch_bounds(self.r as int, self.a as int);
            lemma_unpremul_ch_bounds(self.g as int, self.a as int);
            lemma_unpremul_ch_bounds(self.b as int, self.a as int);
        }
        let r_fx = (((self.r as i64) * 0x10000 + a / 2) / a) as i32;
        let g_fx = (((self.g as i64) * 0x10000 + a / 2) / a) as i32;
        let b_fx = (((self.b as i64) * 0x10000 + a / 2) / a) as i32;

        Color::make_argb(a_fx, r_fx, g_fx, b_fx)
    }
}

/// The 16.16 alpha channel of a pixel's color: `a / 255`, rounded to
/// nearest.
pub open spec fn unpremul_a(a: int) -> int {
    (a * 0x10000 + 127) / 255
}

/// A 16.16 straight color channel of a pixel: `c / a`, rounded to nearest,
/// or zero for a fully transparent pixel.
pub open spec fn unpremul_ch(c: int, a: int) -> int {
    if a == 0 {
        0
    } else {
        (c * 0x10000 + a / 2) / a
    }
}

/// The straight color of a premultiplied pixel.
pub open spec fn to_color_spec(p: Pixel) -> Color {
    Color {
        a: unpremul_a(p.a as int) as i32,
        r: unpremul_ch(p.r as int, p.a as int) as i32,
        g: unpremul_ch(p.g as int, p.a as int) as i32,
        b: unpremul_ch(p.b as int, p.a as int) as i32,
    }
}

/// An unpremultiplied channel of an 8-bit pixel stays well inside the
/// 16.16 range.
pub proof fn lemma_unpremul_ch_bounds(c: int, a: int)
    requires
        0 <= c <= 255,
        1 <= a <= 255,
    ensures
        0 <= unpremul_ch(c, a) <= 0x1000000,
{
    let h = a / 2;
    assert(0 <= h <= 127);
    let num = c * 0x10000 + h;
    assert(0 <= num <= 255 * 0x10000 + 127);
    assert(0 <= num / a <= num) by (nonlinear_arith)
        requires num >= 0 && a >= 1;
}

} // verus!
