use vstd::prelude::*;
use crate::pixel::{Pixel, pixel_wf, to_color_spec, unpremul_a, unpremul_ch, lemma_unpremul_ch_bounds};

verus! {

/// One in 16.16 fixed point: the scale of all color channels and of all
/// device coordinates in this crate.
pub const FX_ONE: i32 = 0x10000;

/// `255.99998`, in 16.16 fixed point: the multiplier that maps a unit-range
/// channel onto the 8-bit range so that exactly the top value reaches 255.
pub const FX_CHANNEL_SCALE: i64 = 0xFFFFFF;

/// An ARGB color with unit-range channels in 16.16 fixed point.
///
/// Channels are straight (not premultiplied) and need not be clamped;
/// `pin_to_unit` clamps them to `[0, FX_ONE]`.
#[derive(Copy, Clone, PartialEq, Eq, Structural, Debug)]
pub struct Color {
    pub a: i32,
    pub r: i32,
    pub g: i32,
    pub b: i32,
}

/// Clamps a channel to the unit range `[0, FX_ONE]`.
pub open spec fn pin_ch(v: int) -> int {
    if v < 0 {
        0
    } else if v > 0x10000 {
        0x10000
    } else {
        v
    }
}

/// The 8-bit alpha scale of a pinned alpha channel, in 16.16 fixed point:
/// `a * 255.99998`.
pub open spec fn a255_of(a: int) -> int {
    pin_ch(a) * 0xFFFFFF / 0x10000
}

/// One premultiplied 8-bit color channel: the pinned channel times the
/// alpha scale, quantized by truncation.
pub open spec fn premul_ch(c: int, a: int) -> int {
    pin_ch(c) * a255_of(a) / 0x100000000
}

/// The premultiplied 8-bit pixel of a color: clamp to the unit range, then
/// scale every channel by `a * 255.99998` and truncate.
pub open spec fn to_pixel_spec(c: Color) -> Pixel {
    Pixel {
        a: (a255_of(c.a as int) / 0x10000) as u8,
        r: premul_ch(c.r as int, c.a as int) as u8,
        g: premul_ch(c.g as int, c.a as int) as u8,
        b: premul_ch(c.b as int, c.a as int) as u8,
    }
}

/// The alpha scale of a pinned channel stays within the 8.16 range.
pub proof fn lemma_a255_bounds(a: int)
    ensures
        0 <= a255_of(a) <= 0xFFFFFF,
{
    assert(pin_ch(a) * 0xFFFFFF <= 0x10000 * 0xFFFFFF) by (nonlinear_arith)
        requires 0 <= pin_ch(a) <= 0x10000;
    assert(pin_ch(a) * 0xFFFFFF >= 0) by (nonlinear_arith)
        requires pin_ch(a) >= 0;
}

/// A premultiplied channel stays in the 8-bit range and below the pixel's
/// alpha, so `to_pixel` always yields a well-formed premultiplied pixel.
pub proof fn lemma_premul_ch_bounds(c: int, a: int)
    ensures
        0 <= premul_ch(c, a) <= a255_of(a) / 0x10000,
        a255_of(a) / 0x10000 <= 255,
{
    lemma_a255_bounds(a);
    let a255 = a255_of(a);
    assert(pin_ch(c) * a255 >= 0) by (nonlinear_arith)
        requires pin_ch(c) >= 0 && a255 >= 0;
    assert(pin_ch(c) * a255 <= 0x10000 * a255) by (nonlinear_arith)
        requires pin_ch(c) <= 0x10000 && a255 >= 0;
    assert(0x10000 * a255 / 0x100000000 == a255 / 0x10000) by (nonlinear_arith)
        requires 0 <= a255 <= 0xFFFFFF;
    assert(pin_ch(c) * a255 / 0x100000000 <= 0x10000 * a255 / 0x100000000) by (nonlinear_arith)
        requires pin_ch(c) * a255 <= 0x10000 * a255;
}

/// One channel of an opaque pixel survives the straight-color round trip
/// exactly.
proof fn lemma_channel_rt_opaque(c: int)
    requires
        0 <= c <= 255,
    ensures
        premul_ch(unpremul_ch(c, 255), 0x10000) == c,
{
    let q = unpremul_ch(c, 255);
    assert(a255_of(0x10000) == 0xFFFFFF);
    assert(255 * q <= c * 0x10000 + 127 < 255 * q + 255) by (nonlinear_arith)
        requires q == (c * 0x10000 + 127) / 255 && c >= 0;
    assert(0 <= q <= 0x10000) by (nonlinear_arith)
        requires 255 * q <= c * 0x10000 + 127 < 255 * q + 255 && 0 <= c <= 255;
    assert(pin_ch(q) == q);
    if c == 0 {
        assert(q == 0);
        assert(premul_ch(0, 0x10000) == 0);
    } else if c == 255 {
        assert(q == 0x10000);
        assert(premul_ch(0x10000, 0x10000) == 255);
    } else {
        // 0xFFFFFF == 255 * 0x10101, so the quotient bounds scale to
        // c * 0x100000000 <= q * 0xFFFFFF < (c + 1) * 0x100000000.
        assert(q * 0xFFFFFF >= (c * 0x10000 - 127) * 0x10101) by (nonlinear_arith)
            requires 255 * q >= c * 0x10000 - 127;
        assert(q * 0xFFFFFF <= (c * 0x10000 + 127) * 0x10101) by (nonlinear_arith)
            requires 255 * q <= c * 0x10000 + 127;
        assert((c * 0x10000 - 127) * 0x10101 >= c * 0x100000000) by (nonlinear_arith)
            requires 1 <= c;
        assert((c * 0x10000 + 127) * 0x10101 < (c + 1) * 0x100000000) by (nonlinear_arith)
            requires c <= 254;
        assert(q * 0xFFFFFF / 0x100000000 == c) by (nonlinear_arith)
            requires c * 0x100000000 <= q * 0xFFFFFF < (c + 1) * 0x100000000;
    }
}

/// The alpha channel survives the straight-color round trip exactly, for
/// every alpha.
proof fn lemma_alpha_rt(a: int)
    requires
        0 <= a <= 255,
    ensures
        a255_of(unpremul_a(a)) / 0x10000 == a,
{
    let af = unpremul_a(a);
    assert(255 * af <= a * 0x10000 + 127 && 255 * af >= a * 0x10000 - 127) by (nonlinear_arith)
        requires af == (a * 0x10000 + 127) / 255 && a >= 0;
    assert(0 <= af <= 0x10000) by (nonlinear_arith)
        requires 255 * af <= a * 0x10000 + 127 && 255 * af >= a * 0x10000 - 127 && 0 <= a <= 255;
    assert(pin_ch(af) == af);
    let ax = a255_of(af);
    assert(0x10000 * ax <= af * 0xFFFFFF && 0x10000 * ax >= af * 0xFFFFFF - 0xFFFF)
        by (nonlinear_arith)
        requires ax == af * 0xFFFFFF / 0x10000 && af >= 0;
    if a == 0 {
        assert(af == 0);
        assert(ax == 0);
    } else if a == 255 {
        assert(af == 0x10000);
        assert(ax == 0xFFFFFF);
    } else {
        // 0xFFFFFF == 255 * 65793, so the quotient bounds on af scale up.
        assert(af * 0xFFFFFF >= (a * 0x10000 - 127) * 65793) by (nonlinear_arith)
            requires 255 * af >= a * 0x10000 - 127;
        assert(af * 0xFFFFFF <= (a * 0x10000 + 127) * 65793) by (nonlinear_arith)
            requires 255 * af <= a * 0x10000 + 127;
        assert(0x10000 * ax >= 0x10000 * (a * 0x10000)) by (nonlinear_arith)
            requires
                0x10000 * ax >= (a * 0x10000 - 127) * 65793 - 0xFFFF,
                a >= 1;
        assert(0x10000 * ax < 0x10000 * ((a + 1) * 0x10000)) by (nonlinear_arith)
            requires
                0x10000 * ax <= (a * 0x10000 + 127) * 65793,
                a <= 254;
        assert(ax / 0x10000 == a) by (nonlinear_arith)
            requires 0x10000 * (a * 0x10000) <= 0x10000 * ax < 0x10000 * ((a + 1) * 0x10000);
    }
}

/// A color channel survives the straight-color round trip exactly, for
/// every alpha: dividing the alpha out with rounding and premultiplying
/// again reproduces the stored channel.
#[verifier::rlimit(100)]
proof fn lemma_channel_rt(r: int, a: int)
    requires
        0 <= r <= a <= 255,
    ensures
        premul_ch(unpremul_ch(r, a), unpremul_a(a)) == r,
{
    if a == 0 {
        assert(unpremul_ch(0, 0) == 0);
        assert(unpremul_a(0) == 0);
        assert(a255_of(0) == 0);
        assert(premul_ch(0, 0) == 0);
        return;
    }
    if a == 255 {
        lemma_channel_rt_opaque(r);
        assert(unpremul_a(255) == 0x10000);
        return;
    }
    if r == 0 {
        let h = a / 2;
        assert(unpremul_ch(0, a) == h / a);
        assert(h / a == 0) by (nonlinear_arith) requires h == a / 2 && 1 <= a;
        let ax0 = a255_of(unpremul_a(a));
        assert(pin_ch(0) == 0);
        assert(0 * ax0 == 0) by (nonlinear_arith);
        assert(premul_ch(0, unpremul_a(a)) == 0 * ax0 / 0x100000000);
        return;
    }

    let h = a / 2;
    let q = unpremul_ch(r, a);
    let af = unpremul_a(a);

    // Quotient bounds for the three divisions involved.
    assert(a * q <= r * 0x10000 + h && a * q >= r * 0x10000 + h - a + 1) by (nonlinear_arith)
        requires q == (r * 0x10000 + h) / a && a >= 1 && r * 0x10000 + h >= 0;
    assert(2 * h >= a - 1 && 2 * h <= a) by (nonlinear_arith) requires h == a / 2 && a >= 0;
    assert(255 * af <= a * 0x10000 + 127 && 255 * af >= a * 0x10000 - 127) by (nonlinear_arith)
        requires af == (a * 0x10000 + 127) / 255 && a >= 0;
    assert(0 < q <= 0x10000) by (nonlinear_arith)
        requires
            a * q <= r * 0x10000 + h,
            a * q >= r * 0x10000 + h - a + 1,
            1 <= r <= a <= 255,
            0 <= 2 * h <= a;
    assert(0 <= af <= 0x10000) by (nonlinear_arith)
        requires 255 * af <= a * 0x10000 + 127 && 255 * af >= a * 0x10000 - 127 && 0 <= a <= 255;
    assert(pin_ch(q) == q);
    assert(pin_ch(af) == af);

    let ax = a255_of(af);
    assert(0x10000 * ax <= af * 0xFFFFFF && 0x10000 * ax >= af * 0xFFFFFF - 0xFFFF)
        by (nonlinear_arith)
        requires ax == af * 0xFFFFFF / 0x10000 && af >= 0;
    assert(af * 0xFFFFFF >= (a * 0x10000 - 127) * 65793) by (nonlinear_arith)
        requires 255 * af >= a * 0x10000 - 127;
    assert(af * 0xFFFFFF <= (a * 0x10000 + 127) * 65793) by (nonlinear_arith)
        requires 255 * af <= a * 0x10000 + 127;
    assert(ax >= 0) by (nonlinear_arith)
        requires
            0x10000 * ax >= (a * 0x10000 - 127) * 65793 - 0xFFFF,
            a >= 1;

    // The product of the lower (upper) bounds bounds the product, and the
    // polynomial inequalities against r * 2^32 have comfortable slack.
    assert((a * q) * (0x10000 * ax) >= (r * 0x10000 + h - a + 1)
        * ((a * 0x10000 - 127) * 65793 - 0xFFFF)) by (nonlinear_arith)
        requires
            a * q >= r * 0x10000 + h - a + 1,
            0x10000 * ax >= (a * 0x10000 - 127) * 65793 - 0xFFFF,
            r * 0x10000 + h - a + 1 > 0,
            (a * 0x10000 - 127) * 65793 - 0xFFFF > 0,
        ;
    assert((r * 0x10000 + h - a + 1) * ((a * 0x10000 - 127) * 65793 - 0xFFFF)
        >= (r * 0x100000000) * (a * 0x10000)) by (nonlinear_arith)
        requires
            1 <= r <= a <= 254,
            2 * h >= a - 1,
            2 * h <= a;
    assert((a * q) * (0x10000 * ax) <= (r * 0x10000 + h)
        * ((a * 0x10000 + 127) * 65793)) by (nonlinear_arith)
        requires
            a * q <= r * 0x10000 + h,
            0x10000 * ax <= (a * 0x10000 + 127) * 65793,
            a * q >= 0,
            0x10000 * ax >= 0,
            r * 0x10000 + h >= 0,
        ;
    assert((r * 0x10000 + h) * ((a * 0x10000 + 127) * 65793)
        < ((r + 1) * 0x100000000) * (a * 0x10000)) by (nonlinear_arith)
        requires
            1 <= r <= a <= 254,
            2 * h >= a - 1,
            2 * h <= a;

    assert(q * ax * (a * 0x10000) == (a * q) * (0x10000 * ax)) by (nonlinear_arith);
    assert(q * ax >= r * 0x100000000) by (nonlinear_arith)
        requires
            q * ax * (a * 0x10000) >= (r * 0x100000000) * (a * 0x10000),
            a >= 1;
    assert(q * ax < (r + 1) * 0x100000000) by (nonlinear_arith)
        requires
            q * ax * (a * 0x10000) < ((r + 1) * 0x100000000) * (a * 0x10000),
            a >= 1;
    assert(q * ax / 0x100000000 == r) by (nonlinear_arith)
        requires r * 0x100000000 <= q * ax < (r + 1) * 0x100000000;
}

/// A premultiplied pixel survives the trip through its straight color and
/// back exactly, whatever its alpha.
pub proof fn lemma_pixel_color_round_trip(p: Pixel)
    requires
        pixel_wf(p),
    ensures
        to_pixel_spec(to_color_spec(p)) == p,
{
    lemma_alpha_rt(p.a as int);
    assert(0 <= unpremul_a(p.a as int) <= 0x10001) by (nonlinear_arith)
        requires p.a <= 255;
    lemma_channel_rt(p.r as int, p.a as int);
    lemma_channel_rt(p.g as int, p.a as int);
    lemma_channel_rt(p.b as int, p.a as int);
    lemma_unpremul_ch_bounds_all(p.r as int, p.a as int);
    lemma_unpremul_ch_bounds_all(p.g as int, p.a as int);
    lemma_unpremul_ch_bounds_all(p.b as int, p.a as int);
}

/// Range of an unpremultiplied channel, including the zero-alpha case.
proof fn lemma_unpremul_ch_bounds_all(c: int, a: int)
    requires
        0 <= c <= 255,
        0 <= a <= 255,
    ensures
        0 <= unpremul_ch(c, a) <= 0x1000000,
{
    if a >= 1 {
        lemma_unpremul_ch_bounds(c, a);
    }
}


impl Color {
    /// Builds a color from four unit-range 16.16 channels.
    pub fn make_argb(a: i32, r: i32, g: i32, b: i32) -> (c: Color)
        ensures
            c == (Color { a, r, g, b }),
    {
        Color { a, r, g, b }
    }

    /// Builds an opaque color from three unit-range 16.16 channels.
    pub fn make_rgb(r: i32, g: i32, b: i32) -> (c: Color)
        ensures
            c == (Color { a: FX_ONE, r, g, b }),
    {
        Color::make_argb(FX_ONE, r, g, b)
    }

    /// Clamps every channel to the unit range `[0, FX_ONE]`.
    pub fn pin_to_unit(&self) -> (c: Color)
        ensures
            c.a == pin_ch(self.a as int),
            c.r == pin_ch(self.r as int),
            c.g == pin_ch(self.g as int),
            c.b == pin_ch(self.b as int),
    {
        let a = crate::util::clamp(0, self.a, FX_ONE);
        let r = crate::util::clamp(0, self.r, FX_ONE);
        let g = crate::util::clamp(0, self.g, FX_ONE);
        let b = crate::util::clamp(0, self.b, FX_ONE);
        Color::make_argb(a, r, g, b)
    }

    /// Converts to a premultiplied 8-bit pixel: clamp to the unit range,
    /// scale every color channel by the alpha scale `a * 255.99998`, and
    /// truncate each channel to 8 bits.
    pub fn to_pixel(&self) -> (p: Pixel)
        ensures
            p == to_pixel_spec(*self),
            pixel_wf(p),
    {
        let uc = self.pin_to_unit();

        let a255: i64 = (uc.a as i64) * FX_CHANNEL_SCALE / (FX_ONE as i64);

        proof {
            lemma_a255_bounds(self.a as int);
            lemma_premul_ch_bounds(self.r as int, self.a as int);
            lemma_premul_ch_bounds(self.g as int, self.a as int);
            lemma_premul_ch_bounds(self.b as int, self.a as int);
        }

        let a = (a255 / (FX_ONE as i64)) as u8;
        let r = ((uc.r as i64) * a255 / 0x100000000) as u8;
        let g = ((uc.g as i64) * a255 / 0x100000000) as u8;
        let b = ((uc.b as i64) * a255 / 0x100000000) as u8;

        Pixel::pack_argb(a, r, g, b)
    }

    pub fn white() -> (c: Color)
        ensures c == (Color { a: FX_ONE, r: FX_ONE, g: FX_ONE, b: FX_ONE }),
    {
        Color::make_rgb(FX_ONE, FX_ONE, FX_ONE)
    }

    pub fn black() -> (c: Color)
        ensures c == (Color { a: FX_ONE, r: 0i32, g: 0i32, b: 0i32 }),
    {
        Color::make_rgb(0, 0, 0)
    }

    pub fn red() -> (c: Color)
        ensures c == (Color { a: FX_ONE, r: FX_ONE, g: 0i32, b: 0i32 }),
    {
        Color::make_rgb(FX_ONE, 0, 0)
    }

    pub fn green() -> (c: Color)
        ensures c == (Color { a: FX_ONE, r: 0i32, g: FX_ONE, b: 0i32 }),
    {
        Color::make_rgb(0, FX_ONE, 0)
    }

    pub fn blue() -> (c: Color)
        ensures c == (Color { a: FX_ONE, r: 0i32, g: 0i32, b: FX_ONE }),
    {
        Color::make_rgb(0, 0, FX_ONE)
    }

    pub fn yellow() -> (c: Color)
        ensures c == (Color { a: FX_ONE, r: FX_ONE, g: FX_ONE, b: 0i32 }),
    {
        Color::make_rgb(FX_ONE, FX_ONE, 0)
    }

    pub fn magenta() -> (c: Color)
        ensures c == (Color { a: FX_ONE, r: FX_ONE, g: 0i32, b: FX_ONE }),
    {
        Color::make_rgb(FX_ONE, 0, FX_ONE)
    }

    pub fn cyan() -> (c: Color)
        ensures c == (Color { a: FX_ONE, r: 0i32, g: FX_ONE, b: FX_ONE }),
    {
        Color::make_rgb(0, FX_ONE, FX_ONE)
    }
}

} // verus!
