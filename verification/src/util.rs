use vstd::prelude::*;
use crate::pixel::{Pixel, pixel_wf};

verus! {

/// The "magic constant" that turns a division by 255 over the 8-bit domain
/// into a multiplication followed by a shift: `255 * 0x10101 == 0xFFFFFF`.
pub const BLEND_MAGIC: u32 = 0x10101;

/// One channel of the source-over blend in its integer "magic constant"
/// form: `sc + round((255 - sa) * dc / 255)`, with ties rounded up, computed
/// as `sc + (((255 - sa) * dc * 0x10101 + 0x800000) / 0x1000000)`.
pub open spec fn blend_ch(sa: int, sc: int, dc: int) -> int {
    sc + ((255 - sa) * dc * 0x10101 + 0x800000) / 0x1000000
}

/// Source-over compositing of two premultiplied pixels.
pub open spec fn blend_spec(s: Pixel, d: Pixel) -> Pixel {
    if s.a == 255 {
        s
    } else {
        Pixel {
            a: blend_ch(s.a as int, s.a as int, d.a as int) as u8,
            r: blend_ch(s.a as int, s.r as int, d.r as int) as u8,
            g: blend_ch(s.a as int, s.g as int, d.g as int) as u8,
            b: blend_ch(s.a as int, s.b as int, d.b as int) as u8,
        }
    }
}

/// The blended channel stays in the 8-bit range and below the blended alpha.
pub proof fn lemma_blend_ch_bounds(sa: int, sc: int, dc: int, da: int)
    requires
        0 <= sa <= 255,
        0 <= sc <= sa,
        0 <= dc <= da <= 255,
    ensures
        0 <= blend_ch(sa, sc, dc) <= 255,
        blend_ch(sa, sc, dc) <= blend_ch(sa, sa, da),
{
    let sub = 255 - sa;
    assert(sub * dc * 0x10101 >= 0) by (nonlinear_arith)
        requires sub >= 0 && dc >= 0;
    assert(sub * dc * 0x10101 <= sub * da * 0x10101) by (nonlinear_arith)
        requires sub >= 0 && 0 <= dc <= da;
    assert(sub * da * 0x10101 <= sub * 0xFFFFFF) by (nonlinear_arith)
        requires sub >= 0 && da <= 255;
    // (sub * 0xFFFFFF + 0x800000) / 0x1000000 <= sub, so the channel sum
    // stays below sc + sub <= 255.
    assert((sub * 0xFFFFFF + 0x800000) / 0x1000000 <= sub) by (nonlinear_arith)
        requires 0 <= sub <= 255;
    assert((sub * dc * 0x10101 + 0x800000) / 0x1000000
        <= (sub * da * 0x10101 + 0x800000) / 0x1000000);
}

/// `blend(S, D)` with an opaque source returns S exactly.
pub proof fn lemma_blend_opaque_source(s: Pixel, d: Pixel)
    requires
        s.a == 255,
    ensures
        blend_spec(s, d) == s,
{
}

/// `blend(S, D)` with a fully transparent source returns D exactly.
pub proof fn lemma_blend_transparent_source(s: Pixel, d: Pixel)
    requires
        pixel_wf(s),
        pixel_wf(d),
        s.a == 0,
    ensures
        blend_spec(s, d) == d,
{
    assert forall|dc: int| 0 <= dc <= 255 implies blend_ch(0, 0, dc) == dc by {
        assert(255 * dc * 0x10101 == dc * 0x1000000 - dc) by (nonlinear_arith);
        assert((dc * 0x1000000 - dc + 0x800000) / 0x1000000 == dc) by (nonlinear_arith)
            requires 0 <= dc <= 255;
    }
    assert(blend_spec(s, d).a == d.a);
    assert(blend_spec(s, d).r == d.r);
    assert(blend_spec(s, d).g == d.g);
    assert(blend_spec(s, d).b == d.b);
}

/// The magic-constant form computes a round-to-nearest division by 255
/// (ties toward positive infinity) for every value in the 8-bit product
/// domain: it equals both the half-up rounding `(2x + 255) / 510` and the
/// simpler `(x + 127) / 255`.
pub proof fn lemma_blend_magic_is_rounded_div(x: int)
    requires
        0 <= x <= 255 * 255,
    ensures
        (x * 0x10101 + 0x800000) / 0x1000000 == (2 * x + 255) / 510,
        (x * 0x10101 + 0x800000) / 0x1000000 == (x + 127) / 255,
{
    let y = (x + 127) / 255;
    assert(255 * y <= x + 127 < 255 * (y + 1)) by (nonlinear_arith)
        requires y == (x + 127) / 255 && x >= 0;
    // Doubling cannot create a tie: 2x + 255 is odd, so the half-up
    // quotient by 510 agrees with the quotient of (x + 127) by 255.
    assert(510 * y <= 2 * x + 255 < 510 * (y + 1)) by (nonlinear_arith)
        requires 255 * y <= x + 127 && x + 127 <= 255 * y + 254;
    assert((2 * x + 255) / 510 == y) by (nonlinear_arith)
        requires 510 * y <= 2 * x + 255 < 510 * (y + 1);
    let yb = (2 * x + 255) / 510;
    assert(510 * yb <= 2 * x + 255 < 510 * (yb + 1)) by (nonlinear_arith)
        requires yb == (2 * x + 255) / 510 && x >= 0;
    assert(0 <= yb <= 255) by (nonlinear_arith)
        requires 510 * yb <= 2 * x + 255 < 510 * (yb + 1) && 0 <= x <= 255 * 255;
    // 0x10101 * 510 == 2 * 0xFFFFFF and 0x10101 * 255 == 0xFFFFFF.
    assert(0x1000000 * yb <= x * 0x10101 + 0x800000 < 0x1000000 * (yb + 1)) by (nonlinear_arith)
        requires
            510 * yb <= 2 * x + 255 < 510 * (yb + 1),
            0 <= yb <= 255,
            0 <= x;
    assert((x * 0x10101 + 0x800000) / 0x1000000 == yb) by (nonlinear_arith)
        requires 0x1000000 * yb <= x * 0x10101 + 0x800000 < 0x1000000 * (yb + 1);
}

/// Source-over blend of two premultiplied pixels, using the integer
/// magic-constant form with an exact fast path for an opaque source.
pub fn blend(src: &Pixel, dst: &Pixel) -> (out: Pixel)
    requires
        pixel_wf(*src),
        pixel_wf(*dst),
    ensures
        out == blend_spec(*src, *dst),
        pixel_wf(out),
{
    if src.a == 255 {
        return *src;
    }

    let magic: u32 = BLEND_MAGIC;

    let (dst_a, src_a) = (dst.a as u32, src.a as u32);
    let (dst_r, src_r) = (dst.r as u32, src.r as u32);
    let (dst_g, src_g) = (dst.g as u32, src.g as u32);
    let (dst_b, src_b) = (dst.b as u32, src.b as u32);

    let sub: u32 = 255 - src_a;

    proof {
        lemma_blend_ch_bounds(src.a as int, src.a as int, dst.a as int, dst.a as int);
        lemma_blend_ch_bounds(src.a as int, src.r as int, dst.r as int, dst.a as int);
        lemma_blend_ch_bounds(src.a as int, src.g as int, dst.g as int, dst.a as int);
        lemma_blend_ch_bounds(src.a as int, src.b as int, dst.b as int, dst.a as int);
        assert(sub * dst_a * 0x10101 <= 255 * 255 * 0x10101) by (nonlinear_arith)
            requires 0 <= sub <= 255 && 0 <= dst_a <= 255;
        assert(sub * dst_r * 0x10101 <= 255 * 255 * 0x10101) by (nonlinear_arith)
            requires 0 <= sub <= 255 && 0 <= dst_r <= 255;
        assert(sub * dst_g * 0x10101 <= 255 * 255 * 0x10101) by (nonlinear_arith)
            requires 0 <= sub <= 255 && 0 <= dst_g <= 255;
        assert(sub * dst_b * 0x10101 <= 255 * 255 * 0x10101) by (nonlinear_arith)
            requires 0 <= sub <= 255 && 0 <= dst_b <= 255;
    }

    let final_a = src_a + ((sub * dst_a * magic + 0x800000) / 0x1000000);
    let final_r = src_r + ((sub * dst_r * magic + 0x800000) / 0x1000000);
    let final_g = src_g + ((sub * dst_g * magic + 0x800000) / 0x1000000);
    let final_b = src_b + ((sub * dst_b * magic + 0x800000) / 0x1000000);

    Pixel::pack_argb(final_a as u8, final_r as u8, final_g as u8, final_b as u8)
}

/// Floor division of a 64-bit value by a positive divisor: the exec `/`
/// operator truncates toward zero, this one rounds toward negative infinity
/// like spec-level division.
pub fn floor_div(a: i64, b: i64) -> (q: i64)
    requires
        1 <= b,
        i64::MIN < a,
    ensures
        q == a as int / b as int,
{
    let q0 = a / b;
    let r = a % b;
    if r < 0 {
        proof {
            let ai = a as int;
            let bi = b as int;
            let n = -ai;
            assert(n == bi * (n / bi) + n % bi) by (nonlinear_arith)
                requires bi >= 1 && n >= 0;
            assert(0 <= n % bi < bi) by (nonlinear_arith)
                requires bi >= 1 && n >= 0;
            assert(ai == bi * (-(n / bi) - 1) + (bi - n % bi)) by (nonlinear_arith)
                requires ai == -n && n == bi * (n / bi) + n % bi;
            assert(ai / bi == -(n / bi) - 1) by (nonlinear_arith)
                requires
                    ai == bi * (-(n / bi) - 1) + (bi - n % bi),
                    0 < bi - n % bi < bi,
                    bi >= 1;
        }
        q0 - 1
    } else {
        proof {
            if a < 0 {
                let ai = a as int;
                let bi = b as int;
                let n = -ai;
                assert(n == bi * (n / bi) + n % bi) by (nonlinear_arith)
                    requires bi >= 1 && n >= 0;
                assert(ai / bi == -(n / bi)) by (nonlinear_arith)
                    requires
                        ai == -n,
                        n == bi * (n / bi),
                        bi >= 1;
            }
        }
        q0
    }
}

/// Floor division with 128-bit intermediates, for products of two 16.16
/// fixed-point values.
pub fn floor_div_wide(a: i128, b: i128) -> (q: i128)
    requires
        1 <= b,
        i128::MIN < a,
    ensures
        q == a as int / b as int,
{
    let q0 = a / b;
    let r = a % b;
    if r < 0 {
        proof {
            let ai = a as int;
            let bi = b as int;
            let n = -ai;
            assert(n == bi * (n / bi) + n % bi) by (nonlinear_arith)
                requires bi >= 1 && n >= 0;
            assert(0 <= n % bi < bi) by (nonlinear_arith)
                requires bi >= 1 && n >= 0;
            assert(ai == bi * (-(n / bi) - 1) + (bi - n % bi)) by (nonlinear_arith)
                requires ai == -n && n == bi * (n / bi) + n % bi;
            assert(ai / bi == -(n / bi) - 1) by (nonlinear_arith)
                requires
                    ai == bi * (-(n / bi) - 1) + (bi - n % bi),
                    0 < bi - n % bi < bi,
                    bi >= 1;
        }
        q0 - 1
    } else {
        proof {
            if a < 0 {
                let ai = a as int;
                let bi = b as int;
                let n = -ai;
                assert(n == bi * (n / bi) + n % bi) by (nonlinear_arith)
                    requires bi >= 1 && n >= 0;
                assert(ai / bi == -(n / bi)) by (nonlinear_arith)
                    requires
                        ai == -n,
                        n == bi * (n / bi),
                        bi >= 1;
            }
        }
        q0
    }
}

/// Widening product of two 16.16 fixed-point values, with the range bound
/// that makes sums of such products visibly free of overflow.
pub fn mul_fx_wide(x: i32, y: i32) -> (r: i128)
    ensures
        r == x as int * y as int,
        -0x4000000000000000 <= r <= 0x4000000000000000,
{
    proof {
        assert(-0x4000000000000000 <= (x as int) * (y as int) <= 0x4000000000000000)
            by (nonlinear_arith)
            requires
                -0x80000000 <= x as int <= 0x7FFFFFFF,
                -0x80000000 <= y as int <= 0x7FFFFFFF;
    }
    (x as i128) * (y as i128)
}

/// Product of two small i64 values (28.4 fixed-point quantities), with the
/// range bound that keeps sums of such products inside i64.
pub fn mul_i64_small(a: i64, b: i64) -> (r: i64)
    requires
        -0x4000000 <= a <= 0x4000000,
        -0x4000000 <= b <= 0x4000000,
    ensures
        r == a * b,
        -0x10000000000000 <= r <= 0x10000000000000,
{
    proof {
        assert(-0x10000000000000 <= (a as int) * (b as int) <= 0x10000000000000)
            by (nonlinear_arith)
            requires
                -0x4000000 <= a as int <= 0x4000000,
                -0x4000000 <= b as int <= 0x4000000;
    }
    a * b
}

/// Division rounded to nearest, ties away from zero.
pub open spec fn rdiv(n: int, d: int) -> int {
    let na = if n >= 0 { n } else { -n };
    let da = if d > 0 { d } else { -d };
    let q = (na + da / 2) / da;
    if (n >= 0) == (d > 0) {
        q
    } else {
        -q
    }
}

/// Division of 128-bit values rounded to nearest, ties away from zero.
pub fn round_div_wide(n: i128, d: i128) -> (q: i128)
    requires
        d != 0,
        i128::MIN < n,
        i128::MIN < d,
        n < i128::MAX / 2,
        -(i128::MAX / 2) < n,
    ensures
        q == rdiv(n as int, d as int),
{
    let na = if n >= 0 { n } else { -n };
    let da = if d > 0 { d } else { -d };
    proof {
        let nai = na as int;
        let dai = da as int;
        assert(0 <= (nai + dai / 2) / dai <= nai + dai / 2) by (nonlinear_arith)
            requires dai >= 1 && nai >= 0;
    }
    let q = (na + da / 2) / da;
    if (n >= 0) == (d > 0) {
        q
    } else {
        -q
    }
}

/// Saturates a wide value into the i32 range.
pub open spec fn sat32(v: int) -> int {
    if v < i32::MIN as int {
        i32::MIN as int
    } else if v > i32::MAX as int {
        i32::MAX as int
    } else {
        v
    }
}

/// Saturating narrowing of a 128-bit value to i32.
pub fn sat_fx(v: i128) -> (r: i32)
    ensures
        r as int == sat32(v as int),
{
    if v < i32::MIN as i128 {
        i32::MIN
    } else if v > i32::MAX as i128 {
        i32::MAX
    } else {
        v as i32
    }
}

/// Rounds a 32.32 product to 16.16, half up.
pub open spec fn rhu16(v: int) -> int {
    (v + 0x8000) / 0x10000
}

/// The affine matrix that maps the source rectangle onto the destination
/// rectangle: translate the source corner to the origin, scale to the
/// destination size, translate to the destination corner.
pub open spec fn map_r2r_spec(src: crate::rect::Rect, dst: crate::rect::Rect)
    -> crate::matrix::Matrix {
    let sx = sat32(rdiv((dst.right - dst.left) * 0x10000, src.right - src.left));
    let sy = sat32(rdiv((dst.bottom - dst.top) * 0x10000, src.bottom - src.top));
    crate::matrix::Matrix {
        a: sx as i32,
        b: 0i32,
        c: sat32(rhu16((-src.left) * sx) + dst.left) as i32,
        d: 0i32,
        e: sy as i32,
        f: sat32(rhu16((-src.top) * sy) + dst.top) as i32,
    }
}

/// Builds the source-to-destination mapping matrix of two rectangles; the
/// source must have positive width and height.
pub fn map_rect_to_rect_mat(src: &crate::rect::Rect, dst: &crate::rect::Rect)
    -> (m: crate::matrix::Matrix)
    requires
        src.left < src.right,
        src.top < src.bottom,
    ensures
        m == map_r2r_spec(*src, *dst),
{
    let dw: i128 = (dst.right as i128) - (dst.left as i128);
    let dh: i128 = (dst.bottom as i128) - (dst.top as i128);
    let sw: i128 = (src.right as i128) - (src.left as i128);
    let sh: i128 = (src.bottom as i128) - (src.top as i128);

    let sx = sat_fx(round_div_wide(dw * 0x10000, sw));
    let sy = sat_fx(round_div_wide(dh * 0x10000, sh));

    proof {
        assert(-0x4000000000000000 <= (-(src.left as int)) * (sx as int) <= 0x4000000000000000)
            by (nonlinear_arith)
            requires
                -0x80000000 <= -(src.left as int) <= 0x80000000,
                -0x80000000 <= sx as int <= 0x80000000;
        assert(-0x4000000000000000 <= (-(src.top as int)) * (sy as int) <= 0x4000000000000000)
            by (nonlinear_arith)
            requires
                -0x80000000 <= -(src.top as int) <= 0x80000000,
                -0x80000000 <= sy as int <= 0x80000000;
    }

    let tcx = sat_fx(
        floor_div_wide((-(src.left as i128)) * (sx as i128) + 0x8000, 0x10000)
            + (dst.left as i128),
    );
    let tcy = sat_fx(
        floor_div_wide((-(src.top as i128)) * (sy as i128) + 0x8000, 0x10000)
            + (dst.top as i128),
    );

    crate::matrix::Matrix { a: sx, b: 0, c: tcx, d: 0, e: sy, f: tcy }
}

/// Clamps `value` into `[min, max]`; when the bounds cross, `min` wins.
pub open spec fn clamp_spec(min: int, value: int, max: int) -> int {
    if value > max {
        if max < min { min } else { max }
    } else if value < min {
        min
    } else {
        value
    }
}

/// Clamps a 16.16 fixed-point value into `[min, max]`.
pub fn clamp(min: i32, value: i32, max: i32) -> (out: i32)
    ensures
        out == clamp_spec(min as int, value as int, max as int),
{
    let lo = if value < max { value } else { max };
    if lo > min { lo } else { min }
}

/// Blends a source row over a destination row element by element.
pub fn blend_row(src: &[Pixel], dst: &[Pixel]) -> (out: Vec<Pixel>)
    requires
        src@.len() == dst@.len(),
        forall|i: int| 0 <= i < src@.len() ==> pixel_wf(#[trigger] src@[i]),
        forall|i: int| 0 <= i < dst@.len() ==> pixel_wf(#[trigger] dst@[i]),
    ensures
        out@.len() == src@.len(),
        forall|i: int| 0 <= i < out@.len()
            ==> #[trigger] out@[i] == blend_spec(src@[i], dst@[i]) && pixel_wf(out@[i]),
{
    let n = src.len();
    let mut out: Vec<Pixel> = Vec::with_capacity(n);
    let mut i: usize = 0;
    while i < n
        invariant
            n == src@.len() == dst@.len(),
            forall|k: int| 0 <= k < n ==> pixel_wf(#[trigger] src@[k]),
            forall|k: int| 0 <= k < n ==> pixel_wf(#[trigger] dst@[k]),
            i <= n,
            out@.len() == i,
            forall|k: int| 0 <= k < i
                ==> #[trigger] out@[k] == blend_spec(src@[k], dst@[k]) && pixel_wf(out@[k]),
        decreases n - i,
    {
        let p = blend(&src[i], &dst[i]);
        out.push(p);
        i += 1;
    }
    out
}

} // verus!
