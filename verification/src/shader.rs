use vstd::prelude::*;
use crate::pixel::{Pixel, pixel_wf};
use crate::color::{Color, to_pixel_spec};
use crate::bitmap::{Bitmap, bitmap_wf, pix_at};
use crate::matrix::{Matrix, mul_spec, det2, inv_fits, inv_of};
use crate::util::{floor_div_wide, rhu16};

verus! {

/// A source of pixel rows for the rasterizer.
///
/// Before rasterizing a triangle, the canvas installs the current transform
/// with `set_context`; a false answer skips the draw. During rasterization
/// the shader is asked for one row of source pixels per scanline.
pub trait Shader: Sized {
    /// The constructor's data invariant, preserved by every method.
    spec fn valid(&self) -> bool;

    /// Ready to shade: valid, with a usable context installed.
    spec fn wf(&self) -> bool;

    /// Whether a draw under the transform `ctm` can proceed.
    spec fn ctx_ok(&self, ctm: Matrix) -> bool;

    /// The source pixel produced at integer device pixel `(x, y)` under the
    /// currently installed context.
    spec fn sample(&self, x: int, y: int) -> Pixel;

    /// The source pixel that will be produced at `(x, y)` once the context
    /// is set to `ctm`.
    spec fn sample_with(&self, ctm: Matrix, x: int, y: int) -> Pixel;

    /// A row of `count` source pixels for the device pixels `(x, y)`
    /// through `(x + count - 1, y)`.
    fn shade_row(&self, x: usize, y: usize, count: usize) -> (row: Vec<Pixel>)
        requires
            self.wf(),
            x + count <= 0x8000,
            y < 0x8000,
        ensures
            row@.len() == count,
            forall|i: int| 0 <= i < count
                ==> #[trigger] row@[i] == self.sample(x + i, y as int) && pixel_wf(row@[i]),
    ;

    /// Installs the transform for the next draw; returns false when the
    /// shader cannot draw under it.
    fn set_context(&mut self, ctm: &Matrix) -> (ok: bool)
        requires
            old(self).valid(),
        ensures
            ok == old(self).ctx_ok(*ctm),
            final(self).valid(),
            ok ==> final(self).wf(),
            ok ==> forall|x: int, y: int|
                #[trigger] final(self).sample(x, y) == old(self).sample_with(*ctm, x, y),
            forall|c: Matrix, x: int, y: int|
                #[trigger] final(self).sample_with(c, x, y) == old(self).sample_with(c, x, y),
            forall|c: Matrix| #[trigger] final(self).ctx_ok(c) == old(self).ctx_ok(c),
    ;
}

/// A shader producing one constant premultiplied pixel.
pub struct ColorShader {
    src: Pixel,
}

impl ColorShader {
    /// Wraps a color; the shader produces its premultiplied pixel.
    pub fn new(src: Color) -> (s: ColorShader)
        ensures
            s.valid(),
            s.wf(),
            forall|c: Matrix| #[trigger] s.ctx_ok(c),
            forall|x: int, y: int| #[trigger] s.sample(x, y) == to_pixel_spec(src),
            forall|c: Matrix, x: int, y: int|
                #[trigger] s.sample_with(c, x, y) == to_pixel_spec(src),
    {
        ColorShader { src: src.to_pixel() }
    }
}

impl Shader for ColorShader {
    closed spec fn valid(&self) -> bool {
        pixel_wf(self.src)
    }

    closed spec fn wf(&self) -> bool {
        pixel_wf(self.src)
    }

    closed spec fn ctx_ok(&self, ctm: Matrix) -> bool {
        true
    }

    closed spec fn sample(&self, x: int, y: int) -> Pixel {
        self.src
    }

    closed spec fn sample_with(&self, ctm: Matrix, x: int, y: int) -> Pixel {
        self.src
    }

    fn shade_row(&self, x: usize, y: usize, count: usize) -> (row: Vec<Pixel>) {
        let mut row: Vec<Pixel> = Vec::with_capacity(count);
        let mut i: usize = 0;
        while i < count
            invariant
                i <= count,
                row@.len() == i,
                pixel_wf(self.src),
                forall|k: int| 0 <= k < i ==> #[trigger] row@[k] == self.src,
            decreases count - i,
        {
            row.push(self.src);
            i += 1;
        }
        row
    }

    fn set_context(&mut self, ctm: &Matrix) -> (ok: bool) {
        true
    }
}

/// The uv x coordinate (16.16, unsaturated) the inverse transform assigns
/// to the center of device pixel `(x, y)`.
pub open spec fn uv_x(xf: Matrix, x: int, y: int) -> int {
    rhu16(xf.a * (x * 0x10000 + 0x8000) + xf.b * (y * 0x10000 + 0x8000)) + xf.c
}

/// The uv y coordinate of the center of device pixel `(x, y)`.
pub open spec fn uv_y(xf: Matrix, x: int, y: int) -> int {
    rhu16(xf.d * (x * 0x10000 + 0x8000) + xf.e * (y * 0x10000 + 0x8000)) + xf.f
}

/// Clamp-to-edge source index: the floor of a 16.16 coordinate, clamped
/// into `[0, n)`.
pub open spec fn clamp_floor(v: int, n: int) -> int {
    let q = v / 0x10000;
    if q < 0 {
        0
    } else if q > n - 1 {
        n - 1
    } else {
        q
    }
}

/// Nearest-neighbor, clamp-to-edge sample of a bitmap through an inverse
/// transform, at the center of device pixel `(x, y)`.
pub open spec fn sample_uv(src: Bitmap, xf: Matrix, x: int, y: int) -> Pixel {
    pix_at(
        src,
        clamp_floor(uv_x(xf, x, y), src.width as int),
        clamp_floor(uv_y(xf, x, y), src.height as int),
    )
}

/// A uv coordinate of an in-range pixel center stays well inside i64.
proof fn lemma_uv_bounds(xf: Matrix, x: int, y: int)
    requires
        0 <= x <= 0x8000,
        0 <= y <= 0x8000,
    ensures
        -0x1000800000000 <= uv_x(xf, x, y) <= 0x1000800000000,
        -0x1000800000000 <= uv_y(xf, x, y) <= 0x1000800000000,
{
    let px = x * 0x10000 + 0x8000;
    let py = y * 0x10000 + 0x8000;
    assert(0 <= px <= 0x80008000);
    assert(0 <= py <= 0x80008000);
    assert(-0x4000400000000000 <= xf.a * px <= 0x4000400000000000) by (nonlinear_arith)
        requires -0x80000000 <= xf.a <= 0x80000000 && 0 <= px <= 0x80008000;
    assert(-0x4000400000000000 <= xf.b * py <= 0x4000400000000000) by (nonlinear_arith)
        requires -0x80000000 <= xf.b <= 0x80000000 && 0 <= py <= 0x80008000;
    assert(-0x4000400000000000 <= xf.d * px <= 0x4000400000000000) by (nonlinear_arith)
        requires -0x80000000 <= xf.d <= 0x80000000 && 0 <= px <= 0x80008000;
    assert(-0x4000400000000000 <= xf.e * py <= 0x4000400000000000) by (nonlinear_arith)
        requires -0x80000000 <= xf.e <= 0x80000000 && 0 <= py <= 0x80008000;
    assert(-0x800080000000 <= rhu16(xf.a * px + xf.b * py) <= 0x800080000001) by (nonlinear_arith)
        requires -0x8000800000000000 <= xf.a * px + xf.b * py <= 0x8000800000000000;
    assert(-0x800080000000 <= rhu16(xf.d * px + xf.e * py) <= 0x800080000001) by (nonlinear_arith)
        requires -0x8000800000000000 <= xf.d * px + xf.e * py <= 0x8000800000000000;
}

/// Stepping one pixel right moves the uv coordinates by exactly the first
/// column of the inverse transform.
proof fn lemma_uv_step(xf: Matrix, x: int, y: int)
    ensures
        uv_x(xf, x + 1, y) == uv_x(xf, x, y) + xf.a,
        uv_y(xf, x + 1, y) == uv_y(xf, x, y) + xf.d,
{
    let px = x * 0x10000 + 0x8000;
    let px1 = (x + 1) * 0x10000 + 0x8000;
    let py = y * 0x10000 + 0x8000;
    assert(px1 == px + 0x10000);
    assert(xf.a * px1 == xf.a * px + xf.a * 0x10000) by (nonlinear_arith)
        requires px1 == px + 0x10000;
    assert(xf.d * px1 == xf.d * px + xf.d * 0x10000) by (nonlinear_arith)
        requires px1 == px + 0x10000;
    let sx = xf.a * px + xf.b * py;
    let sy = xf.d * px + xf.e * py;
    assert((sx + xf.a * 0x10000 + 0x8000) / 0x10000 == (sx + 0x8000) / 0x10000 + xf.a)
        by (nonlinear_arith);
    assert((sy + xf.d * 0x10000 + 0x8000) / 0x10000 == (sy + 0x8000) / 0x10000 + xf.d)
        by (nonlinear_arith);
}

/// A shader sampling a bitmap through the inverse of the combined
/// transform, nearest neighbor with clamp-to-edge addressing.
pub struct BitmapShader {
    src: Bitmap,
    local: Matrix,
    xform: Matrix,
}

impl BitmapShader {
    /// Wraps a source bitmap and the local matrix that maps source
    /// coordinates onto destination device coordinates.
    pub fn new(src: Bitmap, local: Matrix) -> (s: BitmapShader)
        requires
            bitmap_wf(src),
        ensures
            s.valid(),
            forall|c: Matrix| #[trigger] s.ctx_ok(c)
                == (src.width >= 1 && src.height >= 1 && det2(mul_spec(c, local)) != 0
                    && inv_fits(mul_spec(c, local))),
            forall|c: Matrix, x: int, y: int| #[trigger] s.sample_with(c, x, y)
                == sample_uv(src, inv_of(mul_spec(c, local)), x, y),
    {
        BitmapShader { src, local, xform: Matrix::identity() }
    }
}

impl Shader for BitmapShader {
    closed spec fn valid(&self) -> bool {
        bitmap_wf(self.src)
    }

    closed spec fn wf(&self) -> bool {
        bitmap_wf(self.src) && self.src.width >= 1 && self.src.height >= 1
    }

    closed spec fn ctx_ok(&self, ctm: Matrix) -> bool {
        &&& self.src.width >= 1
        &&& self.src.height >= 1
        &&& det2(mul_spec(ctm, self.local)) != 0
        &&& inv_fits(mul_spec(ctm, self.local))
    }

    closed spec fn sample(&self, x: int, y: int) -> Pixel {
        sample_uv(self.src, self.xform, x, y)
    }

    closed spec fn sample_with(&self, ctm: Matrix, x: int, y: int) -> Pixel {
        sample_uv(self.src, inv_of(mul_spec(ctm, self.local)), x, y)
    }

    fn shade_row(&self, x: usize, y: usize, count: usize) -> (row: Vec<Pixel>) {
        let xf = self.xform;

        let px0: i64 = (x as i64) * 0x10000 + 0x8000;
        let py0: i64 = (y as i64) * 0x10000 + 0x8000;

        proof {
            assert(-0x4000400000000000 <= xf.a * px0 <= 0x4000400000000000) by (nonlinear_arith)
                requires -0x80000000 <= xf.a <= 0x80000000 && 0 <= px0 <= 0x80008000;
            assert(-0x4000400000000000 <= xf.b * py0 <= 0x4000400000000000) by (nonlinear_arith)
                requires -0x80000000 <= xf.b <= 0x80000000 && 0 <= py0 <= 0x80008000;
            assert(-0x4000400000000000 <= xf.d * px0 <= 0x4000400000000000) by (nonlinear_arith)
                requires -0x80000000 <= xf.d <= 0x80000000 && 0 <= px0 <= 0x80008000;
            assert(-0x4000400000000000 <= xf.e * py0 <= 0x4000400000000000) by (nonlinear_arith)
                requires -0x80000000 <= xf.e <= 0x80000000 && 0 <= py0 <= 0x80008000;
        }

        let numx: i128 = (xf.a as i128) * (px0 as i128) + (xf.b as i128) * (py0 as i128)
            + 0x8000;
        let numy: i128 = (xf.d as i128) * (px0 as i128) + (xf.e as i128) * (py0 as i128)
            + 0x8000;
        let qx = floor_div_wide(numx, 0x10000);
        let qy = floor_div_wide(numy, 0x10000);
        proof {
            assert(-0x800080010000 <= qx <= 0x800080010000) by (nonlinear_arith)
                requires
                    qx == numx as int / 0x10000,
                    -0x8000800100000000 <= numx <= 0x8000800100000000;
            assert(-0x800080010000 <= qy <= 0x800080010000) by (nonlinear_arith)
                requires
                    qy == numy as int / 0x10000,
                    -0x8000800100000000 <= numy <= 0x8000800100000000;
        }
        let mut lx: i64 = (qx as i64) + (xf.c as i64);
        let mut ly: i64 = (qy as i64) + (xf.f as i64);

        proof {
            lemma_uv_bounds(xf, x as int, y as int);
        }

        let w1 = self.src.width - 1;
        let h1 = self.src.height - 1;

        let mut row: Vec<Pixel> = Vec::with_capacity(count);
        let mut i: usize = 0;
        while i < count
            invariant
                i <= count,
                row@.len() == i,
                x + count <= 0x8000,
                y < 0x8000,
                bitmap_wf(self.src),
                self.src.width >= 1,
                self.src.height >= 1,
                xf == self.xform,
                w1 == self.src.width - 1,
                h1 == self.src.height - 1,
                lx == uv_x(self.xform, x + i, y as int),
                ly == uv_y(self.xform, x + i, y as int),
                forall|k: int| 0 <= k < i
                    ==> #[trigger] row@[k] == sample_uv(self.src, self.xform, x + k, y as int)
                        && pixel_wf(row@[k]),
            decreases count - i,
        {
            proof {
                lemma_uv_bounds(self.xform, x + i, y as int);
            }
            let sx: usize = if lx < 0 {
                0
            } else {
                let q = lx / 0x10000;
                if q > w1 as i64 { w1 } else { q as usize }
            };
            let sy: usize = if ly < 0 {
                0
            } else {
                let q = ly / 0x10000;
                if q > h1 as i64 { h1 } else { q as usize }
            };

            row.push(self.src.get(sx, sy));

            proof {
                lemma_uv_step(self.xform, x + i, y as int);
                lemma_uv_bounds(self.xform, x + i + 1, y as int);
                assert(uv_x(self.xform, x + i + 1, y as int)
                    == uv_x(self.xform, x + i, y as int) + self.xform.a);
                assert(uv_y(self.xform, x + i + 1, y as int)
                    == uv_y(self.xform, x + i, y as int) + self.xform.d);
            }
            lx = lx + xf.a as i64;
            ly = ly + xf.d as i64;
            i += 1;
        }
        row
    }

    fn set_context(&mut self, ctm: &Matrix) -> (ok: bool) {
        if self.src.width == 0 || self.src.height == 0 {
            return false;
        }
        let combined = ctm.mul(&self.local);
        match combined.inv() {
            Some(xf) => {
                self.xform = xf;
                true
            },
            None => false,
        }
    }
}

/// Shader constructors.
pub struct Shaders;

impl Shaders {
    /// A constant-color shader for the given color.
    pub fn from_color(color: Color) -> (s: ColorShader)
        ensures
            s.valid(),
            s.wf(),
            forall|c: Matrix| #[trigger] s.ctx_ok(c),
            forall|x: int, y: int| #[trigger] s.sample(x, y) == to_pixel_spec(color),
            forall|c: Matrix, x: int, y: int|
                #[trigger] s.sample_with(c, x, y) == to_pixel_spec(color),
    {
        ColorShader::new(color)
    }

    /// A bitmap shader with the given local matrix, from its six 16.16
    /// row-major entries.
    pub fn from_bitmap_mat(bitmap: Bitmap, local: [i32; 6]) -> (s: BitmapShader)
        requires
            bitmap_wf(bitmap),
        ensures
            s.valid(),
            forall|c: Matrix| #[trigger] s.ctx_ok(c)
                == (bitmap.width >= 1 && bitmap.height >= 1
                    && det2(mul_spec(c, mat_of(local@))) != 0
                    && inv_fits(mul_spec(c, mat_of(local@)))),
            forall|c: Matrix, x: int, y: int| #[trigger] s.sample_with(c, x, y)
                == sample_uv(bitmap, inv_of(mul_spec(c, mat_of(local@))), x, y),
    {
        BitmapShader::new(bitmap, Matrix::new(local))
    }
}

/// The matrix with the six row-major entries of a sequence.
pub open spec fn mat_of(s: Seq<i32>) -> Matrix {
    Matrix { a: s[0], b: s[1], c: s[2], d: s[3], e: s[4], f: s[5] }
}

} // verus!
