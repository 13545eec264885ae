use vstd::prelude::*;
use crate::bitmap::{Bitmap, bitmap_wf, pix_at, lemma_index_in_bounds};
use crate::color::{Color, to_pixel_spec, FX_ONE};
use crate::matrix::{Matrix, mul_spec, identity_spec, apply_x_spec, apply_y_spec,
    lemma_mul_identity_right, inv_of, det2, inv_fits};
use crate::point::Point;
use crate::raster::{covered, to_fixed4, to28, fill_triangle, lemma_box_coverage};
use crate::rect::{Rect, rect_empty, rect_overlaps, rect_intersection, round_spec, floor16};
use crate::shader::{Shader, Shaders, mat_of, sample_uv};
use crate::triangle::Triangle;
use crate::util::{blend_spec, map_r2r_spec, map_rect_to_rect_mat, rdiv, rhu16, sat32};

verus! {

/// The device rectangle of a whole bitmap, in 16.16 fixed point.
pub open spec fn bounds_rect(w: int, h: int) -> Rect {
    Rect {
        left: 0i32,
        top: 0i32,
        right: (w * 0x10000) as i32,
        bottom: (h * 0x10000) as i32,
    }
}

/// The two clockwise triangles an axis-aligned rectangle splits into.
pub open spec fn rect_tri1(roi: Rect) -> Triangle {
    Triangle {
        a: Point { x: roi.left, y: roi.top },
        b: Point { x: roi.right, y: roi.top },
        c: Point { x: roi.left, y: roi.bottom },
    }
}

pub open spec fn rect_tri2(roi: Rect) -> Triangle {
    Triangle {
        a: Point { x: roi.right, y: roi.top },
        b: Point { x: roi.right, y: roi.bottom },
        c: Point { x: roi.left, y: roi.bottom },
    }
}

/// The x device coordinate, in 28.4 fixed point, of a point taken through a
/// transform.
pub open spec fn dev_x(ctm: Matrix, p: Point) -> int {
    to_fixed4(apply_x_spec(ctm, p.x as int, p.y as int))
}

/// The y device coordinate, in 28.4 fixed point, of a point taken through a
/// transform.
pub open spec fn dev_y(ctm: Matrix, p: Point) -> int {
    to_fixed4(apply_y_spec(ctm, p.x as int, p.y as int))
}

/// Whether the rasterizer covers pixel `(x, y)` for a triangle drawn under
/// the given transform.
pub open spec fn tri_covered(ctm: Matrix, t: Triangle, x: int, y: int) -> bool {
    covered(
        dev_x(ctm, t.a), dev_y(ctm, t.a),
        dev_x(ctm, t.b), dev_y(ctm, t.b),
        dev_x(ctm, t.c), dev_y(ctm, t.c),
        x, y,
    )
}

/// One transform mutation: the top of the stack is replaced by its product
/// with the given matrix.
pub open spec fn concat_spec(ctms: Seq<Matrix>, m: Matrix) -> Seq<Matrix> {
    ctms.update(ctms.len() - 1, mul_spec(ctms.last(), m))
}

/// A sequence of transform mutations applied in order.
pub open spec fn concat_all(ctms: Seq<Matrix>, ms: Seq<Matrix>) -> Seq<Matrix>
    decreases ms.len(),
{
    if ms.len() == 0 {
        ctms
    } else {
        concat_all(concat_spec(ctms, ms[0]), ms.subrange(1, ms.len() as int))
    }
}

/// Concatenating the identity leaves the transform stack untouched.
pub proof fn lemma_concat_identity(ctms: Seq<Matrix>)
    requires
        ctms.len() >= 1,
    ensures
        concat_spec(ctms, identity_spec()) == ctms,
{
    lemma_mul_identity_right(ctms.last());
    assert(concat_spec(ctms, identity_spec()) =~= ctms);
}

/// A transform mutation only touches the top of a non-empty stack.
proof fn lemma_concat_preserves_prefix(ctms: Seq<Matrix>, m: Matrix)
    requires
        ctms.len() >= 1,
    ensures
        concat_spec(ctms, m).len() == ctms.len(),
        forall|i: int| 0 <= i < ctms.len() - 1 ==> concat_spec(ctms, m)[i] == ctms[i],
{
}

/// `save`, any sequence of transform mutations, then `restore` puts the
/// transform stack back exactly as it was, so the prior CTM is restored
/// bit for bit.
pub proof fn lemma_save_mutate_restore(ctms: Seq<Matrix>, ms: Seq<Matrix>)
    requires
        ctms.len() >= 1,
    ensures
        concat_all(ctms.push(ctms.last()), ms).len() == ctms.len() + 1,
        concat_all(ctms.push(ctms.last()), ms).drop_last() == ctms,
    decreases ms.len(),
{
    let saved = ctms.push(ctms.last());
    if ms.len() == 0 {
        assert(saved.drop_last() =~= ctms);
    } else {
        let stepped = concat_spec(saved, ms[0]);
        lemma_concat_preserves_prefix(saved, ms[0]);
        assert(stepped.drop_last() =~= ctms);
        assert(stepped == stepped.drop_last().push(stepped.last()));
        lemma_save_mutate_restore_from(stepped, ms.subrange(1, ms.len() as int));
    }
}

/// Helper: mutations never change anything below the top of the stack.
proof fn lemma_save_mutate_restore_from(stack: Seq<Matrix>, ms: Seq<Matrix>)
    requires
        stack.len() >= 1,
    ensures
        concat_all(stack, ms).len() == stack.len(),
        concat_all(stack, ms).drop_last() == stack.drop_last(),
    decreases ms.len(),
{
    if ms.len() == 0 {
        assert(concat_all(stack, ms).drop_last() =~= stack.drop_last());
    } else {
        let stepped = concat_spec(stack, ms[0]);
        lemma_concat_preserves_prefix(stack, ms[0]);
        assert(stepped.drop_last() =~= stack.drop_last());
        lemma_save_mutate_restore_from(stepped, ms.subrange(1, ms.len() as int));
    }
}

/// A raster canvas: an owned bitmap and a stack of transforms whose top is
/// the current transform matrix (CTM).
pub struct Canvas {
    bitmap: Bitmap,
    ctms: Vec<Matrix>,
}

impl Canvas {
    /// The canvas invariant: a well-formed bitmap and a non-empty stack.
    pub closed spec fn wf(&self) -> bool {
        bitmap_wf(self.bitmap) && self.ctms@.len() >= 1
    }

    /// The owned bitmap.
    pub closed spec fn bm(&self) -> Bitmap {
        self.bitmap
    }

    /// The transform stack, bottom first.
    pub closed spec fn stack(&self) -> Seq<Matrix> {
        self.ctms@
    }

    /// The current transform matrix: the top of the stack.
    pub open spec fn ctm(&self) -> Matrix {
        self.stack().last()
    }

    /// Takes ownership of a bitmap; the stack starts as a single identity.
    pub fn new(bitmap: Bitmap) -> (c: Canvas)
        requires
            bitmap_wf(bitmap),
        ensures
            c.wf(),
            c.bm() == bitmap,
            c.stack() =~= seq![identity_spec()],
    {
        let mut ctms: Vec<Matrix> = Vec::new();
        ctms.push(Matrix::identity());
        Canvas { bitmap, ctms }
    }

    /// The current transform matrix.
    pub fn get_ctm(&self) -> (m: Matrix)
        requires
            self.wf(),
        ensures
            m == self.ctm(),
    {
        self.ctms[self.ctms.len() - 1]
    }

    /// Overwrites every pixel with the color's premultiplied pixel,
    /// ignoring the transform.
    pub fn clear(&mut self, color: &Color)
        requires
            old(self).wf(),
        ensures
            final(self).wf(),
            final(self).stack() == old(self).stack(),
            final(self).bm().width == old(self).bm().width,
            final(self).bm().height == old(self).bm().height,
            forall|x: int, y: int|
                0 <= x < old(self).bm().width && 0 <= y < old(self).bm().height
                    ==> #[trigger] pix_at(final(self).bm(), x, y) == to_pixel_spec(*color),
    {
        let srcpx = color.to_pixel();

        let w = self.bitmap.width;
        let h = self.bitmap.height;
        proof {
            assert(w * h <= 0x40000000) by (nonlinear_arith)
                requires w <= 0x8000 && h <= 0x8000;
        }
        let n = w * h;

        let mut i: usize = 0;
        while i < n
            invariant
                old(self).wf(),
                self.bitmap.width == w,
                self.bitmap.height == h,
                n == w * h,
                self.bitmap.pixels@.len() == n,
                self.ctms@ == old(self).ctms@,
                crate::pixel::pixel_wf(srcpx),
                srcpx == to_pixel_spec(*color),
                i <= n,
                forall|k: int| 0 <= k < i
                    ==> #[trigger] self.bitmap.pixels@[k] == srcpx,
                forall|k: int| i <= k < n
                    ==> crate::pixel::pixel_wf(#[trigger] self.bitmap.pixels@[k]),
            decreases n - i,
        {
            self.bitmap.pixels[i] = srcpx;
            i += 1;
        }

        proof {
            assert forall|x: int, y: int|
                0 <= x < w && 0 <= y < h
                    implies #[trigger] pix_at(self.bitmap, x, y) == srcpx by {
                lemma_index_in_bounds(w as int, h as int, x, y);
            }
        }
    }

    /// Pushes a copy of the current transform.
    pub fn save(&mut self)
        requires
            old(self).wf(),
        ensures
            final(self).wf(),
            final(self).bm() == old(self).bm(),
            final(self).stack() == old(self).stack().push(old(self).ctm()),
            final(self).ctm() == old(self).ctm(),
    {
        let top = self.get_ctm();
        self.ctms.push(top);
    }

    /// Pops the current transform, restoring the one saved before it.
    /// Popping the last transform is a caller error.
    pub fn restore(&mut self)
        requires
            old(self).wf(),
            old(self).stack().len() >= 2,
        ensures
            final(self).wf(),
            final(self).bm() == old(self).bm(),
            final(self).stack() == old(self).stack().drop_last(),
    {
        self.ctms.pop();
        proof {
            assert(self.ctms@ =~= old(self).ctms@.drop_last());
        }
    }

    /// Replaces the current transform by its product with the given matrix
    /// (row-major 16.16 entries).
    pub fn concat(&mut self, mat: [i32; 6])
        requires
            old(self).wf(),
        ensures
            final(self).wf(),
            final(self).bm() == old(self).bm(),
            final(self).stack() == concat_spec(old(self).stack(), mat_of(mat@)),
            final(self).ctm() == mul_spec(old(self).ctm(), mat_of(mat@)),
    {
        let top = self.get_ctm();
        let prod = top.mul(&Matrix::new(mat));
        let len = self.ctms.len();
        self.ctms[len - 1] = prod;
        proof {
            assert(self.ctms@ =~= concat_spec(old(self).ctms@, mat_of(mat@)));
        }
    }

    /// Concatenates a scale about the origin.
    pub fn scale(&mut self, sx: i32, sy: i32)
        requires
            old(self).wf(),
        ensures
            final(self).wf(),
            final(self).bm() == old(self).bm(),
            final(self).stack() == concat_spec(old(self).stack(),
                (Matrix { a: sx, b: 0i32, c: 0i32, d: 0i32, e: sy, f: 0i32 })),
    {
        self.concat([sx, 0, 0, 0, sy, 0]);
        proof {
            assert(mat_of(seq![sx, 0i32, 0i32, 0i32, sy, 0i32])
                == (Matrix { a: sx, b: 0i32, c: 0i32, d: 0i32, e: sy, f: 0i32 }));
        }
    }

    /// Concatenates a translation.
    pub fn translate(&mut self, tx: i32, ty: i32)
        requires
            old(self).wf(),
        ensures
            final(self).wf(),
            final(self).bm() == old(self).bm(),
            final(self).stack() == concat_spec(old(self).stack(),
                (Matrix { a: FX_ONE, b: 0i32, c: tx, d: 0i32, e: FX_ONE, f: ty })),
    {
        self.concat([FX_ONE, 0, tx, 0, FX_ONE, ty]);
    }

    /// Concatenates a rotation about the origin, given by the 16.16 cosine
    /// and sine of the angle.
    pub fn rotate(&mut self, cos_v: i32, sin_v: i32)
        requires
            old(self).wf(),
            sin_v > i32::MIN,
        ensures
            final(self).wf(),
            final(self).bm() == old(self).bm(),
            final(self).stack() == concat_spec(old(self).stack(),
                (Matrix { a: cos_v, b: (-sin_v) as i32, c: 0i32, d: sin_v, e: cos_v, f: 0i32 })),
    {
        self.concat([cos_v, -sin_v, 0, sin_v, cos_v, 0]);
    }

    /// Concatenates a rotation about a point: translate the point to the
    /// origin, rotate, translate back.
    pub fn rotate_about(&mut self, cos_v: i32, sin_v: i32, point: &Point)
        requires
            old(self).wf(),
            sin_v > i32::MIN,
            point.x > i32::MIN,
            point.y > i32::MIN,
        ensures
            final(self).wf(),
            final(self).bm() == old(self).bm(),
            final(self).stack() == concat_spec(concat_spec(concat_spec(old(self).stack(),
                (Matrix { a: FX_ONE, b: 0i32, c: (-point.x) as i32, d: 0i32, e: FX_ONE,
                    f: (-point.y) as i32 })),
                (Matrix { a: cos_v, b: (-sin_v) as i32, c: 0i32, d: sin_v, e: cos_v, f: 0i32 })),
                (Matrix { a: FX_ONE, b: 0i32, c: point.x, d: 0i32, e: FX_ONE, f: point.y })),
    {
        self.translate(-point.x, -point.y);
        self.rotate(cos_v, sin_v);
        self.translate(point.x, point.y);
    }

    /// Rasterizes one triangle under the current transform through the
    /// given shader: the transform is applied to the vertices, the shader's
    /// context is set, and on success every covered pixel is blended with
    /// the shader's source pixel.
    pub fn shade_tri<S: Shader>(&mut self, tri: &Triangle, shader: &mut S)
        requires
            old(self).wf(),
            old(shader).valid(),
        ensures
            final(self).wf(),
            final(self).stack() == old(self).stack(),
            final(self).bm().width == old(self).bm().width,
            final(self).bm().height == old(self).bm().height,
            final(shader).valid(),
            forall|c: Matrix, x: int, y: int|
                #[trigger] final(shader).sample_with(c, x, y)
                    == old(shader).sample_with(c, x, y),
            forall|c: Matrix| #[trigger] final(shader).ctx_ok(c) == old(shader).ctx_ok(c),
            old(shader).ctx_ok(old(self).ctm()) ==> forall|x: int, y: int|
                0 <= x < old(self).bm().width && 0 <= y < old(self).bm().height
                    ==> #[trigger] pix_at(final(self).bm(), x, y)
                        == if tri_covered(old(self).ctm(), *tri, x, y) {
                            blend_spec(
                                old(shader).sample_with(old(self).ctm(), x, y),
                                pix_at(old(self).bm(), x, y),
                            )
                        } else {
                            pix_at(old(self).bm(), x, y)
                        },
            !old(shader).ctx_ok(old(self).ctm()) ==> final(self).bm() == old(self).bm(),
    {
        let ctm = self.get_ctm();

        let pa = ctm.apply(&tri.a);
        let pb = ctm.apply(&tri.b);
        let pc = ctm.apply(&tri.c);

        let ok = shader.set_context(&ctm);
        if !ok {
            return;
        }

        let xa = to28(pa.x);
        let ya = to28(pa.y);
        let xb = to28(pb.x);
        let yb = to28(pb.y);
        let xc = to28(pc.x);
        let yc = to28(pc.y);

        fill_triangle(&mut self.bitmap, shader, xa, ya, xb, yb, xc, yc);
    }

    /// Serializes the owned bitmap as ASCII P3 bytes.
    pub fn write(&self) -> (out: Vec<u8>)
        requires
            self.wf(),
        ensures
            out@ == crate::ppm::ppm_bytes(
                self.bm().width as nat,
                self.bm().height as nat,
                crate::bitmap::bitmap_colors(self.bm()),
            ),
    {
        self.bitmap.write()
    }

    /// Shades an axis-aligned rectangle: clip to the canvas, split the
    /// clipped region into two clockwise triangles, and shade each in turn.
    pub fn shade_rect<S: Shader>(&mut self, rect: &Rect, shader: &mut S)
        requires
            old(self).wf(),
            old(shader).valid(),
        ensures
            final(self).wf(),
            final(self).stack() == old(self).stack(),
            final(self).bm().width == old(self).bm().width,
            final(self).bm().height == old(self).bm().height,
            final(shader).valid(),
            forall|c: Matrix, x: int, y: int|
                #[trigger] final(shader).sample_with(c, x, y)
                    == old(shader).sample_with(c, x, y),
            forall|c: Matrix| #[trigger] final(shader).ctx_ok(c) == old(shader).ctx_ok(c),
            rect_empty(*rect) ==> final(self).bm() == old(self).bm(),
            !rect_empty(*rect)
                && !rect_overlaps(
                    bounds_rect(old(self).bm().width as int, old(self).bm().height as int),
                    round_spec(*rect))
                ==> final(self).bm() == old(self).bm(),
            !rect_empty(*rect) && !old(shader).ctx_ok(old(self).ctm())
                ==> final(self).bm() == old(self).bm(),
            (!rect_empty(*rect)
                && rect_overlaps(
                    bounds_rect(old(self).bm().width as int, old(self).bm().height as int),
                    round_spec(*rect))
                && old(shader).ctx_ok(old(self).ctm()))
                ==> forall|x: int, y: int|
                    0 <= x < old(self).bm().width && 0 <= y < old(self).bm().height
                        ==> #[trigger] pix_at(final(self).bm(), x, y) == ({
                            let ctm = old(self).ctm();
                            let roi = rect_intersection(
                                bounds_rect(old(self).bm().width as int,
                                    old(self).bm().height as int),
                                round_spec(*rect));
                            let mid = if tri_covered(ctm, rect_tri1(roi), x, y) {
                                blend_spec(old(shader).sample_with(ctm, x, y),
                                    pix_at(old(self).bm(), x, y))
                            } else {
                                pix_at(old(self).bm(), x, y)
                            };
                            if tri_covered(ctm, rect_tri2(roi), x, y) {
                                blend_spec(old(shader).sample_with(ctm, x, y), mid)
                            } else {
                                mid
                            }
                        }),
    {
        if rect.empty() {
            return;
        }

        let w = self.bitmap.width;
        let h = self.bitmap.height;
        proof {
            assert(w * 0x10000 <= 0x7FFF0000) by (nonlinear_arith) requires w <= 0x7FFF;
            assert(h * 0x10000 <= 0x7FFF0000) by (nonlinear_arith) requires h <= 0x7FFF;
        }
        let mut roi = Rect::make_wh((w * 0x10000) as i32, (h * 0x10000) as i32).round();
        proof {
            assert(floor16(0) == 0);
            assert(floor16((w * 0x10000) as int) == w * 0x10000) by (nonlinear_arith)
                requires 0 <= w * 0x10000 <= 0x7FFF0000;
            assert(floor16((h * 0x10000) as int) == h * 0x10000) by (nonlinear_arith)
                requires 0 <= h * 0x10000 <= 0x7FFF0000;
            assert(roi == bounds_rect(w as int, h as int));
        }
        if !roi.intersect(&rect.round()) {
            return;
        }

        let tri1 = Triangle::new(
            Point::new(roi.left, roi.top),
            Point::new(roi.right, roi.top),
            Point::new(roi.left, roi.bottom),
        );
        let tri2 = Triangle::new(
            Point::new(roi.right, roi.top),
            Point::new(roi.right, roi.bottom),
            Point::new(roi.left, roi.bottom),
        );
        self.shade_tri(&tri1, shader);
        self.shade_tri(&tri2, shader);
    }

    /// Fills an axis-aligned rectangle with a solid color under the current
    /// transform. Under the identity transform and a fully opaque color it
    /// sets exactly the pixels whose coordinates lie in the floored
    /// rectangle, clipped to the canvas, and leaves every other pixel
    /// unchanged.
    pub fn fill_rect(&mut self, rect: &Rect, color: &Color)
        requires
            old(self).wf(),
        ensures
            final(self).wf(),
            final(self).stack() == old(self).stack(),
            final(self).bm().width == old(self).bm().width,
            final(self).bm().height == old(self).bm().height,
            rect_empty(*rect) ==> final(self).bm() == old(self).bm(),
            !rect_empty(*rect)
                && !rect_overlaps(
                    bounds_rect(old(self).bm().width as int, old(self).bm().height as int),
                    round_spec(*rect))
                ==> final(self).bm() == old(self).bm(),
            (!rect_empty(*rect)
                && rect_overlaps(
                    bounds_rect(old(self).bm().width as int, old(self).bm().height as int),
                    round_spec(*rect)))
                ==> forall|x: int, y: int|
                    0 <= x < old(self).bm().width && 0 <= y < old(self).bm().height
                        ==> #[trigger] pix_at(final(self).bm(), x, y) == ({
                            let ctm = old(self).ctm();
                            let roi = rect_intersection(
                                bounds_rect(old(self).bm().width as int,
                                    old(self).bm().height as int),
                                round_spec(*rect));
                            let mid = if tri_covered(ctm, rect_tri1(roi), x, y) {
                                blend_spec(to_pixel_spec(*color),
                                    pix_at(old(self).bm(), x, y))
                            } else {
                                pix_at(old(self).bm(), x, y)
                            };
                            if tri_covered(ctm, rect_tri2(roi), x, y) {
                                blend_spec(to_pixel_spec(*color), mid)
                            } else {
                                mid
                            }
                        }),
            (old(self).ctm() == identity_spec() && to_pixel_spec(*color).a == 255)
                ==> forall|x: int, y: int|
                    0 <= x < old(self).bm().width && 0 <= y < old(self).bm().height
                        ==> #[trigger] pix_at(final(self).bm(), x, y)
                            == if rect.left / 0x10000 <= x < rect.right / 0x10000
                                && rect.top / 0x10000 <= y < rect.bottom / 0x10000 {
                                to_pixel_spec(*color)
                            } else {
                                pix_at(old(self).bm(), x, y)
                            },
    {
        let mut color_shader = Shaders::from_color(*color);
        self.shade_rect(rect, &mut color_shader);

        proof {
            if old(self).ctm() == identity_spec() && to_pixel_spec(*color).a == 255 {
                lemma_fill_rect_box(
                    *old(self), *self, *rect, to_pixel_spec(*color));
            }
        }
    }

    /// Shades a convex polygon: fan-triangulate from the first point and
    /// shade each triangle in order. Fewer than three points draw nothing.
    /// Callers are responsible for convexity and clockwise winding.
    pub fn shade_convex_polygon<S: Shader>(&mut self, points: &[Point], shader: &mut S)
        requires
            old(self).wf(),
            old(shader).valid(),
        ensures
            final(self).wf(),
            final(self).stack() == old(self).stack(),
            final(self).bm().width == old(self).bm().width,
            final(self).bm().height == old(self).bm().height,
            final(shader).valid(),
            forall|c: Matrix, x: int, y: int|
                #[trigger] final(shader).sample_with(c, x, y)
                    == old(shader).sample_with(c, x, y),
            forall|c: Matrix| #[trigger] final(shader).ctx_ok(c) == old(shader).ctx_ok(c),
            points@.len() <= 2 ==> final(self).bm() == old(self).bm(),
            points@.len() > 2 && !old(shader).ctx_ok(old(self).ctm())
                ==> final(self).bm() == old(self).bm(),
            points@.len() > 2 && old(shader).ctx_ok(old(self).ctm())
                ==> forall|x: int, y: int|
                    0 <= x < old(self).bm().width && 0 <= y < old(self).bm().height
                        ==> #[trigger] pix_at(final(self).bm(), x, y)
                            == fan_pix(*old(shader), old(self).ctm(), points@,
                                points@.len() - 2, x, y, pix_at(old(self).bm(), x, y)),
    {
        if points.len() <= 2 {
            return;
        }

        let ghost bm0 = self.bitmap;
        let ghost sh0 = *shader;
        let ghost ctm0 = self.ctm();

        let n = points.len();
        let mut i: usize = 1;
        while i < n - 1
            invariant
                self.wf(),
                shader.valid(),
                n == points@.len(),
                n > 2,
                1 <= i <= n - 1,
                self.stack() == old(self).stack(),
                ctm0 == old(self).ctm(),
                sh0 == *old(shader),
                bm0 == old(self).bm(),
                self.bm().width == bm0.width,
                self.bm().height == bm0.height,
                forall|c: Matrix, x: int, y: int|
                    #[trigger] shader.sample_with(c, x, y) == sh0.sample_with(c, x, y),
                forall|c: Matrix| #[trigger] shader.ctx_ok(c) == sh0.ctx_ok(c),
                !sh0.ctx_ok(ctm0) ==> self.bm() == bm0,
                sh0.ctx_ok(ctm0) ==> forall|x: int, y: int|
                    0 <= x < bm0.width && 0 <= y < bm0.height
                        ==> #[trigger] pix_at(self.bm(), x, y)
                            == fan_pix(sh0, ctm0, points@, i - 1, x, y, pix_at(bm0, x, y)),
            decreases n - 1 - i,
        {
            let tri = Triangle::new(points[0], points[i], points[i + 1]);
            let ghost bm_prev = self.bm();
            self.shade_tri(&tri, shader);
            proof {
                if sh0.ctx_ok(ctm0) {
                    assert(tri == fan_tri(points@, i as int));
                    assert forall|x: int, y: int|
                        0 <= x < bm0.width && 0 <= y < bm0.height
                            implies #[trigger] pix_at(self.bm(), x, y)
                                == fan_pix(sh0, ctm0, points@, i as int, x, y,
                                    pix_at(bm0, x, y)) by {
                        assert(pix_at(self.bm(), x, y)
                            == if tri_covered(ctm0, tri, x, y) {
                                blend_spec(sh0.sample_with(ctm0, x, y), pix_at(bm_prev, x, y))
                            } else {
                                pix_at(bm_prev, x, y)
                            });
                    }
                }
            }
            i += 1;
        }
    }

    /// Fills a convex polygon with a solid color under the current
    /// transform.
    pub fn fill_convex_polygon(&mut self, points: &[Point], color: &Color)
        requires
            old(self).wf(),
        ensures
            final(self).wf(),
            final(self).stack() == old(self).stack(),
            final(self).bm().width == old(self).bm().width,
            final(self).bm().height == old(self).bm().height,
            points@.len() <= 2 ==> final(self).bm() == old(self).bm(),
            points@.len() > 2 ==> forall|x: int, y: int|
                0 <= x < old(self).bm().width && 0 <= y < old(self).bm().height
                    ==> #[trigger] pix_at(final(self).bm(), x, y)
                        == fan_pix_color(old(self).ctm(), points@, points@.len() - 2,
                            x, y, pix_at(old(self).bm(), x, y), to_pixel_spec(*color)),
    {
        let mut color_shader = Shaders::from_color(*color);
        let ghost sh0 = color_shader;
        self.shade_convex_polygon(points, &mut color_shader);
        proof {
            if points@.len() > 2 {
                assert forall|x: int, y: int|
                    0 <= x < old(self).bm().width && 0 <= y < old(self).bm().height
                        implies #[trigger] pix_at(final(self).bm(), x, y)
                            == fan_pix_color(old(self).ctm(), points@, points@.len() - 2,
                                x, y, pix_at(old(self).bm(), x, y), to_pixel_spec(*color)) by {
                    lemma_fan_const(sh0, old(self).ctm(), points@, points@.len() - 2,
                        x, y, pix_at(old(self).bm(), x, y), to_pixel_spec(*color));
                }
            }
        }
    }

    /// Draws a source bitmap into a destination rectangle: the source
    /// bounds are mapped affinely onto the destination, and the clipped
    /// destination is shaded by sampling the source through the inverse of
    /// the combined transform.
    #[verifier::rlimit(100)]
    pub fn fill_bitmap_rect(&mut self, src: &Bitmap, dst: &Rect)
        requires
            old(self).wf(),
            bitmap_wf(*src),
        ensures
            final(self).wf(),
            final(self).stack() == old(self).stack(),
            final(self).bm().width == old(self).bm().width,
            final(self).bm().height == old(self).bm().height,
            src.width == 0 || src.height == 0 ==> final(self).bm() == old(self).bm(),
            ({
                let cv = bounds_rect(old(self).bm().width as int, old(self).bm().height as int);
                src.width >= 1 && src.height >= 1 && !rect_overlaps(cv, round_spec(*dst))
                    ==> final(self).bm() == old(self).bm()
            }),
            ({
                let ctm = old(self).ctm();
                let local = map_r2r_spec(
                    bounds_rect(src.width as int, src.height as int), *dst);
                src.width >= 1 && src.height >= 1
                    && !(det2(mul_spec(ctm, local)) != 0 && inv_fits(mul_spec(ctm, local)))
                    ==> final(self).bm() == old(self).bm()
            }),
            ({
                let cv = bounds_rect(old(self).bm().width as int, old(self).bm().height as int);
                let ctm = old(self).ctm();
                let local = map_r2r_spec(
                    bounds_rect(src.width as int, src.height as int), *dst);
                let xf = inv_of(mul_spec(ctm, local));
                (src.width >= 1 && src.height >= 1
                    && rect_overlaps(cv, round_spec(*dst))
                    && det2(mul_spec(ctm, local)) != 0 && inv_fits(mul_spec(ctm, local)))
                    ==> forall|x: int, y: int|
                        0 <= x < old(self).bm().width && 0 <= y < old(self).bm().height
                            ==> #[trigger] pix_at(final(self).bm(), x, y) == ({
                                let roi = rect_intersection(cv, round_spec(*dst));
                                let mid = if tri_covered(ctm, rect_tri1(roi), x, y) {
                                    blend_spec(sample_uv(*src, xf, x, y),
                                        pix_at(old(self).bm(), x, y))
                                } else {
                                    pix_at(old(self).bm(), x, y)
                                };
                                if tri_covered(ctm, rect_tri2(roi), x, y) {
                                    blend_spec(sample_uv(*src, xf, x, y), mid)
                                } else {
                                    mid
                                }
                            })
            }),
    {
        if src.width == 0 || src.height == 0 {
            return;
        }

        let w = self.bitmap.width;
        let h = self.bitmap.height;
        proof {
            assert(w * 0x10000 <= 0x7FFF0000) by (nonlinear_arith) requires w <= 0x7FFF;
            assert(h * 0x10000 <= 0x7FFF0000) by (nonlinear_arith) requires h <= 0x7FFF;
            assert(src.width * 0x10000 <= 0x7FFF0000) by (nonlinear_arith)
                requires src.width <= 0x7FFF;
            assert(src.height * 0x10000 <= 0x7FFF0000) by (nonlinear_arith)
                requires src.height <= 0x7FFF;
        }

        let srcrect = Rect::make_wh((src.width * 0x10000) as i32, (src.height * 0x10000) as i32);
        let r2r = map_rect_to_rect_mat(&srcrect, dst);

        let copy = src.duplicate();
        let mut shader = Shaders::from_bitmap_mat(copy, r2r.entries());

        proof {
            let ghost local = map_r2r_spec(bounds_rect(src.width as int, src.height as int),
                *dst);
            assert(srcrect == bounds_rect(src.width as int, src.height as int));
            assert(mat_of(seq![r2r.a, r2r.b, r2r.c, r2r.d, r2r.e, r2r.f]) == local);
            // The duplicated source samples identically to the original.
            assert forall|c: Matrix, x: int, y: int|
                #[trigger] shader.sample_with(c, x, y)
                    == sample_uv(*src, inv_of(mul_spec(c, local)), x, y) by {
                let xf = inv_of(mul_spec(c, local));
                assert(pix_at(
                    Bitmap { width: src.width, height: src.height, pixels: src.pixels },
                    crate::shader::clamp_floor(crate::shader::uv_x(xf, x, y), src.width as int),
                    crate::shader::clamp_floor(crate::shader::uv_y(xf, x, y), src.height as int))
                    == sample_uv(*src, xf, x, y));
            }
        }

        self.shade_rect(dst, &mut shader);
    }
}

/// One triangle of the fan anchored at the first polygon point.
pub open spec fn fan_tri(pts: Seq<Point>, k: int) -> Triangle {
    Triangle { a: pts[0], b: pts[k], c: pts[k + 1] }
}

/// The pixel value after shading the first `k` fan triangles of a polygon
/// over a base pixel, through a shader's samples.
pub open spec fn fan_pix<S: Shader>(
    sh: S, ctm: Matrix, pts: Seq<Point>, k: int, x: int, y: int, base: crate::pixel::Pixel,
) -> crate::pixel::Pixel
    decreases k,
{
    if k < 1 {
        base
    } else {
        let prev = fan_pix(sh, ctm, pts, k - 1, x, y, base);
        if tri_covered(ctm, fan_tri(pts, k), x, y) {
            blend_spec(sh.sample_with(ctm, x, y), prev)
        } else {
            prev
        }
    }
}

/// The pixel value after shading the first `k` fan triangles with one
/// constant source pixel.
pub open spec fn fan_pix_color(
    ctm: Matrix, pts: Seq<Point>, k: int, x: int, y: int, base: crate::pixel::Pixel,
    px: crate::pixel::Pixel,
) -> crate::pixel::Pixel
    decreases k,
{
    if k < 1 {
        base
    } else {
        let prev = fan_pix_color(ctm, pts, k - 1, x, y, base, px);
        if tri_covered(ctm, fan_tri(pts, k), x, y) {
            blend_spec(px, prev)
        } else {
            prev
        }
    }
}

/// A bitmap shader whose destination equals the source bounds, under the
/// identity transform, samples the source pixel at the same integer
/// coordinates: the rectangle-to-rectangle map is the identity, so is the
/// combined inverse, and the pixel-center sample lands on `(x, y)` itself.
pub proof fn lemma_bitmap_identity_sampling(src: Bitmap, x: int, y: int)
    requires
        bitmap_wf(src),
        src.width >= 1,
        src.height >= 1,
        0 <= x < src.width,
        0 <= y < src.height,
    ensures
        ({
            let bounds = bounds_rect(src.width as int, src.height as int);
            let local = map_r2r_spec(bounds, bounds);
            let xf = inv_of(mul_spec(identity_spec(), local));
            &&& local == identity_spec()
            &&& xf == identity_spec()
            &&& sample_uv(src, xf, x, y) == pix_at(src, x, y)
        }),
{
    let w = src.width as int;
    let h = src.height as int;
    assert(w * 0x10000 <= 0x7FFF0000) by (nonlinear_arith) requires w <= 0x7FFF;
    assert(h * 0x10000 <= 0x7FFF0000) by (nonlinear_arith) requires h <= 0x7FFF;
    let bounds = bounds_rect(w, h);
    let local = map_r2r_spec(bounds, bounds);

    // Mapping a rectangle onto itself is the identity.
    let sw = bounds.right as int;
    assert(rdiv(sw * 0x10000, sw) == 0x10000) by (nonlinear_arith) requires sw >= 1;
    let sh2 = bounds.bottom as int;
    assert(rdiv(sh2 * 0x10000, sh2) == 0x10000) by (nonlinear_arith) requires sh2 >= 1;
    assert(rhu16(0) == 0);
    assert(local == identity_spec());

    lemma_mul_identity_right(identity_spec());
    let m = mul_spec(identity_spec(), local);
    assert(m == identity_spec());

    // The inverse of the identity is the identity.
    let dt: int = 0x100000000;
    assert(0x10000 * (0x10000 as int) == 0x100000000) by (nonlinear_arith);
    assert(0 * (0 as int) == 0) by (nonlinear_arith);
    assert(det2(identity_spec()) == dt);
    assert(rdiv(0x10000 * dt, dt) == 0x10000);
    assert(rdiv(0, dt) == 0);
    assert(rdiv((0 * 0 - 0 * 0x10000) * 0x10000, dt) == 0);
    assert(rdiv(-0 * dt, dt) == 0);
    assert(inv_of(identity_spec()) == identity_spec());

    // Sampling the pixel center through the identity lands on the pixel.
    let px = x * 0x10000 + 0x8000;
    let py = y * 0x10000 + 0x8000;
    assert(rhu16(0x10000 * px + 0 * py) == px) by (nonlinear_arith);
    assert(rhu16(0 * px + 0x10000 * py) == py) by (nonlinear_arith);
    assert(crate::shader::uv_x(identity_spec(), x, y) == px);
    assert(crate::shader::uv_y(identity_spec(), x, y) == py);
    assert(px / 0x10000 == x) by (nonlinear_arith) requires px == x * 0x10000 + 0x8000 && x >= 0;
    assert(py / 0x10000 == y) by (nonlinear_arith) requires py == y * 0x10000 + 0x8000 && y >= 0;
    assert(crate::shader::clamp_floor(px, w) == x);
    assert(crate::shader::clamp_floor(py, h) == y);
}

/// A fan shaded through a constant shader equals the constant-color fan.
proof fn lemma_fan_const<S: Shader>(
    sh: S, ctm: Matrix, pts: Seq<Point>, k: int, x: int, y: int, base: crate::pixel::Pixel,
    px: crate::pixel::Pixel,
)
    requires
        forall|a: int, b: int| #[trigger] sh.sample_with(ctm, a, b) == px,
    ensures
        fan_pix(sh, ctm, pts, k, x, y, base) == fan_pix_color(ctm, pts, k, x, y, base, px),
    decreases k,
{
    if k >= 1 {
        lemma_fan_const(sh, ctm, pts, k - 1, x, y, base, px);
    }
}

/// Under the identity transform, filling a rectangle with an opaque pixel
/// paints exactly the floored rectangle clipped to the canvas.
proof fn lemma_fill_rect_box(pre: Canvas, post: Canvas, rect: Rect, px: crate::pixel::Pixel)
    requires
        pre.wf(),
        px.a == 255,
        pre.ctm() == identity_spec(),
        post.bm().width == pre.bm().width,
        post.bm().height == pre.bm().height,
        rect_empty(rect) ==> post.bm() == pre.bm(),
        !rect_empty(rect)
            && !rect_overlaps(
                bounds_rect(pre.bm().width as int, pre.bm().height as int),
                round_spec(rect))
            ==> post.bm() == pre.bm(),
        (!rect_empty(rect)
            && rect_overlaps(
                bounds_rect(pre.bm().width as int, pre.bm().height as int),
                round_spec(rect)))
            ==> forall|x: int, y: int|
                0 <= x < pre.bm().width && 0 <= y < pre.bm().height
                    ==> #[trigger] pix_at(post.bm(), x, y) == ({
                        let roi = rect_intersection(
                            bounds_rect(pre.bm().width as int, pre.bm().height as int),
                            round_spec(rect));
                        let mid = if tri_covered(identity_spec(), rect_tri1(roi), x, y) {
                            blend_spec(px, pix_at(pre.bm(), x, y))
                        } else {
                            pix_at(pre.bm(), x, y)
                        };
                        if tri_covered(identity_spec(), rect_tri2(roi), x, y) {
                            blend_spec(px, mid)
                        } else {
                            mid
                        }
                    }),
    ensures
        forall|x: int, y: int|
            0 <= x < pre.bm().width && 0 <= y < pre.bm().height
                ==> #[trigger] pix_at(post.bm(), x, y)
                    == if rect.left / 0x10000 <= x < rect.right / 0x10000
                        && rect.top / 0x10000 <= y < rect.bottom / 0x10000 {
                        px
                    } else {
                        pix_at(pre.bm(), x, y)
                    },
{
    let w = pre.bm().width as int;
    let h = pre.bm().height as int;
    let cv = bounds_rect(w, h);
    let rr = round_spec(rect);

    assert forall|x: int, y: int|
        0 <= x < w && 0 <= y < h
            implies #[trigger] pix_at(post.bm(), x, y)
                == if rect.left / 0x10000 <= x < rect.right / 0x10000
                    && rect.top / 0x10000 <= y < rect.bottom / 0x10000 {
                    px
                } else {
                    pix_at(pre.bm(), x, y)
                } by {
        lemma_floor16_facts(rect.left as int);
        lemma_floor16_facts(rect.top as int);
        lemma_floor16_facts(rect.right as int);
        lemma_floor16_facts(rect.bottom as int);
        let in_box = rect.left / 0x10000 <= x < rect.right / 0x10000
            && rect.top / 0x10000 <= y < rect.bottom / 0x10000;
        if rect_empty(rect) {
            // A crossed rectangle has an empty floored box.
            assert(rect.left >= rect.right ==> rect.left / 0x10000 >= rect.right / 0x10000)
                by (nonlinear_arith);
            assert(rect.top >= rect.bottom ==> rect.top / 0x10000 >= rect.bottom / 0x10000)
                by (nonlinear_arith);
            assert(!in_box);
        } else if !rect_overlaps(cv, rr) {
            // The floored box misses the canvas entirely.
            if in_box {
                assert(w * 0x10000 == cv.right && h * 0x10000 == cv.bottom);
                assert(rr.left < cv.right && rr.top < cv.bottom) by (nonlinear_arith)
                    requires
                        rr.left == (rect.left / 0x10000) * 0x10000,
                        rr.top == (rect.top / 0x10000) * 0x10000,
                        cv.right == w * 0x10000,
                        cv.bottom == h * 0x10000,
                        rect.left / 0x10000 <= x < w,
                        rect.top / 0x10000 <= y < h;
                assert(rr.right > 0 && rr.bottom > 0) by (nonlinear_arith)
                    requires
                        rr.right == (rect.right / 0x10000) * 0x10000,
                        rr.bottom == (rect.bottom / 0x10000) * 0x10000,
                        rect.right / 0x10000 > x >= 0,
                        rect.bottom / 0x10000 > y >= 0;
                assert(false);
            }
        } else {
            let roi = rect_intersection(cv, rr);
            let lk = roi.left as int / 0x10000;
            let tk = roi.top as int / 0x10000;
            let rk = roi.right as int / 0x10000;
            let bk = roi.bottom as int / 0x10000;
            lemma_dev_corner(roi.left as int, roi.top as int);
            lemma_dev_corner(roi.right as int, roi.top as int);
            lemma_dev_corner(roi.left as int, roi.bottom as int);
            lemma_dev_corner(roi.right as int, roi.bottom as int);
            lemma_box_coverage(16 * lk, 16 * tk, 16 * rk, 16 * bk, x, y);
            // Both triangles' coverage together equal the clipped box, and
            // an opaque source makes each blend the source pixel itself.
            assert((16 * lk <= 16 * x < 16 * rk && 16 * tk <= 16 * y < 16 * bk)
                == (lk <= x < rk && tk <= y < bk)) by (nonlinear_arith);
            // The clipped box is the floored box cut to the canvas.
            assert(lk == if rect.left / 0x10000 >= 0 { rect.left / 0x10000 } else { 0 });
            assert(tk == if rect.top / 0x10000 >= 0 { rect.top / 0x10000 } else { 0 });
            assert(rk == if rect.right / 0x10000 <= w { rect.right / 0x10000 } else { w });
            assert(bk == if rect.bottom / 0x10000 <= h { rect.bottom / 0x10000 } else { h });
        }
    }
}

/// Division facts about flooring a 16.16 coordinate to a pixel boundary.
proof fn lemma_floor16_facts(v: int)
    ensures
        floor16(v) / 0x10000 == v / 0x10000,
        floor16(v) == (v / 0x10000) * 0x10000,
{
    assert(((v / 0x10000) * 0x10000) / 0x10000 == v / 0x10000) by (nonlinear_arith);
}

/// Under the identity transform, the device corner of an integer 16.16
/// coordinate pair is exactly its pixel index in 28.4 fixed point.
proof fn lemma_dev_corner(vx: int, vy: int)
    requires
        -0x7FFF0000 <= vx <= 0x7FFF0000,
        -0x7FFF0000 <= vy <= 0x7FFF0000,
        vx % 0x10000 == 0,
        vy % 0x10000 == 0,
    ensures
        dev_x(identity_spec(), Point { x: vx as i32, y: vy as i32 }) == 16 * (vx / 0x10000),
        dev_y(identity_spec(), Point { x: vx as i32, y: vy as i32 }) == 16 * (vy / 0x10000),
{
    assert(rhu16(0x10000 * vx + 0 * vy) == vx) by (nonlinear_arith);
    assert(rhu16(0 * vx + 0x10000 * vy) == vy) by (nonlinear_arith);
    assert(sat32(vx) == vx && sat32(vy) == vy);
    assert(to_fixed4(vx) == 16 * (vx / 0x10000)) by (nonlinear_arith)
        requires vx % 0x10000 == 0 && -0x7FFF0000 <= vx <= 0x7FFF0000;
    assert(to_fixed4(vy) == 16 * (vy / 0x10000)) by (nonlinear_arith)
        requires vy % 0x10000 == 0 && -0x7FFF0000 <= vy <= 0x7FFF0000;
}

} // verus!
