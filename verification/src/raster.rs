use vstd::prelude::*;
use crate::bitmap::{Bitmap, bitmap_wf, pix_at};
use crate::pixel::Pixel;
use crate::shader::Shader;
use crate::util::{blend_spec, blend_row, floor_div, mul_i64_small};

verus! {

/// The rasterizer's vertex domain: 28.4 fixed-point coordinates derived
/// from 16.16 device coordinates stay within +-2^21.
pub const RASTER_BOUND: i32 = 0x200000;

/// Converts a 16.16 device coordinate to 28.4 fixed point, rounding half
/// up.
pub open spec fn to_fixed4(v: int) -> int {
    (v + 0x800) / 0x1000
}

/// Converts a 16.16 device coordinate to 28.4 fixed point (rounding half
/// up), staying within the rasterizer's vertex domain.
pub fn to28(v: i32) -> (r: i32)
    ensures
        r == to_fixed4(v as int),
        -RASTER_BOUND <= r <= RASTER_BOUND,
{
    let q = floor_div((v as i64) + 0x800, 0x1000);
    proof {
        assert(-0x200000 <= (v + 0x800) / 0x1000 <= 0x200000) by (nonlinear_arith)
            requires -0x80000000 <= v as int <= 0x7FFFFFFF;
    }
    q as i32
}

/// Fill-convention correction for an edge with the given deltas: edges that
/// run upward, and exactly horizontal edges that run leftward, own the
/// pixels on their line (the top-left rule).
pub open spec fn corr(dx: int, dy: int) -> int {
    if dy > 0 || (dy == 0 && dx < 0) {
        1
    } else {
        0
    }
}

/// The uncorrected half-edge function for the directed edge from `(x1, y1)`
/// to `(x2, y2)`, evaluated at the 28.4 point `(px, py)`.
pub open spec fn edge_raw(x1: int, y1: int, x2: int, y2: int, px: int, py: int) -> int {
    (y1 - y2) * x1 - (x1 - x2) * y1 + (x1 - x2) * py - (y1 - y2) * px
}

/// The corrected half-edge function: negative exactly on the filled side,
/// with ties on the edge line decided by the top-left rule.
pub open spec fn edge_at(x1: int, y1: int, x2: int, y2: int, px: int, py: int) -> int {
    edge_raw(x1, y1, x2, y2, px, py) - corr(x1 - x2, y1 - y2)
}

/// Whether the rasterizer covers device pixel `(x, y)` for the triangle
/// with 28.4 vertices `(x1, y1)`, `(x2, y2)`, `(x3, y3)`; the test point is
/// the pixel's top-left corner. Only triangles wound clockwise in y-down
/// device space cover anything.
pub open spec fn covered(
    x1: int, y1: int, x2: int, y2: int, x3: int, y3: int, x: int, y: int,
) -> bool {
    &&& edge_at(x1, y1, x2, y2, 16 * x, 16 * y) < 0
    &&& edge_at(x2, y2, x3, y3, 16 * x, 16 * y) < 0
    &&& edge_at(x3, y3, x1, y1, 16 * x, 16 * y) < 0
}

pub open spec fn min3(a: int, b: int, c: int) -> int {
    if a < b { if a < c { a } else { c } } else if b < c { b } else { c }
}

pub open spec fn max3(a: int, b: int, c: int) -> int {
    if a > b { if a > c { a } else { c } } else if b > c { b } else { c }
}

/// Moving one pixel right or down moves a corrected edge value by a fixed
/// 28.4 delta.
proof fn lemma_edge_step(x1: int, y1: int, x2: int, y2: int, px: int, py: int)
    ensures
        edge_at(x1, y1, x2, y2, px + 16, py)
            == edge_at(x1, y1, x2, y2, px, py) - 16 * (y1 - y2),
        edge_at(x1, y1, x2, y2, px, py + 16)
            == edge_at(x1, y1, x2, y2, px, py) + 16 * (x1 - x2),
{
    assert((y1 - y2) * (px + 16) == (y1 - y2) * px + (y1 - y2) * 16) by (nonlinear_arith);
    assert((x1 - x2) * (py + 16) == (x1 - x2) * py + (x1 - x2) * 16) by (nonlinear_arith);
}

/// A corrected edge value of in-range vertices at an in-range point stays
/// far from the i64 edge.
proof fn lemma_edge_bound(x1: int, y1: int, x2: int, y2: int, px: int, py: int)
    requires
        -0x200000 <= x1 <= 0x200000,
        -0x200000 <= y1 <= 0x200000,
        -0x200000 <= x2 <= 0x200000,
        -0x200000 <= y2 <= 0x200000,
        -0x100000 <= px <= 0x100000,
        -0x100000 <= py <= 0x100000,
    ensures
        -0x20000000000000 <= edge_at(x1, y1, x2, y2, px, py) <= 0x20000000000000,
{
    assert(-0x4000000000000 <= (y1 - y2) * x1 <= 0x4000000000000) by (nonlinear_arith)
        requires -0x400000 <= y1 - y2 <= 0x400000 && -0x200000 <= x1 <= 0x200000;
    assert(-0x4000000000000 <= (x1 - x2) * y1 <= 0x4000000000000) by (nonlinear_arith)
        requires -0x400000 <= x1 - x2 <= 0x400000 && -0x200000 <= y1 <= 0x200000;
    assert(-0x4000000000000 <= (x1 - x2) * py <= 0x4000000000000) by (nonlinear_arith)
        requires -0x400000 <= x1 - x2 <= 0x400000 && -0x100000 <= py <= 0x100000;
    assert(-0x4000000000000 <= (y1 - y2) * px <= 0x4000000000000) by (nonlinear_arith)
        requires -0x400000 <= y1 - y2 <= 0x400000 && -0x100000 <= px <= 0x100000;
}

/// Every covered pixel lies inside the triangle's 28.4 bounding box: the
/// three corrected half-planes only meet within the convex hull of the
/// vertices.
pub proof fn lemma_covered_in_bbox(
    x1: int, y1: int, x2: int, y2: int, x3: int, y3: int, x: int, y: int,
)
    requires
        covered(x1, y1, x2, y2, x3, y3, x, y),
    ensures
        min3(x1, x2, x3) <= 16 * x <= max3(x1, x2, x3),
        min3(y1, y2, y3) <= 16 * y <= max3(y1, y2, y3),
{
    let px = 16 * x;
    let py = 16 * y;
    let u1 = edge_raw(x1, y1, x2, y2, px, py);
    let u2 = edge_raw(x2, y2, x3, y3, px, py);
    let u3 = edge_raw(x3, y3, x1, y1, px, py);
    // Covered means each corrected value is negative, so each raw value is
    // at most zero.
    let c1 = corr(x1 - x2, y1 - y2);
    let c2 = corr(x2 - x3, y2 - y3);
    let c3 = corr(x3 - x1, y3 - y1);
    assert(u1 <= c1 - 1 && u2 <= c2 - 1 && u3 <= c3 - 1);
    let s = u1 + u2 + u3;
    // Not all three fill corrections can apply at once: the edge deltas of
    // a triangle sum to zero, so the sum of the raw edge values is
    // strictly negative.
    assert(c1 + c2 + c3 <= 2);
    assert(s < 0);

    // The raw edge values are cross products of vertex offsets around the
    // test point; barycentric interpolation of the coordinate functions
    // follows from their cancellation.
    let a1 = x1 - px;
    let b1 = y1 - py;
    let a2 = x2 - px;
    let b2 = y2 - py;
    let a3 = x3 - px;
    let b3 = y3 - py;
    assert(u1 == a2 * b1 - a1 * b2) by (nonlinear_arith)
        requires
            u1 == (y1 - y2) * x1 - (x1 - x2) * y1 + (x1 - x2) * py - (y1 - y2) * px,
            a1 == x1 - px && b1 == y1 - py && a2 == x2 - px && b2 == y2 - py;
    assert(u2 == a3 * b2 - a2 * b3) by (nonlinear_arith)
        requires
            u2 == (y2 - y3) * x2 - (x2 - x3) * y2 + (x2 - x3) * py - (y2 - y3) * px,
            a2 == x2 - px && b2 == y2 - py && a3 == x3 - px && b3 == y3 - py;
    assert(u3 == a1 * b3 - a3 * b1) by (nonlinear_arith)
        requires
            u3 == (y3 - y1) * x3 - (x3 - x1) * y3 + (x3 - x1) * py - (y3 - y1) * px,
            a3 == x3 - px && b3 == y3 - py && a1 == x1 - px && b1 == y1 - py;
    assert(a3 * u1 + a1 * u2 + a2 * u3 == 0) by (nonlinear_arith)
        requires
            u1 == a2 * b1 - a1 * b2,
            u2 == a3 * b2 - a2 * b3,
            u3 == a1 * b3 - a3 * b1;
    assert(b3 * u1 + b1 * u2 + b2 * u3 == 0) by (nonlinear_arith)
        requires
            u1 == a2 * b1 - a1 * b2,
            u2 == a3 * b2 - a2 * b3,
            u3 == a1 * b3 - a3 * b1;
    assert(px * s == x3 * u1 + x1 * u2 + x2 * u3) by (nonlinear_arith)
        requires
            x3 == a3 + px && x1 == a1 + px && x2 == a2 + px,
            s == u1 + u2 + u3,
            a3 * u1 + a1 * u2 + a2 * u3 == 0;
    assert(py * s == y3 * u1 + y1 * u2 + y2 * u3) by (nonlinear_arith)
        requires
            y3 == b3 + py && y1 == b1 + py && y2 == b2 + py,
            s == u1 + u2 + u3,
            b3 * u1 + b1 * u2 + b2 * u3 == 0;

    let mx = max3(x1, x2, x3);
    let nx = min3(x1, x2, x3);
    let my = max3(y1, y2, y3);
    let ny = min3(y1, y2, y3);

    assert((x3 - mx) * u1 >= 0) by (nonlinear_arith) requires x3 - mx <= 0 && u1 <= 0;
    assert((x1 - mx) * u2 >= 0) by (nonlinear_arith) requires x1 - mx <= 0 && u2 <= 0;
    assert((x2 - mx) * u3 >= 0) by (nonlinear_arith) requires x2 - mx <= 0 && u3 <= 0;
    assert((x3 - nx) * u1 <= 0) by (nonlinear_arith) requires x3 - nx >= 0 && u1 <= 0;
    assert((x1 - nx) * u2 <= 0) by (nonlinear_arith) requires x1 - nx >= 0 && u2 <= 0;
    assert((x2 - nx) * u3 <= 0) by (nonlinear_arith) requires x2 - nx >= 0 && u3 <= 0;
    assert((y3 - my) * u1 >= 0) by (nonlinear_arith) requires y3 - my <= 0 && u1 <= 0;
    assert((y1 - my) * u2 >= 0) by (nonlinear_arith) requires y1 - my <= 0 && u2 <= 0;
    assert((y2 - my) * u3 >= 0) by (nonlinear_arith) requires y2 - my <= 0 && u3 <= 0;
    assert((y3 - ny) * u1 <= 0) by (nonlinear_arith) requires y3 - ny >= 0 && u1 <= 0;
    assert((y1 - ny) * u2 <= 0) by (nonlinear_arith) requires y1 - ny >= 0 && u2 <= 0;
    assert((y2 - ny) * u3 <= 0) by (nonlinear_arith) requires y2 - ny >= 0 && u3 <= 0;

    assert(px * s - mx * s == (x3 - mx) * u1 + (x1 - mx) * u2 + (x2 - mx) * u3)
        by (nonlinear_arith)
        requires px * s == x3 * u1 + x1 * u2 + x2 * u3 && s == u1 + u2 + u3;
    assert(px * s - nx * s == (x3 - nx) * u1 + (x1 - nx) * u2 + (x2 - nx) * u3)
        by (nonlinear_arith)
        requires px * s == x3 * u1 + x1 * u2 + x2 * u3 && s == u1 + u2 + u3;
    assert(py * s - my * s == (y3 - my) * u1 + (y1 - my) * u2 + (y2 - my) * u3)
        by (nonlinear_arith)
        requires py * s == y3 * u1 + y1 * u2 + y2 * u3 && s == u1 + u2 + u3;
    assert(py * s - ny * s == (y3 - ny) * u1 + (y1 - ny) * u2 + (y2 - ny) * u3)
        by (nonlinear_arith)
        requires py * s == y3 * u1 + y1 * u2 + y2 * u3 && s == u1 + u2 + u3;

    assert(px <= mx) by (nonlinear_arith) requires px * s >= mx * s && s < 0;
    assert(px >= nx) by (nonlinear_arith) requires px * s <= nx * s && s < 0;
    assert(py <= my) by (nonlinear_arith) requires py * s >= my * s && s < 0;
    assert(py >= ny) by (nonlinear_arith) requires py * s <= ny * s && s < 0;
}

/// Splitting an axis-aligned box into its two clockwise triangles covers
/// exactly the box: the pixels whose top-left corner lies in
/// `[l, r) x [t, b)` in 28.4 space.
pub proof fn lemma_box_coverage(l: int, t: int, r: int, b: int, x: int, y: int)
    requires
        l < r,
        t < b,
    ensures
        (covered(l, t, r, t, l, b, x, y) || covered(r, t, r, b, l, b, x, y))
            == (l <= 16 * x < r && t <= 16 * y < b),
{
    let xx = 16 * x;
    let yy = 16 * y;
    // The six edge values, written over the box sides.
    let e11 = edge_at(l, t, r, t, xx, yy);
    let e12 = edge_at(r, t, l, b, xx, yy);
    let e13 = edge_at(l, b, l, t, xx, yy);
    let e21 = edge_at(r, t, r, b, xx, yy);
    let e22 = edge_at(r, b, l, b, xx, yy);
    let e23 = edge_at(l, b, r, t, xx, yy);

    // The diagonal D separates the two triangles; both diagonal edge
    // values reduce to it.
    let d = (b - t) * (r - l) - (b - t) * (xx - l) - (r - l) * (yy - t);

    assert(e11 == (l - r) * (yy - t) - 1) by (nonlinear_arith)
        requires e11 == (t - t) * l - (l - r) * t + (l - r) * yy - (t - t) * xx - 1;
    assert(e13 == (b - t) * (l - xx) - 1) by (nonlinear_arith)
        requires e13 == (b - t) * l - 0 * b + 0 * yy - (b - t) * xx - 1;
    assert(e21 == (t - b) * (r - xx)) by (nonlinear_arith)
        requires e21 == (t - b) * r - 0 * t + 0 * yy - (t - b) * xx;
    assert(e22 == (r - l) * (yy - b)) by (nonlinear_arith)
        requires e22 == (b - b) * r - (r - l) * b + (r - l) * yy - (b - b) * xx;
    assert(e12 == -d) by (nonlinear_arith)
        requires
            e12 == (t - b) * r - (r - l) * t + (r - l) * yy - (t - b) * xx,
            d == (b - t) * (r - l) - (b - t) * (xx - l) - (r - l) * (yy - t);
    assert(e23 == d - 1) by (nonlinear_arith)
        requires
            e23 == (b - t) * l - (l - r) * b + (l - r) * yy - (b - t) * xx - 1,
            d == (b - t) * (r - l) - (b - t) * (xx - l) - (r - l) * (yy - t);

    // Each side condition is equivalent to one box bound.
    assert((e11 < 0) == (yy >= t)) by (nonlinear_arith)
        requires e11 == (l - r) * (yy - t) - 1 && l < r;
    assert((e13 < 0) == (xx >= l)) by (nonlinear_arith)
        requires e13 == (b - t) * (l - xx) - 1 && t < b;
    assert((e21 < 0) == (xx < r)) by (nonlinear_arith)
        requires e21 == (t - b) * (r - xx) && t < b;
    assert((e22 < 0) == (yy < b)) by (nonlinear_arith)
        requires e22 == (r - l) * (yy - b) && l < r;

    // A point on the covered side of the diagonal stays inside the box's
    // other two bounds.
    if d > 0 && yy >= t && xx >= l {
        assert(xx < r && yy < b) by (nonlinear_arith)
            requires
                d == (b - t) * (r - l) - (b - t) * (xx - l) - (r - l) * (yy - t),
                d > 0 && yy >= t && xx >= l && l < r && t < b;
    }
    if d <= 0 && xx < r && yy < b {
        assert(xx >= l && yy >= t) by (nonlinear_arith)
            requires
                d == (b - t) * (r - l) - (b - t) * (xx - l) - (r - l) * (yy - t),
                d <= 0 && xx < r && yy < b && l < r && t < b;
    }
    // Inside the box, exactly one diagonal side holds, so the union is the
    // whole box.
    if l <= xx < r && t <= yy < b {
        assert(d > 0 || d <= 0);
    }
}

/// The fill convention never paints a pixel twice across a shared edge:
/// for two triangles that share the edge between the first two vertices in
/// opposite directions, no pixel is covered by both.
pub proof fn lemma_shared_edge_no_double(
    ax: int, ay: int, bx: int, by: int,
    cx: int, cy: int, dx: int, dy: int,
    x: int, y: int,
)
    requires
        !(ax == bx && ay == by),
    ensures
        !(covered(ax, ay, bx, by, cx, cy, x, y) && covered(bx, by, ax, ay, dx, dy, x, y)),
{
    let xx = 16 * x;
    let yy = 16 * y;
    let u = edge_raw(ax, ay, bx, by, xx, yy);
    let v = edge_raw(bx, by, ax, ay, xx, yy);
    assert(v == -u) by (nonlinear_arith)
        requires
            u == (ay - by) * ax - (ax - bx) * ay + (ax - bx) * yy - (ay - by) * xx,
            v == (by - ay) * bx - (bx - ax) * by + (bx - ax) * yy - (by - ay) * xx;
    let c1 = corr(ax - bx, ay - by);
    let c2 = corr(bx - ax, by - ay);
    assert(c1 + c2 == 1);
    if covered(ax, ay, bx, by, cx, cy, x, y) && covered(bx, by, ax, ay, dx, dy, x, y) {
        assert(u < c1 && -u < c2);
        assert(false);
    }
}

/// The fill convention never leaves a gap on a shared edge: a pixel whose
/// corner lies exactly on the shared edge line, and which lies inside the
/// other two edges of both triangles, is covered by exactly one of them.
pub proof fn lemma_shared_edge_no_gap(
    ax: int, ay: int, bx: int, by: int,
    cx: int, cy: int, dx: int, dy: int,
    x: int, y: int,
)
    requires
        !(ax == bx && ay == by),
        edge_raw(ax, ay, bx, by, 16 * x, 16 * y) == 0,
        edge_at(bx, by, cx, cy, 16 * x, 16 * y) < 0,
        edge_at(cx, cy, ax, ay, 16 * x, 16 * y) < 0,
        edge_at(ax, ay, dx, dy, 16 * x, 16 * y) < 0,
        edge_at(dx, dy, bx, by, 16 * x, 16 * y) < 0,
    ensures
        covered(ax, ay, bx, by, cx, cy, x, y) != covered(bx, by, ax, ay, dx, dy, x, y),
{
    let xx = 16 * x;
    let yy = 16 * y;
    let u = edge_raw(ax, ay, bx, by, xx, yy);
    let v = edge_raw(bx, by, ax, ay, xx, yy);
    assert(v == -u) by (nonlinear_arith)
        requires
            u == (ay - by) * ax - (ax - bx) * ay + (ax - bx) * yy - (ay - by) * xx,
            v == (by - ay) * bx - (bx - ax) * by + (bx - ax) * yy - (by - ay) * xx;
    let c1 = corr(ax - bx, ay - by);
    let c2 = corr(bx - ax, by - ay);
    assert(c1 + c2 == 1);
}

/// An integer lies in a 28.4 interval exactly when the corresponding pixel
/// index lies in the rounded window.
proof fn lemma_window(vmin: int, vmax: int, t: int)
    requires
        vmin <= 16 * t <= vmax,
    ensures
        (vmin + 15) / 16 <= t,
        t <= vmax / 16,
{
    assert((vmin + 15) / 16 <= t) by (nonlinear_arith) requires vmin <= 16 * t;
    assert(t <= vmax / 16) by (nonlinear_arith) requires 16 * t <= vmax;
}

/// Rasterizes one scanline window: asks the shader for the row, blends it
/// over the destination row, and writes back exactly the covered pixels.
#[verifier::loop_isolation(false)]
#[verifier::rlimit(60)]
fn fill_row<S: Shader>(
    bm: &mut Bitmap,
    shader: &S,
    x1: i32, y1: i32,
    x2: i32, y2: i32,
    x3: i32, y3: i32,
    pxmin_u: usize,
    pxmax_u: usize,
    y: usize,
    cy1: i64, cy2: i64, cy3: i64,
)
    requires
        bitmap_wf(*old(bm)),
        shader.wf(),
        -RASTER_BOUND <= x1 <= RASTER_BOUND,
        -RASTER_BOUND <= y1 <= RASTER_BOUND,
        -RASTER_BOUND <= x2 <= RASTER_BOUND,
        -RASTER_BOUND <= y2 <= RASTER_BOUND,
        -RASTER_BOUND <= x3 <= RASTER_BOUND,
        -RASTER_BOUND <= y3 <= RASTER_BOUND,
        pxmin_u < pxmax_u <= old(bm).width,
        y < old(bm).height,
        cy1 == edge_at(x1 as int, y1 as int, x2 as int, y2 as int, 16 * pxmin_u, 16 * y),
        cy2 == edge_at(x2 as int, y2 as int, x3 as int, y3 as int, 16 * pxmin_u, 16 * y),
        cy3 == edge_at(x3 as int, y3 as int, x1 as int, y1 as int, 16 * pxmin_u, 16 * y),
    ensures
        bitmap_wf(*final(bm)),
        final(bm).width == old(bm).width,
        final(bm).height == old(bm).height,
        forall|xo: int, yo: int|
            0 <= xo < old(bm).width && 0 <= yo < old(bm).height
                ==> #[trigger] pix_at(*final(bm), xo, yo)
                    == if yo == y && pxmin_u <= xo < pxmax_u
                        && covered(x1 as int, y1 as int, x2 as int, y2 as int,
                            x3 as int, y3 as int, xo, yo) {
                        blend_spec(shader.sample(xo, yo), pix_at(*old(bm), xo, yo))
                    } else {
                        pix_at(*old(bm), xo, yo)
                    },
{
    let ghost bm0 = *bm;
    let ghost xs1 = x1 as int;
    let ghost ys1 = y1 as int;
    let ghost xs2 = x2 as int;
    let ghost ys2 = y2 as int;
    let ghost xs3 = x3 as int;
    let ghost ys3 = y3 as int;

    let w = bm.width;
    let h = bm.height;

    let fdy12: i64 = ((y1 as i64) - (y2 as i64)) * 16;
    let fdy23: i64 = ((y2 as i64) - (y3 as i64)) * 16;
    let fdy31: i64 = ((y3 as i64) - (y1 as i64)) * 16;

    let mut cx1: i64 = cy1;
    let mut cx2: i64 = cy2;
    let mut cx3: i64 = cy3;

    let count = pxmax_u - pxmin_u;

    // One shader row and the destination row, blended up front; only
    // covered pixels of the blend are written back.
    let shaded = shader.shade_row(pxmin_u, y, count);

    let mut dst_row: Vec<Pixel> = Vec::with_capacity(count);
    let mut i: usize = 0;
    while i < count
        invariant
            i <= count,
            dst_row@.len() == i,
            forall|k: int| 0 <= k < i
                ==> #[trigger] dst_row@[k] == pix_at(*bm, pxmin_u + k, y as int)
                    && crate::pixel::pixel_wf(dst_row@[k]),
        decreases count - i,
    {
        dst_row.push(bm.get(pxmin_u + i, y));
        i += 1;
    }

    let blended = blend_row(shaded.as_slice(), dst_row.as_slice());

    let mut x = pxmin_u;
    while x < pxmax_u
        invariant
            bitmap_wf(*bm),
            bm.width == bm0.width,
            bm.height == bm0.height,
            pxmin_u <= x <= pxmax_u,
            cx1 == edge_at(xs1, ys1, xs2, ys2, 16 * x, 16 * y),
            cx2 == edge_at(xs2, ys2, xs3, ys3, 16 * x, 16 * y),
            cx3 == edge_at(xs3, ys3, xs1, ys1, 16 * x, 16 * y),
            forall|xo: int, yo: int|
                0 <= xo < w && 0 <= yo < h
                    ==> #[trigger] pix_at(*bm, xo, yo)
                        == if yo == y && pxmin_u <= xo < x
                            && covered(xs1, ys1, xs2, ys2, xs3, ys3, xo, yo) {
                            blend_spec(shader.sample(xo, yo), pix_at(bm0, xo, yo))
                        } else {
                            pix_at(bm0, xo, yo)
                        },
        decreases pxmax_u - x,
    {
        if cx1 < 0 && cx2 < 0 && cx3 < 0 {
            let p = blended[x - pxmin_u];
            bm.set(x, y, &p);
        }

        proof {
            lemma_edge_step(xs1, ys1, xs2, ys2, 16 * x, 16 * y);
            lemma_edge_step(xs2, ys2, xs3, ys3, 16 * x, 16 * y);
            lemma_edge_step(xs3, ys3, xs1, ys1, 16 * x, 16 * y);
            lemma_edge_bound(xs1, ys1, xs2, ys2, 16 * (x + 1), 16 * y);
            lemma_edge_bound(xs2, ys2, xs3, ys3, 16 * (x + 1), 16 * y);
            lemma_edge_bound(xs3, ys3, xs1, ys1, 16 * (x + 1), 16 * y);
        }
        cx1 = cx1 - fdy12;
        cx2 = cx2 - fdy23;
        cx3 = cx3 - fdy31;
        x += 1;
    }
}

/// Rasterizes the clipped pixel window of one triangle, row by row; the
/// caller guarantees that every covered canvas pixel lies in the window.
#[verifier::loop_isolation(false)]
#[verifier::rlimit(100)]
fn fill_window<S: Shader>(
    bm: &mut Bitmap,
    shader: &S,
    x1: i32, y1: i32,
    x2: i32, y2: i32,
    x3: i32, y3: i32,
    pxmin_u: usize,
    pxmax_u: usize,
    pymin_u: usize,
    pymax_u: usize,
)
    requires
        bitmap_wf(*old(bm)),
        shader.wf(),
        -RASTER_BOUND <= x1 <= RASTER_BOUND,
        -RASTER_BOUND <= y1 <= RASTER_BOUND,
        -RASTER_BOUND <= x2 <= RASTER_BOUND,
        -RASTER_BOUND <= y2 <= RASTER_BOUND,
        -RASTER_BOUND <= x3 <= RASTER_BOUND,
        -RASTER_BOUND <= y3 <= RASTER_BOUND,
        pxmin_u < pxmax_u <= old(bm).width,
        pymin_u < pymax_u <= old(bm).height,
        forall|xo: int, yo: int|
            0 <= xo < old(bm).width && 0 <= yo < old(bm).height
                && covered(x1 as int, y1 as int, x2 as int, y2 as int, x3 as int, y3 as int,
                    xo, yo)
                ==> pxmin_u <= xo && xo < pxmax_u && pymin_u <= yo && yo < pymax_u,
    ensures
        bitmap_wf(*final(bm)),
        final(bm).width == old(bm).width,
        final(bm).height == old(bm).height,
        forall|x: int, y: int|
            0 <= x < old(bm).width && 0 <= y < old(bm).height
                ==> #[trigger] pix_at(*final(bm), x, y)
                    == if covered(x1 as int, y1 as int, x2 as int, y2 as int,
                            x3 as int, y3 as int, x, y) {
                        blend_spec(shader.sample(x, y), pix_at(*old(bm), x, y))
                    } else {
                        pix_at(*old(bm), x, y)
                    },
{
    let ghost bm0 = *bm;
    let ghost xs1 = x1 as int;
    let ghost ys1 = y1 as int;
    let ghost xs2 = x2 as int;
    let ghost ys2 = y2 as int;
    let ghost xs3 = x3 as int;
    let ghost ys3 = y3 as int;

    let w = bm.width;
    let h = bm.height;

    // Edge deltas and fill-convention corrected constants, all in i64.
    let dx12: i64 = (x1 as i64) - (x2 as i64);
    let dx23: i64 = (x2 as i64) - (x3 as i64);
    let dx31: i64 = (x3 as i64) - (x1 as i64);
    let dy12: i64 = (y1 as i64) - (y2 as i64);
    let dy23: i64 = (y2 as i64) - (y3 as i64);
    let dy31: i64 = (y3 as i64) - (y1 as i64);

    let fdx12: i64 = dx12 * 16;
    let fdx23: i64 = dx23 * 16;
    let fdx31: i64 = dx31 * 16;

    let mut c1: i64 = mul_i64_small(dy12, x1 as i64) - mul_i64_small(dx12, y1 as i64);
    let mut c2: i64 = mul_i64_small(dy23, x2 as i64) - mul_i64_small(dx23, y2 as i64);
    let mut c3: i64 = mul_i64_small(dy31, x3 as i64) - mul_i64_small(dx31, y3 as i64);

    if dy12 > 0 || (dy12 == 0 && dx12 < 0) { c1 = c1 - 1; }
    if dy23 > 0 || (dy23 == 0 && dx23 < 0) { c2 = c2 - 1; }
    if dy31 > 0 || (dy31 == 0 && dx31 < 0) { c3 = c3 - 1; }

    let mut cy1: i64 = c1 + mul_i64_small(dx12, (pymin_u as i64) * 16)
        - mul_i64_small(dy12, (pxmin_u as i64) * 16);
    let mut cy2: i64 = c2 + mul_i64_small(dx23, (pymin_u as i64) * 16)
        - mul_i64_small(dy23, (pxmin_u as i64) * 16);
    let mut cy3: i64 = c3 + mul_i64_small(dx31, (pymin_u as i64) * 16)
        - mul_i64_small(dy31, (pxmin_u as i64) * 16);

    let mut y = pymin_u;
    while y < pymax_u
        invariant
            bitmap_wf(*bm),
            bm.width == bm0.width,
            bm.height == bm0.height,
            pymin_u <= y <= pymax_u,
            cy1 == edge_at(xs1, ys1, xs2, ys2, 16 * pxmin_u, 16 * y),
            cy2 == edge_at(xs2, ys2, xs3, ys3, 16 * pxmin_u, 16 * y),
            cy3 == edge_at(xs3, ys3, xs1, ys1, 16 * pxmin_u, 16 * y),
            forall|xo: int, yo: int|
                0 <= xo < w && 0 <= yo < h
                    ==> #[trigger] pix_at(*bm, xo, yo)
                        == if yo < y && covered(xs1, ys1, xs2, ys2, xs3, ys3, xo, yo) {
                            blend_spec(shader.sample(xo, yo), pix_at(bm0, xo, yo))
                        } else {
                            pix_at(bm0, xo, yo)
                        },
        decreases pymax_u - y,
    {
        let ghost bm_row = *bm;
        fill_row(bm, shader, x1, y1, x2, y2, x3, y3, pxmin_u, pxmax_u, y, cy1, cy2, cy3);
        proof {
            assert forall|xo: int, yo: int|
                0 <= xo < w && 0 <= yo < h
                    implies #[trigger] pix_at(*bm, xo, yo)
                        == if yo < y + 1 && covered(xs1, ys1, xs2, ys2, xs3, ys3, xo, yo) {
                            blend_spec(shader.sample(xo, yo), pix_at(bm0, xo, yo))
                        } else {
                            pix_at(bm0, xo, yo)
                        } by {
                assert(pix_at(*bm, xo, yo)
                    == if yo == y && pxmin_u <= xo < pxmax_u
                        && covered(xs1, ys1, xs2, ys2, xs3, ys3, xo, yo) {
                        blend_spec(shader.sample(xo, yo), pix_at(bm_row, xo, yo))
                    } else {
                        pix_at(bm_row, xo, yo)
                    });
            }
        }

        proof {
            lemma_edge_step(xs1, ys1, xs2, ys2, 16 * pxmin_u, 16 * y);
            lemma_edge_step(xs2, ys2, xs3, ys3, 16 * pxmin_u, 16 * y);
            lemma_edge_step(xs3, ys3, xs1, ys1, 16 * pxmin_u, 16 * y);
            lemma_edge_bound(xs1, ys1, xs2, ys2, 16 * pxmin_u, 16 * (y + 1));
            lemma_edge_bound(xs2, ys2, xs3, ys3, 16 * pxmin_u, 16 * (y + 1));
            lemma_edge_bound(xs3, ys3, xs1, ys1, 16 * pxmin_u, 16 * (y + 1));
        }
        cy1 = cy1 + fdx12;
        cy2 = cy2 + fdx23;
        cy3 = cy3 + fdx31;
        y += 1;
    }
}

/// Rasterizes one triangle, given in 28.4 device coordinates, through a
/// shader whose context is already set: every covered pixel inside the
/// canvas is blended with the shader's source pixel for it, every other
/// pixel is untouched.
#[verifier::loop_isolation(false)]
#[verifier::rlimit(100)]
pub fn fill_triangle<S: Shader>(
    bm: &mut Bitmap,
    shader: &S,
    x1: i32, y1: i32,
    x2: i32, y2: i32,
    x3: i32, y3: i32,
)
    requires
        bitmap_wf(*old(bm)),
        shader.wf(),
        -RASTER_BOUND <= x1 <= RASTER_BOUND,
        -RASTER_BOUND <= y1 <= RASTER_BOUND,
        -RASTER_BOUND <= x2 <= RASTER_BOUND,
        -RASTER_BOUND <= y2 <= RASTER_BOUND,
        -RASTER_BOUND <= x3 <= RASTER_BOUND,
        -RASTER_BOUND <= y3 <= RASTER_BOUND,
    ensures
        bitmap_wf(*final(bm)),
        final(bm).width == old(bm).width,
        final(bm).height == old(bm).height,
        forall|x: int, y: int|
            0 <= x < old(bm).width && 0 <= y < old(bm).height
                ==> #[trigger] pix_at(*final(bm), x, y)
                    == if covered(x1 as int, y1 as int, x2 as int, y2 as int,
                            x3 as int, y3 as int, x, y) {
                        blend_spec(shader.sample(x, y), pix_at(*old(bm), x, y))
                    } else {
                        pix_at(*old(bm), x, y)
                    },
{
    let ghost bm0 = *bm;
    let ghost xs1 = x1 as int;
    let ghost ys1 = y1 as int;
    let ghost xs2 = x2 as int;
    let ghost ys2 = y2 as int;
    let ghost xs3 = x3 as int;
    let ghost ys3 = y3 as int;

    let w = bm.width;
    let h = bm.height;

    // Pixel window of the 28.4 bounding box, clipped to the canvas.
    let minx: i64 = (if x1 < x2 { if x1 < x3 { x1 } else { x3 } } else if x2 < x3 { x2 } else { x3 }) as i64;
    let maxx: i64 = (if x1 > x2 { if x1 > x3 { x1 } else { x3 } } else if x2 > x3 { x2 } else { x3 }) as i64;
    let miny: i64 = (if y1 < y2 { if y1 < y3 { y1 } else { y3 } } else if y2 < y3 { y2 } else { y3 }) as i64;
    let maxy: i64 = (if y1 > y2 { if y1 > y3 { y1 } else { y3 } } else if y2 > y3 { y2 } else { y3 }) as i64;

    let mut pxmin: i64 = floor_div(minx + 15, 16);
    let mut pxmax: i64 = floor_div(maxx, 16) + 1;
    let mut pymin: i64 = floor_div(miny + 15, 16);
    let mut pymax: i64 = floor_div(maxy, 16) + 1;

    let ghost wxmin = pxmin as int;
    let ghost wxmax = pxmax as int;
    let ghost wymin = pymin as int;
    let ghost wymax = pymax as int;

    if pxmin < 0 { pxmin = 0; }
    if pxmax > w as i64 { pxmax = w as i64; }
    if pymin < 0 { pymin = 0; }
    if pymax > h as i64 { pymax = h as i64; }

    // No covered pixel lies outside the window.
    proof {
        assert forall|x: int, y: int|
            0 <= x < w && 0 <= y < h
                && covered(xs1, ys1, xs2, ys2, xs3, ys3, x, y)
                implies wxmin <= x && x < wxmax && wymin <= y && y < wymax by {
            lemma_covered_in_bbox(xs1, ys1, xs2, ys2, xs3, ys3, x, y);
            lemma_window(min3(xs1, xs2, xs3), max3(xs1, xs2, xs3), x);
            lemma_window(min3(ys1, ys2, ys3), max3(ys1, ys2, ys3), y);
        }
    }

    if pxmin >= pxmax || pymin >= pymax {
        return;
    }

    let pxmin_u = pxmin as usize;
    let pxmax_u = pxmax as usize;
    let pymin_u = pymin as usize;
    let pymax_u = pymax as usize;

    proof {
        assert forall|x: int, y: int|
            0 <= x < w && 0 <= y < h
                && covered(xs1, ys1, xs2, ys2, xs3, ys3, x, y)
                implies pxmin_u <= x && x < pxmax_u && pymin_u <= y && y < pymax_u by {
        }
    }

    fill_window(bm, shader, x1, y1, x2, y2, x3, y3, pxmin_u, pxmax_u, pymin_u, pymax_u);

    // Pixels outside the window were never covered, so the row-by-row
    // invariant extends to the whole canvas.
    proof {
        assert forall|x: int, yo: int|
            0 <= x < bm0.width && 0 <= yo < bm0.height
                implies #[trigger] pix_at(*bm, x, yo)
                    == if covered(xs1, ys1, xs2, ys2, xs3, ys3, x, yo) {
                        blend_spec(shader.sample(x, yo), pix_at(bm0, x, yo))
                    } else {
                        pix_at(bm0, x, yo)
                    } by {
            if covered(xs1, ys1, xs2, ys2, xs3, ys3, x, yo) {
                lemma_covered_in_bbox(xs1, ys1, xs2, ys2, xs3, ys3, x, yo);
                lemma_window(min3(xs1, xs2, xs3), max3(xs1, xs2, xs3), x);
                lemma_window(min3(ys1, ys2, ys3), max3(ys1, ys2, ys3), yo);
            }
        }
    }
}

} // verus!
