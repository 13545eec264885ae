use dinky::bitmap::Bitmap;
use dinky::bounds::BoundingBox;
use dinky::color::Color;
use dinky::matrix::Matrix;
use dinky::pixel::Pixel;
use dinky::point::Point;
use dinky::rect::Rect;
use dinky::triangle::Triangle;
use dinky::util::{blend, blend_row, clamp};

const FX: i32 = 0x10000;

#[test]
fn pack_argb_stores_channels() {
    let p = Pixel::pack_argb(200, 100, 150, 200);
    assert_eq!((p.a, p.r, p.g, p.b), (200, 100, 150, 200));
}

#[test]
fn pack_rgb_is_opaque() {
    let p = Pixel::pack_rgb(10, 20, 30);
    assert_eq!((p.a, p.r, p.g, p.b), (255, 10, 20, 30));
}

#[test]
fn blend_opaque_source_returns_source() {
    let s = Pixel::pack_argb(255, 1, 2, 3);
    let d = Pixel::pack_argb(200, 50, 60, 70);
    let out = blend(&s, &d);
    assert_eq!((out.a, out.r, out.g, out.b), (255, 1, 2, 3));
}

#[test]
fn blend_transparent_source_returns_destination() {
    let s = Pixel::pack_argb(0, 0, 0, 0);
    let d = Pixel::pack_argb(200, 50, 60, 70);
    let out = blend(&s, &d);
    assert_eq!((out.a, out.r, out.g, out.b), (200, 50, 60, 70));
}

#[test]
fn blend_half_green_over_red() {
    // Half-alpha pure green as a premultiplied pixel is (127, 0, 127, 0);
    // source-over an opaque red gives (255, 128, 127, 0).
    let hg = Color::make_argb(FX / 2, 0, FX, 0).to_pixel();
    assert_eq!((hg.a, hg.r, hg.g, hg.b), (127, 0, 127, 0));
    let red = Color::red().to_pixel();
    let out = blend(&hg, &red);
    assert_eq!((out.a, out.r, out.g, out.b), (255, 128, 127, 0));
}

#[test]
fn blend_row_blends_pointwise() {
    let src = [Pixel::pack_argb(255, 9, 8, 7), Pixel::pack_argb(0, 0, 0, 0)];
    let dst = [Pixel::pack_rgb(1, 2, 3), Pixel::pack_rgb(4, 5, 6)];
    let out = blend_row(&src, &dst);
    assert_eq!(out.len(), 2);
    assert_eq!((out[0].a, out[0].r, out[0].g, out[0].b), (255, 9, 8, 7));
    assert_eq!((out[1].a, out[1].r, out[1].g, out[1].b), (255, 4, 5, 6));
}

#[test]
fn clamp_orders_bounds() {
    assert_eq!(clamp(0, 5, 10), 5);
    assert_eq!(clamp(0, -5, 10), 0);
    assert_eq!(clamp(0, 15, 10), 10);
}

#[test]
fn color_to_pixel_premultiplies() {
    let red = Color::red().to_pixel();
    assert_eq!((red.a, red.r, red.g, red.b), (255, 255, 0, 0));
    let white = Color::white().to_pixel();
    assert_eq!((white.a, white.r, white.g, white.b), (255, 255, 255, 255));
    let clear = Color::make_argb(0, FX, FX, FX).to_pixel();
    assert_eq!((clear.a, clear.r, clear.g, clear.b), (0, 0, 0, 0));
}

#[test]
fn color_pin_to_unit_clamps() {
    let c = Color::make_argb(-5, FX + 7, 12, FX).pin_to_unit();
    assert_eq!((c.a, c.r, c.g, c.b), (0, FX, 12, FX));
}

#[test]
fn pixel_color_round_trip_is_exact() {
    // The straight-color round trip reproduces premultiplied pixels
    // exactly, for full, zero, and middle alphas.
    for &(a, r, g, b) in &[
        (255u8, 255u8, 0u8, 10u8),
        (255, 1, 2, 3),
        (0, 0, 0, 0),
        (128, 64, 128, 5),
        (17, 3, 16, 17),
        (254, 127, 200, 254),
    ] {
        let p = Pixel::pack_argb(a, r, g, b);
        let q = p.to_color().to_pixel();
        assert_eq!((q.a, q.r, q.g, q.b), (a, r, g, b));
    }
}

#[test]
fn rect_accessors_and_size() {
    let r = Rect::make_xywh(FX, 2 * FX, 3 * FX, 4 * FX);
    assert_eq!(r.left(), FX);
    assert_eq!(r.top(), 2 * FX);
    assert_eq!(r.right(), 4 * FX);
    assert_eq!(r.bottom(), 6 * FX);
    assert_eq!(r.x(), FX);
    assert_eq!(r.y(), 2 * FX);
    assert_eq!(r.width(), 3 * FX);
    assert_eq!(r.height(), 4 * FX);
    assert!(!r.empty());
    assert!(Rect::make_ltrb(FX, 0, FX, FX).empty());
}

#[test]
fn rect_round_floors_edges() {
    let r = Rect::make_ltrb(-FX / 2, FX / 4, FX + 1, 2 * FX).round();
    assert_eq!(r.left(), -FX);
    assert_eq!(r.top(), 0);
    assert_eq!(r.right(), FX);
    assert_eq!(r.bottom(), 2 * FX);
}

#[test]
fn rect_intersect_clips_in_place() {
    let mut r = Rect::make_ltrb(0, 0, 10 * FX, 10 * FX);
    let other = Rect::make_ltrb(5 * FX, -FX, 20 * FX, 5 * FX);
    assert!(r.intersects(&other));
    assert!(r.intersect(&other));
    assert_eq!(r.left(), 5 * FX);
    assert_eq!(r.top(), 0);
    assert_eq!(r.right(), 10 * FX);
    assert_eq!(r.bottom(), 5 * FX);
}

#[test]
fn rect_intersect_miss_leaves_unchanged() {
    let mut r = Rect::make_wh(4 * FX, 4 * FX);
    let far = Rect::make_ltrb(10 * FX, 10 * FX, 20 * FX, 20 * FX);
    assert!(!r.intersects(&far));
    assert!(!r.intersect(&far));
    assert_eq!(r.left(), 0);
    assert_eq!(r.right(), 4 * FX);
}

#[test]
fn rect_offset_shifts_all_edges() {
    let mut r = Rect::make_wh(2 * FX, 2 * FX);
    r.offset(3 * FX, -FX);
    assert_eq!(r.left(), 3 * FX);
    assert_eq!(r.top(), -FX);
    assert_eq!(r.right(), 5 * FX);
    assert_eq!(r.bottom(), FX);
}

#[test]
fn matrix_identity_applies_as_identity() {
    let m = Matrix::identity();
    let p = m.apply(&Point::new(12345, -678));
    assert_eq!((p.x, p.y), (12345, -678));
}

#[test]
fn matrix_translate_and_scale_apply() {
    // | 2 0 3 |
    // | 0 2 4 |  maps (1, 1) to (5, 6), in whole pixels.
    let m = Matrix::new([2 * FX, 0, 3 * FX, 0, 2 * FX, 4 * FX]);
    let p = m.apply(&Point::new(FX, FX));
    assert_eq!((p.x, p.y), (5 * FX, 6 * FX));
}

#[test]
fn matrix_mul_identity_is_noop() {
    let m = Matrix::new([2 * FX, 3, 5 * FX, -7, FX / 2, 11]);
    let id = Matrix::identity();
    assert_eq!(m.mul(&id), m);
    assert_eq!(id.mul(&m), m);
}

#[test]
fn matrix_at_and_entries() {
    let m = Matrix::new([1, 2, 3, 4, 5, 6]);
    assert_eq!(m.at(0), 1);
    assert_eq!(m.at(5), 6);
    assert_eq!(m.entries(), [1, 2, 3, 4, 5, 6]);
}

#[test]
fn matrix_inv_identity_is_identity() {
    let m = Matrix::identity();
    assert_eq!(m.inv(), Some(Matrix::identity()));
}

#[test]
fn matrix_inv_singular_is_none() {
    let m = Matrix::new([FX, FX, 0, FX, FX, 0]);
    assert_eq!(m.inv(), None);
}

#[test]
fn matrix_inv_of_scale() {
    // The inverse of a uniform doubling is a uniform halving.
    let m = Matrix::new([2 * FX, 0, 0, 0, 2 * FX, 0]);
    let mi = m.inv().unwrap();
    assert_eq!(mi, Matrix::new([FX / 2, 0, 0, 0, FX / 2, 0]));
}

#[test]
fn matrix_inv_undoes_translation() {
    let m = Matrix::new([FX, 0, 3 * FX, 0, FX, -2 * FX]);
    let mi = m.inv().unwrap();
    let p = mi.apply(&m.apply(&Point::new(5 * FX, 7 * FX)));
    assert_eq!((p.x, p.y), (5 * FX, 7 * FX));
}

#[test]
fn triangle_bounds_cover_vertices() {
    let t = Triangle::new(
        Point::new(3 * FX, -FX),
        Point::new(-2 * FX, 4 * FX),
        Point::new(FX, FX),
    );
    let b = t.bounds();
    assert_eq!(b.left(), -2 * FX);
    assert_eq!(b.top(), -FX);
    assert_eq!(b.right(), 3 * FX);
    assert_eq!(b.bottom(), 4 * FX);
}

#[test]
fn bounding_box_truncates_toward_zero() {
    let bb = BoundingBox::new(
        &Point::new(-3 * FX / 2, FX / 2),
        &Point::new(5 * FX / 2, 3 * FX),
        &Point::new(0, 0),
    );
    assert_eq!(bb.xmin, -1);
    assert_eq!(bb.xmax, 2);
    assert_eq!(bb.ymin, 0);
    assert_eq!(bb.ymax, 3);
}

#[test]
fn bitmap_new_is_transparent() {
    let bm = Bitmap::new(3, 2);
    assert_eq!(bm.width, 3);
    assert_eq!(bm.height, 2);
    assert_eq!(bm.pixels.len(), 6);
    let p = bm.get(2, 1);
    assert_eq!((p.a, p.r, p.g, p.b), (0, 0, 0, 0));
}

#[test]
fn bitmap_set_get_round_trip() {
    let mut bm = Bitmap::new(4, 4);
    let px = Pixel::pack_rgb(9, 8, 7);
    bm.set(2, 3, &px);
    let q = bm.get(2, 3);
    assert_eq!((q.a, q.r, q.g, q.b), (255, 9, 8, 7));
    let other = bm.get(3, 2);
    assert_eq!(other.a, 0);
}

#[test]
fn bitmap_duplicate_copies_pixels() {
    let mut bm = Bitmap::new(2, 2);
    bm.set(1, 0, &Pixel::pack_rgb(1, 2, 3));
    let copy = bm.duplicate();
    let p = copy.get(1, 0);
    assert_eq!((p.a, p.r, p.g, p.b), (255, 1, 2, 3));
    assert_eq!(copy.width, 2);
    assert_eq!(copy.height, 2);
}
