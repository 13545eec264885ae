use dinky::bitmap::Bitmap;
use dinky::canvas::Canvas;
use dinky::color::Color;
use dinky::matrix::Matrix;
use dinky::pixel::Pixel;
use dinky::point::Point;
use dinky::rect::Rect;
use dinky::shader::Shaders;
use dinky::triangle::Triangle;

const FX: i32 = 0x10000;

fn px(canvas_pixel: Pixel) -> (u8, u8, u8, u8) {
    (canvas_pixel.a, canvas_pixel.r, canvas_pixel.g, canvas_pixel.b)
}

#[test]
fn clear_red_writes_uniform_ppm() {
    // A cleared canvas serializes to identical `255 0 0` triples.
    let mut canvas = Canvas::new(Bitmap::new(2, 2));
    canvas.clear(&Color::red());
    let bytes = canvas.write();
    assert_eq!(bytes, b"P3\n2 2 255\n255 0 0\n255 0 0\n255 0 0\n255 0 0\n".to_vec());
}

#[test]
fn clear_write_read_round_trip() {
    // clear, write, read: every pixel equals the cleared color's pixel.
    let mut canvas = Canvas::new(Bitmap::new(4, 3));
    canvas.clear(&Color::cyan());
    let bytes = canvas.write();
    let mut back = Bitmap::new(1, 1);
    assert!(back.read(&bytes));
    let want = Color::cyan().to_pixel();
    assert_eq!(back.width, 4);
    assert_eq!(back.height, 3);
    for y in 0..3usize {
        for x in 0..4usize {
            assert_eq!(px(back.get(x, y)), px(want));
        }
    }
}

#[test]
fn fill_rect_paints_exactly_the_floored_box() {
    let mut bm = Bitmap::new(8, 8);
    let mut canvas = Canvas::new(bm);
    canvas.clear(&Color::black());
    canvas.fill_rect(&Rect::make_xywh(FX, FX, 3 * FX, 3 * FX), &Color::red());
    let red = Color::red().to_pixel();
    let black = Color::black().to_pixel();
    bm = canvas_into_bitmap(canvas);
    for y in 0..8usize {
        for x in 0..8usize {
            let inside = (1..4).contains(&x) && (1..4).contains(&y);
            let want = if inside { red } else { black };
            assert_eq!(px(bm.get(x, y)), px(want), "pixel ({}, {})", x, y);
        }
    }
}

// The canvas owns its bitmap, so tests sample the result by serializing
// it and reading the bytes back; the round trip is exact for the opaque
// pixels these scenes produce.
fn canvas_into_bitmap(canvas: Canvas) -> Bitmap {
    let bytes = canvas.write();
    let mut bm = Bitmap::new(1, 1);
    assert!(bm.read(&bytes));
    bm
}

#[test]
fn fill_rect_outside_canvas_draws_nothing() {
    let mut canvas = Canvas::new(Bitmap::new(4, 4));
    canvas.clear(&Color::white());
    canvas.fill_rect(&Rect::make_xywh(10 * FX, 0, 2 * FX, 2 * FX), &Color::red());
    let bm = canvas_into_bitmap(canvas);
    let white = Color::white().to_pixel();
    for y in 0..4usize {
        for x in 0..4usize {
            assert_eq!(px(bm.get(x, y)), px(white));
        }
    }
}

#[test]
fn translate_moves_fill_and_restore_undoes_it() {
    // Like drawing under a saved translation: the translated rectangle is
    // clipped away, the restored one lands at the origin.
    let mut canvas = Canvas::new(Bitmap::new(6, 6));
    canvas.clear(&Color::black());
    canvas.save();
    canvas.translate(50 * FX, 0);
    canvas.fill_rect(&Rect::make_xywh(0, 0, 2 * FX, 2 * FX), &Color::blue());
    canvas.restore();
    canvas.fill_rect(&Rect::make_xywh(0, 0, 2 * FX, 2 * FX), &Color::red());
    let bm = canvas_into_bitmap(canvas);
    let red = Color::red().to_pixel();
    let black = Color::black().to_pixel();
    for y in 0..6usize {
        for x in 0..6usize {
            let want = if x < 2 && y < 2 { red } else { black };
            assert_eq!(px(bm.get(x, y)), px(want), "pixel ({}, {})", x, y);
        }
    }
}

#[test]
fn save_restore_returns_exact_ctm() {
    let mut canvas = Canvas::new(Bitmap::new(4, 4));
    canvas.scale(3 * FX, FX / 2);
    let before = canvas.get_ctm();
    canvas.save();
    canvas.translate(7 * FX, -2 * FX);
    canvas.rotate(0, FX);
    canvas.concat([FX, 5, 0, 0, FX, 9]);
    canvas.restore();
    assert_eq!(canvas.get_ctm(), before);
}

#[test]
fn rotate_builds_the_expected_matrix() {
    // A quarter turn: cosine 0, sine 1.
    let mut canvas = Canvas::new(Bitmap::new(4, 4));
    canvas.rotate(0, FX);
    assert_eq!(canvas.get_ctm(), Matrix::new([0, -FX, 0, FX, 0, 0]));
}

#[test]
fn rotate_about_composes_three_concats() {
    let mut canvas = Canvas::new(Bitmap::new(4, 4));
    canvas.rotate_about(0, FX, &Point::new(2 * FX, 2 * FX));

    let mut manual = Canvas::new(Bitmap::new(4, 4));
    manual.translate(-2 * FX, -2 * FX);
    manual.rotate(0, FX);
    manual.translate(2 * FX, 2 * FX);

    assert_eq!(canvas.get_ctm(), manual.get_ctm());
}

#[test]
fn concat_identity_changes_no_draw() {
    let mut a = Canvas::new(Bitmap::new(5, 5));
    a.clear(&Color::white());
    a.translate(FX, 0);
    a.fill_rect(&Rect::make_xywh(0, FX, 2 * FX, 2 * FX), &Color::magenta());

    let mut b = Canvas::new(Bitmap::new(5, 5));
    b.clear(&Color::white());
    b.translate(FX, 0);
    b.concat([FX, 0, 0, 0, FX, 0]);
    b.fill_rect(&Rect::make_xywh(0, FX, 2 * FX, 2 * FX), &Color::magenta());

    let bma = canvas_into_bitmap(a);
    let bmb = canvas_into_bitmap(b);
    for y in 0..5usize {
        for x in 0..5usize {
            assert_eq!(px(bma.get(x, y)), px(bmb.get(x, y)));
        }
    }
}

#[test]
fn triangle_fan_covers_the_half_square() {
    // The triangle (0,0) (8,0) (0,8) covers the upper-left half, with the
    // top-left fill convention deciding the diagonal and the edges.
    let mut canvas = Canvas::new(Bitmap::new(8, 8));
    canvas.clear(&Color::black());
    let pts = [
        Point::new(0, 0),
        Point::new(8 * FX, 0),
        Point::new(0, 8 * FX),
    ];
    canvas.fill_convex_polygon(&pts, &Color::green());
    let bm = canvas_into_bitmap(canvas);
    let green = Color::green().to_pixel();
    let black = Color::black().to_pixel();
    for y in 0..8usize {
        for x in 0..8usize {
            let want = if x + y < 8 { green } else { black };
            assert_eq!(px(bm.get(x, y)), px(want), "pixel ({}, {})", x, y);
        }
    }
}

#[test]
fn counterclockwise_triangle_draws_nothing() {
    let mut canvas = Canvas::new(Bitmap::new(8, 8));
    canvas.clear(&Color::white());
    let pts = [
        Point::new(0, 0),
        Point::new(0, 8 * FX),
        Point::new(8 * FX, 0),
    ];
    canvas.fill_convex_polygon(&pts, &Color::green());
    let bm = canvas_into_bitmap(canvas);
    let white = Color::white().to_pixel();
    for y in 0..8usize {
        for x in 0..8usize {
            assert_eq!(px(bm.get(x, y)), px(white));
        }
    }
}

#[test]
fn polygon_with_two_points_draws_nothing() {
    let mut canvas = Canvas::new(Bitmap::new(4, 4));
    canvas.clear(&Color::white());
    let pts = [Point::new(0, 0), Point::new(4 * FX, 4 * FX)];
    canvas.fill_convex_polygon(&pts, &Color::red());
    let bm = canvas_into_bitmap(canvas);
    let white = Color::white().to_pixel();
    for y in 0..4usize {
        for x in 0..4usize {
            assert_eq!(px(bm.get(x, y)), px(white));
        }
    }
}

#[test]
fn shared_edge_is_painted_exactly_once() {
    // Two clockwise triangles split the square along its diagonal; filling
    // both with a translucent color must blend every pixel exactly once.
    let mut canvas = Canvas::new(Bitmap::new(8, 8));
    canvas.clear(&Color::white());
    let half_green = Color::make_argb(FX / 2, 0, FX, 0);
    let t1 = [
        Point::new(0, 0),
        Point::new(8 * FX, 0),
        Point::new(0, 8 * FX),
    ];
    let t2 = [
        Point::new(8 * FX, 0),
        Point::new(8 * FX, 8 * FX),
        Point::new(0, 8 * FX),
    ];
    canvas.fill_convex_polygon(&t1, &half_green);
    canvas.fill_convex_polygon(&t2, &half_green);
    let bm = canvas_into_bitmap(canvas);
    // blend(half green, white) == (255, 128, 255, 128); a double blend
    // would darken the red and blue channels further.
    for y in 0..8usize {
        for x in 0..8usize {
            assert_eq!(px(bm.get(x, y)), (255, 128, 255, 128), "pixel ({}, {})", x, y);
        }
    }
}

#[test]
fn bitmap_rect_identity_copies_source() {
    // Drawing a bitmap into its own bounds under the identity transform
    // reproduces the source pixels at the same coordinates.
    let mut src = Bitmap::new(2, 2);
    src.set(0, 0, &Pixel::pack_rgb(10, 20, 30));
    src.set(1, 0, &Pixel::pack_rgb(40, 50, 60));
    src.set(0, 1, &Pixel::pack_rgb(70, 80, 90));
    src.set(1, 1, &Pixel::pack_rgb(100, 110, 120));

    let mut canvas = Canvas::new(Bitmap::new(2, 2));
    canvas.fill_bitmap_rect(&src, &Rect::make_wh(2 * FX, 2 * FX));
    let bm = canvas_into_bitmap(canvas);
    for y in 0..2usize {
        for x in 0..2usize {
            assert_eq!(px(bm.get(x, y)), px(src.get(x, y)), "pixel ({}, {})", x, y);
        }
    }
}

#[test]
fn bitmap_rect_scales_nearest_neighbor() {
    // A 2x2 source stretched to 4x4 samples source pixel (x/2, y/2).
    let mut src = Bitmap::new(2, 2);
    src.set(0, 0, &Pixel::pack_rgb(10, 0, 0));
    src.set(1, 0, &Pixel::pack_rgb(0, 20, 0));
    src.set(0, 1, &Pixel::pack_rgb(0, 0, 30));
    src.set(1, 1, &Pixel::pack_rgb(40, 40, 40));

    let mut canvas = Canvas::new(Bitmap::new(4, 4));
    canvas.fill_bitmap_rect(&src, &Rect::make_wh(4 * FX, 4 * FX));
    let bm = canvas_into_bitmap(canvas);
    for y in 0..4usize {
        for x in 0..4usize {
            assert_eq!(px(bm.get(x, y)), px(src.get(x / 2, y / 2)), "pixel ({}, {})", x, y);
        }
    }
}

#[test]
fn shade_tri_with_color_shader_fills_triangle() {
    let mut canvas = Canvas::new(Bitmap::new(4, 4));
    canvas.clear(&Color::black());
    let tri = Triangle::new(
        Point::new(0, 0),
        Point::new(4 * FX, 0),
        Point::new(0, 4 * FX),
    );
    let mut shader = Shaders::from_color(Color::blue());
    canvas.shade_tri(&tri, &mut shader);
    let bm = canvas_into_bitmap(canvas);
    let blue = Color::blue().to_pixel();
    assert_eq!(px(bm.get(0, 0)), px(blue));
    assert_eq!(px(bm.get(3, 3)), px(Color::black().to_pixel()));
}
