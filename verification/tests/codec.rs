use dinky::bitmap::Bitmap;
use dinky::color::Color;
use dinky::pixel::Pixel;
use dinky::ppm::PPMImage;

const FX: i32 = 0x10000;

#[test]
fn ppm_write_exact_bytes() {
    // One opaque red pixel and one half-alpha green pixel: the writer
    // divides the alpha back out for the middle-alpha pixel.
    let mut image = PPMImage::new(2, 1);
    image.set(0, 0, &Color::red());
    image.set(1, 0, &Color::make_argb(FX / 2, 0, FX, 0));
    let bytes = image.write();
    assert_eq!(bytes, b"P3\n2 1 255\n255 0 0\n0 255 0\n".to_vec());
}

#[test]
fn ppm_read_parses_header_and_pixels() {
    let mut image = PPMImage::new(1, 1);
    let ok = image.read(b"P3\n2 2 255\n1 2 3  4 5 6\n7 8 9 10 11 12\n");
    assert!(ok);
    assert_eq!(image.width, 2);
    assert_eq!(image.height, 2);
    let c = image.get(1, 1);
    let p = c.to_pixel();
    assert_eq!((p.a, p.r, p.g, p.b), (255, 10, 11, 12));
}

#[test]
fn ppm_read_tolerates_whitespace_and_junk_tokens() {
    let mut image = PPMImage::new(1, 1);
    let ok = image.read(b"  P3 \t\r\n 1 # 1 255\n\n  9   8\t7 ");
    // "P3" and "#" are not data tokens; the numbers parse as 1 1 255 9 8 7.
    assert!(ok);
    assert_eq!(image.width, 1);
    assert_eq!(image.height, 1);
    let p = image.get(0, 0).to_pixel();
    assert_eq!((p.a, p.r, p.g, p.b), (255, 9, 8, 7));
}

#[test]
fn ppm_read_failure_leaves_image_unchanged() {
    let mut image = PPMImage::new(1, 1);
    image.set(0, 0, &Color::blue());
    // Too few numbers for a 2x2 body.
    let ok = image.read(b"P3\n2 2 255\n1 2 3\n");
    assert!(!ok);
    assert_eq!(image.width, 1);
    assert_eq!(image.height, 1);
    let p = image.get(0, 0).to_pixel();
    assert_eq!((p.a, p.r, p.g, p.b), (255, 0, 0, 255));
}

#[test]
fn ppm_read_truncates_large_channels() {
    let mut image = PPMImage::new(1, 1);
    // Channel values are taken modulo 256, like a byte cast.
    let ok = image.read(b"P3 1 1 255 257 300 256");
    assert!(ok);
    let p = image.get(0, 0).to_pixel();
    assert_eq!((p.a, p.r, p.g, p.b), (255, 1, 44, 0));
}

#[test]
fn bitmap_write_read_round_trip_opaque() {
    // An opaque bitmap survives the PPM byte stream bit for bit.
    let mut bm = Bitmap::new(3, 2);
    let mut v = 1u8;
    for y in 0..2usize {
        for x in 0..3usize {
            bm.set(x, y, &Pixel::pack_rgb(v, v.wrapping_mul(7), 255 - v));
            v += 40;
        }
    }
    let bytes = bm.write();

    let mut back = Bitmap::new(1, 1);
    let ok = back.read(&bytes);
    assert!(ok);
    assert_eq!(back.width, 3);
    assert_eq!(back.height, 2);
    for y in 0..2usize {
        for x in 0..3usize {
            let p = bm.get(x, y);
            let q = back.get(x, y);
            assert_eq!((p.a, p.r, p.g, p.b), (q.a, q.r, q.g, q.b));
        }
    }
}

#[test]
fn bitmap_read_failure_leaves_bitmap_unchanged() {
    let mut bm = Bitmap::new(2, 1);
    bm.set(0, 0, &Pixel::pack_rgb(5, 6, 7));
    let ok = bm.read(b"not a ppm at all");
    assert!(!ok);
    assert_eq!(bm.width, 2);
    assert_eq!(bm.height, 1);
    let p = bm.get(0, 0);
    assert_eq!((p.a, p.r, p.g, p.b), (255, 5, 6, 7));
}

#[test]
fn bitmap_read_rejects_oversized_dimensions() {
    let mut bm = Bitmap::new(1, 1);
    let ok = bm.read(b"P3 40000 1 255 1 2 3");
    assert!(!ok);
    assert_eq!(bm.width, 1);
}
