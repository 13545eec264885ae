use vstd::prelude::*;
use crate::pixel::{Pixel, pixel_wf, to_color_spec};
use crate::color::to_pixel_spec;
use crate::color::Color;
use crate::ppm::{PPMImage, ppm_bytes, decode_spec, data_values, tokens_of};

verus! {

/// The straight colors of a bitmap's pixels, row-major.
pub open spec fn bitmap_colors(bm: Bitmap) -> Seq<Color> {
    Seq::new(bm.pixels@.len(), |i: int| to_color_spec(bm.pixels@[i]))
}

/// The largest side length of a bitmap: device coordinates are 16.16 fixed
/// point in i32, so a side in pixels must stay below 32768.
pub const MAX_DIM: usize = 0x7FFF;

/// A 2D pixel raster: `width * height` premultiplied pixels in row-major
/// order, pixel `(x, y)` at index `x + y * width`.
#[derive(Clone, Debug)]
pub struct Bitmap {
    pub width: usize,
    pub height: usize,
    pub pixels: Vec<Pixel>,
}

/// A bitmap is well formed when its buffer length matches its size, its
/// sides fit the fixed-point device space, and every pixel is premultiplied.
pub open spec fn bitmap_wf(bm: Bitmap) -> bool {
    &&& bm.pixels@.len() == bm.width * bm.height
    &&& bm.width <= 0x7FFF
    &&& bm.height <= 0x7FFF
    &&& forall|i: int| 0 <= i < bm.pixels@.len() ==> pixel_wf(#[trigger] bm.pixels@[i])
}

/// The pixel of a bitmap at integer device coordinates.
pub open spec fn pix_at(bm: Bitmap, x: int, y: int) -> Pixel {
    bm.pixels@[x + y * bm.width]
}

/// Row-major indexing stays within the buffer.
pub proof fn lemma_index_in_bounds(w: int, h: int, x: int, y: int)
    requires
        0 <= x < w,
        0 <= y < h,
    ensures
        0 <= x + y * w < w * h,
{
    assert(y * w <= (h - 1) * w) by (nonlinear_arith)
        requires y <= h - 1 && w >= 0;
    assert((h - 1) * w + x < h * w) by (nonlinear_arith)
        requires x < w;
    assert(y * w >= 0) by (nonlinear_arith)
        requires y >= 0 && w >= 0;
}

impl Bitmap {
    /// A fully transparent bitmap of the given size.
    pub fn new(width: usize, height: usize) -> (bm: Bitmap)
        requires
            width <= MAX_DIM,
            height <= MAX_DIM,
        ensures
            bitmap_wf(bm),
            bm.width == width,
            bm.height == height,
            forall|i: int| 0 <= i < bm.pixels@.len()
                ==> #[trigger] bm.pixels@[i] == (Pixel { a: 0u8, r: 0u8, g: 0u8, b: 0u8 }),
    {
        proof {
            assert(width * height <= 0x40000000) by (nonlinear_arith)
                requires width <= 0x8000 && height <= 0x8000;
        }
        let n = width * height;
        let blank = Pixel::pack_argb(0, 0, 0, 0);
        let mut pixels: Vec<Pixel> = Vec::with_capacity(n);
        let mut i: usize = 0;
        while i < n
            invariant
                i <= n,
                pixels@.len() == i,
                blank == (Pixel { a: 0u8, r: 0u8, g: 0u8, b: 0u8 }),
                forall|k: int| 0 <= k < i
                    ==> #[trigger] pixels@[k] == (Pixel { a: 0u8, r: 0u8, g: 0u8, b: 0u8 }),
            decreases n - i,
        {
            pixels.push(blank);
            i += 1;
        }
        Bitmap { width, height, pixels }
    }

    /// Overwrites the pixel at `(x, y)`.
    pub fn set(&mut self, x: usize, y: usize, p: &Pixel)
        requires
            bitmap_wf(*old(self)),
            x < old(self).width,
            y < old(self).height,
            pixel_wf(*p),
        ensures
            bitmap_wf(*final(self)),
            final(self).width == old(self).width,
            final(self).height == old(self).height,
            final(self).pixels@ == old(self).pixels@.update(x + y * old(self).width, *p),
            pix_at(*final(self), x as int, y as int) == *p,
            forall|xo: int, yo: int|
                0 <= xo < old(self).width && 0 <= yo < old(self).height
                    && !(xo == x && yo == y)
                    ==> pix_at(*final(self), xo, yo) == pix_at(*old(self), xo, yo),
    {
        proof {
            lemma_index_in_bounds(self.width as int, self.height as int, x as int, y as int);
            assert(self.width * self.height <= 0x40000000) by (nonlinear_arith)
                requires self.width <= 0x8000 && self.height <= 0x8000;
        }
        let i = x + y * self.width;
        let ghost prior = *self;
        self.pixels[i] = *p;
        proof {
            assert forall|xo: int, yo: int|
                0 <= xo < self.width && 0 <= yo < self.height && !(xo == x && yo == y)
                    implies #[trigger] pix_at(*self, xo, yo) == pix_at(prior, xo, yo) by {
                lemma_distinct_indices(self.width as int, xo, yo, x as int, y as int);
                lemma_index_in_bounds(self.width as int, self.height as int, xo, yo);
            }
        }
    }

    /// A pixel-for-pixel copy of the bitmap.
    pub fn duplicate(&self) -> (b: Bitmap)
        ensures
            b.width == self.width,
            b.height == self.height,
            b.pixels@ == self.pixels@,
    {
        let n = self.pixels.len();
        let mut pixels: Vec<Pixel> = Vec::with_capacity(n);
        let mut i: usize = 0;
        while i < n
            invariant
                i <= n,
                n == self.pixels@.len(),
                pixels@.len() == i,
                forall|k: int| 0 <= k < i ==> #[trigger] pixels@[k] == self.pixels@[k],
            decreases n - i,
        {
            pixels.push(self.pixels[i]);
            i += 1;
        }
        proof {
            assert(pixels@ =~= self.pixels@);
        }
        Bitmap { width: self.width, height: self.height, pixels }
    }

    /// Serializes the bitmap as ASCII P3 bytes: every pixel is converted
    /// back to a straight color and written as one `r g b` line.
    pub fn write(&self) -> (out: Vec<u8>)
        requires
            bitmap_wf(*self),
        ensures
            out@ == ppm_bytes(self.width as nat, self.height as nat, bitmap_colors(*self)),
    {
        let n = self.pixels.len();
        let mut colors: Vec<Color> = Vec::with_capacity(n);
        let mut i: usize = 0;
        while i < n
            invariant
                i <= n,
                n == self.pixels@.len(),
                colors@.len() == i,
                forall|k: int| 0 <= k < i
                    ==> #[trigger] colors@[k] == to_color_spec(self.pixels@[k]),
            decreases n - i,
        {
            colors.push(self.pixels[i].to_color());
            i += 1;
        }
        let image = PPMImage { width: self.width, height: self.height, colors };
        proof {
            assert(image.colors_view() =~= bitmap_colors(*self));
        }
        image.write()
    }

    /// Parses ASCII P3 bytes into this bitmap: decoded colors become
    /// opaque premultiplied pixels. On failure the bitmap is left exactly
    /// as it was.
    pub fn read(&mut self, data: &[u8]) -> (ok: bool)
        requires
            bitmap_wf(*old(self)),
        ensures
            bitmap_wf(*final(self)),
            ok == decode_spec(data_values(tokens_of(data@))).is_some(),
            !ok ==> *final(self) == *old(self),
            ok ==> ({
                let (w, h, colors) = decode_spec(data_values(tokens_of(data@))).unwrap();
                &&& final(self).width == w
                &&& final(self).height == h
                &&& final(self).pixels@.len() == colors.len()
                &&& forall|i: int| 0 <= i < colors.len()
                    ==> final(self).pixels@[i] == to_pixel_spec(#[trigger] colors[i])
            }),
    {
        let mut image = PPMImage::new(self.width, self.height);
        if !image.read(data) {
            return false;
        }

        let n = image.colors.len();
        let mut pixels: Vec<Pixel> = Vec::with_capacity(n);
        let mut i: usize = 0;
        while i < n
            invariant
                i <= n,
                n == image.colors_view().len(),
                pixels@.len() == i,
                forall|k: int| 0 <= k < i
                    ==> #[trigger] pixels@[k] == to_pixel_spec(image.colors_view()[k])
                        && pixel_wf(pixels@[k]),
            decreases n - i,
        {
            pixels.push(image.colors[i].to_pixel());
            i += 1;
        }

        self.width = image.width;
        self.height = image.height;
        self.pixels = pixels;
        true
    }

    /// Reads the pixel at `(x, y)`.
    pub fn get(&self, x: usize, y: usize) -> (p: Pixel)
        requires
            bitmap_wf(*self),
            x < self.width,
            y < self.height,
        ensures
            p == pix_at(*self, x as int, y as int),
            pixel_wf(p),
    {
        proof {
            lemma_index_in_bounds(self.width as int, self.height as int, x as int, y as int);
            assert(self.width * self.height <= 0x40000000) by (nonlinear_arith)
                requires self.width <= 0x8000 && self.height <= 0x8000;
        }
        self.pixels[x + y * self.width]
    }
}

/// Two distinct coordinate pairs inside the raster map to distinct indices.
pub proof fn lemma_distinct_indices(w: int, x1: int, y1: int, x2: int, y2: int)
    requires
        0 <= x1 < w,
        0 <= x2 < w,
        0 <= y1,
        0 <= y2,
        !(x1 == x2 && y1 == y2),
    ensures
        x1 + y1 * w != x2 + y2 * w,
{
    if y1 == y2 {
        assert(y1 * w == y2 * w);
    } else if y1 < y2 {
        assert(y1 * w + w <= y2 * w) by (nonlinear_arith)
            requires y1 < y2 && w >= 0;
    } else {
        assert(y2 * w + w <= y1 * w) by (nonlinear_arith)
            requires y2 < y1 && w >= 0;
    }
}

} // verus!
