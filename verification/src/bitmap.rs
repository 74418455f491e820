//! Owned 8-bit RGB rasters, the pixel store behind every view and tile.

use vstd::prelude::*;

verus! {

/// An 8-bit RGB color value.
#[derive(Clone, Copy, PartialEq, Eq, Structural, Debug)]
pub struct Rgb {
    pub r: u8,
    pub g: u8,
    pub b: u8,
}

/// A two-dimensional raster of RGB pixels, stored row-major.
#[derive(Debug)]
pub struct Bitmap {
    pub width: u32,
    pub height: u32,
    pub pixels: Vec<Rgb>,
}

impl Bitmap {
    /// Well-formed: nonzero dimensions and a pixel buffer of exactly
    /// `width * height` entries.
    pub open spec fn wf(self) -> bool {
        &&& 1 <= self.width
        &&& 1 <= self.height
        &&& self.width * self.height <= usize::MAX
        &&& self.pixels@.len() == self.width * self.height
    }

    pub open spec fn spec_width(self) -> u32 {
        self.width
    }

    pub open spec fn spec_height(self) -> u32 {
        self.height
    }

    /// The pixel at column `x`, row `y` (meaningful for in-range coordinates).
    pub open spec fn pixel(self, x: int, y: int) -> Rgb {
        self.pixels@[y * self.width + x]
    }

    pub fn width(&self) -> (w: u32)
        ensures
            w == self.spec_width(),
    {
        self.width
    }

    pub fn height(&self) -> (h: u32)
        ensures
            h == self.spec_height(),
    {
        self.height
    }

    /// A raster of the given dimensions with every pixel set to `fill`.
    pub fn new(width: u32, height: u32, fill: Rgb) -> (bm: Bitmap)
        requires
            1 <= width,
            1 <= height,
            width * height <= usize::MAX,
        ensures
            bm.wf(),
            bm.spec_width() == width,
            bm.spec_height() == height,
            forall|x: int, y: int|
                0 <= x < width && 0 <= y < height ==> bm.pixel(x, y) == fill,
    {
        let n: usize = (width as usize) * (height as usize);
        let pixels: Vec<Rgb> = vec![fill; n];
        let bm = Bitmap { width, height, pixels };
        proof {
            assert forall|x: int, y: int|
                0 <= x < width && 0 <= y < height implies bm.pixel(x, y) == fill by {
                assert(0 <= y * width + x < width * height) by (nonlinear_arith)
                    requires
                        0 <= x < width,
                        0 <= y < height,
                ;
            }
        }
        bm
    }

    pub fn get_pixel(&self, x: u32, y: u32) -> (p: Rgb)
        requires
            self.wf(),
            x < self.spec_width(),
            y < self.spec_height(),
        ensures
            p == self.pixel(x as int, y as int),
    {
        proof {
            assert(0 <= y * self.width + x < self.width * self.height) by (nonlinear_arith)
                requires
                    x < self.width,
                    y < self.height,
            ;
        }
        let idx: usize = (y as usize) * (self.width as usize) + (x as usize);
        self.pixels[idx]
    }

    pub fn set_pixel(&mut self, x: u32, y: u32, p: Rgb)
        requires
            old(self).wf(),
            x < old(self).spec_width(),
            y < old(self).spec_height(),
        ensures
            final(self).wf(),
            final(self).spec_width() == old(self).spec_width(),
            final(self).spec_height() == old(self).spec_height(),
            final(self).pixel(x as int, y as int) == p,
            forall|x2: int, y2: int|
                0 <= x2 < old(self).spec_width() && 0 <= y2 < old(self).spec_height()
                    && !(x2 == x && y2 == y)
                    ==> final(self).pixel(x2, y2) == old(self).pixel(x2, y2),
    {
        proof {
            assert(0 <= y * self.width + x < self.width * self.height) by (nonlinear_arith)
                requires
                    x < self.width,
                    y < self.height,
            ;
        }
        let idx: usize = (y as usize) * (self.width as usize) + (x as usize);
        let w = self.width;
        let h = self.height;
        self.pixels.set(idx, p);
        proof {
            assert forall|x2: int, y2: int|
                0 <= x2 < w && 0 <= y2 < h && !(x2 == x && y2 == y)
                    implies self.pixel(x2, y2) == old(self).pixel(x2, y2) by {
                assert(0 <= y2 * w + x2 < w * h) by (nonlinear_arith)
                    requires
                        0 <= x2 < w,
                        0 <= y2 < h,
                ;
                assert(y2 * w + x2 != y * w + x) by (nonlinear_arith)
                    requires
                        0 <= x2 < w,
                        0 <= y2 < h,
                        0 <= x < w,
                        0 <= y < h,
                        !(x2 == x && y2 == y),
                ;
            }
        }
    }

    /// A pixel-for-pixel copy of this raster.
    pub fn duplicate(&self) -> (bm: Bitmap)
        requires
            self.wf(),
        ensures
            bm.wf(),
            bm.spec_width() == self.spec_width(),
            bm.spec_height() == self.spec_height(),
            forall|x: int, y: int|
                0 <= x < self.spec_width() && 0 <= y < self.spec_height()
                    ==> bm.pixel(x, y) == self.pixel(x, y),
    {
        let mut pixels: Vec<Rgb> = Vec::new();
        let n: usize = self.pixels.len();
        let mut i: usize = 0;
        while i < n
            invariant
                n == self.pixels@.len(),
                i <= n,
                pixels@.len() == i,
                forall|k: int| 0 <= k < i ==> pixels@[k] == self.pixels@[k],
            decreases n - i,
        {
            pixels.push(self.pixels[i]);
            i += 1;
        }
        let bm = Bitmap { width: self.width, height: self.height, pixels };
        proof {
            assert forall|x: int, y: int|
                0 <= x < self.spec_width() && 0 <= y < self.spec_height()
                    implies bm.pixel(x, y) == self.pixel(x, y) by {
                assert(0 <= y * self.width + x < self.width * self.height) by (nonlinear_arith)
                    requires
                        0 <= x < self.width,
                        0 <= y < self.height,
                ;
            }
        }
        bm
    }
}

/// Pixel-wise equality of two rasters over their (equal) dimensions.
pub open spec fn bitmaps_equal(a: Bitmap, b: Bitmap) -> bool {
    &&& a.spec_width() == b.spec_width()
    &&& a.spec_height() == b.spec_height()
    &&& forall|x: int, y: int|
        0 <= x < a.spec_width() && 0 <= y < a.spec_height() ==> a.pixel(x, y) == b.pixel(x, y)
}

/// Pixel-wise raster equality is symmetric.
pub proof fn lemma_bitmaps_equal_symmetric(a: Bitmap, b: Bitmap)
    requires
        bitmaps_equal(a, b),
    ensures
        bitmaps_equal(b, a),
{
}

/// Decides pixel-wise equality of two rasters.
pub fn bitmap_eq(a: &Bitmap, b: &Bitmap) -> (r: bool)
    requires
        a.wf(),
        b.wf(),
    ensures
        r == bitmaps_equal(*a, *b),
{
    if a.width() != b.width() || a.height() != b.height() {
        return false;
    }
    let w = a.width();
    let h = a.height();
    let mut y: u32 = 0;
    while y < h
        invariant
            a.wf(),
            b.wf(),
            w == a.spec_width() == b.spec_width(),
            h == a.spec_height() == b.spec_height(),
            y <= h,
            forall|x2: int, y2: int|
                0 <= x2 < w && 0 <= y2 < y ==> a.pixel(x2, y2) == b.pixel(x2, y2),
        decreases h - y,
    {
        let mut x: u32 = 0;
        while x < w
            invariant
                a.wf(),
                b.wf(),
                w == a.spec_width() == b.spec_width(),
                h == a.spec_height() == b.spec_height(),
                y < h,
                x <= w,
                forall|x2: int, y2: int|
                    0 <= x2 < w && 0 <= y2 < y ==> a.pixel(x2, y2) == b.pixel(x2, y2),
                forall|x2: int| 0 <= x2 < x ==> a.pixel(x2, y as int) == b.pixel(x2, y as int),
            decreases w - x,
        {
            if a.get_pixel(x, y) != b.get_pixel(x, y) {
                return false;
            }
            x += 1;
        }
        y += 1;
    }
    true
}

} // verus!
