//! Bordered raster views: logical sub-rectangles of a bitmap whose
//! out-of-range coordinates are resolved by a border policy, and the
//! patch enumerator built on them.

use vstd::prelude::*;
use vstd::arithmetic::div_mod::{lemma_fundamental_div_mod, lemma_fundamental_div_mod_converse};
use crate::bitmap::{Bitmap, Rgb};

verus! {

/// Policy for resolving an out-of-range coordinate against a buffer size.
#[derive(Clone, Copy, PartialEq, Eq, Structural, Debug)]
pub enum BorderStyle {
    Looping,
    Clamped,
}

/// What `check_borders` computes: the wrapped or clamped coordinate.
pub open spec fn border_map(style: BorderStyle, value: int, add: int, buf_size: int) -> int {
    match style {
        BorderStyle::Looping => (value + add) % buf_size,
        BorderStyle::Clamped => if value + add < 0 {
            0
        } else if value + add > buf_size - 1 {
            buf_size - 1
        } else {
            value + add
        },
    }
}

impl BorderStyle {
    /// Resolves `value + add` against a buffer of `buf_size` entries:
    /// looping takes the non-negative remainder, clamping pins to the edges.
    pub fn check_borders(&self, value: u32, add: i64, buf_size: u32) -> (r: u32)
        requires
            1 <= buf_size,
            value + add <= i64::MAX,
        ensures
            r == border_map(*self, value as int, add as int, buf_size as int),
            r < buf_size,
    {
        let s: i64 = value as i64 + add;
        match self {
            BorderStyle::Looping => {
                if s >= 0 {
                    let m: u64 = (s as u64) % (buf_size as u64);
                    m as u32
                } else {
                    let q: u64 = (-(s + 1)) as u64;
                    let m: u64 = q % (buf_size as u64);
                    proof {
                        let n = buf_size as int;
                        let qi = q as int;
                        let mi = m as int;
                        lemma_fundamental_div_mod(qi, n);
                        assert(s as int == (-(qi / n) - 1) * n + (n - 1 - mi)) by (nonlinear_arith)
                            requires
                                qi == n * (qi / n) + (qi % n),
                                mi == qi % n,
                                s as int == -qi - 1,
                        ;
                        lemma_fundamental_div_mod_converse(s as int, n, -(qi / n) - 1, n - 1 - mi);
                    }
                    buf_size - 1 - (m as u32)
                }
            },
            BorderStyle::Clamped => {
                if s < 0 {
                    0
                } else if s > (buf_size as i64) - 1 {
                    buf_size - 1
                } else {
                    s as u32
                }
            },
        }
    }
}

/// A logical rectangle over some bitmap, with offsets that may be
/// negative and out-of-range lookups resolved by the border policy.
/// The view holds no reference: each lookup names the bitmap it reads.
#[derive(Clone, Copy, PartialEq, Eq, Structural, Debug)]
pub struct LoopingSubImage {
    pub border_style: BorderStyle,
    pub xoffset: i64,
    pub yoffset: i64,
    pub width: u32,
    pub height: u32,
}

impl LoopingSubImage {
    /// Offsets small enough that any in-view coordinate can be added
    /// to them without leaving `i64`.
    pub open spec fn wf(self) -> bool {
        &&& 1 <= self.width
        &&& 1 <= self.height
        &&& self.xoffset + self.width <= i64::MAX
        &&& self.yoffset + self.height <= i64::MAX
    }

    /// The source pixel this view exposes at local coordinate `(x, y)`.
    pub open spec fn view_pixel(self, img: Bitmap, x: int, y: int) -> Rgb {
        img.pixel(
            border_map(self.border_style, x, self.xoffset as int, img.spec_width() as int),
            border_map(self.border_style, y, self.yoffset as int, img.spec_height() as int),
        )
    }

    pub fn dimensions(&self) -> (d: (u32, u32))
        ensures
            d.0 == self.width,
            d.1 == self.height,
    {
        (self.width, self.height)
    }

    pub fn get_pixel(&self, img: &Bitmap, x: u32, y: u32) -> (p: Rgb)
        requires
            img.wf(),
            x + self.xoffset <= i64::MAX,
            y + self.yoffset <= i64::MAX,
        ensures
            p == self.view_pixel(*img, x as int, y as int),
    {
        let px = self.border_style.check_borders(x, self.xoffset, img.width());
        let py = self.border_style.check_borders(y, self.yoffset, img.height());
        img.get_pixel(px, py)
    }

    /// Materializes the view as an owned bitmap.
    pub fn to_image(&self, img: &Bitmap) -> (out: Bitmap)
        requires
            img.wf(),
            self.wf(),
            self.width * self.height <= usize::MAX,
        ensures
            out.wf(),
            out.spec_width() == self.width,
            out.spec_height() == self.height,
            forall|x: int, y: int|
                0 <= x < self.width && 0 <= y < self.height
                    ==> out.pixel(x, y) == self.view_pixel(*img, x, y),
    {
        let mut out = Bitmap::new(self.width, self.height, self.get_pixel(img, 0, 0));
        let mut y: u32 = 0;
        while y < self.height
            invariant
                img.wf(),
                self.wf(),
                out.wf(),
                out.spec_width() == self.width,
                out.spec_height() == self.height,
                y <= self.height,
                forall|x2: int, y2: int|
                    0 <= x2 < self.width && 0 <= y2 < y
                        ==> out.pixel(x2, y2) == self.view_pixel(*img, x2, y2),
            decreases self.height - y,
        {
            let mut x: u32 = 0;
            while x < self.width
                invariant
                    img.wf(),
                    self.wf(),
                    out.wf(),
                    out.spec_width() == self.width,
                    out.spec_height() == self.height,
                    y < self.height,
                    x <= self.width,
                    forall|x2: int, y2: int|
                        0 <= x2 < self.width && 0 <= y2 < y
                            ==> out.pixel(x2, y2) == self.view_pixel(*img, x2, y2),
                    forall|x2: int|
                        0 <= x2 < x ==> out.pixel(x2, y as int) == self.view_pixel(*img, x2, y as int),
                decreases self.width - x,
            {
                let p = self.get_pixel(img, x, y);
                out.set_pixel(x, y, p);
                x += 1;
            }
            y += 1;
        }
        out
    }

    /// Decides pixel-wise equality with another view of possibly another bitmap.
    pub fn eq_view(&self, img: &Bitmap, other: &LoopingSubImage, other_img: &Bitmap) -> (r: bool)
        requires
            img.wf(),
            other_img.wf(),
            self.wf(),
            other.wf(),
        ensures
            r == views_equal(*self, *img, *other, *other_img),
    {
        if self.width != other.width || self.height != other.height {
            return false;
        }
        let mut y: u32 = 0;
        while y < self.height
            invariant
                img.wf(),
                other_img.wf(),
                self.wf(),
                other.wf(),
                self.width == other.width,
                self.height == other.height,
                y <= self.height,
                forall|x2: int, y2: int|
                    0 <= x2 < self.width && 0 <= y2 < y
                        ==> self.view_pixel(*img, x2, y2) == other.view_pixel(*other_img, x2, y2),
            decreases self.height - y,
        {
            let mut x: u32 = 0;
            while x < self.width
                invariant
                    img.wf(),
                    other_img.wf(),
                    self.wf(),
                    other.wf(),
                    self.width == other.width,
                    self.height == other.height,
                    y < self.height,
                    x <= self.width,
                    forall|x2: int, y2: int|
                        0 <= x2 < self.width && 0 <= y2 < y
                            ==> self.view_pixel(*img, x2, y2) == other.view_pixel(*other_img, x2, y2),
                    forall|x2: int|
                        0 <= x2 < x
                            ==> self.view_pixel(*img, x2, y as int) == other.view_pixel(
                                *other_img,
                                x2,
                                y as int,
                            ),
                decreases self.width - x,
            {
                if self.get_pixel(img, x, y) != other.get_pixel(other_img, x, y) {
                    return false;
                }
                x += 1;
            }
            y += 1;
        }
        true
    }
}

/// Pixel-wise equality of two bordered views over their dimensions.
pub open spec fn views_equal(a: LoopingSubImage, ia: Bitmap, b: LoopingSubImage, ib: Bitmap) -> bool {
    &&& a.width == b.width
    &&& a.height == b.height
    &&& forall|x: int, y: int|
        0 <= x < a.width && 0 <= y < a.height ==> a.view_pixel(ia, x, y) == b.view_pixel(ib, x, y)
}

/// Bordered-view equality is reflexive.
pub proof fn lemma_views_equal_reflexive(a: LoopingSubImage, ia: Bitmap)
    ensures
        views_equal(a, ia, a, ia),
{
}

/// Bordered-view equality is symmetric.
pub proof fn lemma_views_equal_symmetric(
    a: LoopingSubImage,
    ia: Bitmap,
    b: LoopingSubImage,
    ib: Bitmap,
)
    requires
        views_equal(a, ia, b, ib),
    ensures
        views_equal(b, ib, a, ia),
{
}

/// Bordered-view equality is transitive over fixed dimensions.
pub proof fn lemma_views_equal_transitive(
    a: LoopingSubImage,
    ia: Bitmap,
    b: LoopingSubImage,
    ib: Bitmap,
    c: LoopingSubImage,
    ic: Bitmap,
)
    requires
        views_equal(a, ia, b, ib),
        views_equal(b, ib, c, ic),
    ensures
        views_equal(a, ia, c, ic),
{
}

/// A border-resolved coordinate always lands inside the buffer.
pub proof fn lemma_border_map_in_range(style: BorderStyle, value: int, add: int, buf_size: int)
    requires
        1 <= buf_size,
    ensures
        0 <= border_map(style, value, add, buf_size) < buf_size,
{
    match style {
        BorderStyle::Looping => {
            vstd::arithmetic::div_mod::lemma_mod_bound(value + add, buf_size);
        },
        BorderStyle::Clamped => {},
    }
}

/// A view reads the same pixels out of any two pixel-wise equal bitmaps.
pub proof fn lemma_view_pixel_congruent(
    v: LoopingSubImage,
    i1: Bitmap,
    i2: Bitmap,
    x: int,
    y: int,
)
    requires
        i1.wf(),
        crate::bitmap::bitmaps_equal(i1, i2),
    ensures
        v.view_pixel(i1, x, y) == v.view_pixel(i2, x, y),
{
    lemma_border_map_in_range(v.border_style, x, v.xoffset as int, i1.spec_width() as int);
    lemma_border_map_in_range(v.border_style, y, v.yoffset as int, i1.spec_height() as int);
}

/// View equality is unchanged when either bitmap is replaced by a
/// pixel-wise equal one.
pub proof fn lemma_views_equal_congruent(
    a: LoopingSubImage,
    ia1: Bitmap,
    ia2: Bitmap,
    b: LoopingSubImage,
    ib1: Bitmap,
    ib2: Bitmap,
)
    requires
        ia1.wf(),
        ib1.wf(),
        crate::bitmap::bitmaps_equal(ia1, ia2),
        crate::bitmap::bitmaps_equal(ib1, ib2),
    ensures
        views_equal(a, ia1, b, ib1) == views_equal(a, ia2, b, ib2),
{
    assert forall|x: int, y: int| true implies a.view_pixel(ia1, x, y) == a.view_pixel(ia2, x, y)
        && b.view_pixel(ib1, x, y) == b.view_pixel(ib2, x, y) by {
        lemma_view_pixel_congruent(a, ia1, ia2, x, y);
        lemma_view_pixel_congruent(b, ib1, ib2, x, y);
    }
}

/// A looping 1-by-1 view reads the source at the wrapped coordinates,
/// and a clamped one at the clamped coordinates.
pub proof fn lemma_border_policy(img: Bitmap, x: i64, y: i64)
    requires
        img.wf(),
        0 <= x,
        0 <= y,
    ensures
        ({
            let v = LoopingSubImage {
                border_style: BorderStyle::Looping,
                xoffset: x,
                yoffset: y,
                width: 1,
                height: 1,
            };
            v.view_pixel(img, 0, 0) == img.pixel(
                (x as int) % (img.spec_width() as int),
                (y as int) % (img.spec_height() as int),
            )
        }),
        ({
            let v = LoopingSubImage {
                border_style: BorderStyle::Clamped,
                xoffset: x,
                yoffset: y,
                width: 1,
                height: 1,
            };
            v.view_pixel(img, 0, 0) == img.pixel(
                if x < img.spec_width() { x as int } else { img.spec_width() - 1 },
                if y < img.spec_height() { y as int } else { img.spec_height() - 1 },
            )
        }),
{
}

impl Bitmap {
    /// A bordered view of this bitmap with the given offsets and size.
    pub fn looping_view(
        &self,
        xoffset: i64,
        yoffset: i64,
        xstride: u32,
        ystride: u32,
        border_style: BorderStyle,
    ) -> (v: LoopingSubImage)
        ensures
            v == (LoopingSubImage {
                border_style,
                xoffset,
                yoffset,
                width: xstride,
                height: ystride,
            }),
    {
        LoopingSubImage { border_style, xoffset, yoffset, width: xstride, height: ystride }
    }

    /// The patch enumerator: one tile-sized view per source pixel,
    /// visited in row-major order.
    pub fn tiles(&self, tile_size: u32, border_style: BorderStyle) -> (t: Tiles)
        ensures
            t.index == 0,
            t.tile_size == tile_size,
            t.border_style == border_style,
    {
        Tiles { index: 0, tile_size, border_style }
    }
}

/// The `S x S` view centered on source pixel number `idx` (row-major),
/// extracted with the given border policy.
pub open spec fn patch_view(img: Bitmap, tile_size: u32, style: BorderStyle, idx: int) -> LoopingSubImage {
    LoopingSubImage {
        border_style: style,
        xoffset: (idx % (img.spec_width() as int) - tile_size / 2) as i64,
        yoffset: (idx / (img.spec_width() as int) - tile_size / 2) as i64,
        width: tile_size,
        height: tile_size,
    }
}

/// Enumerates every tile-sized patch of a bitmap in row-major order.
pub struct Tiles {
    pub index: usize,
    pub tile_size: u32,
    pub border_style: BorderStyle,
}

impl Tiles {
    /// Yields the next patch view of `img`, or `None` once every source
    /// pixel has been visited.
    pub fn next(&mut self, img: &Bitmap) -> (v: Option<LoopingSubImage>)
        requires
            img.wf(),
            img.spec_width() * img.spec_height() <= usize::MAX,
            1 <= old(self).tile_size,
        ensures
            final(self).tile_size == old(self).tile_size,
            final(self).border_style == old(self).border_style,
            old(self).index < img.spec_width() * img.spec_height() ==> {
                &&& final(self).index == old(self).index + 1
                &&& v == Some(
                    patch_view(*img, old(self).tile_size, old(self).border_style, old(self).index as int),
                )
            },
            old(self).index >= img.spec_width() * img.spec_height() ==> {
                &&& final(self).index == old(self).index
                &&& v is None
            },
    {
        let w = img.width();
        let h = img.height();
        let n: usize = (w as usize) * (h as usize);
        if self.index >= n {
            return None;
        }
        let x: usize = self.index % (w as usize);
        let y: usize = self.index / (w as usize);
        proof {
            assert(0 <= self.index as int % (w as int) < w) by (nonlinear_arith)
                requires 1 <= w;
            assert(0 <= self.index as int / (w as int) < h) by (nonlinear_arith)
                requires 1 <= w, 0 <= self.index, self.index < w * h;
        }
        let half: u32 = self.tile_size / 2;
        let v = LoopingSubImage {
            border_style: self.border_style,
            xoffset: (x as i64) - (half as i64),
            yoffset: (y as i64) - (half as i64),
            width: self.tile_size,
            height: self.tile_size,
        };
        self.index += 1;
        Some(v)
    }
}

} // verus!
