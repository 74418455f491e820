//! Tiles: the S-by-S patches mined from the source bitmap, their
//! occurrence counts, and the four-directional adjacency relation
//! learned by comparing overlapping halves.

use vstd::prelude::*;
use crate::bitmap::{Bitmap, bitmaps_equal, bitmap_eq};
use crate::image_impls::{
    BorderStyle, LoopingSubImage, views_equal, patch_view, lemma_views_equal_symmetric,
    lemma_views_equal_congruent,
};
use crate::sortedvec::{strictly_sorted, all_below};
use crate::sums::{sum32, sum32_from, lemma_sum32_push, lemma_sum32_update, lemma_sum32_element};

verus! {

/// One of the four grid directions.
#[derive(Clone, Copy, PartialEq, Eq, Structural, Debug)]
pub enum Direction {
    Up,
    Down,
    Left,
    Right,
}

impl Direction {
    pub open spec fn spec_opposing(self) -> Direction {
        match self {
            Direction::Up => Direction::Down,
            Direction::Down => Direction::Up,
            Direction::Left => Direction::Right,
            Direction::Right => Direction::Left,
        }
    }

    /// The direction pointing the other way.
    pub fn opposing(&self) -> (d: Direction)
        ensures
            d == self.spec_opposing(),
    {
        match self {
            Direction::Up => Direction::Down,
            Direction::Down => Direction::Up,
            Direction::Left => Direction::Right,
            Direction::Right => Direction::Left,
        }
    }

    pub open spec fn spec_from_index(k: int) -> Direction {
        if k == 0 {
            Direction::Up
        } else if k == 1 {
            Direction::Down
        } else if k == 2 {
            Direction::Left
        } else {
            Direction::Right
        }
    }

    /// The four directions, numbered in propagation order.
    pub fn from_index(k: usize) -> (d: Direction)
        requires
            k < 4,
        ensures
            d == Direction::spec_from_index(k as int),
    {
        if k == 0 {
            Direction::Up
        } else if k == 1 {
            Direction::Down
        } else if k == 2 {
            Direction::Left
        } else {
            Direction::Right
        }
    }
}

/// One value per grid direction.
#[derive(Debug)]
pub struct Directions<T> {
    pub up: T,
    pub down: T,
    pub left: T,
    pub right: T,
}

impl<T> Directions<T> {
    pub open spec fn spec_get(self, d: Direction) -> T {
        match d {
            Direction::Up => self.up,
            Direction::Down => self.down,
            Direction::Left => self.left,
            Direction::Right => self.right,
        }
    }

    pub fn get(&self, d: Direction) -> (t: &T)
        ensures
            *t == self.spec_get(d),
    {
        match d {
            Direction::Up => &self.up,
            Direction::Down => &self.down,
            Direction::Left => &self.left,
            Direction::Right => &self.right,
        }
    }
}

/// An extracted patch: its pixels, its occurrence count in the source,
/// the tile indices allowed next to it in each direction, and the
/// border policy it was extracted with.
#[derive(Debug)]
pub struct Tile {
    pub image: Bitmap,
    pub neighbors: Directions<Vec<usize>>,
    pub frequency: u32,
    pub border_style: BorderStyle,
}

/// Ceiling of `n / 2`.
pub open spec fn half_ceil(n: u32) -> u32 {
    (n / 2 + n % 2) as u32
}

/// The half of `img` facing direction `d`, as a bordered view.
pub open spec fn dir_view(img: Bitmap, style: BorderStyle, d: Direction) -> LoopingSubImage {
    match d {
        Direction::Up => LoopingSubImage {
            border_style: style,
            xoffset: 0,
            yoffset: 0,
            width: img.spec_width(),
            height: half_ceil(img.spec_height()),
        },
        Direction::Down => LoopingSubImage {
            border_style: style,
            xoffset: 0,
            yoffset: (img.spec_height() / 2) as i64,
            width: img.spec_width(),
            height: half_ceil(img.spec_height()),
        },
        Direction::Left => LoopingSubImage {
            border_style: style,
            xoffset: 0,
            yoffset: 0,
            width: half_ceil(img.spec_width()),
            height: img.spec_height(),
        },
        Direction::Right => LoopingSubImage {
            border_style: style,
            xoffset: (img.spec_width() / 2) as i64,
            yoffset: 0,
            width: half_ceil(img.spec_width()),
            height: img.spec_height(),
        },
    }
}

/// Builds the half view of a bitmap facing `d`.
pub fn half_view(img: &Bitmap, style: BorderStyle, d: Direction) -> (v: LoopingSubImage)
    ensures
        v == dir_view(*img, style, d),
{
    let w = img.width();
    let h = img.height();
    match d {
        Direction::Up => LoopingSubImage {
            border_style: style,
            xoffset: 0,
            yoffset: 0,
            width: w,
            height: h / 2 + h % 2,
        },
        Direction::Down => LoopingSubImage {
            border_style: style,
            xoffset: 0,
            yoffset: (h / 2) as i64,
            width: w,
            height: h / 2 + h % 2,
        },
        Direction::Left => LoopingSubImage {
            border_style: style,
            xoffset: 0,
            yoffset: 0,
            width: w / 2 + w % 2,
            height: h,
        },
        Direction::Right => LoopingSubImage {
            border_style: style,
            xoffset: (w / 2) as i64,
            yoffset: 0,
            width: w / 2 + w % 2,
            height: h,
        },
    }
}

impl Tile {
    /// The half of this tile's bitmap facing `d`.
    pub fn view_in_direction(&self, direction: Direction) -> (v: LoopingSubImage)
        ensures
            v == dir_view(self.image, self.border_style, direction),
    {
        half_view(&self.image, self.border_style, direction)
    }

    pub fn up_view(&self) -> (v: LoopingSubImage)
        ensures
            v == dir_view(self.image, self.border_style, Direction::Up),
    {
        half_view(&self.image, self.border_style, Direction::Up)
    }

    pub fn down_view(&self) -> (v: LoopingSubImage)
        ensures
            v == dir_view(self.image, self.border_style, Direction::Down),
    {
        half_view(&self.image, self.border_style, Direction::Down)
    }

    pub fn left_view(&self) -> (v: LoopingSubImage)
        ensures
            v == dir_view(self.image, self.border_style, Direction::Left),
    {
        half_view(&self.image, self.border_style, Direction::Left)
    }

    pub fn right_view(&self) -> (v: LoopingSubImage)
        ensures
            v == dir_view(self.image, self.border_style, Direction::Right),
    {
        half_view(&self.image, self.border_style, Direction::Right)
    }
}

/// Tile `b` may sit in direction `d` of tile `a`: the half of `a`
/// facing `d` equals, pixel for pixel, the half of `b` facing the
/// opposite way.
pub open spec fn halves_match(a: Tile, b: Tile, d: Direction) -> bool {
    views_equal(
        dir_view(a.image, a.border_style, d),
        a.image,
        dir_view(b.image, b.border_style, d.spec_opposing()),
        b.image,
    )
}

/// The half comparison is symmetric under swapping the tiles and the
/// direction.
pub proof fn lemma_halves_match_symmetric(a: Tile, b: Tile, d: Direction)
    ensures
        halves_match(a, b, d) == halves_match(b, a, d.spec_opposing()),
{
    assert(d.spec_opposing().spec_opposing() == d);
    if halves_match(a, b, d) {
        lemma_views_equal_symmetric(
            dir_view(a.image, a.border_style, d),
            a.image,
            dir_view(b.image, b.border_style, d.spec_opposing()),
            b.image,
        );
    }
    if halves_match(b, a, d.spec_opposing()) {
        lemma_views_equal_symmetric(
            dir_view(b.image, b.border_style, d.spec_opposing()),
            b.image,
            dir_view(a.image, a.border_style, d),
            a.image,
        );
    }
}

/// Patches `i` and `j` of the source are pixel-wise equal.
pub open spec fn patches_equal(img: Bitmap, ts: u32, bs: BorderStyle, i: int, j: int) -> bool {
    views_equal(patch_view(img, ts, bs, i), img, patch_view(img, ts, bs, j), img)
}

/// The first index at or after `k` whose patch equals patch `j`
/// (falling back to `j` itself).
pub open spec fn patch_first_match(img: Bitmap, ts: u32, bs: BorderStyle, j: int, k: int) -> int
    decreases j - k,
{
    if k < 0 || k >= j {
        j
    } else if patches_equal(img, ts, bs, k, j) {
        k
    } else {
        patch_first_match(img, ts, bs, j, k + 1)
    }
}

/// The canonical (first pixel-equal) patch index for patch `j`.
pub open spec fn patch_canon(img: Bitmap, ts: u32, bs: BorderStyle, j: int) -> int {
    patch_first_match(img, ts, bs, j, 0)
}

/// How many of the first `upto` patches have canonical index `i`.
pub open spec fn patch_class_count(img: Bitmap, ts: u32, bs: BorderStyle, i: int, upto: int) -> int
    decreases upto,
{
    if upto <= 0 {
        0
    } else {
        patch_class_count(img, ts, bs, i, upto - 1) + if patch_canon(img, ts, bs, upto - 1) == i {
            1int
        } else {
            0int
        }
    }
}

/// Pins `patch_first_match` down from a scan's facts.
pub proof fn lemma_patch_first_match_from(
    img: Bitmap,
    ts: u32,
    bs: BorderStyle,
    j: int,
    k: int,
    c: int,
)
    requires
        0 <= k <= c <= j,
        forall|m: int| k <= m < c ==> !patches_equal(img, ts, bs, m, j),
        c < j ==> patches_equal(img, ts, bs, c, j),
    ensures
        patch_first_match(img, ts, bs, j, k) == c,
    decreases c - k,
{
    if k < c {
        lemma_patch_first_match_from(img, ts, bs, j, k + 1, c);
    }
}

/// `big` tiles `base`: whole multiples of the base dimensions, every
/// pixel read at the wrapped base coordinates.
pub open spec fn is_tiling(big: Bitmap, base: Bitmap, kx: int, ky: int) -> bool {
    &&& 1 <= kx
    &&& 1 <= ky
    &&& big.spec_width() as int == kx * (base.spec_width() as int)
    &&& big.spec_height() as int == ky * (base.spec_height() as int)
    &&& forall|x: int, y: int|
        0 <= x < big.spec_width() && 0 <= y < big.spec_height() ==> big.pixel(x, y) == base.pixel(
            x % (base.spec_width() as int),
            y % (base.spec_height() as int),
        )
}

/// Looping extraction cannot tell a source from a tiling of it: the
/// patch of the tiled bitmap centered on any pixel equals, pixel for
/// pixel, the base patch centered on the wrapped position. This is the
/// heart of dedup idempotence under tiling; it holds for the looping
/// border only, since clamped edge patches of the two bitmaps differ.
pub proof fn lemma_tiling_patch_equal(
    big: Bitmap,
    base: Bitmap,
    kx: int,
    ky: int,
    ts: u32,
    ib: int,
)
    requires
        base.wf(),
        big.wf(),
        is_tiling(big, base, kx, ky),
        0 <= ib < big.spec_width() * big.spec_height(),
        1 <= ts,
        ts < 0x10000,
    ensures
        ({
            let bw = big.spec_width() as int;
            let w = base.spec_width() as int;
            let h = base.spec_height() as int;
            let x0 = (ib % bw) % w;
            let y0 = (ib / bw) % h;
            views_equal(
                patch_view(big, ts, BorderStyle::Looping, ib),
                big,
                patch_view(base, ts, BorderStyle::Looping, y0 * w + x0),
                base,
            )
        }),
{
    let bw = big.spec_width() as int;
    let bh = big.spec_height() as int;
    let w = base.spec_width() as int;
    let h = base.spec_height() as int;
    let xb = ib % bw;
    let yb = ib / bw;
    let x0 = xb % w;
    let y0 = yb % h;
    let i0 = y0 * w + x0;
    vstd::arithmetic::div_mod::lemma_mod_bound(ib, bw);
    vstd::arithmetic::div_mod::lemma_mod_bound(xb, w);
    vstd::arithmetic::div_mod::lemma_mod_bound(yb, h);
    assert(0 <= yb) by (nonlinear_arith)
        requires
            0 <= ib,
            1 <= bw,
            yb == ib / bw,
    ;
    // the wrapped position has the expected row-major decomposition
    vstd::arithmetic::div_mod::lemma_fundamental_div_mod_converse(i0, w, y0, x0);
    let half = (ts / 2) as int;
    let va = patch_view(big, ts, BorderStyle::Looping, ib);
    let vb = patch_view(base, ts, BorderStyle::Looping, i0);
    assert(yb < bh) by (nonlinear_arith)
        requires
            ib < bw * bh,
            1 <= bw,
            0 <= ib,
            yb == ib / bw,
    ;
    assert(-0x10000 <= xb - half < 0x100000000);
    assert(-0x10000 <= yb - half < 0x100000000);
    assert(-0x10000 <= x0 - half < 0x100000000);
    assert(-0x10000 <= y0 - half < 0x100000000);
    assert(va.xoffset == xb - half && va.yoffset == yb - half);
    assert(vb.xoffset == x0 - half && vb.yoffset == y0 - half);
    assert forall|px: int, py: int|
        0 <= px < ts && 0 <= py < ts implies va.view_pixel(big, px, py) == vb.view_pixel(
        base,
        px,
        py,
    ) by {
        let gx = (px + xb - half) % bw;
        let gy = (py + yb - half) % bh;
        vstd::arithmetic::div_mod::lemma_mod_bound(px + xb - half, bw);
        vstd::arithmetic::div_mod::lemma_mod_bound(py + yb - half, bh);
        // the tiled bitmap reads the base at the wrapped coordinates
        assert(big.pixel(gx, gy) == base.pixel(gx % w, gy % h));
        // folding the big modulus into the base modulus
        assert(gx % w == (px + xb - half) % w) by {
            vstd::arithmetic::div_mod::lemma_mod_mod(px + xb - half, w, kx);
            assert(w * kx == bw) by (nonlinear_arith)
                requires
                    bw == kx * w,
            ;
        }
        assert(gy % h == (py + yb - half) % h) by {
            vstd::arithmetic::div_mod::lemma_mod_mod(py + yb - half, h, ky);
            assert(h * ky == bh) by (nonlinear_arith)
                requires
                    bh == ky * h,
            ;
        }
        // the base patch wraps the same way from the wrapped center
        assert((px + x0 - half) % w == (px + xb - half) % w) by {
            vstd::arithmetic::div_mod::lemma_mod_twice(xb, w);
            vstd::arithmetic::div_mod::lemma_add_mod_noop(x0, px - half, w);
            vstd::arithmetic::div_mod::lemma_add_mod_noop(xb, px - half, w);
        }
        assert((py + y0 - half) % h == (py + yb - half) % h) by {
            vstd::arithmetic::div_mod::lemma_mod_twice(yb, h);
            vstd::arithmetic::div_mod::lemma_add_mod_noop(y0, py - half, h);
            vstd::arithmetic::div_mod::lemma_add_mod_noop(yb, py - half, h);
        }
    }
}

/// The wrapped base position a tiled-bitmap patch is centered on.
pub open spec fn wrapped_patch_index(big: Bitmap, base: Bitmap, ib: int) -> int {
    let bw = big.spec_width() as int;
    let w = base.spec_width() as int;
    let h = base.spec_height() as int;
    ((ib / bw) % h) * w + (ib % bw) % w
}

/// Over a tiled bitmap, looping patch equality is exactly the patch
/// equality of the base at the wrapped positions: dedup over the
/// tiling partitions patches the same way as dedup over the base.
pub proof fn lemma_tiling_patches_equal(
    big: Bitmap,
    base: Bitmap,
    kx: int,
    ky: int,
    ts: u32,
    i: int,
    j: int,
)
    requires
        base.wf(),
        big.wf(),
        is_tiling(big, base, kx, ky),
        0 <= i < big.spec_width() * big.spec_height(),
        0 <= j < big.spec_width() * big.spec_height(),
        1 <= ts,
        ts < 0x10000,
    ensures
        patches_equal(big, ts, BorderStyle::Looping, i, j) == patches_equal(
            base,
            ts,
            BorderStyle::Looping,
            wrapped_patch_index(big, base, i),
            wrapped_patch_index(big, base, j),
        ),
{
    let wi = wrapped_patch_index(big, base, i);
    let wj = wrapped_patch_index(big, base, j);
    lemma_tiling_patch_equal(big, base, kx, ky, ts, i);
    lemma_tiling_patch_equal(big, base, kx, ky, ts, j);
    let pai = patch_view(big, ts, BorderStyle::Looping, i);
    let paj = patch_view(big, ts, BorderStyle::Looping, j);
    let pbi = patch_view(base, ts, BorderStyle::Looping, wi);
    let pbj = patch_view(base, ts, BorderStyle::Looping, wj);
    if patches_equal(big, ts, BorderStyle::Looping, i, j) {
        lemma_views_equal_symmetric(pai, big, pbi, base);
        crate::image_impls::lemma_views_equal_transitive(pbi, base, pai, big, paj, big);
        crate::image_impls::lemma_views_equal_transitive(pbi, base, paj, big, pbj, base);
    }
    if patches_equal(base, ts, BorderStyle::Looping, wi, wj) {
        crate::image_impls::lemma_views_equal_transitive(pai, big, pbi, base, pbj, base);
        lemma_views_equal_symmetric(paj, big, pbj, base);
        crate::image_impls::lemma_views_equal_transitive(pai, big, pbj, base, paj, big);
    }
}

/// Class counts only grow as more patches are scanned.
pub proof fn lemma_patch_class_count_mono(
    img: Bitmap,
    ts: u32,
    bs: BorderStyle,
    i: int,
    u1: int,
    u2: int,
)
    requires
        0 <= u1 <= u2,
    ensures
        patch_class_count(img, ts, bs, i, u1) <= patch_class_count(img, ts, bs, i, u2),
    decreases u2 - u1,
{
    if u1 < u2 {
        lemma_patch_class_count_mono(img, ts, bs, i, u1, u2 - 1);
    }
}

/// `bm` holds exactly the pixels of patch `idx` of `img`.
pub open spec fn image_matches_patch(
    bm: Bitmap,
    img: Bitmap,
    ts: u32,
    bs: BorderStyle,
    idx: int,
) -> bool {
    &&& bm.wf()
    &&& bm.spec_width() == ts
    &&& bm.spec_height() == ts
    &&& forall|x: int, y: int|
        0 <= x < ts && 0 <= y < ts ==> bm.pixel(x, y) == patch_view(img, ts, bs, idx).view_pixel(
            img,
            x,
            y,
        )
}

/// Two materialized patches are pixel-equal exactly when the patches
/// themselves are.
pub proof fn lemma_materialized_patches_equal(
    b1: Bitmap,
    b2: Bitmap,
    img: Bitmap,
    ts: u32,
    bs: BorderStyle,
    i: int,
    j: int,
)
    requires
        image_matches_patch(b1, img, ts, bs, i),
        image_matches_patch(b2, img, ts, bs, j),
        1 <= ts,
    ensures
        bitmaps_equal(b1, b2) == patches_equal(img, ts, bs, i, j),
{
    let vi = patch_view(img, ts, bs, i);
    let vj = patch_view(img, ts, bs, j);
    if bitmaps_equal(b1, b2) {
        assert forall|x: int, y: int|
            0 <= x < ts && 0 <= y < ts implies vi.view_pixel(img, x, y) == vj.view_pixel(
            img,
            x,
            y,
        ) by {
            assert(b1.pixel(x, y) == vi.view_pixel(img, x, y));
            assert(b2.pixel(x, y) == vj.view_pixel(img, x, y));
            assert(b1.pixel(x, y) == b2.pixel(x, y));
        }
        assert(patches_equal(img, ts, bs, i, j));
    }
    if patches_equal(img, ts, bs, i, j) {
        assert forall|x: int, y: int|
            0 <= x < b1.spec_width() && 0 <= y < b1.spec_height() implies b1.pixel(x, y)
            == b2.pixel(x, y) by {
            assert(vi.view_pixel(img, x, y) == vj.view_pixel(img, x, y));
        }
        assert(bitmaps_equal(b1, b2));
    }
}

/// The sum of the frequencies of `tiles[lo..]`.
pub open spec fn tile_freq_from(tiles: Seq<Tile>, lo: int) -> int
    decreases tiles.len() - lo,
{
    if lo < 0 || lo >= tiles.len() {
        0
    } else {
        tiles[lo].frequency + tile_freq_from(tiles, lo + 1)
    }
}

/// The sum of all tile frequencies.
pub open spec fn total_frequency(tiles: Seq<Tile>) -> int {
    tile_freq_from(tiles, 0)
}

pub proof fn lemma_tile_freq_nonneg(tiles: Seq<Tile>, lo: int)
    ensures
        0 <= tile_freq_from(tiles, lo),
    decreases tiles.len() - lo,
{
    if 0 <= lo < tiles.len() {
        lemma_tile_freq_nonneg(tiles, lo + 1);
    }
}

pub proof fn lemma_tile_freq_mono(tiles: Seq<Tile>, lo: int, hi: int)
    requires
        0 <= lo <= hi,
    ensures
        tile_freq_from(tiles, hi) <= tile_freq_from(tiles, lo),
    decreases hi - lo,
{
    if lo < hi {
        if lo < tiles.len() {
            lemma_tile_freq_mono(tiles, lo + 1, hi);
        } else {
            lemma_tile_freq_nonneg(tiles, hi);
        }
    }
}

/// Appending a tile adds its frequency to every suffix sum.
pub proof fn lemma_tile_freq_push(tiles: Seq<Tile>, t: Tile, lo: int)
    requires
        0 <= lo <= tiles.len(),
    ensures
        tile_freq_from(tiles.push(t), lo) == tile_freq_from(tiles, lo) + t.frequency,
    decreases tiles.len() - lo,
{
    if lo < tiles.len() {
        lemma_tile_freq_push(tiles, t, lo + 1);
    } else {
        assert(tile_freq_from(tiles.push(t), lo) == tiles.push(t)[lo].frequency
            + tile_freq_from(tiles.push(t), lo + 1));
    }
}

/// The sum of the frequencies of the tiles named by `opts`.
pub open spec fn freq_sum_of(opts: Seq<usize>, tiles: Seq<Tile>) -> int
    decreases opts.len(),
{
    if opts.len() == 0 {
        0
    } else {
        tiles[opts[0] as int].frequency + freq_sum_of(opts.drop_first(), tiles)
    }
}

pub proof fn lemma_freq_sum_nonneg(opts: Seq<usize>, tiles: Seq<Tile>)
    ensures
        0 <= freq_sum_of(opts, tiles),
    decreases opts.len(),
{
    if opts.len() > 0 {
        lemma_freq_sum_nonneg(opts.drop_first(), tiles);
    }
}

/// Distinct sorted indices at or above `lo` cannot out-sum the tiles
/// from `lo` on.
pub proof fn lemma_freq_sum_subset(opts: Seq<usize>, tiles: Seq<Tile>, lo: int)
    requires
        strictly_sorted(opts),
        all_below(opts, tiles.len() as int),
        0 <= lo,
        forall|k: int| 0 <= k < opts.len() ==> lo <= #[trigger] opts[k],
    ensures
        freq_sum_of(opts, tiles) <= tile_freq_from(tiles, lo),
    decreases opts.len(),
{
    if opts.len() == 0 {
        lemma_tile_freq_nonneg(tiles, lo);
    } else {
        let o = opts[0] as int;
        let rest = opts.drop_first();
        assert(forall|k: int| 0 <= k < rest.len() ==> o + 1 <= #[trigger] rest[k]) by {
            assert(forall|k: int|
                0 <= k < rest.len() ==> rest[k] == opts[k + 1] && opts[0] < #[trigger] opts[k + 1]);
        }
        lemma_freq_sum_subset(rest, tiles, o + 1);
        lemma_tile_freq_mono(tiles, lo, o);
        assert(tile_freq_from(tiles, o) == tiles[o].frequency + tile_freq_from(tiles, o + 1));
    }
}

/// Well-formed tile lists: few enough tiles, bounded total frequency,
/// sorted in-range neighbor lists, well-formed images.
pub open spec fn tiles_wf(tiles: Seq<Tile>) -> bool {
    &&& tiles.len() <= u32::MAX
    &&& total_frequency(tiles) <= u32::MAX
    &&& forall|i: int, d: Direction|
        0 <= i < tiles.len() ==> strictly_sorted(#[trigger] tiles[i].neighbors.spec_get(d)@)
    &&& forall|i: int, d: Direction|
        0 <= i < tiles.len() ==> all_below(
            #[trigger] tiles[i].neighbors.spec_get(d)@,
            tiles.len() as int,
        )
    &&& forall|i: int| 0 <= i < tiles.len() ==> (#[trigger] tiles[i].image).wf()
}

/// The neighbor lists hold exactly the matching canonical tiles.
pub open spec fn neighbor_lists_exact(tiles: Seq<Tile>) -> bool {
    forall|a: int, d: Direction, b: usize|
        0 <= a < tiles.len() ==> (#[trigger] tiles[a].neighbors.spec_get(d)@.contains(b) <==> {
            &&& (b as int) < tiles.len()
            &&& tiles[a].frequency > 0
            &&& tiles[b as int].frequency > 0
            &&& halves_match(tiles[a], tiles[b as int], d)
        })
}

/// Adjacency symmetry: `j` may sit in direction `d` of `i` exactly
/// when `i` may sit in the opposite direction of `j`.
pub open spec fn adjacency_symmetric(tiles: Seq<Tile>) -> bool {
    forall|i: usize, j: usize, d: Direction|
        (i as int) < tiles.len() && (j as int) < tiles.len() ==> (#[trigger] tiles[i as int].neighbors.spec_get(
            d,
        )@.contains(j) <==> tiles[j as int].neighbors.spec_get(d.spec_opposing())@.contains(i))
}

/// The half views of a well-formed bitmap are well-formed views.
proof fn lemma_dir_view_wf(img: Bitmap, style: BorderStyle, d: Direction)
    requires
        img.wf(),
    ensures
        dir_view(img, style, d).wf(),
{
}

/// Finds the first extracted patch that is pixel-equal to patch `j`.
fn find_first_equal(
    images: &Vec<Bitmap>,
    src: &Bitmap,
    ts: u32,
    bs: BorderStyle,
    j: usize,
) -> (c: usize)
    requires
        j < images@.len(),
        1 <= ts,
        forall|k: int|
            0 <= k < images@.len() ==> image_matches_patch(#[trigger] images@[k], *src, ts, bs, k),
    ensures
        c <= j,
        c as int == patch_canon(*src, ts, bs, j as int),
{
    let mut c: usize = 0;
    while c < j
        invariant
            c <= j,
            j < images@.len(),
            1 <= ts,
            forall|k: int|
                0 <= k < images@.len() ==> image_matches_patch(
                    #[trigger] images@[k],
                    *src,
                    ts,
                    bs,
                    k,
                ),
            forall|m: int| 0 <= m < c ==> !patches_equal(*src, ts, bs, m, j as int),
        decreases j - c,
    {
        if bitmap_eq(&images[c], &images[j]) {
            proof {
                lemma_materialized_patches_equal(
                    images@[c as int],
                    images@[j as int],
                    *src,
                    ts,
                    bs,
                    c as int,
                    j as int,
                );
                lemma_patch_first_match_from(*src, ts, bs, j as int, 0, c as int);
            }
            return c;
        }
        proof {
            lemma_materialized_patches_equal(
                images@[c as int],
                images@[j as int],
                *src,
                ts,
                bs,
                c as int,
                j as int,
            );
        }
        c += 1;
    }
    proof {
        lemma_patch_first_match_from(*src, ts, bs, j as int, 0, j as int);
    }
    j
}

/// Builds the neighbor list of canonical tile `a` in direction `d`:
/// every canonical `b` whose opposite half matches, in increasing order.
fn neighbor_list(
    images: &Vec<Bitmap>,
    freqs: &Vec<u32>,
    border_style: BorderStyle,
    a: usize,
    d: Direction,
) -> (r: Vec<usize>)
    requires
        images@.len() == freqs@.len(),
        a < images@.len(),
        forall|k: int| 0 <= k < images@.len() ==> (#[trigger] images@[k]).wf(),
    ensures
        strictly_sorted(r@),
        all_below(r@, images@.len() as int),
        forall|b: usize|
            #[trigger] r@.contains(b) <==> {
                &&& (b as int) < images@.len()
                &&& freqs@[a as int] > 0
                &&& freqs@[b as int] > 0
                &&& views_equal(
                    dir_view(images@[a as int], border_style, d),
                    images@[a as int],
                    dir_view(images@[b as int], border_style, d.spec_opposing()),
                    images@[b as int],
                )
            },
{
    let n = images.len();
    let mut r: Vec<usize> = Vec::new();
    if freqs[a] == 0 {
        return r;
    }
    let va = half_view(&images[a], border_style, d);
    let od = d.opposing();
    proof {
        lemma_dir_view_wf(images@[a as int], border_style, d);
    }
    let mut b: usize = 0;
    while b < n
        invariant
            n == images@.len(),
            n == freqs@.len(),
            a < n,
            b <= n,
            forall|k: int| 0 <= k < images@.len() ==> (#[trigger] images@[k]).wf(),
            freqs@[a as int] > 0,
            va == dir_view(images@[a as int], border_style, d),
            va.wf(),
            od == d.spec_opposing(),
            strictly_sorted(r@),
            all_below(r@, b as int),
            forall|e: usize|
                #[trigger] r@.contains(e) <==> {
                    &&& (e as int) < b
                    &&& freqs@[e as int] > 0
                    &&& views_equal(
                        dir_view(images@[a as int], border_style, d),
                        images@[a as int],
                        dir_view(images@[e as int], border_style, d.spec_opposing()),
                        images@[e as int],
                    )
                },
        decreases n - b,
    {
        if freqs[b] > 0 {
            let vb = half_view(&images[b], border_style, od);
            proof {
                lemma_dir_view_wf(images@[b as int], border_style, od);
            }
            if va.eq_view(&images[a], &vb, &images[b]) {
                let ghost oldr = r@;
                r.push(b);
                proof {
                    assert forall|i: int, j: int| 0 <= i < j < r@.len() implies r@[i] < r@[j] by {
                        if j < r@.len() - 1 {
                            assert(r@[i] == oldr[i] && r@[j] == oldr[j]);
                        } else {
                            assert(r@[j] == b);
                            assert(oldr[i] < b);
                        }
                    }
                    assert forall|e: usize| #[trigger] r@.contains(e) implies (oldr.contains(e) || e
                        == b) by {
                        let k = choose|k: int| 0 <= k < r@.len() && r@[k] == e;
                        if k < oldr.len() {
                            assert(oldr[k] == e);
                        }
                    }
                    assert forall|e: usize| (oldr.contains(e) || e == b) implies #[trigger] r@.contains(
                        e,
                    ) by {
                        if e == b {
                            assert(r@[r@.len() - 1] == b);
                        } else {
                            let k = choose|k: int| 0 <= k < oldr.len() && oldr[k] == e;
                            assert(r@[k] == e);
                        }
                    }
                }
            }
        }
        b += 1;
    }
    r
}

/// Mines the tile set of `img`: one tile per source pixel in row-major
/// order, frequencies counted by pixel-equality dedup (only the first
/// tile of each class keeps a nonzero count), and neighbor lists built
/// by comparing overlapping halves of canonical tiles.
pub fn build_tiles(img: &Bitmap, tile_size: u32, border_style: BorderStyle) -> (tiles: Vec<Tile>)
    requires
        img.wf(),
        img.spec_width() * img.spec_height() <= u32::MAX,
        1 <= tile_size,
        tile_size < 0x10000,
    ensures
        tiles@.len() == img.spec_width() * img.spec_height(),
        tiles_wf(tiles@),
        neighbor_lists_exact(tiles@),
        total_frequency(tiles@) == img.spec_width() * img.spec_height(),
        forall|i: int|
            0 <= i < tiles@.len() ==> {
                &&& (#[trigger] tiles@[i]).border_style == border_style
                &&& image_matches_patch(tiles@[i].image, *img, tile_size, border_style, i)
                &&& tiles@[i].frequency == patch_class_count(
                    *img,
                    tile_size,
                    border_style,
                    i,
                    tiles@.len() as int,
                )
            },
{
    let wi = img.width();
    let hi = img.height();
    let n: usize = (wi as usize) * (hi as usize);

    // extract one owned patch bitmap per source pixel
    let mut images: Vec<Bitmap> = Vec::new();
    let mut t = img.tiles(tile_size, border_style);
    while images.len() < n
        invariant
            img.wf(),
            n == img.spec_width() * img.spec_height(),
            n <= u32::MAX,
            1 <= tile_size,
            tile_size < 0x10000,
            t.tile_size == tile_size,
            t.border_style == border_style,
            t.index == images@.len(),
            images@.len() <= n,
            forall|k: int|
                0 <= k < images@.len() ==> image_matches_patch(
                    #[trigger] images@[k],
                    *img,
                    tile_size,
                    border_style,
                    k,
                ),
        decreases n - images.len(),
    {
        let ghost idx = t.index as int;
        match t.next(img) {
            Some(view) => {
                proof {
                    crate::image_impls::lemma_border_map_in_range(
                        BorderStyle::Looping,
                        0,
                        idx,
                        img.spec_width() as int,
                    );
                    assert(0 <= idx % (img.spec_width() as int) < img.spec_width()) by {
                        vstd::arithmetic::div_mod::lemma_mod_bound(idx, img.spec_width() as int);
                    }
                    assert(view.wf());
                    assert(view.width * view.height < 0x100000000) by (nonlinear_arith)
                        requires
                            view.width == tile_size,
                            view.height == tile_size,
                            tile_size < 0x10000,
                    ;
                    assert(view.width * view.height <= usize::MAX);
                }
                let bm = view.to_image(img);
                images.push(bm);
            },
            None => {},
        }
    }

    // dedup by value: each patch credits its first pixel-equal occurrence
    let mut freqs: Vec<u32> = Vec::new();
    while freqs.len() < n
        invariant
            freqs@.len() <= n,
            sum32(freqs@) == 0,
            forall|i: int| 0 <= i < freqs@.len() ==> freqs@[i] == 0,
        decreases n - freqs.len(),
    {
        proof {
            lemma_sum32_push(freqs@, 0u32, 0);
        }
        freqs.push(0);
    }
    proof {
        assert forall|i: int| 0 <= i < n implies freqs@[i] == patch_class_count(
            *img,
            tile_size,
            border_style,
            i,
            0,
        ) by {}
    }
    let mut j: usize = 0;
    while j < n
        invariant
            img.wf(),
            n == img.spec_width() * img.spec_height(),
            n <= u32::MAX,
            1 <= tile_size,
            j <= n,
            images@.len() == n,
            freqs@.len() == n,
            forall|k: int|
                0 <= k < images@.len() ==> image_matches_patch(
                    #[trigger] images@[k],
                    *img,
                    tile_size,
                    border_style,
                    k,
                ),
            sum32(freqs@) == j,
            forall|i: int|
                0 <= i < n ==> freqs@[i] == patch_class_count(
                    *img,
                    tile_size,
                    border_style,
                    i,
                    j as int,
                ),
        decreases n - j,
    {
        let c = find_first_equal(&images, img, tile_size, border_style, j);
        proof {
            lemma_sum32_element(freqs@, c as int);
        }
        let ghost oldf = freqs@;
        let newv = freqs[c] + 1;
        freqs.set(c, newv);
        proof {
            lemma_sum32_update(oldf, c as int, newv, 0);
            assert forall|i: int| 0 <= i < n implies freqs@[i] == patch_class_count(
                *img,
                tile_size,
                border_style,
                i,
                j as int + 1,
            ) by {
                assert(patch_class_count(*img, tile_size, border_style, i, j as int + 1)
                    == patch_class_count(*img, tile_size, border_style, i, j as int) + if patch_canon(
                    *img,
                    tile_size,
                    border_style,
                    j as int,
                ) == i {
                    1int
                } else {
                    0int
                });
            }
        }
        j += 1;
    }

    // assemble the tiles, each with its four neighbor lists
    let mut tiles: Vec<Tile> = Vec::new();
    let mut a: usize = 0;
    while a < n
        invariant
            img.wf(),
            n == img.spec_width() * img.spec_height(),
            n <= u32::MAX,
            1 <= tile_size,
            a <= n,
            images@.len() == n,
            freqs@.len() == n,
            sum32(freqs@) == n,
            forall|k: int|
                0 <= k < images@.len() ==> image_matches_patch(
                    #[trigger] images@[k],
                    *img,
                    tile_size,
                    border_style,
                    k,
                ),
            forall|i: int|
                0 <= i < n ==> freqs@[i] == patch_class_count(
                    *img,
                    tile_size,
                    border_style,
                    i,
                    n as int,
                ),
            tiles@.len() == a,
            total_frequency(tiles@) + sum32_from(freqs@, a as int) == n,
            forall|i: int|
                0 <= i < a ==> {
                    &&& (#[trigger] tiles@[i]).border_style == border_style
                    &&& tiles@[i].frequency == freqs@[i]
                    &&& image_matches_patch(tiles@[i].image, *img, tile_size, border_style, i)
                },
            forall|i: int, d: Direction|
                0 <= i < a ==> strictly_sorted(#[trigger] tiles@[i].neighbors.spec_get(d)@),
            forall|i: int, d: Direction|
                0 <= i < a ==> all_below(#[trigger] tiles@[i].neighbors.spec_get(d)@, n as int),
            forall|i: int, d: Direction, b: usize|
                0 <= i < a ==> (#[trigger] tiles@[i].neighbors.spec_get(d)@.contains(b) <==> {
                    &&& (b as int) < n
                    &&& freqs@[i] > 0
                    &&& freqs@[b as int] > 0
                    &&& views_equal(
                        dir_view(images@[i], border_style, d),
                        images@[i],
                        dir_view(images@[b as int], border_style, d.spec_opposing()),
                        images@[b as int],
                    )
                }),
        decreases n - a,
    {
        let up = neighbor_list(&images, &freqs, border_style, a, Direction::Up);
        let down = neighbor_list(&images, &freqs, border_style, a, Direction::Down);
        let left = neighbor_list(&images, &freqs, border_style, a, Direction::Left);
        let right = neighbor_list(&images, &freqs, border_style, a, Direction::Right);
        let image = images[a].duplicate();
        let ghost oldt = tiles@;
        let tile = Tile {
            image,
            neighbors: Directions { up, down, left, right },
            frequency: freqs[a],
            border_style,
        };
        tiles.push(tile);
        proof {
            lemma_tile_freq_push(oldt, tile, 0);
            assert(sum32_from(freqs@, a as int) == freqs@[a as int] + sum32_from(
                freqs@,
                a as int + 1,
            ));
            // the duplicated bitmap still matches the patch, pixel for pixel
            assert(image_matches_patch(tile.image, *img, tile_size, border_style, a as int));
            // the four lists are exactly the ones `neighbor_list` promises
            assert forall|d: Direction, b: usize| true implies (
                #[trigger] tiles@[a as int].neighbors.spec_get(d)@.contains(b) <==> {
                    &&& (b as int) < n
                    &&& freqs@[a as int] > 0
                    &&& freqs@[b as int] > 0
                    &&& views_equal(
                        dir_view(images@[a as int], border_style, d),
                        images@[a as int],
                        dir_view(images@[b as int], border_style, d.spec_opposing()),
                        images@[b as int],
                    )
                }) by {
                assert(tiles@[a as int].neighbors.spec_get(d) == match d {
                    Direction::Up => tile.neighbors.up,
                    Direction::Down => tile.neighbors.down,
                    Direction::Left => tile.neighbors.left,
                    Direction::Right => tile.neighbors.right,
                });
            }
        }
        a += 1;
    }
    proof {
        // every tile's bitmap is pixel-equal to the extracted patch bitmap
        assert forall|i: int|
            0 <= i < n implies bitmaps_equal((#[trigger] tiles@[i]).image, images@[i]) by {
            lemma_materialized_patches_equal(
                tiles@[i].image,
                images@[i],
                *img,
                tile_size,
                border_style,
                i,
                i,
            );
            crate::image_impls::lemma_views_equal_reflexive(
                patch_view(*img, tile_size, border_style, i),
                *img,
            );
        }
        // so the half-comparison over the tiles agrees with the one over
        // the extracted patches, and the neighbor lists are exact
        assert forall|a2: int, d: Direction, b: usize|
            0 <= a2 < tiles@.len() implies (#[trigger] tiles@[a2].neighbors.spec_get(
            d,
        )@.contains(b) <==> {
            &&& (b as int) < tiles@.len()
            &&& tiles@[a2].frequency > 0
            &&& tiles@[b as int].frequency > 0
            &&& halves_match(tiles@[a2], tiles@[b as int], d)
        }) by {
            if (b as int) < tiles@.len() {
                lemma_views_equal_congruent(
                    dir_view(images@[a2], border_style, d),
                    images@[a2],
                    tiles@[a2].image,
                    dir_view(images@[b as int], border_style, d.spec_opposing()),
                    images@[b as int],
                    tiles@[b as int].image,
                );
                assert(dir_view(tiles@[a2].image, tiles@[a2].border_style, d) == dir_view(
                    images@[a2],
                    border_style,
                    d,
                ));
                assert(dir_view(
                    tiles@[b as int].image,
                    tiles@[b as int].border_style,
                    d.spec_opposing(),
                ) == dir_view(images@[b as int], border_style, d.spec_opposing()));
                crate::bitmap::lemma_bitmaps_equal_symmetric(tiles@[a2].image, images@[a2]);
                crate::bitmap::lemma_bitmaps_equal_symmetric(
                    tiles@[b as int].image,
                    images@[b as int],
                );
            }
        }
    }
    tiles
}

/// Exact neighbor lists are symmetric, because the half comparison is.
pub proof fn lemma_adjacency_symmetric(tiles: Seq<Tile>)
    requires
        neighbor_lists_exact(tiles),
    ensures
        adjacency_symmetric(tiles),
{
    assert forall|i: usize, j: usize, d: Direction|
        (i as int) < tiles.len() && (j as int) < tiles.len() implies (#[trigger] tiles[i as int].neighbors.spec_get(
        d,
    )@.contains(j) <==> tiles[j as int].neighbors.spec_get(d.spec_opposing())@.contains(i)) by {
        lemma_halves_match_symmetric(tiles[i as int], tiles[j as int], d);
        assert(d.spec_opposing().spec_opposing() == d);
    }
}

} // verus!
