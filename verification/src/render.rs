//! The renderer: materializes a grid to a bitmap, one pixel per cell.
//! A collapsed cell shows the center pixel of its tile; a still-open
//! cell shows the frequency-weighted mean of its options' center
//! pixels; a cell with nothing left shows a distinctive conflict color.

use vstd::prelude::*;
use vstd::arithmetic::div_mod::{lemma_div_is_ordered, lemma_div_multiples_vanish};
use crate::bitmap::{Bitmap, Rgb};
use crate::grid::Grid;
use crate::grid::cell::Cell;
use crate::tile::{Tile, tiles_wf, freq_sum_of, lemma_freq_sum_subset, lemma_freq_sum_nonneg};
use crate::sortedvec::{strictly_sorted, all_below};

verus! {

/// The color of a cell whose options have run out.
pub open spec fn spec_conflict_color() -> Rgb {
    Rgb { r: 255, g: 0, b: 100 }
}

pub fn conflict_color() -> (c: Rgb)
    ensures
        c == spec_conflict_color(),
{
    Rgb { r: 255, g: 0, b: 100 }
}

/// The center pixel of a tile's bitmap.
pub open spec fn center_pixel(t: Tile) -> Rgb {
    t.image.pixel((t.image.spec_width() / 2) as int, (t.image.spec_height() / 2) as int)
}

/// The frequency-weighted sum of one channel of the center pixels of
/// the tiles named by `opts`; `chan` selects the channel (0 red,
/// 1 green, otherwise blue).
pub open spec fn channel_sum(opts: Seq<usize>, tiles: Seq<Tile>, chan: int) -> int
    decreases opts.len(),
{
    if opts.len() == 0 {
        0
    } else {
        let t = tiles[opts[0] as int];
        let p = center_pixel(t);
        let v: int = if chan == 0 {
            p.r as int
        } else if chan == 1 {
            p.g as int
        } else {
            p.b as int
        };
        t.frequency * v + channel_sum(opts.drop_first(), tiles, chan)
    }
}

proof fn lemma_channel_sum_bound(opts: Seq<usize>, tiles: Seq<Tile>, chan: int)
    ensures
        0 <= channel_sum(opts, tiles, chan) <= 255 * freq_sum_of(opts, tiles),
    decreases opts.len(),
{
    if opts.len() > 0 {
        lemma_channel_sum_bound(opts.drop_first(), tiles, chan);
        let t = tiles[opts[0] as int];
        let p = center_pixel(t);
        let v: int = if chan == 0 {
            p.r as int
        } else if chan == 1 {
            p.g as int
        } else {
            p.b as int
        };
        assert(0 <= t.frequency * v <= 255 * (t.frequency as int)) by (nonlinear_arith)
            requires
                0 <= v <= 255,
                0 <= t.frequency,
        ;
    }
}

/// What the renderer paints for one cell.
pub open spec fn cell_color(c: Cell, tiles: Seq<Tile>) -> Rgb {
    if c.options@.len() == 0 {
        spec_conflict_color()
    } else {
        let tot = freq_sum_of(c.options@, tiles);
        if tot <= 0 {
            spec_conflict_color()
        } else {
            Rgb {
                r: (channel_sum(c.options@, tiles, 0) / tot) as u8,
                g: (channel_sum(c.options@, tiles, 1) / tot) as u8,
                b: (channel_sum(c.options@, tiles, 2) / tot) as u8,
            }
        }
    }
}

/// A collapsed cell renders as exactly the center pixel of its tile.
pub proof fn lemma_collapsed_cell_color(c: Cell, tiles: Seq<Tile>)
    requires
        c.options@.len() == 1,
        0 <= c.options@[0] < tiles.len(),
        tiles[c.options@[0] as int].frequency >= 1,
    ensures
        cell_color(c, tiles) == center_pixel(tiles[c.options@[0] as int]),
{
    let t = tiles[c.options@[0] as int];
    let f = t.frequency as int;
    let p = center_pixel(t);
    assert(c.options@.drop_first() =~= Seq::<usize>::empty());
    assert(freq_sum_of(Seq::<usize>::empty(), tiles) == 0);
    assert(channel_sum(Seq::<usize>::empty(), tiles, 0) == 0);
    assert(channel_sum(Seq::<usize>::empty(), tiles, 1) == 0);
    assert(channel_sum(Seq::<usize>::empty(), tiles, 2) == 0);
    assert(freq_sum_of(c.options@, tiles) == f);
    assert(channel_sum(c.options@, tiles, 0) == f * (p.r as int));
    assert(channel_sum(c.options@, tiles, 1) == f * (p.g as int));
    assert(channel_sum(c.options@, tiles, 2) == f * (p.b as int));
    lemma_div_multiples_vanish(p.r as int, f);
    lemma_div_multiples_vanish(p.g as int, f);
    lemma_div_multiples_vanish(p.b as int, f);
}

/// Paints one cell.
pub fn render_cell(c: &Cell, tiles: &[Tile]) -> (p: Rgb)
    requires
        strictly_sorted(c.options@),
        all_below(c.options@, tiles@.len() as int),
        tiles_wf(tiles@),
    ensures
        p == cell_color(*c, tiles@),
{
    let m = c.options.len();
    if m == 0 {
        return conflict_color();
    }
    proof {
        lemma_freq_sum_subset(c.options@, tiles@, 0);
        assert(c.options@.subrange(0, m as int) =~= c.options@);
    }
    let mut tot: u64 = 0;
    let mut rs: u64 = 0;
    let mut gs: u64 = 0;
    let mut bs: u64 = 0;
    let mut idx: usize = 0;
    while idx < m
        invariant
            m == c.options@.len(),
            idx <= m,
            strictly_sorted(c.options@),
            all_below(c.options@, tiles@.len() as int),
            tiles_wf(tiles@),
            tot + freq_sum_of(c.options@.subrange(idx as int, m as int), tiles@) == freq_sum_of(
                c.options@,
                tiles@,
            ),
            rs + channel_sum(c.options@.subrange(idx as int, m as int), tiles@, 0) == channel_sum(
                c.options@,
                tiles@,
                0,
            ),
            gs + channel_sum(c.options@.subrange(idx as int, m as int), tiles@, 1) == channel_sum(
                c.options@,
                tiles@,
                1,
            ),
            bs + channel_sum(c.options@.subrange(idx as int, m as int), tiles@, 2) == channel_sum(
                c.options@,
                tiles@,
                2,
            ),
            freq_sum_of(c.options@, tiles@) <= u32::MAX,
            rs <= 255 * tot,
            gs <= 255 * tot,
            bs <= 255 * tot,
            tot <= u32::MAX,
        decreases m - idx,
    {
        let ghost suf = c.options@.subrange(idx as int, m as int);
        let ghost suf2 = c.options@.subrange(idx as int + 1, m as int);
        let o = c.options[idx];
        proof {
            assert(suf[0] == c.options@[idx as int]);
            assert(suf.drop_first() =~= suf2);
            lemma_freq_sum_nonneg(suf2, tiles@);
            lemma_channel_sum_bound(suf2, tiles@, 0);
            lemma_channel_sum_bound(suf2, tiles@, 1);
            lemma_channel_sum_bound(suf2, tiles@, 2);
        }
        let tile = &tiles[o];
        let f: u32 = tile.frequency;
        let cw = tile.image.width();
        let ch = tile.image.height();
        let p = tile.image.get_pixel(cw / 2, ch / 2);
        proof {
            assert(p == center_pixel(tiles@[o as int]));
            assert((f as int) * (p.r as int) <= 255 * (f as int)) by (nonlinear_arith)
                requires
                    p.r <= 255,
                    0 <= f,
            ;
            assert((f as int) * (p.g as int) <= 255 * (f as int)) by (nonlinear_arith)
                requires
                    p.g <= 255,
                    0 <= f,
            ;
            assert((f as int) * (p.b as int) <= 255 * (f as int)) by (nonlinear_arith)
                requires
                    p.b <= 255,
                    0 <= f,
            ;
            assert(0 <= (f as int) * (p.r as int)) by (nonlinear_arith)
                requires
                    0 <= f,
                    0 <= p.r,
            ;
            assert(0 <= (f as int) * (p.g as int)) by (nonlinear_arith)
                requires
                    0 <= f,
                    0 <= p.g,
            ;
            assert(0 <= (f as int) * (p.b as int)) by (nonlinear_arith)
                requires
                    0 <= f,
                    0 <= p.b,
            ;
        }
        tot = tot + (f as u64);
        rs = rs + (f as u64) * (p.r as u64);
        gs = gs + (f as u64) * (p.g as u64);
        bs = bs + (f as u64) * (p.b as u64);
        idx += 1;
    }
    proof {
        assert(c.options@.subrange(m as int, m as int) =~= Seq::<usize>::empty());
    }
    if tot == 0 {
        return conflict_color();
    }
    proof {
        lemma_div_is_ordered(rs as int, 255 * (tot as int), tot as int);
        lemma_div_is_ordered(gs as int, 255 * (tot as int), tot as int);
        lemma_div_is_ordered(bs as int, 255 * (tot as int), tot as int);
        lemma_div_multiples_vanish(255, tot as int);
    }
    let r8 = (rs / tot) as u8;
    let g8 = (gs / tot) as u8;
    let b8 = (bs / tot) as u8;
    Rgb { r: r8, g: g8, b: b8 }
}

/// Materializes the grid: pixel `(x, y)` of the output is the color
/// of cell `(x, y)`.
pub fn render(grid: &Grid, tiles: &[Tile]) -> (out: Bitmap)
    requires
        grid.wf(tiles@),
        grid.width <= u32::MAX,
        grid.height <= u32::MAX,
    ensures
        out.wf(),
        out.spec_width() as int == grid.width as int,
        out.spec_height() as int == grid.height as int,
        forall|x: int, y: int|
            0 <= x < grid.width && 0 <= y < grid.height ==> out.pixel(x, y) == cell_color(
                grid.buf@[y * grid.width + x],
                tiles@,
            ),
{
    let w: u32 = grid.width() as u32;
    let h: u32 = grid.height() as u32;
    let mut out = Bitmap::new(w, h, conflict_color());
    let mut y: u32 = 0;
    while y < h
        invariant
            grid.wf(tiles@),
            w as int == grid.width as int,
            h as int == grid.height as int,
            out.wf(),
            out.spec_width() == w,
            out.spec_height() == h,
            y <= h,
            forall|x2: int, y2: int|
                0 <= x2 < w && 0 <= y2 < y ==> out.pixel(x2, y2) == cell_color(
                    grid.buf@[y2 * grid.width + x2],
                    tiles@,
                ),
        decreases h - y,
    {
        let mut x: u32 = 0;
        while x < w
            invariant
                grid.wf(tiles@),
                w as int == grid.width as int,
                h as int == grid.height as int,
                out.wf(),
                out.spec_width() == w,
                out.spec_height() == h,
                y < h,
                x <= w,
                forall|x2: int, y2: int|
                    0 <= x2 < w && 0 <= y2 < y ==> out.pixel(x2, y2) == cell_color(
                        grid.buf@[y2 * grid.width + x2],
                        tiles@,
                    ),
                forall|x2: int|
                    0 <= x2 < x ==> out.pixel(x2, y as int) == cell_color(
                        grid.buf@[y * grid.width + x2],
                        tiles@,
                    ),
            decreases w - x,
        {
            proof {
                assert((y as int) * (grid.width as int) + (x as int) < (grid.width as int) * (
                grid.height as int)) by (nonlinear_arith)
                    requires
                        (x as int) < grid.width as int,
                        (y as int) < grid.height as int,
                ;
            }
            let gi: usize = (y as usize) * grid.width() + (x as usize);
            let p = render_cell(&grid.buf[gi], tiles);
            out.set_pixel(x, y, p);
            x += 1;
        }
        y += 1;
    }
    out
}

} // verus!
