//! A whole solving session: the mined tile set, the grid, and the
//! tick that drives observation, repetition and restarts.

use vstd::prelude::*;
use crate::bitmap::Bitmap;
use crate::image_impls::BorderStyle;
use crate::tile::{
    Tile, build_tiles, tiles_wf, neighbor_lists_exact, adjacency_symmetric, total_frequency,
    lemma_adjacency_symmetric, lemma_patch_class_count_mono, patch_class_count, patch_canon,
};
use crate::grid::Grid;
use crate::grid::cell::Exhausted;
use rand::rngs::StdRng;

verus! {

/// Why a session could not be set up.
#[derive(Clone, Copy, PartialEq, Eq, Structural, Debug)]
pub enum SessionError {
    /// The tile size is even; tiles must have a center pixel.
    EvenTileSize,
    /// A zero output dimension was requested.
    ZeroDimension,
}

/// What one driver tick did.
#[derive(Clone, Copy, PartialEq, Eq, Structural, Debug)]
pub enum TickOutcome {
    /// One observation step ran; uncollapsed cells remain.
    Stepped,
    /// The grid is fully collapsed; in repeat mode it was immediately
    /// reset for the next run.
    Finished,
    /// Propagation exhausted a cell; the grid restarted with the
    /// attempt counter raised.
    Restarted,
    /// The session had already finished.
    Idle,
}

/// A solving session: the tile set mined from the source, the grid,
/// and the driver flags.
#[derive(Debug)]
pub struct Session {
    pub tiles: Vec<Tile>,
    pub grid: Grid,
    pub collapsing: bool,
    pub repeating: bool,
}

impl Session {
    pub open spec fn wf(self) -> bool {
        self.grid.wf(self.tiles@)
    }

    /// Mines the tile set of `image` with the given tile size and
    /// border policy, and prepares a fresh grid whose every cell may
    /// hold any canonical tile. Rejects an even tile size and a zero
    /// output dimension.
    pub fn new(
        image: &Bitmap,
        tile_size: u32,
        border_style: BorderStyle,
        width: usize,
        height: usize,
        max_depth: usize,
        repeating: bool,
    ) -> (r: Result<Session, SessionError>)
        requires
            image.wf(),
            image.spec_width() * image.spec_height() <= u32::MAX,
            1 <= tile_size,
            tile_size < 0x10000,
            width * height <= usize::MAX,
            width + height < usize::MAX,
        ensures
            match r {
                Ok(s) => {
                    &&& tile_size % 2 == 1
                    &&& width >= 1
                    &&& height >= 1
                    &&& s.wf()
                    &&& s.grid.width == width
                    &&& s.grid.height == height
                    &&& s.grid.attempts == 0
                    &&& s.grid.initial_max_depth == max_depth
                    &&& s.repeating == repeating
                    &&& s.collapsing
                    &&& s.tiles@.len() == image.spec_width() * image.spec_height()
                    &&& neighbor_lists_exact(s.tiles@)
                    &&& adjacency_symmetric(s.tiles@)
                    &&& total_frequency(s.tiles@) == image.spec_width() * image.spec_height()
                    &&& forall|o: usize|
                        #[trigger] s.grid.options@.contains(o) <==> ((o as int) < s.tiles@.len()
                            && s.tiles@[o as int].frequency > 0)
                    &&& forall|i: int|
                        0 <= i < s.grid.buf@.len() ==> (#[trigger] s.grid.buf@[i]).options@
                            == s.grid.options@
                },
                Err(e) => {
                    &&& (e == SessionError::EvenTileSize <==> tile_size % 2 == 0)
                    &&& (e == SessionError::ZeroDimension <==> (tile_size % 2 == 1 && (width == 0
                        || height == 0)))
                },
            },
    {
        if tile_size % 2 == 0 {
            return Err(SessionError::EvenTileSize);
        }
        if width == 0 || height == 0 {
            return Err(SessionError::ZeroDimension);
        }
        let tiles = build_tiles(image, tile_size, border_style);
        let nt = tiles.len();
        let mut options: Vec<usize> = Vec::new();
        let mut o: usize = 0;
        while o < nt
            invariant
                nt == tiles@.len(),
                o <= nt,
                crate::sortedvec::strictly_sorted(options@),
                crate::sortedvec::all_below(options@, nt as int),
                forall|m: int|
                    0 <= m < options@.len() ==> (#[trigger] options@[m]) < o,
                forall|e: usize|
                    #[trigger] options@.contains(e) <==> ((e as int) < o && tiles@[e as int].frequency
                        > 0),
            decreases nt - o,
        {
            if tiles[o].frequency > 0 {
                let ghost oldo = options@;
                options.push(o);
                proof {
                    assert forall|i: int, j: int|
                        0 <= i < j < options@.len() implies options@[i] < options@[j] by {
                        if j < options@.len() - 1 {
                            assert(options@[i] == oldo[i] && options@[j] == oldo[j]);
                        } else {
                            assert(options@[j] == o && oldo[i] < o);
                        }
                    }
                    assert forall|e: usize| #[trigger] options@.contains(e) implies ((e as int) < o
                        + 1 && tiles@[e as int].frequency > 0) by {
                        let m = choose|m: int| 0 <= m < options@.len() && options@[m] == e;
                        if m < oldo.len() {
                            assert(oldo.contains(e));
                        }
                    }
                    assert forall|e: usize|
                        ((e as int) < o + 1 && tiles@[e as int].frequency > 0) implies #[trigger] options@.contains(
                        e,
                    ) by {
                        if (e as int) < o {
                            assert(oldo.contains(e));
                            let m = choose|m: int| 0 <= m < oldo.len() && oldo[m] == e;
                            assert(options@[m] == e);
                        } else {
                            assert(e == o);
                            assert(options@[options@.len() - 1] == o);
                        }
                    }
                }
            }
            o += 1;
        }
        proof {
            // the very first patch is its own canonical representative,
            // so at least one tile keeps a nonzero frequency
            assert((image.spec_width() as int) * (image.spec_height() as int) >= 1)
                by (nonlinear_arith)
                requires
                    image.spec_width() >= 1,
                    image.spec_height() >= 1,
            ;
            assert(nt >= 1);
            assert(patch_canon(*image, tile_size, border_style, 0) == 0);
            assert(patch_class_count(*image, tile_size, border_style, 0, 0) == 0);
            assert(patch_class_count(*image, tile_size, border_style, 0, 1) == 1);
            lemma_patch_class_count_mono(*image, tile_size, border_style, 0, 1, nt as int);
            assert(tiles@[0].frequency > 0);
            assert(options@.contains(0usize));
            assert(options@.len() >= 1) by {
                let m = choose|m: int| 0 <= m < options@.len() && options@[m] == 0usize;
            }
        }
        let ghost opts_v = options@;
        proof {
            // each listed option names a tile with a nonzero frequency
            assert forall|k: int|
                0 <= k < opts_v.len() implies tiles@[(#[trigger] opts_v[k]) as int].frequency
                    >= 1 by {
                assert(opts_v.contains(opts_v[k]));
            }
        }
        let grid = match Grid::new(width, height, options, max_depth) {
            Ok(g) => g,
            Err(_) => {
                proof {
                    assert(false);
                }
                return Err(SessionError::ZeroDimension);
            },
        };
        proof {
            lemma_adjacency_symmetric(tiles@);
            assert(grid.options@ == opts_v);
            assert forall|i: int|
                0 <= i < grid.buf@.len() implies (#[trigger] grid.buf@[i]).wf(tiles@.len() as int)
                    && grid.buf@[i].options_canonical(tiles@) by {
                assert(grid.buf@[i].options@ == opts_v);
            }
        }
        Ok(Session { tiles, grid, collapsing: true, repeating })
    }

    /// One driver tick. While collapsing, runs one observation step;
    /// on completion either stops (writing is the caller's business)
    /// or, in repeat mode, resets for the next run without raising the
    /// attempt counter; on exhaustion restarts with the counter
    /// raised, which widens propagation.
    pub fn tick(&mut self, rng: &mut StdRng) -> (o: TickOutcome)
        requires
            old(self).wf(),
            old(self).grid.attempts < u32::MAX,
        ensures
            final(self).wf(),
            final(self).tiles@ == old(self).tiles@,
            final(self).repeating == old(self).repeating,
            final(self).grid.width == old(self).grid.width,
            final(self).grid.height == old(self).grid.height,
            final(self).grid.options@ == old(self).grid.options@,
            final(self).grid.initial_max_depth == old(self).grid.initial_max_depth,
            final(self).grid.buf@.len() == old(self).grid.buf@.len(),
            final(self).grid.attempts <= old(self).grid.attempts + 1,
            (o == TickOutcome::Idle) <==> !old(self).collapsing,
            // a live session whose grid is fully collapsed always
            // finishes: nothing is left to draw, so nothing can fail
            old(self).collapsing && old(self).grid.all_collapsed() ==> o
                == TickOutcome::Finished,
            match o {
                TickOutcome::Idle => *final(self) == *old(self),
                TickOutcome::Stepped => {
                    &&& final(self).collapsing
                    &&& final(self).grid.attempts == old(self).grid.attempts
                    &&& forall|i: int|
                        0 <= i < final(self).grid.buf@.len() ==> crate::sortedvec::subset_of(
                            (#[trigger] final(self).grid.buf@[i]).options@,
                            old(self).grid.buf@[i].options@,
                        )
                    &&& !final(self).grid.all_collapsed()
                    &&& crate::grid::observation_recorded(
                        old(self).grid,
                        final(self).grid,
                        old(self).tiles@,
                        true,
                    )
                    &&& crate::grid::newly_collapsed_consistent(
                        old(self).grid,
                        final(self).grid,
                        old(self).tiles@,
                    )
                },
                TickOutcome::Finished => {
                    &&& final(self).grid.attempts == old(self).grid.attempts
                    &&& (old(self).repeating ==> final(self).collapsing && forall|i: int|
                        0 <= i < final(self).grid.buf@.len() ==> (
                        #[trigger] final(self).grid.buf@[i]).options@ == old(self).grid.options@)
                    &&& (!old(self).repeating ==> !final(self).collapsing
                        && final(self).grid.all_collapsed())
                },
                TickOutcome::Restarted => {
                    &&& final(self).collapsing
                    &&& final(self).grid.attempts == old(self).grid.attempts + 1
                    &&& forall|i: int|
                        0 <= i < final(self).grid.buf@.len() ==> (
                        #[trigger] final(self).grid.buf@[i]).options@ == old(self).grid.options@
                },
            },
    {
        if !self.collapsing {
            return TickOutcome::Idle;
        }
        let res = self.grid.collapse(self.tiles.as_slice(), rng);
        match res {
            Ok(true) => TickOutcome::Stepped,
            Ok(false) => {
                if self.repeating {
                    self.grid.regenerate(false);
                    proof {
                        self.lemma_reset_wf(old(self).grid, *old(self));
                    }
                } else {
                    self.collapsing = false;
                }
                TickOutcome::Finished
            },
            Err(Exhausted) => {
                self.grid.regenerate(true);
                proof {
                    self.lemma_reset_wf(old(self).grid, *old(self));
                }
                TickOutcome::Restarted
            },
        }
    }

    /// After a reset, every cell holds the initial option set again,
    /// so the session stays well-formed.
    proof fn lemma_reset_wf(self, pre: Grid, pres: Session)
        requires
            pres.wf(),
            pres.grid == pre,
            self.tiles@ == pres.tiles@,
            self.grid.width == pre.width,
            self.grid.height == pre.height,
            self.grid.options@ == pre.options@,
            self.grid.width * self.grid.height <= usize::MAX,
            self.grid.width * self.grid.height == self.grid.buf@.len(),
            self.grid.width + self.grid.height < usize::MAX,
            forall|i: int|
                0 <= i < self.grid.buf@.len() ==> (#[trigger] self.grid.buf@[i]).options@
                    == pre.options@,
        ensures
            self.wf(),
    {
        assert forall|i: int|
            0 <= i < self.grid.buf@.len() implies (#[trigger] self.grid.buf@[i]).wf(
            self.tiles@.len() as int,
        ) && self.grid.buf@[i].options_canonical(self.tiles@) by {
            assert(self.grid.buf@[i].options@ == pre.options@);
        }
    }
}

} // verus!
