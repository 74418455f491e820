//! A grid cell: the set of tile indices still possible at one
//! position, with intersection-update and the entropy query.

use vstd::prelude::*;
use crate::tile::{Tile, freq_sum_of, tiles_wf, lemma_freq_sum_subset, lemma_freq_sum_nonneg};
use crate::entropy::{
    EntropyKey, key_bounds, key_exact, spec_entropy_key, slg_sum_of, lg_fixed,
    lemma_spec_lg_bound, lemma_slg_sum_nonneg,
};
use crate::sortedvec::{strictly_sorted, all_below, intersect_sorted};

verus! {

/// Propagation emptied a cell's options; the caller must regenerate
/// the grid before stepping again.
#[derive(Clone, Copy, PartialEq, Eq, Structural, Debug)]
pub struct Exhausted;

/// A grid position holding the tile indices that could still occupy it.
#[derive(Debug)]
pub struct Cell {
    pub options: Vec<usize>,
}

impl Cell {
    /// Valid against a tile list of length `n_tiles`: a sorted,
    /// in-range, nonempty option set.
    pub open spec fn wf(self, n_tiles: int) -> bool {
        &&& strictly_sorted(self.options@)
        &&& all_below(self.options@, n_tiles)
        &&& self.options@.len() >= 1
    }

    /// Every option names a tile that occurs in the source.
    pub open spec fn options_canonical(self, tiles: Seq<Tile>) -> bool {
        forall|k: int|
            0 <= k < self.options@.len() ==> tiles[#[trigger] self.options@[k] as int].frequency
                >= 1
    }

    /// Collapsed: exactly one possibility left.
    pub open spec fn spec_is_collapsed(self) -> bool {
        self.options@.len() == 1
    }

    pub fn new(options: Vec<usize>) -> (c: Cell)
        ensures
            c.options@ == options@,
    {
        Cell { options }
    }

    pub fn is_collapsed(&self) -> (b: bool)
        ensures
            b == self.spec_is_collapsed(),
    {
        self.options.len() == 1
    }

    /// Replaces the options with their intersection with `available`.
    /// Fails with `Exhausted`, leaving the cell unchanged, exactly
    /// when the intersection is empty.
    pub fn update_options(&mut self, available: &Vec<usize>) -> (r: Result<(), Exhausted>)
        requires
            strictly_sorted(old(self).options@),
        ensures
            match r {
                Ok(()) => {
                    &&& forall|e: usize|
                        #[trigger] final(self).options@.contains(e) <==> (old(
                            self,
                        ).options@.contains(e) && available@.contains(e))
                    &&& strictly_sorted(final(self).options@)
                    &&& final(self).options@.len() >= 1
                    &&& final(self).options@.len() <= old(self).options@.len()
                },
                Err(_) => {
                    &&& final(self).options@ == old(self).options@
                    &&& forall|e: usize|
                        !(old(self).options@.contains(e) && #[trigger] available@.contains(e))
                },
            },
    {
        let inter = intersect_sorted(&self.options, available);
        if inter.len() == 0 {
            proof {
                assert forall|e: usize|
                    !(self.options@.contains(e) && #[trigger] available@.contains(e)) by {
                    if self.options@.contains(e) && available@.contains(e) {
                        assert(inter@.contains(e));
                        assert(inter@.len() > 0);
                    }
                }
            }
            Err(Exhausted)
        } else {
            self.options = inter;
            Ok(())
        }
    }

    /// The Shannon-entropy comparison key of this cell's options,
    /// over the frequency distribution of its remaining tiles.
    pub fn calculate_entropy(&self, tiles: &[Tile]) -> (key: EntropyKey)
        requires
            self.wf(tiles@.len() as int),
            self.options_canonical(tiles@),
            tiles_wf(tiles@),
        ensures
            key_exact(key, self.options@, tiles@),
            key_bounds(key),
            key == spec_entropy_key(self.options@, tiles@),
    {
        let m = self.options.len();
        let mut t: u64 = 0;
        let mut s: u64 = 0;
        let mut idx: usize = 0;
        proof {
            assert(self.options@.subrange(0, m as int) =~= self.options@);
            lemma_freq_sum_subset(self.options@, tiles@, 0);
        }
        while idx < m
            invariant
                m == self.options@.len(),
                idx <= m,
                self.wf(tiles@.len() as int),
                self.options_canonical(tiles@),
                tiles_wf(tiles@),
                t + freq_sum_of(self.options@.subrange(idx as int, m as int), tiles@)
                    == freq_sum_of(self.options@, tiles@),
                s + slg_sum_of(self.options@.subrange(idx as int, m as int), tiles@) == slg_sum_of(
                    self.options@,
                    tiles@,
                ),
                freq_sum_of(self.options@, tiles@) <= u32::MAX,
                s <= t * 0x200000,
                t >= 0,
            decreases m - idx,
        {
            let ghost suf = self.options@.subrange(idx as int, m as int);
            let ghost suf2 = self.options@.subrange(idx as int + 1, m as int);
            let o = self.options[idx];
            proof {
                assert(suf.len() > 0);
                assert(suf[0] == self.options@[idx as int]);
                assert(suf.drop_first() =~= suf2);
                lemma_freq_sum_nonneg(suf2, tiles@);
                lemma_slg_sum_nonneg(suf2, tiles@);
                assert(tiles@[o as int].frequency >= 1);
            }
            let f: u32 = tiles[o].frequency;
            proof {
                lemma_spec_lg_bound(f as int);
            }
            let lf = lg_fixed(f as u64);
            proof {
                assert((f as u64) * lf < 0x100000000 * 0x200000) by (nonlinear_arith)
                    requires
                        f < 0x100000000,
                        lf < 0x200000,
                ;
                assert(s + (f as u64) * lf <= (t + f) * 0x200000) by (nonlinear_arith)
                    requires
                        s <= t * 0x200000,
                        lf < 0x200000,
                        0 <= f,
                        0 <= t,
                ;
            }
            t = t + (f as u64);
            s = s + (f as u64) * lf;
            idx += 1;
        }
        proof {
            assert(self.options@.subrange(m as int, m as int) =~= Seq::<usize>::empty());
            assert(freq_sum_of(Seq::<usize>::empty(), tiles@) == 0);
            assert(slg_sum_of(Seq::<usize>::empty(), tiles@) == 0);
            // the total is at least the first option's frequency
            assert(freq_sum_of(self.options@, tiles@) >= 1) by {
                lemma_freq_sum_nonneg(self.options@.drop_first(), tiles@);
                assert(tiles@[self.options@[0] as int].frequency >= 1);
            }
            lemma_spec_lg_bound(t as int);
        }
        let lt = lg_fixed(t);
        proof {
            assert(t * lt < 0x100000000 * 0x200000) by (nonlinear_arith)
                requires
                    t <= 0x100000000,
                    lt < 0x200000,
            ;
            assert(t * 0x200000 <= 0x100000000 * 0x200000) by (nonlinear_arith)
                requires
                    t <= 0x100000000,
            ;
        }
        let tlgt = t * lt;
        let key = EntropyKey { t, t_lg_t: tlgt, s };
        proof {
            assert(key.t == spec_entropy_key(self.options@, tiles@).t);
            assert(key.t_lg_t == spec_entropy_key(self.options@, tiles@).t_lg_t);
            assert(key.s == spec_entropy_key(self.options@, tiles@).s);
        }
        key
    }
}

} // verus!
