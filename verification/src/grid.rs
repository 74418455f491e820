//! The solving grid: a row-major array of cells, the observation step,
//! and bounded transitive constraint propagation.

use vstd::prelude::*;
use vstd::arithmetic::power2::{pow2, lemma_pow2_unfold, lemma2_to64};
use crate::tile::{
    Tile, Direction, tiles_wf, adjacency_symmetric, freq_sum_of, lemma_freq_sum_subset,
    lemma_freq_sum_nonneg,
};
use crate::sortedvec::{
    strictly_sorted, all_below, subset_of, copy_vec, contains_val, insert_sorted,
};
use crate::rng::{sum64, new_weighted_index, sample_weighted, choose_index};
use crate::entropy::{
    key_lt, key_eq, key_bounds, spec_key_lt, spec_key_eq, spec_entropy_key, lemma_key_lt_trans,
    lemma_key_eq_lt,
};
use rand::rngs::StdRng;

pub mod cell;

use cell::{Cell, Exhausted};

verus! {

/// Why a grid could not be constructed.
#[derive(Clone, Copy, PartialEq, Eq, Structural, Debug)]
pub enum GridError {
    /// A zero output dimension was requested.
    ZeroDimension,
    /// The initial option set is empty.
    EmptyOptions,
}

/// The `W x H` cell array, the option set cells are reset to, the
/// requested propagation depth, and the count of failed attempts.
#[derive(Debug)]
pub struct Grid {
    pub buf: Vec<Cell>,
    pub height: usize,
    pub width: usize,
    pub options: Vec<usize>,
    pub attempts: u32,
    pub initial_max_depth: usize,
}

impl Grid {
    /// Consistent dimensions: a nonempty rectangle whose cell buffer
    /// has exactly one entry per position.
    pub open spec fn dims_wf(self) -> bool {
        &&& 1 <= self.width
        &&& 1 <= self.height
        &&& self.width * self.height <= usize::MAX
        &&& self.width * self.height == self.buf@.len()
        &&& self.width + self.height < usize::MAX
    }

    /// Every cell holds a sorted, nonempty, in-range option set, as
    /// does the stored initial option set.
    pub open spec fn cells_wf(self, n_tiles: int) -> bool {
        &&& forall|i: int| 0 <= i < self.buf@.len() ==> (#[trigger] self.buf@[i]).wf(n_tiles)
        &&& strictly_sorted(self.options@)
        &&& all_below(self.options@, n_tiles)
        &&& self.options@.len() >= 1
    }

    /// Every option of every cell (and of the reset set) names a tile
    /// with a nonzero frequency.
    pub open spec fn cells_canonical(self, tiles: Seq<Tile>) -> bool {
        &&& forall|i: int|
            0 <= i < self.buf@.len() ==> (#[trigger] self.buf@[i]).options_canonical(tiles)
        &&& forall|k: int|
            0 <= k < self.options@.len() ==> tiles[#[trigger] self.options@[k] as int].frequency
                >= 1
    }

    /// The full well-formedness of a solving session against its tiles.
    pub open spec fn wf(self, tiles: Seq<Tile>) -> bool {
        &&& self.dims_wf()
        &&& self.cells_wf(tiles.len() as int)
        &&& self.cells_canonical(tiles)
        &&& tiles_wf(tiles)
    }

    /// All cells hold exactly one option.
    pub open spec fn all_collapsed(self) -> bool {
        forall|i: int| 0 <= i < self.buf@.len() ==> (#[trigger] self.buf@[i]).spec_is_collapsed()
    }

    /// A fresh solving session. Rejects an empty rectangle and an
    /// empty option set.
    pub fn new(width: usize, height: usize, options: Vec<usize>, initial_max_depth: usize) -> (r:
        Result<Grid, GridError>)
        requires
            strictly_sorted(options@),
            width * height <= usize::MAX,
            width + height < usize::MAX,
        ensures
            match r {
                Ok(g) => {
                    &&& width >= 1
                    &&& height >= 1
                    &&& options@.len() >= 1
                    &&& g.width == width
                    &&& g.height == height
                    &&& g.options@ == options@
                    &&& g.attempts == 0
                    &&& g.initial_max_depth == initial_max_depth
                    &&& g.buf@.len() == width * height
                    &&& forall|i: int|
                        0 <= i < g.buf@.len() ==> (#[trigger] g.buf@[i]).options@ == options@
                },
                Err(e) => {
                    &&& (e == GridError::ZeroDimension <==> (width == 0 || height == 0))
                    &&& (e == GridError::EmptyOptions <==> (width >= 1 && height >= 1
                        && options@.len() == 0))
                },
            },
    {
        if width == 0 || height == 0 {
            return Err(GridError::ZeroDimension);
        }
        if options.len() == 0 {
            return Err(GridError::EmptyOptions);
        }
        let n: usize = width * height;
        let mut buf: Vec<Cell> = Vec::new();
        while buf.len() < n
            invariant
                buf@.len() <= n,
                forall|i: int| 0 <= i < buf@.len() ==> (#[trigger] buf@[i]).options@ == options@,
            decreases n - buf.len(),
        {
            buf.push(Cell::new(copy_vec(&options)));
        }
        Ok(Grid { buf, height, width, options, attempts: 0, initial_max_depth })
    }

    /// Resets every cell to the initial option set; on a failed
    /// attempt the attempt counter grows, which doubles the
    /// propagation radius.
    pub fn regenerate(&mut self, increase_attempts: bool)
        requires
            old(self).dims_wf(),
            increase_attempts ==> old(self).attempts < u32::MAX,
        ensures
            final(self).width == old(self).width,
            final(self).height == old(self).height,
            final(self).options@ == old(self).options@,
            final(self).initial_max_depth == old(self).initial_max_depth,
            final(self).attempts == old(self).attempts + if increase_attempts {
                1int
            } else {
                0int
            },
            final(self).buf@.len() == old(self).buf@.len(),
            forall|i: int|
                0 <= i < final(self).buf@.len() ==> (#[trigger] final(self).buf@[i]).options@
                    == old(self).options@,
    {
        let n: usize = self.width * self.height;
        let mut buf: Vec<Cell> = Vec::new();
        while buf.len() < n
            invariant
                buf@.len() <= n,
                forall|i: int|
                    0 <= i < buf@.len() ==> (#[trigger] buf@[i]).options@ == self.options@,
            decreases n - buf.len(),
        {
            buf.push(Cell::new(copy_vec(&self.options)));
        }
        self.buf = buf;
        if increase_attempts {
            self.attempts = self.attempts + 1;
        }
    }

    pub fn width(&self) -> (w: usize)
        ensures
            w == self.width,
    {
        self.width
    }

    pub fn height(&self) -> (h: usize)
        ensures
            h == self.height,
    {
        self.height
    }

    /// How many failed attempts (restarts after `Exhausted`) happened.
    pub fn attempts(&self) -> (a: u32)
        ensures
            a == self.attempts,
    {
        self.attempts
    }

    /// The cell at `(x, y)`, if inside the grid.
    pub fn get(&self, index: (usize, usize)) -> (r: Option<&Cell>)
        requires
            self.dims_wf(),
        ensures
            match r {
                Some(c) => {
                    &&& index.0 < self.width
                    &&& index.1 < self.height
                    &&& *c == self.buf@[index.0 + index.1 * self.width]
                },
                None => index.0 >= self.width || index.1 >= self.height,
            },
    {
        if index.0 >= self.width || index.1 >= self.height {
            return None;
        }
        proof {
            assert(index.0 + index.1 * self.width < self.width * self.height) by (nonlinear_arith)
                requires
                    index.0 < self.width,
                    index.1 < self.height,
            ;
        }
        Some(&self.buf[index.0 + index.1 * self.width])
    }

    /// The cell at a row-major index, if inside the buffer.
    pub fn get_index(&self, index: usize) -> (r: Option<&Cell>)
        ensures
            match r {
                Some(c) => index < self.buf@.len() && *c == self.buf@[index as int],
                None => index >= self.buf@.len(),
            },
    {
        if index >= self.buf.len() {
            return None;
        }
        Some(&self.buf[index])
    }

    /// What `index_in_direction` yields: the row-major neighbor index,
    /// or `None` past a grid border.
    pub open spec fn spec_index_in_direction(self, index: int, d: Direction) -> Option<int> {
        match d {
            Direction::Up => if index >= self.width {
                Some(index - self.width)
            } else {
                None
            },
            Direction::Down => if index + self.width < self.width * self.height {
                Some(index + self.width)
            } else {
                None
            },
            Direction::Left => if index >= 1 && (index - 1) % (self.width as int) != self.width - 1 {
                Some(index - 1)
            } else {
                None
            },
            Direction::Right => if index + 1 <= usize::MAX && (index + 1) % (self.width as int)
                != 0 {
                Some(index + 1)
            } else {
                None
            },
        }
    }

    /// The row-major index one step in `direction`, or `None` at the
    /// grid border (top, bottom, left and right edges).
    pub fn index_in_direction(&self, index: usize, direction: Direction) -> (r: Option<usize>)
        requires
            self.dims_wf(),
        ensures
            r == match self.spec_index_in_direction(index as int, direction) {
                Some(i) => Some(i as usize),
                None => None::<usize>,
            },
            r is Some ==> self.spec_index_in_direction(index as int, direction)
                == Some(r.unwrap() as int),
    {
        match direction {
            Direction::Up => if index >= self.width {
                Some(index - self.width)
            } else {
                None
            },
            Direction::Down => if index <= usize::MAX - self.width && index + self.width
                < self.buf.len() {
                Some(index + self.width)
            } else {
                None
            },
            Direction::Left => if index >= 1 && (index - 1) % self.width != self.width - 1 {
                Some(index - 1)
            } else {
                None
            },
            Direction::Right => if index <= usize::MAX - 1 && (index + 1) % self.width != 0 {
                Some(index + 1)
            } else {
                None
            },
        }
    }

    /// The union, over the tiles named by `avail`, of their neighbor
    /// sets in direction `d`: the options a neighbor cell may keep.
    pub open spec fn in_allowed(tiles: Seq<Tile>, avail: Seq<usize>, d: Direction, e: usize) -> bool {
        exists|k: int|
            0 <= k < avail.len() && (#[trigger] tiles[avail[k] as int].neighbors.spec_get(
                d,
            ))@.contains(e)
    }

    /// Mutable access to the cell at `(x, y)`, if inside the grid.
    pub fn get_mut(&mut self, index: (usize, usize)) -> (r: Option<&mut Cell>)
        requires
            old(self).dims_wf(),
        ensures
            match r {
                Some(c) => {
                    &&& index.0 < old(self).width
                    &&& index.1 < old(self).height
                    &&& *c == old(self).buf@[index.0 + index.1 * old(self).width]
                    &&& final(self).buf@ == old(self).buf@.update(
                        index.0 + index.1 * old(self).width,
                        *final(c),
                    )
                    &&& final(self).width == old(self).width
                    &&& final(self).height == old(self).height
                    &&& final(self).options@ == old(self).options@
                    &&& final(self).attempts == old(self).attempts
                    &&& final(self).initial_max_depth == old(self).initial_max_depth
                },
                None => {
                    &&& (index.0 >= old(self).width || index.1 >= old(self).height)
                    &&& *final(self) == *old(self)
                },
            },
    {
        if index.0 >= self.width || index.1 >= self.height {
            return None;
        }
        proof {
            assert(index.0 + index.1 * self.width < self.width * self.height) by (nonlinear_arith)
                requires
                    index.0 < self.width,
                    index.1 < self.height,
            ;
        }
        let i: usize = index.0 + index.1 * self.width;
        Some(&mut self.buf[i])
    }

    /// Mutable access to the cell at a row-major index, if inside the
    /// buffer.
    pub fn get_index_mut(&mut self, index: usize) -> (r: Option<&mut Cell>)
        ensures
            match r {
                Some(c) => {
                    &&& index < old(self).buf@.len()
                    &&& *c == old(self).buf@[index as int]
                    &&& final(self).buf@ == old(self).buf@.update(index as int, *final(c))
                    &&& final(self).width == old(self).width
                    &&& final(self).height == old(self).height
                    &&& final(self).options@ == old(self).options@
                    &&& final(self).attempts == old(self).attempts
                    &&& final(self).initial_max_depth == old(self).initial_max_depth
                },
                None => {
                    &&& index >= old(self).buf@.len()
                    &&& *final(self) == *old(self)
                },
            },
    {
        if index >= self.buf.len() {
            return None;
        }
        Some(&mut self.buf[index])
    }

    /// Starts a row-major walk over the cells, for rendering.
    pub fn cells(&self) -> (c: Cells)
        ensures
            c.i == 0,
    {
        Cells { i: 0 }
    }

    /// The in-buffer neighbor of `idx` in direction `d`: the raw
    /// directional index, kept only when it lands inside the buffer.
    pub open spec fn spec_neighbor(self, idx: int, d: Direction) -> Option<int> {
        match self.spec_index_in_direction(idx, d) {
            Some(j) => if j < self.buf@.len() {
                Some(j)
            } else {
                None
            },
            None => None,
        }
    }

    /// Every collapsed cell constrains its neighbors: whatever options
    /// a neighbor still holds are allowed beside the collapsed tile.
    pub open spec fn grid_consistent(self, tiles: Seq<Tile>) -> bool {
        forall|i: int, d: Direction|
            0 <= i < self.buf@.len() && self.buf@[i].spec_is_collapsed() && (
            #[trigger] self.spec_neighbor(i, d)) is Some ==> subset_of(
                self.buf@[self.spec_neighbor(i, d).unwrap()].options@,
                tiles[self.buf@[i].options@[0] as int].neighbors.spec_get(d)@,
            )
    }

    /// Adjacency round-trip: in a consistent, fully collapsed grid,
    /// every pair of grid-neighbors `(i, j)` in direction `d` carries
    /// a pair of tiles the learned adjacency relation allows.
    pub proof fn adjacency_round_trip(self, tiles: Seq<Tile>, i: int, d: Direction)
        requires
            self.cells_wf(tiles.len() as int),
            self.grid_consistent(tiles),
            self.all_collapsed(),
            0 <= i < self.buf@.len(),
            self.spec_neighbor(i, d) is Some,
        ensures
            tiles[self.buf@[i].options@[0] as int].neighbors.spec_get(d)@.contains(
                self.buf@[self.spec_neighbor(i, d).unwrap()].options@[0],
            ),
    {
        let j = self.spec_neighbor(i, d).unwrap();
        assert(self.buf@[j].options@.contains(self.buf@[j].options@[0]));
        assert(subset_of(
            self.buf@[j].options@,
            tiles[self.buf@[i].options@[0] as int].neighbors.spec_get(d)@,
        ));
    }

    /// The grid-neighbor relation is symmetric: stepping into `d` and
    /// back along the opposite direction returns to the same cell.
    pub proof fn lemma_neighbor_symmetric(self, i: int, d: Direction)
        requires
            self.dims_wf(),
            0 <= i < self.buf@.len(),
            self.spec_neighbor(i, d) is Some,
        ensures
            self.spec_neighbor(self.spec_neighbor(i, d).unwrap(), d.spec_opposing()) == Some(i),
            self.spec_neighbor(i, d).unwrap() != i,
    {
        let w = self.width as int;
        let j = self.spec_neighbor(i, d).unwrap();
        match d {
            Direction::Up => {},
            Direction::Down => {},
            Direction::Left => {
                // j == i - 1 and (i - 1) % w != w - 1, so i % w != 0
                lemma_mod_succ(i - 1, w);
                vstd::arithmetic::div_mod::lemma_mod_bound(i - 1, w);
            },
            Direction::Right => {
                // j == i + 1 and (i + 1) % w != 0, so i % w != w - 1
                lemma_mod_succ(i, w);
                vstd::arithmetic::div_mod::lemma_mod_bound(i, w);
            },
        }
    }

    /// The propagation radius: `initial_max_depth * 2^(attempts+1)`,
    /// capped at `width + height`.
    pub open spec fn spec_max_depth(self) -> int {
        let m = self.initial_max_depth * pow2((self.attempts + 1) as nat);
        if m <= self.width + self.height {
            m as int
        } else {
            (self.width + self.height) as int
        }
    }

    /// Computes the propagation radius without overflowing.
    pub fn max_depth(&self) -> (md: usize)
        requires
            self.dims_wf(),
            self.attempts < u32::MAX,
        ensures
            md == self.spec_max_depth(),
    {
        let cap: usize = self.width + self.height;
        let mut d: usize = self.initial_max_depth;
        if d > cap {
            d = cap;
        }
        let mut i: u32 = 0;
        proof {
            lemma2_to64();
        }
        while i < self.attempts + 1
            invariant
                i <= self.attempts + 1,
                self.attempts < u32::MAX,
                cap == self.width + self.height,
                d <= cap,
                self.initial_max_depth * pow2(i as nat) <= cap ==> d == self.initial_max_depth
                    * pow2(i as nat),
                self.initial_max_depth * pow2(i as nat) > cap ==> d == cap,
            decreases self.attempts + 1 - i,
        {
            let ghost m = self.initial_max_depth * pow2(i as nat);
            proof {
                lemma_pow2_unfold((i + 1) as nat);
                assert(self.initial_max_depth * pow2((i + 1) as nat) == 2 * m) by (nonlinear_arith)
                    requires
                        m == self.initial_max_depth * pow2(i as nat),
                        pow2((i + 1) as nat) == 2 * pow2(i as nat),
                ;
                vstd::arithmetic::power2::lemma_pow2_pos(i as nat);
                assert(self.initial_max_depth <= m) by (nonlinear_arith)
                    requires
                        m == self.initial_max_depth * pow2(i as nat),
                        pow2(i as nat) >= 1,
                        self.initial_max_depth >= 0,
                ;
            }
            if d >= cap - d {
                d = cap;
            } else {
                d = d + d;
            }
            i += 1;
        }
        d
    }

    /// One propagation wave out of the cell at `grid_index`, whose
    /// options were just narrowed to `avail`. Each existing,
    /// not-yet-collapsed neighbor keeps only the options some tile in
    /// `avail` allows beside it; every change recurses, a change that
    /// collapses the neighbor travelling free of depth cost. A wave
    /// past the depth budget does nothing, a wave over a fully
    /// collapsed grid finds nothing to narrow; the wave fails with
    /// `Exhausted`, touching nothing further, exactly when an
    /// intersection would empty a cell, and it then leaves that empty
    /// intersection standing in the grid as a blocked neighbor pair.
    #[verifier::loop_isolation(false)]
    #[verifier::rlimit(100)]
    fn update_neighbors(
        &mut self,
        tiles: &[Tile],
        grid_index: usize,
        avail: &Vec<usize>,
        depth: usize,
        measure: Ghost<int>,
    ) -> (r: Result<(), Exhausted>)
        requires
            old(self).wf(tiles@),
            old(self).attempts < u32::MAX,
            strictly_sorted(avail@),
            all_below(avail@, tiles@.len() as int),
            measure@ == total_options(old(self).buf@),
            grid_index < old(self).buf@.len(),
            old(self).buf@[grid_index as int].options@ == avail@,
        ensures
            depth > old(self).spec_max_depth() ==> r is Ok && *final(self) == *old(self),
            old(self).all_collapsed() ==> r is Ok,
            r is Err ==> propagation_blocked(*final(self), tiles@),
            final(self).wf(tiles@),
            final(self).width == old(self).width,
            final(self).height == old(self).height,
            final(self).options@ == old(self).options@,
            final(self).attempts == old(self).attempts,
            final(self).initial_max_depth == old(self).initial_max_depth,
            final(self).buf@.len() == old(self).buf@.len(),
            forall|i: int|
                0 <= i < final(self).buf@.len() ==> subset_of(
                    (#[trigger] final(self).buf@[i]).options@,
                    old(self).buf@[i].options@,
                ),
            total_options(final(self).buf@) <= total_options(old(self).buf@),
            (r is Ok && depth <= old(self).spec_max_depth()) ==> forall|dk: int|
                0 <= dk < 4 ==> wavefront_ok(
                    final(self).buf@,
                    tiles@,
                    avail@,
                    Direction::spec_from_index(dk),
                    old(self).spec_neighbor(grid_index as int, Direction::spec_from_index(dk)),
                ),
            (r is Ok && depth <= old(self).spec_max_depth()) ==> newly_collapsed_consistent(
                *old(self),
                *final(self),
                tiles@,
            ),
        decreases measure@,
    {
        let md = self.max_depth();
        if depth > md {
            return Ok(());
        }
        let mut k: usize = 0;
        while k < 4
            invariant
                self.wf(tiles@),
                self.width == old(self).width,
                self.height == old(self).height,
                self.options@ == old(self).options@,
                self.attempts == old(self).attempts,
                self.initial_max_depth == old(self).initial_max_depth,
                self.buf@.len() == old(self).buf@.len(),
                old(self).wf(tiles@),
                old(self).attempts < u32::MAX,
                strictly_sorted(avail@),
                all_below(avail@, tiles@.len() as int),
                k <= 4,
                depth <= self.width + self.height,
                forall|i: int|
                    0 <= i < self.buf@.len() ==> subset_of(
                        (#[trigger] self.buf@[i]).options@,
                        old(self).buf@[i].options@,
                    ),
                total_options(self.buf@) <= total_options(old(self).buf@),
                forall|dk: int|
                    0 <= dk < k ==> wavefront_ok(
                        self.buf@,
                        tiles@,
                        avail@,
                        Direction::spec_from_index(dk),
                        old(self).spec_neighbor(grid_index as int, Direction::spec_from_index(dk)),
                    ),
                newly_collapsed_consistent(*old(self), *self, tiles@),
            decreases 4 - k,
        {
            let ghost iter_pre = self.buf@;
            let dir = Direction::from_index(k);
            match self.index_in_direction(grid_index, dir) {
                None => {
                    proof {
                        assert(old(self).spec_neighbor(grid_index as int, dir) is None);
                    }
                },
                Some(nidx) => {
                    if nidx < self.buf.len() {
                        proof {
                            assert(old(self).spec_neighbor(grid_index as int, dir) == Some(
                                nidx as int,
                            ));
                        }
                        let nlen = self.buf[nidx].options.len();
                        if nlen != 1 {
                            proof {
                                // an uncollapsed neighbor means the grid the
                                // caller handed over was not fully collapsed:
                                // a singleton cell can only shrink to itself
                                assert(!old(self).all_collapsed()) by {
                                    if old(self).buf@[nidx as int].options@.len() == 1 {
                                        crate::sortedvec::lemma_singleton_subset(
                                            self.buf@[nidx as int].options@,
                                            old(self).buf@[nidx as int].options@,
                                        );
                                    }
                                    assert(!old(self).buf@[nidx as int].spec_is_collapsed());
                                }
                            }
                            let allowed = allowed_union(tiles, avail, dir);
                            let mut ncell = Cell::new(copy_vec(&self.buf[nidx].options));
                            let res = ncell.update_options(&allowed);
                            match res {
                                Err(e) => {
                                    proof {
                                        // the failed intersection stands in the
                                        // grid: the neighbor pair is blocked
                                        let d = dir;
                                        let gseq = self.buf@[grid_index as int].options@;
                                        assert(subset_of(gseq, avail@));
                                        assert forall|e2: usize|
                                            self.buf@[nidx as int].options@.contains(
                                                e2,
                                            ) implies !Grid::in_allowed(tiles@, gseq, d, e2) by {
                                            assert(!allowed@.contains(e2));
                                            assert(!Grid::in_allowed(tiles@, avail@, d, e2));
                                            if Grid::in_allowed(tiles@, gseq, d, e2) {
                                                let kk = choose|kk: int|
                                                    0 <= kk < gseq.len() && (
                                                    #[trigger] tiles@[gseq[kk] as int].neighbors.spec_get(
                                                        d,
                                                    ))@.contains(e2);
                                                assert(gseq.contains(gseq[kk]));
                                                assert(avail@.contains(gseq[kk]));
                                                let k2 = choose|k2: int|
                                                    0 <= k2 < avail@.len() && avail@[k2]
                                                        == gseq[kk];
                                                assert((tiles@[avail@[k2] as int].neighbors.spec_get(
                                                    d,
                                                ))@.contains(e2));
                                            }
                                        }
                                        assert(self.spec_neighbor(grid_index as int, d) == Some(
                                            nidx as int,
                                        ));
                                        assert(propagation_blocked(*self, tiles@)) by {
                                            assert(0 <= grid_index < self.buf@.len() && 0 <= (
                                            k as int) < 4 && (#[trigger] self.spec_neighbor(
                                                grid_index as int,
                                                Direction::spec_from_index(k as int),
                                            )) is Some && self.buf@[self.spec_neighbor(
                                                grid_index as int,
                                                Direction::spec_from_index(k as int),
                                            ).unwrap()].options@.len() > 1 && forall|e2: usize|
                                                self.buf@[self.spec_neighbor(
                                                    grid_index as int,
                                                    Direction::spec_from_index(k as int),
                                                ).unwrap()].options@.contains(e2)
                                                    ==> !Grid::in_allowed(
                                                    tiles@,
                                                    self.buf@[grid_index as int].options@,
                                                    Direction::spec_from_index(k as int),
                                                    e2,
                                                ));
                                        }
                                    }
                                    return Err(e);
                                },
                                Ok(()) => {
                                    let new_len = ncell.options.len();
                                    let new_opts = copy_vec(&ncell.options);
                                    let ghost pre = self.buf@;
                                    let ghost nc = ncell;
                                    self.buf.set(nidx, ncell);
                                    proof {
                                        lemma_total_options_update(pre, nidx as int, nc, 0);
                                        assert forall|x: usize|
                                            #[trigger] nc.options@.contains(x) implies pre[nidx as int].options@.contains(
                                            x,
                                        ) by {}
                                        assert forall|j: int|
                                            0 <= j < nc.options@.len() implies (
                                        #[trigger] nc.options@[j]) < tiles@.len() by {
                                            assert(nc.options@.contains(nc.options@[j]));
                                            let m = choose|m: int|
                                                0 <= m < pre[nidx as int].options@.len()
                                                    && pre[nidx as int].options@[m]
                                                    == nc.options@[j];
                                            assert(pre[nidx as int].wf(tiles@.len() as int));
                                        }
                                        assert forall|j: int|
                                            0 <= j < nc.options@.len() implies tiles@[(
                                        #[trigger] nc.options@[j]) as int].frequency >= 1 by {
                                            assert(nc.options@.contains(nc.options@[j]));
                                            let m = choose|m: int|
                                                0 <= m < pre[nidx as int].options@.len()
                                                    && pre[nidx as int].options@[m]
                                                    == nc.options@[j];
                                            assert(pre[nidx as int].options_canonical(tiles@));
                                        }
                                        assert(self.buf@[nidx as int].wf(tiles@.len() as int));
                                        assert(self.buf@[nidx as int].options_canonical(tiles@));
                                        assert forall|i: int|
                                            0 <= i < self.buf@.len() implies subset_of(
                                            (#[trigger] self.buf@[i]).options@,
                                            old(self).buf@[i].options@,
                                        ) by {
                                            if i == nidx {
                                                assert forall|x: usize|
                                                    #[trigger] self.buf@[i].options@.contains(
                                                    x,
                                                ) implies old(self).buf@[i].options@.contains(
                                                    x,
                                                ) by {
                                                    assert(pre[i].options@.contains(x));
                                                    assert(subset_of(
                                                        pre[i].options@,
                                                        old(self).buf@[i].options@,
                                                    ));
                                                }
                                            } else {
                                                assert(self.buf@[i] == pre[i]);
                                            }
                                        }
                                    }
                                    proof {
                                        // the freshly intersected neighbor now holds only
                                        // allowed options
                                        assert(wavefront_ok(
                                            self.buf@,
                                            tiles@,
                                            avail@,
                                            dir,
                                            old(self).spec_neighbor(grid_index as int, dir),
                                        )) by {
                                            assert forall|e: usize|
                                                #[trigger] self.buf@[nidx as int].options@.contains(
                                                e,
                                            ) implies Grid::in_allowed(tiles@, avail@, dir, e) by {
                                                assert(allowed@.contains(e));
                                            }
                                        }
                                        // earlier directions only saw cells shrink
                                        assert forall|dk: int| 0 <= dk < k implies wavefront_ok(
                                            self.buf@,
                                            tiles@,
                                            avail@,
                                            Direction::spec_from_index(dk),
                                            old(self).spec_neighbor(
                                                grid_index as int,
                                                Direction::spec_from_index(dk),
                                            ),
                                        ) by {
                                            lemma_wavefront_stable(
                                                pre,
                                                self.buf@,
                                                tiles@,
                                                avail@,
                                                Direction::spec_from_index(dk),
                                                old(self).spec_neighbor(
                                                    grid_index as int,
                                                    Direction::spec_from_index(dk),
                                                ),
                                            );
                                        }
                                        // cells earlier parts of this wave
                                        // collapsed stay consistent while the
                                        // neighbor shrinks
                                        assert forall|j: int, dk: int|
                                            0 <= j < self.buf@.len() && 0 <= dk < 4 && j != nidx
                                                && old(self).buf@[j].options@.len() > 1 && (
                                        #[trigger] self.buf@[j]).options@.len()
                                            == 1 implies wavefront_ok(
                                            self.buf@,
                                            tiles@,
                                            self.buf@[j].options@,
                                            #[trigger] Direction::spec_from_index(dk),
                                            self.spec_neighbor(j, Direction::spec_from_index(dk)),
                                        ) by {
                                            let d = Direction::spec_from_index(dk);
                                            assert(pre[j].options@ == self.buf@[j].options@);
                                            assert(wavefront_ok(
                                                pre,
                                                tiles@,
                                                pre[j].options@,
                                                d,
                                                self.spec_neighbor(j, d),
                                            ));
                                            lemma_wavefront_stable(
                                                pre,
                                                self.buf@,
                                                tiles@,
                                                self.buf@[j].options@,
                                                d,
                                                self.spec_neighbor(j, d),
                                            );
                                        }
                                    }
                                    if new_len != nlen {
                                        let ndepth = if new_len == 1 {
                                            depth
                                        } else {
                                            depth + 1
                                        };
                                        let ghost mid = *self;
                                        proof {
                                            assert(total_options(self.buf@) == total_options(pre)
                                                - nlen + new_len);
                                            assert(new_len < nlen);
                                            assert(total_options(self.buf@) < total_options(
                                                old(self).buf@,
                                            ));
                                            lemma_total_options_nonneg(self.buf@, 0);
                                            assert(self.buf@[nidx as int].options@ == new_opts@);
                                        }
                                        let r2 = self.update_neighbors(
                                            tiles,
                                            nidx,
                                            &new_opts,
                                            ndepth,
                                            Ghost(total_options(self.buf@)),
                                        );
                                        proof {
                                            assert forall|dk: int|
                                                0 <= dk < k + 1 implies wavefront_ok(
                                                self.buf@,
                                                tiles@,
                                                avail@,
                                                Direction::spec_from_index(dk),
                                                old(self).spec_neighbor(
                                                    grid_index as int,
                                                    Direction::spec_from_index(dk),
                                                ),
                                            ) by {
                                                lemma_wavefront_stable(
                                                    mid.buf@,
                                                    self.buf@,
                                                    tiles@,
                                                    avail@,
                                                    Direction::spec_from_index(dk),
                                                    old(self).spec_neighbor(
                                                        grid_index as int,
                                                        Direction::spec_from_index(dk),
                                                    ),
                                                );
                                            }
                                            assert forall|i: int|
                                                0 <= i < self.buf@.len() implies subset_of(
                                                (#[trigger] self.buf@[i]).options@,
                                                old(self).buf@[i].options@,
                                            ) by {
                                                assert forall|x: usize|
                                                    #[trigger] self.buf@[i].options@.contains(
                                                    x,
                                                ) implies old(self).buf@[i].options@.contains(
                                                    x,
                                                ) by {
                                                    assert(subset_of(
                                                        self.buf@[i].options@,
                                                        mid.buf@[i].options@,
                                                    ));
                                                    assert(mid.buf@[i].options@.contains(x));
                                                    assert(subset_of(
                                                        mid.buf@[i].options@,
                                                        old(self).buf@[i].options@,
                                                    ));
                                                }
                                            }
                                        }
                                        match r2 {
                                            Err(e) => {
                                                return Err(e);
                                            },
                                            Ok(()) => {},
                                        }
                                        proof {
                                            // whatever the deeper wave collapsed
                                            // it also made consistent: a cell
                                            // collapsed before it keeps its
                                            // consistency by stability, the cell
                                            // of this iteration by its own
                                            // recursion, the rest by the deeper
                                            // wave's word
                                            assert(mid.spec_max_depth() == old(
                                                self,
                                            ).spec_max_depth());
                                            assert forall|j: int, dk: int|
                                                0 <= j < self.buf@.len() && 0 <= dk < 4
                                                    && old(self).buf@[j].options@.len() > 1 && (
                                            #[trigger] self.buf@[j]).options@.len()
                                                == 1 implies wavefront_ok(
                                                self.buf@,
                                                tiles@,
                                                self.buf@[j].options@,
                                                #[trigger] Direction::spec_from_index(dk),
                                                self.spec_neighbor(
                                                    j,
                                                    Direction::spec_from_index(dk),
                                                ),
                                            ) by {
                                                let d = Direction::spec_from_index(dk);
                                                if mid.buf@[j].options@.len() == 1 {
                                                    crate::sortedvec::lemma_singleton_subset(
                                                        self.buf@[j].options@,
                                                        mid.buf@[j].options@,
                                                    );
                                                    assert(self.buf@[j].options@
                                                        =~= mid.buf@[j].options@);
                                                    if j == nidx {
                                                        assert(mid.buf@[j].options@ == new_opts@);
                                                        assert(ndepth == depth);
                                                        assert(wavefront_ok(
                                                            self.buf@,
                                                            tiles@,
                                                            new_opts@,
                                                            d,
                                                            mid.spec_neighbor(nidx as int, d),
                                                        ));
                                                        assert(mid.spec_neighbor(nidx as int, d)
                                                            == self.spec_neighbor(j, d));
                                                    } else {
                                                        assert(wavefront_ok(
                                                            mid.buf@,
                                                            tiles@,
                                                            mid.buf@[j].options@,
                                                            d,
                                                            self.spec_neighbor(j, d),
                                                        ));
                                                        lemma_wavefront_stable(
                                                            mid.buf@,
                                                            self.buf@,
                                                            tiles@,
                                                            self.buf@[j].options@,
                                                            d,
                                                            self.spec_neighbor(j, d),
                                                        );
                                                    }
                                                } else {
                                                    if ndepth > old(self).spec_max_depth() {
                                                        assert(*self == mid);
                                                        assert(false);
                                                    }
                                                }
                                            }
                                        }
                                    }
                                    proof {
                                        assert forall|j: int, dk: int|
                                            0 <= j < self.buf@.len() && 0 <= dk < 4
                                                && old(self).buf@[j].options@.len() > 1 && (
                                        #[trigger] self.buf@[j]).options@.len()
                                            == 1 implies wavefront_ok(
                                            self.buf@,
                                            tiles@,
                                            self.buf@[j].options@,
                                            #[trigger] Direction::spec_from_index(dk),
                                            self.spec_neighbor(j, Direction::spec_from_index(dk)),
                                        ) by {
                                            if new_len == nlen {
                                                assert(j != nidx);
                                            }
                                        }
                                    }
                                },
                            }
                        } else {
                            proof {
                                assert(self.buf@[nidx as int].options@.len() == 1);
                            }
                        }
                    } else {
                        proof {
                            assert(old(self).spec_neighbor(grid_index as int, dir) is None);
                        }
                    }
                },
            }
            k += 1;
        }
        Ok(())
    }

    /// One observation-plus-propagation step. A least-entropy
    /// uncollapsed cell is picked (ties broken uniformly at random),
    /// one of its options is drawn with probability proportional to
    /// tile frequency, the cell is fixed on it, and the change is
    /// propagated. Returns `Ok(false)` exactly when every cell is now
    /// collapsed, `Ok(true)` while uncollapsed cells remain, and
    /// `Err(Exhausted)` when propagation would empty a cell; the
    /// caller must then `regenerate(true)` before stepping again. A
    /// grid with at most one open cell always succeeds: no random
    /// draw can exhaust it. On failure nothing is rolled back: the
    /// observed cell stays collapsed, the blocked neighbor pair
    /// stands in the grid, and no cell is stored empty. Whatever the
    /// outcome, no cell ever gains an option and every cell keeps at
    /// least one.
    #[verifier::loop_isolation(false)]
    #[verifier::rlimit(100)]
    pub fn collapse(&mut self, tiles: &[Tile], rng: &mut StdRng) -> (r: Result<bool, Exhausted>)
        requires
            old(self).wf(tiles@),
            old(self).attempts < u32::MAX,
        ensures
            final(self).wf(tiles@),
            final(self).width == old(self).width,
            final(self).height == old(self).height,
            final(self).options@ == old(self).options@,
            final(self).attempts == old(self).attempts,
            final(self).initial_max_depth == old(self).initial_max_depth,
            final(self).buf@.len() == old(self).buf@.len(),
            forall|i: int|
                0 <= i < final(self).buf@.len() ==> subset_of(
                    (#[trigger] final(self).buf@[i]).options@,
                    old(self).buf@[i].options@,
                ),
            forall|i: int|
                0 <= i < final(self).buf@.len() ==> (#[trigger] final(self).buf@[i]).options@.len()
                    >= 1,
            match r {
                Ok(b) => b == !final(self).all_collapsed(),
                Err(_) => propagation_blocked(*final(self), tiles@),
            },
            // a fully collapsed grid reports completion and is left alone,
            // and a single remaining choice can never exhaust: no random
            // draw decides either case
            old(self).all_collapsed() ==> r == Ok::<bool, Exhausted>(false) && *final(self)
                == *old(self),
            at_most_one_uncollapsed(old(self).buf@) ==> r == Ok::<bool, Exhausted>(false),
            // whenever a cell was observed, a least-entropy cell now
            // stands collapsed on one of its previous options — on
            // failure too, where the partly propagated grid is kept for
            // the caller to reset; on success the observed cell is in
            // addition consistent toward its four neighbors
            !old(self).all_collapsed() ==> observation_recorded(
                *old(self),
                *final(self),
                tiles@,
                r is Ok,
            ),
            // on success, not only the observed cell but every cell this
            // step collapsed is consistent toward its four neighbors
            r is Ok ==> newly_collapsed_consistent(*old(self), *final(self), tiles@),
    {
        let n = self.buf.len();
        let mut candidates: Vec<usize> = Vec::new();
        let mut i: usize = 0;
        while i < n
            invariant
                i <= n,
                forall|m: int|
                    0 <= m < candidates@.len() ==> (#[trigger] candidates@[m]) < i && self.buf@[
                        candidates@[m] as int
                    ].options@.len() > 1,
                forall|m1: int, m2: int|
                    0 <= m1 < m2 < candidates@.len() ==> #[trigger] candidates@[m1]
                        < #[trigger] candidates@[m2],
                forall|j: int|
                    0 <= j < i && (#[trigger] self.buf@[j]).options@.len() > 1
                        ==> candidates@.contains(j as usize),
            decreases n - i,
        {
            if self.buf[i].options.len() > 1 {
                let ghost oldc = candidates@;
                candidates.push(i);
                proof {
                    assert forall|j: int|
                        0 <= j < i + 1 && (#[trigger] self.buf@[j]).options@.len() > 1
                            implies candidates@.contains(j as usize) by {
                        if j < i {
                            let m = choose|m: int| 0 <= m < oldc.len() && oldc[m] == j as usize;
                            assert(candidates@[m] == j as usize);
                        } else {
                            assert(candidates@[candidates@.len() - 1] == i);
                        }
                    }
                    assert forall|m1: int, m2: int|
                        0 <= m1 < m2 < candidates@.len() implies candidates@[m1]
                            < candidates@[m2] by {
                        if m2 < candidates@.len() - 1 {
                            assert(candidates@[m1] == oldc[m1] && candidates@[m2] == oldc[m2]);
                        } else {
                            assert(candidates@[m2] == i && oldc[m1] < i);
                        }
                    }
                }
            }
            i += 1;
        }
        if candidates.len() == 0 {
            proof {
                assert forall|i2: int|
                    0 <= i2 < self.buf@.len() implies (
                #[trigger] self.buf@[i2]).spec_is_collapsed() by {
                    if self.buf@[i2].options@.len() > 1 {
                        assert(candidates@.contains(i2 as usize));
                        let m = choose|m: int|
                            0 <= m < candidates@.len() && candidates@[m] == i2 as usize;
                    }
                }
                assert(old(self).all_collapsed());
            }
            return Ok(false);
        }
        let last_cell = candidates.len() == 1;
        let c0 = candidates[0];
        proof {
            assert(candidates@.contains(c0));
            // a candidate exists, so the caller's grid held a choice
            assert(!old(self).all_collapsed()) by {
                assert(!old(self).buf@[c0 as int].spec_is_collapsed());
            }
            // and with two or more candidates, it held two distinct ones
            if !last_cell {
                assert(!at_most_one_uncollapsed(old(self).buf@)) by {
                    assert(candidates@[0] < candidates@[1]);
                    assert(old(self).buf@[candidates@[0] as int].options@.len() > 1);
                    assert(old(self).buf@[candidates@[1] as int].options@.len() > 1);
                }
            }
        }
        let mut min_key = self.buf[c0].calculate_entropy(tiles);
        let mut min_indexes: Vec<usize> = Vec::new();
        min_indexes.push(c0);
        let mut k: usize = 1;
        while k < candidates.len()
            invariant
                1 <= k <= candidates@.len(),
                key_bounds(min_key),
                min_indexes@.len() >= 1,
                forall|m: int|
                    0 <= m < min_indexes@.len() ==> candidates@.contains(
                        #[trigger] min_indexes@[m],
                    ),
                // the running minimum is the key of some candidate, every
                // tied index has an equal key, and nothing scanned so far
                // lies below it
                forall|m: int|
                    0 <= m < min_indexes@.len() ==> spec_key_eq(
                        spec_entropy_key(
                            self.buf@[#[trigger] min_indexes@[m] as int].options@,
                            tiles@,
                        ),
                        min_key,
                    ),
                forall|k2: int|
                    0 <= k2 < k ==> !spec_key_lt(
                        spec_entropy_key(
                            self.buf@[#[trigger] candidates@[k2] as int].options@,
                            tiles@,
                        ),
                        min_key,
                    ),
                forall|k2: int|
                    0 <= k2 < k ==> key_bounds(
                        spec_entropy_key(
                            self.buf@[#[trigger] candidates@[k2] as int].options@,
                            tiles@,
                        ),
                    ),
            decreases candidates@.len() - k,
        {
            let ci = candidates[k];
            proof {
                assert(candidates@.contains(ci));
            }
            let ghost old_min = min_key;
            let key = self.buf[ci].calculate_entropy(tiles);
            if key_eq(&key, &min_key) {
                min_indexes.push(ci);
                proof {
                    assert forall|m: int|
                        0 <= m < min_indexes@.len() implies candidates@.contains(
                        #[trigger] min_indexes@[m],
                    ) by {}
                }
            } else if key_lt(&key, &min_key) {
                min_key = key;
                min_indexes = Vec::new();
                min_indexes.push(ci);
                proof {
                    // everything scanned sits at or above the old minimum,
                    // which the new minimum undercuts
                    assert forall|k2: int| 0 <= k2 < k + 1 implies !spec_key_lt(
                        spec_entropy_key(
                            self.buf@[#[trigger] candidates@[k2] as int].options@,
                            tiles@,
                        ),
                        min_key,
                    ) by {
                        if k2 < k {
                            let ck = spec_entropy_key(
                                self.buf@[candidates@[k2] as int].options@,
                                tiles@,
                            );
                            if spec_key_lt(ck, min_key) {
                                lemma_key_lt_trans(ck, min_key, old_min);
                            }
                        }
                    }
                }
            }
            k += 1;
        }
        let chosen = choose_index(rng, &min_indexes);
        proof {
            let m = choose|m: int| 0 <= m < min_indexes@.len() && min_indexes@[m] == chosen;
            assert(candidates@.contains(min_indexes@[m]));
            let m2 = choose|m2: int| 0 <= m2 < candidates@.len() && candidates@[m2] == chosen;
            assert(chosen < n && self.buf@[chosen as int].options@.len() > 1);
            assert(spec_key_eq(
                spec_entropy_key(self.buf@[chosen as int].options@, tiles@),
                min_key,
            ));
            // the chosen cell's entropy is minimal among all uncollapsed cells
            assert forall|j: int|
                0 <= j < self.buf@.len() && (#[trigger] self.buf@[j]).options@.len()
                    > 1 implies !spec_key_lt(
                spec_entropy_key(self.buf@[j].options@, tiles@),
                spec_entropy_key(self.buf@[chosen as int].options@, tiles@),
            ) by {
                assert(candidates@.contains(j as usize));
                let k2 = choose|k2: int| 0 <= k2 < candidates@.len() && candidates@[k2] == j as usize;
                let cj = spec_entropy_key(self.buf@[j].options@, tiles@);
                let cc = spec_entropy_key(self.buf@[chosen as int].options@, tiles@);
                assert(!spec_key_lt(cj, min_key));
                lemma_key_eq_lt(cc, min_key, cj);
            }
            // nothing has been mutated yet, so this is a fact about the
            // grid as the caller handed it over
            assert(old(self).buf@ == self.buf@);
        }
        let cell_opts = copy_vec(&self.buf[chosen].options);
        let onum = cell_opts.len();
        proof {
            lemma_freq_sum_subset(cell_opts@, tiles@, 0);
            assert(cell_opts@.subrange(0, onum as int) =~= cell_opts@);
        }
        let mut weights: Vec<u64> = Vec::new();
        let mut w: usize = 0;
        while w < onum
            invariant
                w <= onum,
                weights@.len() == w,
                forall|q: int|
                    0 <= q < w ==> (#[trigger] weights@[q]) == tiles@[cell_opts@[q] as int].frequency,
                sum64(weights@) + freq_sum_of(cell_opts@.subrange(w as int, onum as int), tiles@)
                    == freq_sum_of(cell_opts@, tiles@),
            decreases onum - w,
        {
            let ghost oldw = weights@;
            let ghost suf = cell_opts@.subrange(w as int, onum as int);
            let o = cell_opts[w];
            proof {
                assert(suf[0] == cell_opts@[w as int]);
                assert(suf.drop_first() =~= cell_opts@.subrange(w as int + 1, onum as int));
            }
            let f = tiles[o].frequency;
            weights.push(f as u64);
            proof {
                assert(weights@.drop_last() =~= oldw);
            }
            w += 1;
        }
        proof {
            assert(cell_opts@.subrange(onum as int, onum as int) =~= Seq::<usize>::empty());
            assert(sum64(weights@) == freq_sum_of(cell_opts@, tiles@));
            lemma_freq_sum_nonneg(cell_opts@.drop_first(), tiles@);
            assert(tiles@[cell_opts@[0] as int].frequency >= 1);
            assert(freq_sum_of(cell_opts@, tiles@) >= 1);
        }
        let wi = new_weighted_index(&weights);
        let j = sample_weighted(rng, &wi);
        let chosen_tile = cell_opts[j];
        proof {
            assert(weights@[j as int] == tiles@[chosen_tile as int].frequency);
        }
        let ghost pre = *self;
        let newcell = Cell::new(vec![chosen_tile]);
        let ghost nc = newcell;
        self.buf.set(chosen, newcell);
        proof {
            assert(nc.options@ =~= seq![chosen_tile]);
            assert forall|e: usize| #[trigger] nc.options@.contains(e) implies e
                == chosen_tile by {
                let q = choose|q: int| 0 <= q < nc.options@.len() && nc.options@[q] == e;
            }
            assert(nc.options@.contains(chosen_tile)) by {
                assert(nc.options@[0] == chosen_tile);
            }
            assert(pre.buf@[chosen as int].options@.contains(chosen_tile)) by {
                assert(cell_opts@[j as int] == chosen_tile);
            }
            assert(nc.wf(tiles@.len() as int));
            assert(nc.options_canonical(tiles@));
            assert forall|i2: int|
                0 <= i2 < self.buf@.len() implies subset_of(
                (#[trigger] self.buf@[i2]).options@,
                pre.buf@[i2].options@,
            ) by {
                if i2 == chosen {
                    assert forall|e: usize|
                        #[trigger] self.buf@[i2].options@.contains(e) implies pre.buf@[i2].options@.contains(
                        e,
                    ) by {
                        assert(e == chosen_tile);
                    }
                } else {
                    assert(self.buf@[i2] == pre.buf@[i2]);
                }
            }
            assert(self.wf(tiles@));
        }
        if last_cell {
            proof {
                assert forall|i2: int|
                    0 <= i2 < self.buf@.len() implies (
                #[trigger] self.buf@[i2]).spec_is_collapsed() by {
                    if i2 == chosen {
                    } else {
                        if pre.buf@[i2].options@.len() > 1 {
                            assert(candidates@.contains(i2 as usize));
                            let m = choose|m: int|
                                0 <= m < candidates@.len() && candidates@[m] == i2 as usize;
                            assert(candidates@[m] == candidates@[0]);
                            assert(candidates@.contains(chosen));
                            let m3 = choose|m3: int|
                                0 <= m3 < candidates@.len() && candidates@[m3] == chosen;
                            assert(i2 == chosen);
                        }
                        assert(self.buf@[i2] == pre.buf@[i2]);
                    }
                }
                // the observed cell itself is the witness: all its
                // neighbors are collapsed
                assert forall|dk: int| 0 <= dk < 4 implies wavefront_ok(
                    self.buf@,
                    tiles@,
                    self.buf@[chosen as int].options@,
                    Direction::spec_from_index(dk),
                    old(self).spec_neighbor(chosen as int, Direction::spec_from_index(dk)),
                ) by {
                    match old(self).spec_neighbor(chosen as int, Direction::spec_from_index(dk)) {
                        Some(j) => {
                            assert(self.buf@[j].spec_is_collapsed());
                        },
                        None => {},
                    }
                }
                assert(observation_recorded(*old(self), *self, tiles@, true)) by {
                    assert((self.buf@[chosen as int]).options@.len() == 1);
                    assert(old(self).buf@[chosen as int].options@.len() > 1);
                }
                // the observed cell is also the only newly collapsed one
                assert(newly_collapsed_consistent(*old(self), *self, tiles@)) by {
                    assert forall|j: int, dk: int|
                        0 <= j < self.buf@.len() && 0 <= dk < 4 && old(self).buf@[j].options@.len()
                            > 1 && (#[trigger] self.buf@[j]).options@.len()
                            == 1 implies wavefront_ok(
                        self.buf@,
                        tiles@,
                        self.buf@[j].options@,
                        #[trigger] Direction::spec_from_index(dk),
                        self.spec_neighbor(j, Direction::spec_from_index(dk)),
                    ) by {
                        assert(j == chosen) by {
                            if j != chosen {
                                assert(self.buf@[j] == pre.buf@[j]);
                            }
                        }
                        assert(self.spec_neighbor(j, Direction::spec_from_index(dk)) == old(
                            self,
                        ).spec_neighbor(j, Direction::spec_from_index(dk)));
                    }
                }
            }
            return Ok(false);
        }
        let avail = copy_vec(&self.buf[chosen].options);
        let ghost mid = *self;
        let prop = self.update_neighbors(tiles, chosen, &avail, 0, Ghost(total_options(self.buf@)));
        proof {
            assert forall|i2: int|
                0 <= i2 < self.buf@.len() implies subset_of(
                (#[trigger] self.buf@[i2]).options@,
                old(self).buf@[i2].options@,
            ) by {
                assert forall|e: usize|
                    #[trigger] self.buf@[i2].options@.contains(e) implies old(
                    self,
                ).buf@[i2].options@.contains(e) by {
                    assert(subset_of(self.buf@[i2].options@, mid.buf@[i2].options@));
                    assert(mid.buf@[i2].options@.contains(e));
                    assert(subset_of(mid.buf@[i2].options@, pre.buf@[i2].options@));
                }
            }
        }
        match prop {
            Err(e) => {
                proof {
                    // even on failure the observed cell keeps its single
                    // chosen tile: propagation only shrinks, and a
                    // nonempty subset of a singleton is that singleton
                    crate::sortedvec::lemma_singleton_subset(
                        self.buf@[chosen as int].options@,
                        mid.buf@[chosen as int].options@,
                    );
                    assert(observation_recorded(*old(self), *self, tiles@, false)) by {
                        assert((self.buf@[chosen as int]).options@.len() == 1);
                        assert(old(self).buf@[chosen as int].options@.len() > 1);
                    }
                }
                return Err(e);
            },
            Ok(()) => {},
        }
        proof {
            // the propagation radius is never negative, so the wave out
            // of the observed cell really ran
            assert(0 <= mid.spec_max_depth()) by {
                vstd::arithmetic::power2::lemma_pow2_pos((mid.attempts + 1) as nat);
                assert(0 <= mid.initial_max_depth * pow2((mid.attempts + 1) as nat))
                    by (nonlinear_arith)
                    requires
                        0 <= mid.initial_max_depth,
                        0 < pow2((mid.attempts + 1) as nat),
                ;
            }
            // the observed cell kept its single chosen tile
            crate::sortedvec::lemma_singleton_subset(
                self.buf@[chosen as int].options@,
                mid.buf@[chosen as int].options@,
            );
            assert(self.buf@[chosen as int].options@ =~= avail@);
            // the neighbor relation is unchanged by the step
            assert forall|dk: int| 0 <= dk < 4 implies mid.spec_neighbor(
                chosen as int,
                Direction::spec_from_index(dk),
            ) == old(self).spec_neighbor(chosen as int, Direction::spec_from_index(dk)) by {}
            assert(observation_recorded(*old(self), *self, tiles@, true)) by {
                assert((self.buf@[chosen as int]).options@.len() == 1);
                assert(old(self).buf@[chosen as int].options@.len() > 1);
            }
            // every cell this step collapsed is consistent: the observed
            // cell by the wave just run out of it, the rest by the wave's
            // own word on the cells it collapsed
            assert(mid.spec_max_depth() == old(self).spec_max_depth());
            assert(newly_collapsed_consistent(*old(self), *self, tiles@)) by {
                assert forall|j: int, dk: int|
                    0 <= j < self.buf@.len() && 0 <= dk < 4 && old(self).buf@[j].options@.len() > 1
                        && (#[trigger] self.buf@[j]).options@.len() == 1 implies wavefront_ok(
                    self.buf@,
                    tiles@,
                    self.buf@[j].options@,
                    #[trigger] Direction::spec_from_index(dk),
                    self.spec_neighbor(j, Direction::spec_from_index(dk)),
                ) by {
                    let d = Direction::spec_from_index(dk);
                    if j == chosen {
                        assert(wavefront_ok(
                            self.buf@,
                            tiles@,
                            avail@,
                            d,
                            mid.spec_neighbor(chosen as int, d),
                        ));
                        assert(mid.spec_neighbor(j, d) == self.spec_neighbor(j, d));
                    } else {
                        assert(mid.buf@[j].options@ == old(self).buf@[j].options@);
                    }
                }
            }
        }
        let mut any: bool = false;
        let mut q: usize = 0;
        while q < n
            invariant
                q <= n,
                any == exists|z: int|
                    0 <= z < q && (#[trigger] self.buf@[z]).options@.len() > 1,
            decreases n - q,
        {
            if self.buf[q].options.len() > 1 {
                any = true;
                proof {
                    assert((#[trigger] self.buf@[q as int]).options@.len() > 1);
                }
            }
            q += 1;
        }
        proof {
            if any {
                let z = choose|z: int| 0 <= z < n && (#[trigger] self.buf@[z]).options@.len() > 1;
                assert(!self.buf@[z].spec_is_collapsed());
            } else {
                assert forall|z: int|
                    0 <= z < self.buf@.len() implies (#[trigger] self.buf@[z]).spec_is_collapsed() by {
                    assert(self.buf@[z].options@.len() >= 1);
                }
            }
        }
        Ok(any)
    }
}

/// Stepping a coordinate by one advances its remainder, wrapping at
/// the row boundary.
proof fn lemma_mod_succ(i: int, w: int)
    requires
        1 <= w,
        0 <= i,
    ensures
        (i + 1) % w == if i % w == w - 1 {
            0int
        } else {
            i % w + 1
        },
{
    vstd::arithmetic::div_mod::lemma_fundamental_div_mod(i, w);
    vstd::arithmetic::div_mod::lemma_mod_bound(i, w);
    let q = i / w;
    let r = i % w;
    if r == w - 1 {
        assert(i + 1 == (q + 1) * w + 0) by (nonlinear_arith)
            requires
                i == w * q + r,
                r == w - 1,
        ;
        vstd::arithmetic::div_mod::lemma_fundamental_div_mod_converse(i + 1, w, q + 1, 0);
    } else {
        assert(i + 1 == q * w + (r + 1)) by (nonlinear_arith)
            requires
                i == w * q + r,
        ;
        vstd::arithmetic::div_mod::lemma_fundamental_div_mod_converse(i + 1, w, q, r + 1);
    }
}

/// Every option still held by the cell at `j` is allowed beside a
/// cell holding `avail`, looking in direction `d`.
pub open spec fn within_allowed(
    cells: Seq<Cell>,
    j: int,
    tiles: Seq<Tile>,
    avail: Seq<usize>,
    d: Direction,
) -> bool {
    forall|e: usize|
        #[trigger] cells[j].options@.contains(e) ==> Grid::in_allowed(tiles, avail, d, e)
}

/// What one propagation wave from a cell holding `avail` guarantees of
/// its grid neighbor in direction `d`: the neighbor holds only allowed
/// options, unless it is collapsed (collapsed neighbors are skipped).
pub open spec fn wavefront_ok(
    cells: Seq<Cell>,
    tiles: Seq<Tile>,
    avail: Seq<usize>,
    d: Direction,
    nbr: Option<int>,
) -> bool {
    match nbr {
        Some(j) => within_allowed(cells, j, tiles, avail, d) || cells[j].options@.len() == 1,
        None => true,
    }
}

/// Propagation hit a dead end somewhere in the grid: some cell has an
/// uncollapsed grid neighbor none of whose remaining options is
/// allowed beside the cell's own remaining options. This is the exact
/// situation in which a propagation wave reports `Exhausted`: the
/// intersection that would have been stored is empty.
pub open spec fn propagation_blocked(g: Grid, tiles: Seq<Tile>) -> bool {
    exists|src: int, dk: int|
        {
            &&& 0 <= src < g.buf@.len()
            &&& 0 <= dk < 4
            &&& (#[trigger] g.spec_neighbor(src, Direction::spec_from_index(dk))) is Some
            &&& g.buf@[g.spec_neighbor(src, Direction::spec_from_index(dk)).unwrap()].options@.len()
                > 1
            &&& forall|e: usize|
                g.buf@[g.spec_neighbor(src, Direction::spec_from_index(dk)).unwrap()].options@.contains(
                    e,
                ) ==> !Grid::in_allowed(
                    tiles,
                    g.buf@[src].options@,
                    Direction::spec_from_index(dk),
                    e,
                )
        }
}

/// No two distinct cells are both uncollapsed: the grid is fully
/// collapsed, or exactly one cell still holds a choice.
pub open spec fn at_most_one_uncollapsed(cells: Seq<Cell>) -> bool {
    forall|i: int, j: int|
        0 <= i < cells.len() && 0 <= j < cells.len() && (#[trigger] cells[i]).options@.len() > 1
            && (#[trigger] cells[j]).options@.len() > 1 ==> i == j
}

/// Every cell that went from a choice in `pre` to a single option in
/// `post` is consistent toward its four grid neighbors: each neighbor
/// holds only options allowed beside the cell's tile, or is itself
/// collapsed. A propagation wave guarantees this of every cell it
/// collapses, because a collapse recurses free of depth cost and so
/// always runs its own wave to the end.
pub open spec fn newly_collapsed_consistent(pre: Grid, post: Grid, tiles: Seq<Tile>) -> bool {
    forall|j: int, dk: int|
        0 <= j < post.buf@.len() && 0 <= dk < 4 && pre.buf@[j].options@.len() > 1 && (
        #[trigger] post.buf@[j]).options@.len() == 1 ==> wavefront_ok(
            post.buf@,
            tiles,
            post.buf@[j].options@,
            #[trigger] Direction::spec_from_index(dk),
            post.spec_neighbor(j, Direction::spec_from_index(dk)),
        )
}

/// The record an observation step leaves behind, whether or not its
/// propagation went through: some cell that still held a choice in
/// `pre` now stands collapsed on one of its old options, and its
/// entropy key was minimal among the cells that held a choice. When
/// `propagated` holds, the step's wave also ran to the end: each of
/// the observed cell's four grid neighbors holds only options allowed
/// beside the chosen tile, or is itself collapsed.
pub open spec fn observation_recorded(
    pre: Grid,
    post: Grid,
    tiles: Seq<Tile>,
    propagated: bool,
) -> bool {
    exists|idx: int|
        {
            &&& 0 <= idx < post.buf@.len()
            &&& (#[trigger] post.buf@[idx]).options@.len() == 1
            &&& pre.buf@[idx].options@.len() > 1
            &&& subset_of(post.buf@[idx].options@, pre.buf@[idx].options@)
            &&& (propagated ==> forall|dk: int|
                0 <= dk < 4 ==> wavefront_ok(
                    post.buf@,
                    tiles,
                    post.buf@[idx].options@,
                    Direction::spec_from_index(dk),
                    pre.spec_neighbor(idx, Direction::spec_from_index(dk)),
                ))
            &&& forall|j: int|
                0 <= j < pre.buf@.len() && (#[trigger] pre.buf@[j]).options@.len() > 1
                    ==> !spec_key_lt(
                    spec_entropy_key(pre.buf@[j].options@, tiles),
                    spec_entropy_key(pre.buf@[idx].options@, tiles),
                )
        }
}

/// The wavefront guarantee survives any further shrinking of the
/// cells: a subset of allowed options is still allowed, and a
/// collapsed cell that only shrinks stays collapsed.
proof fn lemma_wavefront_stable(
    pre: Seq<Cell>,
    post: Seq<Cell>,
    tiles: Seq<Tile>,
    avail: Seq<usize>,
    d: Direction,
    nbr: Option<int>,
)
    requires
        pre.len() == post.len(),
        forall|i: int|
            0 <= i < post.len() ==> subset_of((#[trigger] post[i]).options@, pre[i].options@),
        forall|i: int| 0 <= i < post.len() ==> strictly_sorted((#[trigger] post[i]).options@),
        forall|i: int| 0 <= i < post.len() ==> (#[trigger] post[i]).options@.len() >= 1,
        forall|i: int| 0 <= i < pre.len() ==> strictly_sorted((#[trigger] pre[i]).options@),
        match nbr {
            Some(j) => 0 <= j < pre.len(),
            None => true,
        },
        wavefront_ok(pre, tiles, avail, d, nbr),
    ensures
        wavefront_ok(post, tiles, avail, d, nbr),
{
    match nbr {
        Some(j) => {
            if within_allowed(pre, j, tiles, avail, d) {
                assert forall|e: usize|
                    #[trigger] post[j].options@.contains(e) implies Grid::in_allowed(
                    tiles,
                    avail,
                    d,
                    e,
                ) by {
                    assert(subset_of(post[j].options@, pre[j].options@));
                    assert(pre[j].options@.contains(e));
                }
            } else {
                crate::sortedvec::lemma_singleton_subset(post[j].options@, pre[j].options@);
            }
        },
        None => {},
    }
}

/// A grid with no collapsed cell is vacuously consistent: this is the
/// base case for a fresh or regenerated grid whose initial option set
/// holds at least two tiles.
pub proof fn lemma_uncollapsed_grid_consistent(g: Grid, tiles: Seq<Tile>)
    requires
        forall|i: int| 0 <= i < g.buf@.len() ==> !(#[trigger] g.buf@[i]).spec_is_collapsed(),
    ensures
        g.grid_consistent(tiles),
{
}

/// One successful observation step preserves grid consistency, as
/// long as the step collapsed no cell beyond the observed one at
/// `idx`. (A cell collapsed mid-wave by propagation is skipped by
/// later waves, so nothing rechecks it against the observed tile;
/// that is the one gap this hypothesis closes.) Together with
/// `Grid::adjacency_round_trip` this gives the adjacency round-trip
/// law for every run whose steps satisfy the hypothesis.
pub proof fn lemma_step_preserves_consistency(pre: Grid, post: Grid, tiles: Seq<Tile>, idx: int)
    requires
        pre.wf(tiles),
        post.width == pre.width,
        post.buf@.len() == pre.buf@.len(),
        forall|i: int|
            0 <= i < post.buf@.len() ==> subset_of(
                (#[trigger] post.buf@[i]).options@,
                pre.buf@[i].options@,
            ),
        forall|i: int| 0 <= i < post.buf@.len() ==> strictly_sorted((#[trigger] post.buf@[i]).options@),
        forall|i: int| 0 <= i < post.buf@.len() ==> (#[trigger] post.buf@[i]).options@.len() >= 1,
        0 <= idx < post.buf@.len(),
        post.buf@[idx].options@.len() == 1,
        pre.grid_consistent(tiles),
        adjacency_symmetric(tiles),
        forall|i: int|
            0 <= i < post.buf@.len() && (#[trigger] post.buf@[i]).options@.len() == 1 ==> pre.buf@[
                i
            ].options@.len() == 1 || i == idx,
        forall|dk: int|
            0 <= dk < 4 ==> wavefront_ok(
                post.buf@,
                tiles,
                post.buf@[idx].options@,
                Direction::spec_from_index(dk),
                pre.spec_neighbor(idx, Direction::spec_from_index(dk)),
            ),
    ensures
        post.grid_consistent(tiles),
{
    assert forall|i: int, d: Direction|
        0 <= i < post.buf@.len() && post.buf@[i].spec_is_collapsed() && (
    #[trigger] post.spec_neighbor(i, d)) is Some implies subset_of(
        post.buf@[post.spec_neighbor(i, d).unwrap()].options@,
        tiles[post.buf@[i].options@[0] as int].neighbors.spec_get(d)@,
    ) by {
        assert(post.spec_neighbor(i, d) == pre.spec_neighbor(i, d));
        let j = post.spec_neighbor(i, d).unwrap();
        assert(0 <= j < post.buf@.len());
        if i == idx {
            let dk: int = match d {
                Direction::Up => 0,
                Direction::Down => 1,
                Direction::Left => 2,
                Direction::Right => 3,
            };
            assert(Direction::spec_from_index(dk) == d);
            assert(wavefront_ok(
                post.buf@,
                tiles,
                post.buf@[idx].options@,
                d,
                pre.spec_neighbor(idx, d),
            ));
            let t = post.buf@[idx].options@[0];
            if within_allowed(post.buf@, j, tiles, post.buf@[idx].options@, d) {
                assert forall|e: usize|
                    #[trigger] post.buf@[j].options@.contains(e) implies tiles[t as int].neighbors.spec_get(
                    d,
                )@.contains(e) by {
                    assert(Grid::in_allowed(tiles, post.buf@[idx].options@, d, e));
                    let kk = choose|kk: int|
                        0 <= kk < post.buf@[idx].options@.len() && (#[trigger] tiles[post.buf@[
                            idx
                        ].options@[kk] as int].neighbors.spec_get(d))@.contains(e);
                    assert(kk == 0);
                }
            } else {
                // the neighbor is collapsed, and the hypothesis says it
                // already was before the step
                assert(post.buf@[j].options@.len() == 1);
                pre.lemma_neighbor_symmetric(i, d);
                assert(j != i);
                assert(pre.buf@[j].options@.len() == 1);
                crate::sortedvec::lemma_singleton_subset(post.buf@[j].options@, pre.buf@[j].options@);
                let s = pre.buf@[j].options@[0];
                // before the step, the collapsed neighbor already
                // constrained the observed cell
                assert(pre.buf@[j].spec_is_collapsed());
                assert(pre.spec_neighbor(j, d.spec_opposing()) == Some(i));
                assert(subset_of(
                    pre.buf@[i].options@,
                    tiles[s as int].neighbors.spec_get(d.spec_opposing())@,
                ));
                assert(post.buf@[i].options@.contains(t));
                assert(pre.buf@[i].options@.contains(t));
                assert(tiles[s as int].neighbors.spec_get(d.spec_opposing())@.contains(t));
                // adjacency symmetry turns that around
                assert(d.spec_opposing().spec_opposing() == d);
                assert((s as int) < tiles.len()) by {
                    assert(pre.buf@[j].wf(tiles.len() as int));
                    assert(pre.buf@[j].options@[0] == s);
                }
                assert((t as int) < tiles.len()) by {
                    assert(pre.buf@[i].wf(tiles.len() as int));
                    let m = choose|m: int|
                        0 <= m < pre.buf@[i].options@.len() && pre.buf@[i].options@[m] == t;
                }
                assert(tiles[t as int].neighbors.spec_get(d)@.contains(s));
                assert forall|e: usize|
                    #[trigger] post.buf@[j].options@.contains(e) implies tiles[t as int].neighbors.spec_get(
                    d,
                )@.contains(e) by {
                    assert(e == s) by {
                        let m = choose|m: int|
                            0 <= m < post.buf@[j].options@.len() && post.buf@[j].options@[m] == e;
                    }
                }
            }
        } else {
            // a cell that was already collapsed: its neighbors have
            // only shrunk since the pre-state
            assert(post.buf@[i].options@.len() == 1);
            assert(pre.buf@[i].options@.len() == 1);
            crate::sortedvec::lemma_singleton_subset(post.buf@[i].options@, pre.buf@[i].options@);
            assert(pre.buf@[i].spec_is_collapsed());
            assert(subset_of(
                pre.buf@[j].options@,
                tiles[pre.buf@[i].options@[0] as int].neighbors.spec_get(d)@,
            ));
            assert(post.buf@[i].options@[0] == pre.buf@[i].options@[0]);
            assert forall|e: usize|
                #[trigger] post.buf@[j].options@.contains(e) implies tiles[post.buf@[i].options@[0] as int].neighbors.spec_get(
                d,
            )@.contains(e) by {
                assert(pre.buf@[j].options@.contains(e));
            }
        }
    }
}

/// A row-major walk over a grid's cells, yielding each position and
/// the cell standing there.
pub struct Cells {
    pub i: usize,
}

impl Cells {
    /// The next `(x, y, cell)` triple, or `None` past the end.
    pub fn next<'a>(&mut self, grid: &'a Grid) -> (r: Option<(usize, usize, &'a Cell)>)
        requires
            grid.dims_wf(),
        ensures
            match r {
                Some(t) => {
                    &&& old(self).i < grid.buf@.len()
                    &&& final(self).i == old(self).i + 1
                    &&& t.0 == old(self).i as int % (grid.width as int)
                    &&& t.1 == old(self).i as int / (grid.width as int)
                    &&& *t.2 == grid.buf@[old(self).i as int]
                },
                None => {
                    &&& old(self).i >= grid.buf@.len()
                    &&& final(self).i == old(self).i
                },
            },
    {
        if self.i >= grid.buf.len() {
            return None;
        }
        let x = self.i % grid.width;
        let y = self.i / grid.width;
        let cell = &grid.buf[self.i];
        self.i += 1;
        Some((x, y, cell))
    }
}

/// The total number of options held by `cells[lo..]`: the measure that
/// propagation strictly shrinks.
pub open spec fn total_options_from(cells: Seq<Cell>, lo: int) -> int
    decreases cells.len() - lo,
{
    if lo < 0 || lo >= cells.len() {
        0
    } else {
        cells[lo].options@.len() + total_options_from(cells, lo + 1)
    }
}

/// The total number of options held by all cells.
pub open spec fn total_options(cells: Seq<Cell>) -> int {
    total_options_from(cells, 0)
}

proof fn lemma_total_options_nonneg(cells: Seq<Cell>, lo: int)
    ensures
        0 <= total_options_from(cells, lo),
    decreases cells.len() - lo,
{
    if 0 <= lo < cells.len() {
        lemma_total_options_nonneg(cells, lo + 1);
    }
}

proof fn lemma_total_options_update(cells: Seq<Cell>, k: int, c: Cell, lo: int)
    requires
        0 <= k < cells.len(),
        0 <= lo,
    ensures
        lo <= k ==> total_options_from(cells.update(k, c), lo) == total_options_from(cells, lo)
            - cells[k].options@.len() + c.options@.len(),
        lo > k ==> total_options_from(cells.update(k, c), lo) == total_options_from(cells, lo),
    decreases cells.len() - lo,
{
    if lo < cells.len() {
        lemma_total_options_update(cells, k, c, lo + 1);
    }
}

/// Collects the options allowed next to `avail` in direction `d`:
/// the union of the named tiles' neighbor lists.
fn allowed_union(tiles: &[Tile], avail: &Vec<usize>, d: Direction) -> (r: Vec<usize>)
    requires
        tiles_wf(tiles@),
        all_below(avail@, tiles@.len() as int),
    ensures
        strictly_sorted(r@),
        all_below(r@, tiles@.len() as int),
        forall|e: usize| #[trigger] r@.contains(e) <==> Grid::in_allowed(tiles@, avail@, d, e),
{
    let n = tiles.len();
    let m = avail.len();
    let mut r: Vec<usize> = Vec::new();
    let mut k: usize = 0;
    while k < m
        invariant
            n == tiles@.len(),
            m == avail@.len(),
            k <= m,
            tiles_wf(tiles@),
            all_below(avail@, n as int),
            strictly_sorted(r@),
            all_below(r@, n as int),
            forall|e: usize|
                #[trigger] r@.contains(e) <==> Grid::in_allowed(
                    tiles@,
                    avail@.subrange(0, k as int),
                    d,
                    e,
                ),
        decreases m - k,
    {
        let t = avail[k];
        let nb = tiles[t].neighbors.get(d);
        let ghost nbseq = tiles@[t as int].neighbors.spec_get(d)@;
        let nblen = nb.len();
        let mut e: usize = 0;
        while e < nblen
            invariant
                n == tiles@.len(),
                m == avail@.len(),
                k < m,
                t == avail@[k as int],
                tiles_wf(tiles@),
                all_below(avail@, n as int),
                nbseq == tiles@[t as int].neighbors.spec_get(d)@,
                nb@ == nbseq,
                nblen == nbseq.len(),
                e <= nblen,
                strictly_sorted(r@),
                all_below(r@, n as int),
                forall|x: usize|
                    #[trigger] r@.contains(x) <==> (Grid::in_allowed(
                        tiles@,
                        avail@.subrange(0, k as int),
                        d,
                        x,
                    ) || nbseq.subrange(0, e as int).contains(x)),
            decreases nblen - e,
        {
            let v = nb[e];
            proof {
                assert(nbseq[e as int] == v);
                assert(v < n);
            }
            let ghost oldr = r@;
            if !contains_val(&r, v) {
                proof {
                    crate::sortedvec::lemma_absent_bounds_len(r@, n as int, v);
                }
                insert_sorted(&mut r, v);
            }
            proof {
                assert forall|k2: int| 0 <= k2 < r@.len() implies r@[k2] < n by {
                    assert(r@.contains(r@[k2]));
                    if oldr.contains(r@[k2]) {
                        let j = choose|j: int| 0 <= j < oldr.len() && oldr[j] == r@[k2];
                        assert(oldr[j] < n);
                    } else {
                        assert(r@[k2] == v);
                    }
                }
                assert forall|x: usize| #[trigger] r@.contains(x) implies (Grid::in_allowed(
                    tiles@,
                    avail@.subrange(0, k as int),
                    d,
                    x,
                ) || nbseq.subrange(0, e as int + 1).contains(x)) by {
                    if x != v {
                        if nbseq.subrange(0, e as int).contains(x) {
                            let j = choose|j: int|
                                0 <= j < e && #[trigger] nbseq.subrange(0, e as int)[j] == x;
                            assert(nbseq.subrange(0, e as int + 1)[j] == x);
                        }
                    } else {
                        assert(nbseq.subrange(0, e as int + 1)[e as int] == v);
                    }
                }
                assert forall|x: usize|
                    (Grid::in_allowed(tiles@, avail@.subrange(0, k as int), d, x)
                        || nbseq.subrange(0, e as int + 1).contains(x)) implies #[trigger] r@.contains(
                    x,
                ) by {
                    if Grid::in_allowed(tiles@, avail@.subrange(0, k as int), d, x) {
                    } else {
                        let j = choose|j: int|
                            0 <= j < e + 1 && #[trigger] nbseq.subrange(0, e as int + 1)[j] == x;
                        if j < e {
                            assert(nbseq.subrange(0, e as int)[j] == x);
                        } else {
                            assert(x == v);
                        }
                    }
                }
            }
            e += 1;
        }
        proof {
            assert(nbseq.subrange(0, nblen as int) =~= nbseq);
            assert forall|x: usize| #[trigger] r@.contains(x) implies Grid::in_allowed(
                tiles@,
                avail@.subrange(0, k as int + 1),
                d,
                x,
            ) by {
                if Grid::in_allowed(tiles@, avail@.subrange(0, k as int), d, x) {
                    let j = choose|j: int|
                        0 <= j < k && (#[trigger] tiles@[avail@.subrange(0, k as int)[j] as int].neighbors.spec_get(
                            d,
                        ))@.contains(x);
                    assert(avail@.subrange(0, k as int + 1)[j] == avail@.subrange(0, k as int)[j]);
                    assert((tiles@[avail@.subrange(0, k as int + 1)[j] as int].neighbors.spec_get(
                        d,
                    ))@.contains(x));
                } else {
                    assert(nbseq.contains(x));
                    assert(avail@.subrange(0, k as int + 1)[k as int] == t);
                    assert((tiles@[avail@.subrange(0, k as int + 1)[k as int] as int].neighbors.spec_get(
                        d,
                    ))@.contains(x));
                }
            }
            assert forall|x: usize|
                Grid::in_allowed(tiles@, avail@.subrange(0, k as int + 1), d, x) implies #[trigger] r@.contains(
                x,
            ) by {
                let j = choose|j: int|
                    0 <= j < k + 1 && (#[trigger] tiles@[avail@.subrange(0, k as int + 1)[j] as int].neighbors.spec_get(
                        d,
                    ))@.contains(x);
                if j < k {
                    assert(avail@.subrange(0, k as int)[j] == avail@.subrange(0, k as int + 1)[j]);
                    assert((tiles@[avail@.subrange(0, k as int)[j] as int].neighbors.spec_get(
                        d,
                    ))@.contains(x));
                    assert(Grid::in_allowed(tiles@, avail@.subrange(0, k as int), d, x));
                } else {
                    assert(avail@.subrange(0, k as int + 1)[j] == t);
                    assert(nbseq.contains(x));
                }
            }
        }
        k += 1;
    }
    proof {
        assert(avail@.subrange(0, m as int) =~= avail@);
    }
    r
}

} // verus!
