//! The partition of a nest at one level.
pub mod cell;
pub mod cell_mut;
pub mod counting;
pub mod partition_cells_iter;
pub mod partition_cells_iter_mut;
pub mod partition_subset;

use crate::nauty::bitset::{bitset_bits, max_bits, BitSet};
use crate::nauty::partition_nest::partition_nest_chunk_by::PartitionNestChunkBy;
use crate::nauty::partition_nest::{
    extended_counts, is_cell_end_from, spec_max_level, PartitionNest,
};
use vstd::prelude::*;

verus! {

/// `s` starts a cell of the partition at `level`.
pub open spec fn is_cell_start(ptn: Seq<usize>, level: usize, s: int) -> bool {
    0 <= s < ptn.len() && (s == 0 || ptn[s - 1] <= level)
}

/// `s` starts a cell of at least two vertices.
pub open spec fn is_wide_cell_start(ptn: Seq<usize>, level: usize, s: int) -> bool {
    is_cell_start(ptn, level, s) && ptn[s] > level
}

/// The cells of `ptn` at `level` that hold two vertices or more, by their
/// first positions, in increasing order.
pub open spec fn lists_wide_starts(r: Seq<usize>, ptn: Seq<usize>, level: usize) -> bool {
    &&& forall|a: int, b: int| 0 <= a < b < r.len() ==> #[trigger] r[a] < #[trigger] r[b]
    &&& forall|a: int| 0 <= a < r.len() ==> is_wide_cell_start(ptn, level, #[trigger] r[a] as int)
    &&& forall|s: int| #[trigger]
        is_wide_cell_start(ptn, level, s) ==> exists|a: int| 0 <= a < r.len() && r[a] == s
}

/// The partition of a nest at `level`.
#[derive(Default, PartialEq)]
pub struct Partition {
    pub nest: PartitionNest,
    pub level: usize,
}

impl Partition {
    /// The nest is well formed and keeps its numbers of cells up to its
    /// largest level and up to the partition's level.
    pub open spec fn wf(self) -> bool {
        &&& self.nest.wf_at(self.level)
        &&& spec_max_level(self.nest.ptn()) < self.nest.counts().len()
        &&& self.level < self.nest.counts().len()
        &&& self.level < usize::MAX
    }

    /// The partition of `nest` at `level`; the numbers of cells are kept up
    /// to `level`.
    pub fn new(nest: PartitionNest, level: usize) -> (r: Self)
        requires
            nest.wf_at(level),
            spec_max_level(nest.ptn()) < nest.counts().len(),
            level < usize::MAX,
        ensures
            r.wf(),
            r.level == level,
            r.nest.lab() == nest.lab(),
            r.nest.ptn() == nest.ptn(),
            r.nest.counts() == extended_counts(nest.counts(), spec_max_level(nest.ptn()), level),
    {
        let mut nest = nest;
        nest.extend_numcells(level);
        Self { nest, level }
    }

    /// The kept number of cells of the partition, read at the smaller of
    /// its level and the largest level of the nest.
    pub fn numcells(&self) -> (r: usize)
        requires
            self.wf(),
        ensures
            r == self.nest.counts()[(if self.level < spec_max_level(self.nest.ptn()) {
                self.level
            } else {
                spec_max_level(self.nest.ptn())
            }) as int],
    {
        self.nest.numcells(self.level)
    }

    /// The kept number of cells at the partition's level, to be changed.
    pub fn numcells_mut(&mut self) -> (r: &mut usize)
        requires
            old(self).wf(),
        ensures
            *r == old(self).nest.counts()[old(self).level as int],
            final(self).level == old(self).level,
            final(self).nest.lab() == old(self).nest.lab(),
            final(self).nest.ptn() == old(self).nest.ptn(),
            final(self).nest.counts() == old(self).nest.counts().update(
                old(self).level as int,
                *final(r),
            ),
    {
        let level = self.level;
        self.nest.numcells_mut(level)
    }

    /// Every cell is a single vertex.
    pub fn is_discrete(&self) -> (r: bool)
        ensures
            r == forall|i: int| 0 <= i < self.nest.ptn().len() ==> #[trigger] self.nest.ptn()[i] <= self.level,
    {
        let n = self.nest.ptn_len();
        let mut i: usize = 0;
        while i < n
            invariant
                n == self.nest.ptn().len(),
                i <= n,
                forall|k: int| 0 <= k < i ==> #[trigger] self.nest.ptn()[k] <= self.level,
            decreases n - i,
        {
            if self.nest.ptn_at(i) > self.level {
                return false;
            }
            i = i + 1;
        }
        true
    }

    /// Position `i` ends a cell.
    pub fn is_cell_end(&self, i: usize) -> (r: bool)
        requires
            i < self.nest.ptn().len(),
        ensures
            r == (self.nest.ptn()[i as int] <= self.level),
    {
        self.nest.ptn_at(i) <= self.level
    }

    /// Last index of the cell containing `i`.
    pub fn cell_end(&self, i: usize) -> (r: usize)
        requires
            self.wf(),
            i < self.nest.ptn().len(),
        ensures
            is_cell_end_from(self.nest.ptn(), self.level, i as int, r as int),
    {
        let n = self.nest.ptn_len();
        let mut end = i;
        while !self.is_cell_end(end)
            invariant
                self.wf(),
                n == self.nest.ptn().len(),
                i <= end < self.nest.ptn().len(),
                forall|k: int| i <= k < end ==> #[trigger] self.nest.ptn()[k] > self.level,
            decreases self.nest.ptn().len() - end,
        {
            end = end + 1;
        }
        end
    }

    /// The set of the vertices of the cell that starts at `start`, out of the
    /// `n` vertices.
    pub fn get_splitters(&self, start: usize) -> (r: BitSet)
        requires
            self.wf(),
            start < self.nest.lab().len(),
            self.nest.lab().len() <= max_bits(),
            forall|k: int| 0 <= k < self.nest.lab().len() ==> #[trigger] self.nest.lab()[k] < self.nest.lab().len(),
        ensures
            bitset_bits(r).len() == self.nest.lab().len(),
            exists|e: int|
                #![trigger is_cell_end_from(self.nest.ptn(), self.level, start as int, e)]
                is_cell_end_from(self.nest.ptn(), self.level, start as int, e) && forall|v: int|
                    0 <= v < self.nest.lab().len() ==> (#[trigger] bitset_bits(r)[v] <==> exists|k: int|
                        start <= k <= e && self.nest.lab()[k] == v),
    {
        let n = self.nest.lab_len();
        let mut set = BitSet::zeros(n);
        let end = self.cell_end(start);
        let mut i = start;
        while i <= end
            invariant
                self.wf(),
                n == self.nest.lab().len(),
                is_cell_end_from(self.nest.ptn(), self.level, start as int, end as int),
                start <= i <= end + 1,
                end < n,
                forall|k: int| 0 <= k < n ==> #[trigger] self.nest.lab()[k] < n,
                bitset_bits(set).len() == n,
                forall|v: int|
                    0 <= v < n ==> (#[trigger] bitset_bits(set)[v] <==> exists|k: int|
                        start <= k < i && self.nest.lab()[k] == v),
            decreases end + 1 - i,
        {
            let v = self.nest.get(i);
            let ghost before = bitset_bits(set);
            set.set(v, true);
            proof {
                assert forall|w: int| 0 <= w < n implies (#[trigger] bitset_bits(set)[w] <==> exists|k: int|
                    start <= k < i + 1 && self.nest.lab()[k] == w) by {
                    if w == v {
                        assert(self.nest.lab()[i as int] == w);
                    } else {
                        assert(bitset_bits(set)[w] == before[w]);
                        if exists|k: int| start <= k < i + 1 && self.nest.lab()[k] == w {
                            let k = choose|k: int| start <= k < i + 1 && self.nest.lab()[k] == w;
                            assert(k != i);
                        }
                    }
                }
            }
            i = i + 1;
        }
        assert(is_cell_end_from(self.nest.ptn(), self.level, start as int, end as int));
        set
    }

    /// The cells, as slices of the labelling.
    pub fn raw_cells(&self) -> (r: PartitionNestChunkBy<'_>)
        ensures
            r.lab() == self.nest.lab(),
            r.ptn() == self.nest.ptn(),
            r.level() == self.level,
    {
        self.nest.chunk_by(self.level)
    }

    /// The first positions of the cells of two vertices or more, in
    /// increasing order.
    pub fn non_singleton_starts(&self) -> (r: Vec<usize>)
        requires
            self.wf(),
        ensures
            lists_wide_starts(r@, self.nest.ptn(), self.level),
    {
        let n = self.nest.ptn_len();
        let mut r: Vec<usize> = Vec::new();
        let mut s: usize = 0;
        while s < n
            invariant
                self.wf(),
                n == self.nest.ptn().len(),
                s <= n,
                s == 0 || s == n || is_cell_start(self.nest.ptn(), self.level, s as int),
                forall|a: int, b: int| 0 <= a < b < r@.len() ==> #[trigger] r@[a] < #[trigger] r@[b],
                forall|a: int| 0 <= a < r@.len() ==> #[trigger] r@[a] < s,
                forall|a: int|
                    0 <= a < r@.len() ==> is_wide_cell_start(self.nest.ptn(), self.level, #[trigger] r@[a] as int),
                forall|t: int|
                    0 <= t < s && #[trigger] is_wide_cell_start(self.nest.ptn(), self.level, t)
                        ==> exists|a: int| 0 <= a < r@.len() && r@[a] == t,
            decreases n - s,
        {
            let e = self.cell_end(s);
            let ghost r_old = r@;
            if e > s {
                r.push(s);
            }
            proof {
                assert forall|t: int|
                    0 <= t < e + 1 && #[trigger] is_wide_cell_start(self.nest.ptn(), self.level, t)
                        implies exists|a: int| 0 <= a < r@.len() && r@[a] == t by {
                    if t < s {
                        let a = choose|a: int| 0 <= a < r_old.len() && r_old[a] == t;
                        assert(r@[a] == t);
                    } else if t == s {
                        assert(r@[r@.len() - 1] == t);
                    } else {
                        assert(self.nest.ptn()[t - 1] > self.level);
                    }
                }
            }
            s = e + 1;
        }
        r
    }

    /// Writes the level into the label at `i` and counts one more cell at
    /// the level.
    pub fn split(&mut self, i: usize)
        requires
            old(self).wf(),
            i < old(self).nest.lab().len(),
            old(self).nest.counts()[old(self).level as int] < usize::MAX,
        ensures
            final(self).wf(),
            final(self).level == old(self).level,
            final(self).nest.lab() == old(self).nest.lab().update(i as int, old(self).level),
            final(self).nest.ptn() == old(self).nest.ptn(),
            final(self).nest.counts() == old(self).nest.counts().update(
                old(self).level as int,
                (old(self).nest.counts()[old(self).level as int] + 1) as usize,
            ),
    {
        let level = self.level;
        self.nest.set_lab(i, level);
        self.nest.add_cell(level);
    }

    /// The number of vertices.
    pub fn len(&self) -> (r: usize)
        ensures
            r == self.nest.lab().len(),
    {
        self.nest.lab_len()
    }
}

} // verus!
