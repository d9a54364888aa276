//! The cells of a partition, one by one.
use crate::nauty::partition_nest::is_cell_end_from;
use crate::nauty::partition_nest::partition::cell::Cell;
use crate::nauty::partition_nest::partition::{is_cell_start, Partition};
use crate::nauty::partition_nest::partition::partition_cells_iter_mut::{lemma_cell_end_run_len, lemma_chunks_skip};
use crate::nauty::partition_nest::partition_nest_chunk_by::spec_chunks;
use vstd::prelude::*;
use vstd::slice::slice_subrange;

verus! {

/// The cells of `partition` from the one that starts at `index` on;
/// iterators are lazy and do nothing unless consumed.
#[must_use]
pub struct PartitionCellsIter<'a> {
    pub partition: &'a Partition,
    pub index: usize,
}

impl<'a> PartitionCellsIter<'a> {
    /// The cells not yet returned: those from `index` on.
    pub open spec fn remaining_cells(self) -> Seq<Seq<usize>> {
        spec_chunks(
            self.partition.nest.lab().skip(self.index as int),
            self.partition.nest.ptn().skip(self.index as int),
            self.partition.level,
        )
    }

    /// `index` is the start of a cell or the number of vertices.
    pub open spec fn wf(self) -> bool {
        &&& self.partition.wf()
        &&& (self.index == self.partition.nest.lab().len() || is_cell_start(
            self.partition.nest.ptn(),
            self.partition.level,
            self.index as int,
        ))
    }

    /// The next cell, which starts at `index`; `None` past the last one.
    pub fn next(&mut self) -> (r: Option<Cell<'a>>)
        requires
            old(self).wf(),
        ensures
            final(self).wf(),
            final(self).partition == old(self).partition,
            r is None <==> old(self).index == old(self).partition.nest.lab().len(),
            r is None <==> old(self).remaining_cells().len() == 0,
            r is None ==> final(self).index == old(self).index,
            r matches Some(c) ==> c.cell_lab@ == old(self).remaining_cells()[0] && final(self).remaining_cells()
                == old(self).remaining_cells().drop_first(),
            r matches Some(c) ==> {
                &&& c.partition == old(self).partition
                &&& c.first_lab_index == old(self).index
                &&& is_cell_end_from(
                    old(self).partition.nest.ptn(),
                    old(self).partition.level,
                    old(self).index as int,
                    final(self).index - 1,
                )
                &&& c.cell_lab@ == old(self).partition.nest.lab().subrange(
                    old(self).index as int,
                    final(self).index as int,
                )
            },
    {
        let n = self.partition.len();
        proof {
            lemma_chunks_skip(self.partition.nest.lab(), self.partition.nest.ptn(), self.partition.level, self.index as int, 0);
        }
        if self.index == n {
            None
        } else {
            let first_lab_index = self.index;
            let end = self.partition.cell_end(first_lab_index);
            proof {
                let lab = self.partition.nest.lab();
                let ptn = self.partition.nest.ptn();
                let level = self.partition.level;
                lemma_cell_end_run_len(ptn, level, first_lab_index as int, end as int);
                crate::nauty::partition_nest::partition_nest_chunk_by::lemma_chunks_step(
                    lab,
                    ptn,
                    level,
                    first_lab_index as int,
                    end as int,
                );
                assert(spec_chunks(lab.skip(end + 1), ptn.skip(end + 1), level) =~= spec_chunks(
                    lab.skip(first_lab_index as int),
                    ptn.skip(first_lab_index as int),
                    level,
                ).drop_first());
            }
            self.index = end + 1;
            let lab = slice_subrange(self.partition.nest.lab_slice(), first_lab_index, end + 1);
            Some(Cell { partition: self.partition, first_lab_index, cell_lab: lab })
        }
    }

    /// Bounds on the number of cells left: none at the end, else at least
    /// one and at most the number of labels left.
    pub fn size_hint(&self) -> (r: (usize, Option<usize>))
        requires
            self.index <= self.partition.nest.lab().len(),
        ensures
            self.index == self.partition.nest.lab().len() ==> r == (0usize, Some(0usize)),
            self.index < self.partition.nest.lab().len() ==> r == (
                1usize,
                Some((self.partition.nest.lab().len() - self.index) as usize),
            ),
    {
        let n = self.partition.len();
        if self.index == n {
            (0, Some(0))
        } else {
            (1, Some(n - self.index))
        }
    }
}

impl Partition {
    /// The cells, one by one, from the first.
    pub fn cells(&self) -> (r: PartitionCellsIter<'_>)
        ensures
            r.partition == self,
            r.index == 0,
            r.remaining_cells() == self.nest.cells(self.level),
    {
        let r = PartitionCellsIter { partition: self, index: 0 };
        assert(self.nest.lab().skip(0) =~= self.nest.lab());
        assert(self.nest.ptn().skip(0) =~= self.nest.ptn());
        r
    }

    /// The partition as text: its cells separated by `" | "`, each as its
    /// labels separated by `", "`.
    pub fn string(&self) -> (r: String)
        requires
            self.wf(),
        ensures
            r@ == crate::nauty::partition_nest::partition_text(self.nest.cells(self.level)),
    {
        self.nest.partition_string(self.level)
    }
}

} // verus!
