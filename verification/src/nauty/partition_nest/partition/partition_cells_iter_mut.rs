//! The cells of a partition, one by one, each to be changed in place.
use crate::nauty::partition_nest::is_cell_end_from;
use crate::nauty::partition_nest::partition_nest_chunk_by::{
    closes_at, lemma_chunks_step, lemma_run_len, run_len, spec_chunks,
};
use crate::nauty::partition_nest::partition::cell_mut::CellMut;
use crate::nauty::partition_nest::partition::{is_cell_start, Partition};
use vstd::prelude::*;

verus! {

/// The start of the cell `k` cells after the one that starts at `start`, or
/// the number of vertices when there are not that many.
pub open spec fn skip_cells(ptn: Seq<usize>, level: usize, start: int, k: nat) -> int
    decreases k,
{
    if k == 0 || start < 0 || start >= ptn.len() {
        start
    } else {
        skip_cells(ptn, level, start + run_len(ptn.skip(start), level), (k - 1) as nat)
    }
}

/// The end of the cell that starts at `i` is given by `run_len`.
pub proof fn lemma_cell_end_run_len(ptn: Seq<usize>, level: usize, i: int, e: int)
    requires
        0 <= i,
        closes_at(ptn, level),
        is_cell_end_from(ptn, level, i, e),
    ensures
        e + 1 == i + run_len(ptn.skip(i), level),
{
    let t = ptn.skip(i);
    assert(closes_at(t, level)) by {
        assert(t.last() == ptn.last());
    }
    lemma_run_len(t, level);
    let l = run_len(t, level) as int;
    assert(t[l - 1] == ptn[i + l - 1]);
    if i + l - 1 < e {
        assert(ptn[i + l - 1] > level);
    }
    if e < i + l - 1 {
        assert(t[e - i] == ptn[e]);
    }
}

/// The cells at `level` from a cell start `i` (or the end) on, counted from
/// 0: the `k`-th starts at `skip_cells(ptn, level, i, k)` and runs for
/// `run_len` positions, and there are more than `k` of them exactly when
/// that start is below the number of vertices.
pub proof fn lemma_chunks_skip(lab: Seq<usize>, ptn: Seq<usize>, level: usize, i: int, k: nat)
    requires
        lab.len() == ptn.len(),
        closes_at(ptn, level),
        i == ptn.len() || is_cell_start(ptn, level, i),
    ensures
        ({
            let c = spec_chunks(lab.skip(i), ptn.skip(i), level);
            let s = skip_cells(ptn, level, i, k);
            &&& (k < c.len() <==> s < ptn.len())
            &&& s == ptn.len() || is_cell_start(ptn, level, s)
            &&& s < ptn.len() ==> c[k as int] == lab.subrange(s, s + run_len(ptn.skip(s), level))
        }),
    decreases k,
{
    let c = spec_chunks(lab.skip(i), ptn.skip(i), level);
    if i == ptn.len() {
        assert(lab.skip(i).len() == 0);
        assert(c.len() == 0);
        if k > 0 {
            assert(skip_cells(ptn, level, i, k) == i);
        }
    } else {
        let t = ptn.skip(i);
        assert(closes_at(t, level)) by {
            assert(t.last() == ptn.last());
        }
        lemma_run_len(t, level);
        let l = run_len(t, level) as int;
        let e = i + l - 1;
        assert(ptn[e] == t[l - 1]);
        assert forall|q: int| i <= q < e implies #[trigger] ptn[q] > level by {
            assert(ptn[q] == t[q - i]);
        }
        lemma_chunks_step(lab, ptn, level, i, e);
        let rest = spec_chunks(lab.skip(e + 1), ptn.skip(e + 1), level);
        assert(c == seq![lab.subrange(i, e + 1)] + rest);
        if k > 0 {
            lemma_chunks_skip(lab, ptn, level, e + 1, (k - 1) as nat);
            assert(skip_cells(ptn, level, i, k) == skip_cells(ptn, level, e + 1, (k - 1) as nat));
            if k < c.len() {
                assert(c[k as int] == rest[k - 1]);
            }
        }
    }
}

/// The cells of `partition` from the one that starts at `index` on, each
/// lent out in turn; iterators are lazy and do nothing unless consumed.
#[must_use]
pub struct PartitionCellsIterMut<'a> {
    pub partition: &'a mut Partition,
    pub index: usize,
}

impl<'a> PartitionCellsIterMut<'a> {
    /// The cells not yet lent out: those from `index` on.
    pub open spec fn remaining_cells(self) -> Seq<Seq<usize>> {
        spec_chunks(
            self.partition.nest.lab().skip(self.index as int),
            self.partition.nest.ptn().skip(self.index as int),
            self.partition.level,
        )
    }

    /// `index` is the start of a cell or the number of vertices.
    pub open spec fn wf(self) -> bool {
        &&& self.partition.wf()
        &&& (self.index == self.partition.nest.lab().len() || is_cell_start(
            self.partition.nest.ptn(),
            self.partition.level,
            self.index as int,
        ))
    }

    /// The next cell, which starts at `index`; `None` past the last one.
    pub fn next<'b>(&'b mut self) -> (r: Option<CellMut<'b>>)
        requires
            old(self).wf(),
        ensures
            *final(final(self).partition) == *final(old(self).partition),
            r is None <==> old(self).index == old(self).partition.nest.lab().len(),
            r is None <==> old(self).remaining_cells().len() == 0,
            r is None ==> *final(self) == *old(self),
            r matches Some(c) ==> c.lab() == old(self).remaining_cells()[0],
            r matches Some(c) ==> {
                &&& *c.partition == *old(self).partition
                &&& *final(self).partition == *final(c.partition)
                &&& c.wf()
                &&& c.level == old(self).partition.level
                &&& c.first_lab_index == old(self).index
                &&& final(self).index == c.first_lab_index + c.cell_len
                &&& is_cell_end_from(
                    old(self).partition.nest.ptn(),
                    old(self).partition.level,
                    old(self).index as int,
                    final(self).index - 1,
                )
            },
    {
        let n = self.partition.len();
        proof {
            lemma_chunks_skip(self.partition.nest.lab(), self.partition.nest.ptn(), self.partition.level, self.index as int, 0);
        }
        if self.index == n {
            None
        } else {
            let first_lab_index = self.index;
            let end = self.partition.cell_end(first_lab_index);
            let level = self.partition.level;
            proof {
                lemma_chunks_skip(self.partition.nest.lab(), self.partition.nest.ptn(), level, first_lab_index as int, 0);
                lemma_cell_end_run_len(self.partition.nest.ptn(), level, first_lab_index as int, end as int);
            }
            self.index = end + 1;
            Some(CellMut { partition: &mut *self.partition, level, first_lab_index, cell_len: end - first_lab_index + 1 })
        }
    }

    /// The cell `n` cells after the next one; `None` when there are not
    /// that many cells left.
    pub fn nth<'b>(&'b mut self, n: usize) -> (r: Option<CellMut<'b>>)
        requires
            old(self).wf(),
        ensures
            *final(final(self).partition) == *final(old(self).partition),
            r is None <==> skip_cells(
                old(self).partition.nest.ptn(),
                old(self).partition.level,
                old(self).index as int,
                n as nat,
            ) == old(self).partition.nest.lab().len(),
            r is None <==> n >= old(self).remaining_cells().len(),
            r matches Some(c) ==> c.lab() == old(self).remaining_cells()[n as int],
            r is None ==> *final(self).partition == *old(self).partition,
            r matches Some(c) ==> {
                &&& *c.partition == *old(self).partition
                &&& *final(self).partition == *final(c.partition)
                &&& c.wf()
                &&& c.level == old(self).partition.level
                &&& c.first_lab_index == skip_cells(
                    old(self).partition.nest.ptn(),
                    old(self).partition.level,
                    old(self).index as int,
                    n as nat,
                )
                &&& is_cell_end_from(
                    old(self).partition.nest.ptn(),
                    old(self).partition.level,
                    c.first_lab_index as int,
                    c.first_lab_index + c.cell_len - 1,
                )
            },
    {
        proof {
            lemma_chunks_skip(
                old(self).partition.nest.lab(),
                old(self).partition.nest.ptn(),
                old(self).partition.level,
                old(self).index as int,
                n as nat,
            );
        }
        let mut i: usize = 0;
        while i < n
            invariant
                old(self).wf(),
                self.wf(),
                *self.partition == *old(self).partition,
                *final(self.partition) == *final(old(self).partition),
                i <= n,
                skip_cells(
                    old(self).partition.nest.ptn(),
                    old(self).partition.level,
                    old(self).index as int,
                    n as nat,
                ) == skip_cells(
                    old(self).partition.nest.ptn(),
                    old(self).partition.level,
                    self.index as int,
                    (n - i) as nat,
                ),
            decreases n - i,
        {
            let ghost idx = self.index;
            let c = self.next();
            match c {
                None => {
                    proof {
                        lemma_chunks_skip(
                            old(self).partition.nest.lab(),
                            old(self).partition.nest.ptn(),
                            old(self).partition.level,
                            old(self).index as int,
                            n as nat,
                        );
                    }
                    return None;
                },
                Some(c) => {
                    proof {
                        lemma_cell_end_run_len(
                            old(self).partition.nest.ptn(),
                            old(self).partition.level,
                            idx as int,
                            c.first_lab_index + c.cell_len - 1,
                        );
                    }
                },
            }
            i = i + 1;
        }
        self.next()
    }
}

impl Partition {
    /// The cells, one by one, from the first, each to be changed in place.
    pub fn cells_mut(&mut self) -> (r: PartitionCellsIterMut<'_>)
        ensures
            *r.partition == *old(self),
            *final(self) == *final(r.partition),
            r.index == 0,
            r.remaining_cells() == old(self).nest.cells(old(self).level),
    {
        let r = PartitionCellsIterMut { partition: self, index: 0 };
        assert(r.partition.nest.lab().skip(0) =~= r.partition.nest.lab());
        assert(r.partition.nest.ptn().skip(0) =~= r.partition.nest.ptn());
        r
    }
}

} // verus!
