//! A subset of the cells of a partition, gone through in rotation.
use crate::nautil::{searched_bits, SetWordNautilTrait};
use crate::nauty::bitset::{first_true, lemma_first_true, max_bits, BitSet};
use crate::nauty::partition_nest::partition::cell::Cell;
use crate::nauty::partition_nest::partition::Partition;
use vstd::prelude::*;

verus! {

/// Cells of `partition`, by the positions where they start.
pub struct PartitionSubset<'a> {
    pub partition: &'a Partition,
    pub cells_indices: BitSet,
    pub hint: usize,
}

/// The cells of a subset, gone through in rotation from the current one.
pub struct PartitionSubsetIterator<'a> {
    pub subset: PartitionSubset<'a>,
    pub current_cell_index: usize,
}

impl<'a> PartitionSubsetIterator<'a> {
    /// Every position of the subset is one where `get_cell` may start a
    /// cell, and the current position lies within the set.
    pub open spec fn wf(self) -> bool {
        let p = self.subset.partition;
        let bits = self.subset.cells_indices@;
        &&& p.wf()
        &&& bits.len() <= max_bits()
        &&& self.current_cell_index <= bits.len()
        &&& forall|k: int|
            0 <= k < bits.len() && #[trigger] bits[k] ==> k < p.nest.lab().len() && (k == 0 || p.nest.ptn()[k - 1]
                <= p.level)
    }

    /// The position of the cell to give next: the current one if it is in
    /// the subset, else the next one found, else the first one.
    pub open spec fn next_index(self) -> Option<int> {
        let bits = self.subset.cells_indices@;
        let c = self.current_cell_index as int;
        if c < bits.len() && bits[c] {
            Some(c)
        } else if first_true(searched_bits(bits, Some(c as usize))) < bits.len() {
            Some(first_true(searched_bits(bits, Some(c as usize))))
        } else if first_true(bits) < bits.len() {
            Some(first_true(bits))
        } else {
            None
        }
    }

    /// The cell at the current position if it is in the subset; otherwise
    /// the current position moves to the next cell of the subset, or to the
    /// first one, and that cell is given; `None` for an empty subset.
    pub fn next(&mut self) -> (r: Option<Cell<'a>>)
        requires
            old(self).wf(),
        ensures
            final(self).wf(),
            final(self).subset.partition == old(self).subset.partition,
            final(self).subset.cells_indices == old(self).subset.cells_indices,
            r is None <==> old(self).next_index() is None,
            r matches Some(c) ==> {
                &&& old(self).next_index() == Some(c.first_lab_index as int)
                &&& final(self).current_cell_index == c.first_lab_index
                &&& c.partition == old(self).subset.partition
            },
    {
        let n = self.subset.cells_indices.len();
        if self.current_cell_index < n && self.subset.cells_indices.contains(self.current_cell_index) {
            Some(self.subset.partition.get_cell(self.current_cell_index))
        } else {
            let next_element = self.subset.cells_indices.next_element(Some(self.current_cell_index));
            proof {
                lemma_first_true(self.subset.cells_indices@);
                lemma_first_true(searched_bits(self.subset.cells_indices@, Some(self.current_cell_index)));
            }
            self.current_cell_index = match next_element {
                Some(next_element) => {
                    proof {
                        assert(searched_bits(self.subset.cells_indices@, Some(old(self).current_cell_index))[next_element as int]);
                    }
                    next_element
                },
                None => match self.subset.cells_indices.first_one() {
                    Some(first_one) => first_one,
                    None => {
                        return None;
                    },
                },
            };
            Some(self.subset.partition.get_cell(self.current_cell_index))
        }
    }
}

} // verus!
