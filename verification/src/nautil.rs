//! Set utilities of nauty's `nautil.c`.
use crate::nauty::bitset::{first_true, lemma_first_true, max_bits, BitSet};
use crate::nauty::partition_nest::partition::Partition;
use crate::naugraph::{refine_nest, refine_result, refine_start};
use crate::nauty::Graph;
use vstd::prelude::*;

verus! {

/// The bits searched by `next_element`: the elements of the set after
/// position `pos`, or all of them.
pub open spec fn searched_bits(s: Seq<bool>, pos: Option<usize>) -> Seq<bool> {
    match pos {
        Some(p) => Seq::new(s.len(), |k: int| k > p && s[k]),
        None => s,
    }
}

/// Searching a set for its next element.
pub trait SetWordNautilTrait: Sized + View<V = Seq<bool>> {
    /// The position of the first element of the set after position `pos`
    /// (or the first element, for `None`); `None` when there is none.
    fn next_element(&self, pos: Option<usize>) -> (r: Option<usize>)
        requires
            self@.len() <= max_bits(),
            pos matches Some(p) ==> p <= self@.len(),
        ensures
            r is None <==> first_true(searched_bits(self@, pos)) == self@.len(),
            r matches Some(i) ==> i == first_true(searched_bits(self@, pos)),
    ;
}

impl SetWordNautilTrait for BitSet {
    fn next_element(&self, pos: Option<usize>) -> (r: Option<usize>) {
        let n = self.len();
        let start: usize = match pos {
            Some(p) => p + 1,
            None => 0,
        };
        let ghost searched = searched_bits(self@, pos);
        proof {
            lemma_first_true(searched);
        }
        let mut k = start;
        while k < n
            invariant
                n == self@.len(),
                searched == searched_bits(self@, pos),
                start <= k,
                pos matches Some(p) ==> start == p + 1,
                pos is None ==> start == 0,
                forall|j: int| 0 <= j < k && j < n ==> !#[trigger] searched[j],
            decreases n - k,
        {
            if self.get(k) {
                assert(searched[k as int]);
                return Some(k);
            }
            k = k + 1;
        }
        None
    }
}

/// Chooses no target cell: the set `tcell` is left as it is.
pub fn maketargetcell(
    _g: &Graph,
    _partition: &Partition,
    tcell: &mut BitSet,
    _tc_level: usize,
    _hint: usize,
)
    ensures
        *final(tcell) == *old(tcell),
{
}

/// Refines `partition` by `refine_nest` with no vertex invariant: the
/// refinement is that of `refine_nest`, and `qinvar` is set to 0.
pub fn doref_nest(
    g: &mut Graph,
    partition: &mut Partition,
    qinvar: &mut usize,
    count: &mut Vec<usize>,
    active: &mut BitSet,
    code: &mut usize,
)
    requires
        old(g).wf(),
        1 <= old(g).num_vertices() <= usize::BITS,
        old(partition).wf(),
        old(partition).nest.lab().len() == old(g).num_vertices(),
        forall|k: int| 0 <= k < old(g).num_vertices() ==> #[trigger] old(partition).nest.lab()[k] < old(g).num_vertices(),
        old(active)@.len() == old(g).num_vertices(),
        old(partition).nest.counts()[old(partition).level as int] <= old(g).num_vertices(),
    ensures
        *final(qinvar) == 0,
        *final(g) == *old(g),
        final(partition).level == old(partition).level,
        final(partition).nest.counts().len() == old(partition).nest.counts().len(),
        forall|l: int|
            0 <= l < old(partition).nest.counts().len() && l != old(partition).level
                ==> #[trigger] final(partition).nest.counts()[l] == old(partition).nest.counts()[l],
        refine_result(
            *old(g),
            old(partition).level,
            refine_start(
                old(partition).nest.lab(),
                old(partition).nest.ptn(),
                old(partition).nest.counts()[old(partition).level as int],
                old(count)@,
                old(active)@,
            ),
            final(partition).nest.lab(),
            final(partition).nest.ptn(),
            final(partition).nest.counts()[old(partition).level as int],
            final(count)@,
            final(active)@,
            *final(code),
        ),
{
    refine_nest(g, partition, count, active, code);
    *qinvar = 0;
}

} // verus!
