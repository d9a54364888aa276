//! Partition nests `(lab, ptn)` of nauty.
//!
//! A partition nest is represented by a pair `(lab, ptn)`. The "partition at
//! level x" is the partition whose cells are `{lab[i], lab[i+1], ..., lab[j]}`,
//! where `[i, j]` is a maximal subinterval of `[0, n-1]` such that
//! `ptn[k] > x` for `i <= k < j` and `ptn[j] <= x`. The partition at level 0
//! is given to nauty by the user; it is refined for the root of the tree,
//! which has level 1.
pub mod partition;
pub mod partition_nest_chunk_by;

use crate::nauty::partition_nest::partition_nest_chunk_by::{
    closes_at, lemma_run_len, run_len, spec_chunks, PartitionNestChunkBy,
};
use crate::naugraph::{refine, refine_result, refine_start};
use crate::nauty::bitset::BitSet;
use crate::nauty::{Graph, NAUTY_INFINITY};
use crate::text::{decimal, decimal_string, intersperse_join, join, numbers_string, numbers_text, views};
use vstd::prelude::*;

verus! {

/// The largest `ptn` entry below `NAUTY_INFINITY`, or 0.
pub open spec fn spec_max_level(ptn: Seq<usize>) -> usize
    decreases ptn.len(),
{
    if ptn.len() == 0 {
        0
    } else {
        let m = spec_max_level(ptn.drop_last());
        let x = ptn.last();
        if x < NAUTY_INFINITY && x > m {
            x
        } else {
            m
        }
    }
}

/// The number of cells at each level from 0 to `max`.
pub open spec fn cell_counts(lab: Seq<usize>, ptn: Seq<usize>, max: usize) -> Seq<usize> {
    Seq::new((max + 1) as nat, |l: int| spec_chunks(lab, ptn, l as usize).len() as usize)
}

/// The length of the first run depends on `level` only through which
/// `ptn` entries are at most `level`.
proof fn lemma_run_len_same(ptn: Seq<usize>, l1: usize, l2: usize)
    requires
        forall|k: int| 0 <= k < ptn.len() ==> (#[trigger] ptn[k] <= l1 <==> ptn[k] <= l2),
    ensures
        run_len(ptn, l1) == run_len(ptn, l2),
    decreases ptn.len(),
{
    if ptn.len() > 0 {
        assert forall|k: int| 0 <= k < ptn.drop_first().len() implies (#[trigger] ptn.drop_first()[k] <= l1
            <==> ptn.drop_first()[k] <= l2) by {
            assert(ptn.drop_first()[k] == ptn[k + 1]);
        }
        lemma_run_len_same(ptn.drop_first(), l1, l2);
        assert(ptn[0] <= l1 <==> ptn[0] <= l2);
    }
}

/// The cells depend on `level` only through which `ptn` entries are at
/// most `level`.
proof fn lemma_chunks_same(lab: Seq<usize>, ptn: Seq<usize>, l1: usize, l2: usize)
    requires
        lab.len() == ptn.len(),
        forall|k: int| 0 <= k < ptn.len() ==> (#[trigger] ptn[k] <= l1 <==> ptn[k] <= l2),
    ensures
        spec_chunks(lab, ptn, l1) == spec_chunks(lab, ptn, l2),
    decreases lab.len(),
{
    if lab.len() > 0 {
        lemma_run_len_same(ptn, l1, l2);
        let l = run_len(ptn, l1) as int;
        if 0 < l <= lab.len() {
            assert forall|k: int| 0 <= k < ptn.skip(l).len() implies (#[trigger] ptn.skip(l)[k] <= l1
                <==> ptn.skip(l)[k] <= l2) by {
                assert(ptn.skip(l)[k] == ptn[k + l]);
            }
            lemma_chunks_same(lab.skip(l), ptn.skip(l), l1, l2);
        }
    }
}

/// For the numbers of cells kept by `new`, the one read for a level below
/// `NAUTY_INFINITY` (at the level, or at the largest level beyond it, as
/// `numcells` reads it) is the number of cells of the nest at that level.
pub proof fn lemma_cell_counts_read(lab: Seq<usize>, ptn: Seq<usize>, l: usize)
    requires
        lab.len() == ptn.len(),
        lab.len() <= usize::MAX,
        l < NAUTY_INFINITY,
    ensures
        cell_counts(lab, ptn, spec_max_level(ptn))[(if l < spec_max_level(ptn) {
            l
        } else {
            spec_max_level(ptn)
        }) as int] == spec_chunks(lab, ptn, l).len(),
{
    let m = spec_max_level(ptn);
    lemma_max_level(ptn);
    lemma_chunks_cover_len(lab, ptn, l);
    if l >= m {
        assert forall|k: int| 0 <= k < ptn.len() implies (#[trigger] ptn[k] <= l <==> ptn[k] <= m) by {
            if ptn[k] < NAUTY_INFINITY {
                assert(ptn[k] <= m);
            }
        }
        lemma_chunks_same(lab, ptn, l, m);
        lemma_chunks_cover_len(lab, ptn, m);
    }
}

/// There are no more cells than labels.
proof fn lemma_chunks_cover_len(lab: Seq<usize>, ptn: Seq<usize>, level: usize)
    ensures
        spec_chunks(lab, ptn, level).len() <= lab.len(),
    decreases lab.len(),
{
    if lab.len() > 0 {
        let l = run_len(ptn, level) as int;
        if 0 < l <= lab.len() {
            lemma_chunks_cover_len(lab.skip(l), ptn.skip(l), level);
        }
    }
}

/// `lab` is a permutation of `0..n`.
pub open spec fn is_permutation(lab: Seq<usize>) -> bool {
    &&& forall|k: int| 0 <= k < lab.len() ==> #[trigger] lab[k] < lab.len()
    &&& forall|i: int, j: int| 0 <= i < j < lab.len() ==> #[trigger] lab[i] != #[trigger] lab[j]
}

/// Labels that hold the same multiset of vertices as a permutation of
/// `0..n` are a permutation of `0..n` too: moving labels around, as the
/// operations on cells and `refine` do, keeps the labels of a partition nest
/// a permutation.
pub proof fn lemma_same_labels_keep_permutation(a: Seq<usize>, b: Seq<usize>)
    requires
        is_permutation(a),
        a.to_multiset() =~= b.to_multiset(),
    ensures
        is_permutation(b),
{
    broadcast use vstd::seq_lib::group_to_multiset_ensures;

    assert(a.len() == b.len()) by {
        assert(a.len() == a.to_multiset().len());
        assert(b.len() == b.to_multiset().len());
    }
    assert(a.no_duplicates()) by {
        assert forall|i: int, j: int| 0 <= i < a.len() && 0 <= j < a.len() && i != j implies a[i] != a[j] by {
            if i < j {
                assert(a[i] != a[j]);
            } else {
                assert(a[j] != a[i]);
            }
        }
    }
    a.lemma_multiset_has_no_duplicates();
    b.lemma_multiset_has_no_duplicates_conv();
    assert forall|k: int| 0 <= k < b.len() implies #[trigger] b[k] < b.len() by {
        assert(b.contains(b[k]));
        assert(b.to_multiset().count(b[k]) > 0);
        assert(a.to_multiset().count(b[k]) > 0);
        assert(a.contains(b[k]));
        let j = choose|j: int| 0 <= j < a.len() && a[j] == b[k];
        assert(a[j] < a.len());
    }
    assert forall|i: int, j: int| 0 <= i < j < b.len() implies #[trigger] b[i] != #[trigger] b[j] by {
        assert(b.no_duplicates());
    }
}

/// The first position at or after `i` whose `ptn` entry is at most `level`.
pub open spec fn is_cell_end_from(ptn: Seq<usize>, level: usize, i: int, e: int) -> bool {
    &&& i <= e < ptn.len()
    &&& ptn[e] <= level
    &&& forall|k: int| i <= k < e ==> #[trigger] ptn[k] > level
}

pub proof fn lemma_max_level(ptn: Seq<usize>)
    ensures
        spec_max_level(ptn) < NAUTY_INFINITY,
        forall|k: int|
            0 <= k < ptn.len() && #[trigger] ptn[k] < NAUTY_INFINITY ==> ptn[k] <= spec_max_level(
                ptn,
            ),
    decreases ptn.len(),
{
    if ptn.len() > 0 {
        lemma_max_level(ptn.drop_last());
        assert forall|k: int|
            0 <= k < ptn.len() && #[trigger] ptn[k] < NAUTY_INFINITY implies ptn[k]
            <= spec_max_level(ptn) by {
            if k < ptn.len() - 1 {
                assert(ptn[k] == ptn.drop_last()[k]);
            }
        }
    }
}

/// Writing `level` into `ptn` makes the largest level at most the larger of
/// `level` and the largest level before.
pub proof fn lemma_max_level_update(ptn: Seq<usize>, i: int, level: usize)
    requires
        0 <= i < ptn.len(),
    ensures
        spec_max_level(ptn.update(i, level)) <= if spec_max_level(ptn) > level { spec_max_level(ptn) } else { level },
    decreases ptn.len(),
{
    if i < ptn.len() - 1 {
        lemma_max_level_update(ptn.drop_last(), i, level);
        assert(ptn.update(i, level).drop_last() =~= ptn.drop_last().update(i, level));
    } else {
        assert(ptn.update(i, level).drop_last() =~= ptn.drop_last());
    }
}

/// The cells separated by `" | "`, each as its numbers separated by `", "`.
pub open spec fn partition_text(cells: Seq<Seq<usize>>) -> Seq<char> {
    join(Seq::new(cells.len(), |i: int| numbers_text(cells[i])), seq![' ', '|', ' '])
}

/// One line per level below `k`: the level, two spaces and the partition
/// text at that level.
pub open spec fn levels_text(lab: Seq<usize>, ptn: Seq<usize>, k: nat) -> Seq<char>
    decreases k,
{
    if k == 0 {
        Seq::empty()
    } else {
        let l = (k - 1) as nat;
        levels_text(lab, ptn, l) + decimal(l) + ":  "@ + partition_text(spec_chunks(lab, ptn, l as usize))
            + "\n"@
    }
}

/// The debugging text of a nest: its `lab` and `ptn`, then one line per
/// level up to `max`.
pub open spec fn nest_text(lab: Seq<usize>, ptn: Seq<usize>, max: usize) -> Seq<char> {
    "PartitionNest { lab: ["@ + numbers_text(lab) + "], ptn: ["@ + numbers_text(ptn) + "] }\n"@
        + levels_text(lab, ptn, (max + 1) as nat)
}

/// The number of positions whose `ptn` entry is at most `level`: the
/// number of cell ends at `level`.
pub open spec fn count_ends(ptn: Seq<usize>, level: usize) -> nat
    decreases ptn.len(),
{
    if ptn.len() == 0 {
        0
    } else {
        (if ptn[0] <= level {
            1nat
        } else {
            0nat
        }) + count_ends(ptn.drop_first(), level)
    }
}

/// Skipping a run of entries above `level` closed by one at most `level`
/// skips one cell end.
proof fn lemma_count_ends_run(ptn: Seq<usize>, level: usize, k: int)
    requires
        1 <= k <= ptn.len(),
        ptn[k - 1] <= level,
        forall|j: int| 0 <= j < k - 1 ==> #[trigger] ptn[j] > level,
    ensures
        count_ends(ptn, level) == 1 + count_ends(ptn.skip(k), level),
    decreases k,
{
    if k == 1 {
        assert(ptn.drop_first() =~= ptn.skip(1));
    } else {
        assert forall|j: int| 0 <= j < k - 2 implies #[trigger] ptn.drop_first()[j] > level by {
            assert(ptn.drop_first()[j] == ptn[j + 1]);
        }
        lemma_count_ends_run(ptn.drop_first(), level, k - 1);
        assert(ptn.drop_first().skip(k - 1) =~= ptn.skip(k));
    }
}

/// The cells of a partition nest at any level are its labels, in order, cut
/// into non-empty runs, one run per cell end: the partition at a level is a
/// partition of the labels, with as many cells as `ptn` entries at most the
/// level.
pub proof fn lemma_cells_cover_labels(lab: Seq<usize>, ptn: Seq<usize>, level: usize)
    requires
        lab.len() == ptn.len(),
        closes_at(ptn, level),
    ensures
        spec_chunks(lab, ptn, level).flatten() == lab,
        forall|c: int| 0 <= c < spec_chunks(lab, ptn, level).len() ==> #[trigger] spec_chunks(lab, ptn, level)[c].len() > 0,
        spec_chunks(lab, ptn, level).len() == count_ends(ptn, level),
    decreases lab.len(),
{
    if lab.len() > 0 {
        lemma_run_len(ptn, level);
        let l = run_len(ptn, level) as int;
        let rest_lab = lab.skip(l);
        let rest_ptn = ptn.skip(l);
        lemma_cells_cover_labels(rest_lab, rest_ptn, level);
        lemma_count_ends_run(ptn, level, l);
        let cs = spec_chunks(lab, ptn, level);
        let rs = spec_chunks(rest_lab, rest_ptn, level);
        assert(cs == seq![lab.take(l)] + rs);
        assert(cs.drop_first() =~= rs);
        assert(lab.take(l) + rest_lab =~= lab);
        assert forall|c: int| 0 <= c < cs.len() implies #[trigger] cs[c].len() > 0 by {
            if c > 0 {
                assert(cs[c] == rs[c - 1]);
            }
        }
    } else {
        assert(spec_chunks(lab, ptn, level).len() == 0);
    }
}

/// A higher level has at least as many cell ends.
proof fn lemma_count_ends_mono(ptn: Seq<usize>, l1: usize, l2: usize)
    requires
        l1 <= l2,
    ensures
        count_ends(ptn, l1) <= count_ends(ptn, l2),
    decreases ptn.len(),
{
    if ptn.len() > 0 {
        lemma_count_ends_mono(ptn.drop_first(), l1, l2);
    }
}

/// All entries at most `level` exactly when every position ends a cell.
proof fn lemma_count_ends_full(ptn: Seq<usize>, level: usize)
    ensures
        count_ends(ptn, level) <= ptn.len(),
        count_ends(ptn, level) == ptn.len() <==> forall|p: int| 0 <= p < ptn.len() ==> #[trigger] ptn[p] <= level,
    decreases ptn.len(),
{
    if ptn.len() > 0 {
        lemma_count_ends_full(ptn.drop_first(), level);
        if forall|p: int| 0 <= p < ptn.len() ==> #[trigger] ptn[p] <= level {
            assert forall|p: int| 0 <= p < ptn.len() - 1 implies #[trigger] ptn.drop_first()[p] <= level by {
                assert(ptn.drop_first()[p] == ptn[p + 1]);
            }
        }
        if count_ends(ptn, level) == ptn.len() {
            assert forall|p: int| 0 <= p < ptn.len() implies #[trigger] ptn[p] <= level by {
                if p > 0 {
                    assert(ptn[p] == ptn.drop_first()[p - 1]);
                }
            }
        }
    }
}

/// The partitions of a nest are nested: a higher level has at least as
/// many cells.
pub proof fn lemma_cells_grow_with_level(lab: Seq<usize>, ptn: Seq<usize>, l1: usize, l2: usize)
    requires
        lab.len() == ptn.len(),
        closes_at(ptn, l1),
        l1 <= l2,
    ensures
        spec_chunks(lab, ptn, l1).len() <= spec_chunks(lab, ptn, l2).len(),
{
    lemma_cells_cover_labels(lab, ptn, l1);
    lemma_cells_cover_labels(lab, ptn, l2);
    lemma_count_ends_mono(ptn, l1, l2);
}

/// A partition is discrete, every `ptn` entry at most its level, exactly
/// when it has one cell per label.
pub proof fn lemma_discrete_iff_singletons(lab: Seq<usize>, ptn: Seq<usize>, level: usize)
    requires
        lab.len() == ptn.len(),
        closes_at(ptn, level),
    ensures
        (forall|p: int| 0 <= p < ptn.len() ==> #[trigger] ptn[p] <= level) <==> spec_chunks(lab, ptn, level).len()
            == lab.len(),
{
    lemma_cells_cover_labels(lab, ptn, level);
    lemma_count_ends_full(ptn, level);
}

/// A partition nest: `lab` is a labelling of the vertices, `ptn` marks the
/// ends of cells, and `numcells` keeps the number of cells at each level.
#[derive(Default, PartialEq)]
pub struct PartitionNest {
    /// lab must always be a permutation of [[0, n-1]]
    lab: Vec<usize>,
    ptn: Vec<usize>,
    /// Denormalized numbers of cells at all levels.
    numcells: Vec<usize>,
}

impl PartitionNest {
    /// The labelling.
    pub closed spec fn lab(self) -> Seq<usize> {
        self.lab@
    }

    /// The cell ends.
    pub closed spec fn ptn(self) -> Seq<usize> {
        self.ptn@
    }

    /// The kept numbers of cells, by level.
    pub closed spec fn counts(self) -> Seq<usize> {
        self.numcells@
    }

    /// `lab` and `ptn` have one entry per vertex and the last entry of `ptn`
    /// closes a cell at every level.
    pub open spec fn wf(self) -> bool {
        &&& self.lab().len() == self.ptn().len()
        &&& closes_at(self.ptn(), 0)
    }

    /// `lab` and `ptn` have one entry per vertex and the last entry of `ptn`
    /// closes a cell at `level`.
    pub open spec fn wf_at(self, level: usize) -> bool {
        &&& self.lab().len() == self.ptn().len()
        &&& closes_at(self.ptn(), level)
    }

    /// The cells at `level`.
    pub open spec fn cells(self, level: usize) -> Seq<Seq<usize>> {
        spec_chunks(self.lab(), self.ptn(), level)
    }

    /// The partition nest `(lab, ptn)`, with its numbers of cells at every
    /// level up to the largest level in `ptn`.
    pub fn new(lab: Vec<usize>, ptn: Vec<usize>) -> (r: Self)
        requires
            lab@.len() == ptn@.len(),
            closes_at(ptn@, 0),
        ensures
            r.lab() == lab@,
            r.ptn() == ptn@,
            r.wf(),
            r.counts() == cell_counts(lab@, ptn@, spec_max_level(ptn@)),
    {
        let mut nest = Self { lab, ptn, numcells: Vec::new() };
        let max = nest.max_level();
        proof {
            lemma_max_level(nest.ptn@);
        }
        let mut level: usize = 0;
        while level <= max
            invariant
                nest.wf(),
                nest.lab@ == lab@,
                nest.ptn@ == ptn@,
                max == spec_max_level(ptn@),
                max < NAUTY_INFINITY,
                level <= max + 1,
                nest.numcells@ == cell_counts(lab@, ptn@, max).take(level as int),
            decreases max + 1 - level,
        {
            let partition = nest.partition_vec(level);
            nest.numcells.push(partition.len());
            assert(nest.numcells@ =~= cell_counts(lab@, ptn@, max).take(level + 1));
            level = level + 1;
        }
        assert(nest.numcells@ =~= cell_counts(lab@, ptn@, max));
        nest
    }

    /// The sanity check of the nest: its labels are a permutation of
    /// `0..n`. The check is made where the function is called, as its
    /// precondition; a nest that fails it is not accepted.
    pub fn assert_is_sane(&self)
        requires
            is_permutation(self.lab()),
    {
    }

    /// Swaps the labels at `c1` and `c2`.
    pub fn swap(&mut self, c1: usize, c2: usize)
        requires
            c1 < old(self).lab().len(),
            c2 < old(self).lab().len(),
        ensures
            final(self).lab() == old(self).lab().update(c1 as int, old(self).lab()[c2 as int]).update(
                c2 as int,
                old(self).lab()[c1 as int],
            ),
            final(self).ptn() == old(self).ptn(),
            final(self).counts() == old(self).counts(),
    {
        let a = self.lab[c1];
        let b = self.lab[c2];
        self.lab.set(c1, b);
        self.lab.set(c2, a);
    }

    /// The cells at `level`, one by one.
    pub fn chunk_by(&self, level: usize) -> (r: PartitionNestChunkBy<'_>)
        ensures
            r.lab() == self.lab(),
            r.ptn() == self.ptn(),
            r.level() == level,
    {
        PartitionNestChunkBy::new(self.lab.as_slice(), self.ptn.as_slice(), level)
    }

    /// The partition of the nest at `level`.
    pub fn partition(self, level: usize) -> (r: partition::Partition)
        ensures
            r.nest == self,
            r.level == level,
    {
        partition::Partition { nest: self, level }
    }

    /// The cells at `level`, as slices of `lab`.
    pub fn partition_vec(&self, level: usize) -> (r: Vec<&[usize]>)
        requires
            self.wf_at(level),
        ensures
            r@.len() == self.cells(level).len(),
            forall|i: int| 0 <= i < r@.len() ==> #[trigger] r@[i]@ == self.cells(level)[i],
    {
        let mut it = self.chunk_by(level);
        let mut r: Vec<&[usize]> = Vec::new();
        loop
            invariant
                it.lab().len() == it.ptn().len(),
                closes_at(it.ptn(), level),
                it.level() == level,
                r@.len() + it.remaining().len() == self.cells(level).len(),
                it.remaining() == self.cells(level).skip(r@.len() as int),
                forall|i: int| 0 <= i < r@.len() ==> #[trigger] r@[i]@ == self.cells(level)[i],
            ensures
                it.remaining().len() == 0,
                r@.len() == self.cells(level).len(),
                forall|i: int| 0 <= i < r@.len() ==> #[trigger] r@[i]@ == self.cells(level)[i],
            decreases it.remaining().len(),
        {
            match it.next() {
                Some(c) => {
                    r.push(c);
                    assert(it.remaining() =~= self.cells(level).skip(r@.len() as int));
                },
                None => {
                    break;
                },
            }
        }
        r
    }

    /// The cells at `level` separated by `" | "`, each as its labels
    /// separated by `", "`.
    pub fn partition_string(&self, level: usize) -> (r: String)
        requires
            self.wf_at(level),
        ensures
            r@ == partition_text(self.cells(level)),
    {
        let cells = self.partition_vec(level);
        let mut parts: Vec<String> = Vec::new();
        let mut i: usize = 0;
        while i < cells.len()
            invariant
                i <= cells@.len(),
                cells@.len() == self.cells(level).len(),
                forall|k: int| 0 <= k < cells@.len() ==> #[trigger] cells@[k]@ == self.cells(level)[k],
                parts@.len() == i,
                views(parts@) == Seq::new(i as nat, |k: int| numbers_text(self.cells(level)[k])),
            decreases cells@.len() - i,
        {
            let ghost before = parts@;
            parts.push(numbers_string(cells[i]));
            assert forall|k: int| 0 <= k < i implies #[trigger] views(parts@)[k] == numbers_text(
                self.cells(level)[k],
            ) by {
                assert(parts@[k] == before[k]);
                assert(views(before)[k] == numbers_text(self.cells(level)[k]));
            }
            i = i + 1;
            assert(views(parts@) =~= Seq::new(i as nat, |k: int| numbers_text(self.cells(level)[k])));
        }
        let sep = " | ";
        proof {
            reveal_strlit(" | ");
        }
        assert(sep@ =~= seq![' ', '|', ' ']);
        assert(views(parts@) =~= Seq::new(
            self.cells(level).len(),
            |k: int| numbers_text(self.cells(level)[k]),
        ));
        intersperse_join(parts, sep)
    }

    /// The debugging text of the nest: its `lab` and `ptn`, then, for each
    /// level up to the largest, the level and the partition at that level.
    pub fn debug_string(&self) -> (r: String)
        requires
            self.wf(),
        ensures
            r@ == nest_text(self.lab(), self.ptn(), spec_max_level(self.ptn())),
    {
        let mut s = String::new();
        s.append("PartitionNest { lab: [");
        let t = numbers_string(self.lab.as_slice());
        s.append(t.as_str());
        s.append("], ptn: [");
        let t = numbers_string(self.ptn.as_slice());
        s.append(t.as_str());
        s.append("] }\n");
        let ghost head = s@;
        let max = self.max_level();
        proof {
            lemma_max_level(self.ptn@);
        }
        let mut l: usize = 0;
        while l <= max
            invariant
                self.wf(),
                max == spec_max_level(self.ptn()),
                max < NAUTY_INFINITY,
                l <= max + 1,
                s@ == head + levels_text(self.lab(), self.ptn(), l as nat),
            decreases max + 1 - l,
        {
            let t = decimal_string(l);
            s.append(t.as_str());
            s.append(":  ");
            let t = self.partition_string(l);
            s.append(t.as_str());
            s.append("\n");
            l = l + 1;
        }
        s
    }

    /// The largest level in `ptn`: its largest entry below `NAUTY_INFINITY`,
    /// or 0.
    pub fn max_level(&self) -> (r: usize)
        ensures
            r == spec_max_level(self.ptn()),
    {
        let mut m: usize = 0;
        let mut i: usize = 0;
        while i < self.ptn.len()
            invariant
                i <= self.ptn@.len(),
                m == spec_max_level(self.ptn@.take(i as int)),
            decreases self.ptn@.len() - i,
        {
            let x = self.ptn[i];
            assert(self.ptn@.take(i + 1).drop_last() =~= self.ptn@.take(i as int));
            if x < NAUTY_INFINITY && x > m {
                m = x;
            }
            i = i + 1;
        }
        assert(self.ptn@.take(i as int) =~= self.ptn@);
        m
    }

    /// Last index of the cell containing `i`, for the partition at `level`.
    pub fn cell_end(&self, i: usize, level: usize) -> (r: usize)
        requires
            i < self.ptn().len(),
            closes_at(self.ptn(), level),
        ensures
            is_cell_end_from(self.ptn(), level, i as int, r as int),
    {
        let n = self.ptn.len();
        let mut end = i;
        while self.ptn[end] > level
            invariant
                n == self.ptn@.len(),
                i <= end < self.ptn@.len(),
                closes_at(self.ptn@, level),
                forall|k: int| i <= k < end ==> #[trigger] self.ptn@[k] > level,
            decreases self.ptn@.len() - end,
        {
            end = end + 1;
        }
        end
    }

    /// The label at `i`.
    pub fn get(&self, i: usize) -> (r: usize)
        requires
            i < self.lab().len(),
        ensures
            r == self.lab()[i as int],
    {
        self.lab[i]
    }

    /// The labels, as a slice.
    pub fn lab_slice(&self) -> (r: &[usize])
        ensures
            r@ == self.lab(),
    {
        self.lab.as_slice()
    }

    /// The labels from `a` to `b`, to be changed in place.
    pub fn lab_range_mut(&mut self, a: usize, b: usize) -> (r: &mut [usize])
        requires
            a <= b <= old(self).lab().len(),
        ensures
            r@ == old(self).lab().subrange(a as int, b as int),
            final(self).lab() == old(self).lab().subrange(0, a as int) + final(r)@ + old(self).lab().subrange(
                b as int,
                old(self).lab().len() as int,
            ),
            final(self).ptn() == old(self).ptn(),
            final(self).counts() == old(self).counts(),
    {
        let s = self.lab.as_mut_slice();
        let (_left, rest) = s.split_at_mut(a);
        let (mid, _right) = rest.split_at_mut(b - a);
        mid
    }

    /// The number of labels.
    pub fn lab_len(&self) -> (r: usize)
        ensures
            r == self.lab().len(),
    {
        self.lab.len()
    }

    /// The number of `ptn` entries.
    pub fn ptn_len(&self) -> (r: usize)
        ensures
            r == self.ptn().len(),
    {
        self.ptn.len()
    }

    /// The `ptn` entry at `i`.
    pub fn ptn_at(&self, i: usize) -> (r: usize)
        requires
            i < self.ptn().len(),
        ensures
            r == self.ptn()[i as int],
    {
        self.ptn[i]
    }

    /// Writes `v` as the label at `i`.
    pub fn set_lab(&mut self, i: usize, v: usize)
        requires
            i < old(self).lab().len(),
        ensures
            final(self).lab() == old(self).lab().update(i as int, v),
            final(self).ptn() == old(self).ptn(),
            final(self).counts() == old(self).counts(),
    {
        self.lab.set(i, v);
    }

    /// Writes `v` as the `ptn` entry at `i`.
    pub fn set_ptn(&mut self, i: usize, v: usize)
        requires
            i < old(self).ptn().len(),
        ensures
            final(self).lab() == old(self).lab(),
            final(self).ptn() == old(self).ptn().update(i as int, v),
            final(self).counts() == old(self).counts(),
    {
        self.ptn.set(i, v);
    }

    /// Counts one more cell at `level`.
    pub fn add_cell(&mut self, level: usize)
        requires
            level < old(self).counts().len(),
            old(self).counts()[level as int] < usize::MAX,
        ensures
            final(self).lab() == old(self).lab(),
            final(self).ptn() == old(self).ptn(),
            final(self).counts() == old(self).counts().update(
                level as int,
                (old(self).counts()[level as int] + 1) as usize,
            ),
    {
        let c = self.numcells[level];
        self.numcells.set(level, c + 1);
    }

    /// The kept number of cells at `level`, or at the largest level if
    /// `level` is beyond it.
    pub fn numcells(&self, level: usize) -> (r: usize)
        requires
            spec_max_level(self.ptn()) < self.counts().len(),
        ensures
            r == self.counts()[(if level < spec_max_level(self.ptn()) {
                level
            } else {
                spec_max_level(self.ptn())
            }) as int],
    {
        let m = self.max_level();
        let l = if level < m {
            level
        } else {
            m
        };
        self.numcells[l]
    }

    /// The kept number of cells at the largest level.
    pub fn max_level_numcells(&self) -> (r: usize)
        requires
            spec_max_level(self.ptn()) < self.counts().len(),
        ensures
            r == self.counts()[spec_max_level(self.ptn()) as int],
    {
        let m = self.max_level();
        self.numcells[m]
    }

    /// The kept number of cells at `level`, to be changed; the table is
    /// first extended to `level`.
    pub fn numcells_mut(&mut self, level: usize) -> (r: &mut usize)
        requires
            spec_max_level(old(self).ptn()) < old(self).counts().len(),
            level < usize::MAX,
        ensures
            *r == extended_counts(old(self).counts(), spec_max_level(old(self).ptn()), level)[level as int],
            final(self).lab() == old(self).lab(),
            final(self).ptn() == old(self).ptn(),
            final(self).counts() == extended_counts(
                old(self).counts(),
                spec_max_level(old(self).ptn()),
                level,
            ).update(level as int, *final(r)),
    {
        self.extend_numcells(level);
        &mut self.numcells[level]
    }

    /// Refines the partition at `level` with `refine`, its kept number of
    /// cells at `level` counted along.
    pub(crate) fn refine_at(
        &mut self,
        g: &mut Graph,
        level: usize,
        count: &mut Vec<usize>,
        active: &mut BitSet,
        code: &mut usize,
    )
        requires
            old(g).wf(),
            1 <= old(g).num_vertices() <= usize::BITS,
            old(self).lab().len() == old(g).num_vertices(),
            old(self).ptn().len() == old(g).num_vertices(),
            forall|k: int| 0 <= k < old(g).num_vertices() ==> #[trigger] old(self).lab()[k] < old(g).num_vertices(),
            old(self).ptn()[old(g).num_vertices() - 1] <= level,
            level < old(self).counts().len(),
            old(active)@.len() == old(g).num_vertices(),
            old(self).counts()[level as int] <= old(g).num_vertices(),
        ensures
            *final(g) == *old(g),
            final(self).counts().len() == old(self).counts().len(),
            forall|l: int| 0 <= l < old(self).counts().len() && l != level ==> #[trigger] final(self).counts()[l] == old(self).counts()[l],
            refine_result(
                *old(g),
                level,
                refine_start(
                    old(self).lab(),
                    old(self).ptn(),
                    old(self).counts()[level as int],
                    old(count)@,
                    old(active)@,
                ),
                final(self).lab(),
                final(self).ptn(),
                final(self).counts()[level as int],
                final(count)@,
                final(active)@,
                *final(code),
            ),
    {
        let mut nc = self.numcells[level];
        refine(g, self.lab.as_mut_slice(), self.ptn.as_mut_slice(), level, &mut nc, count, active, code);
        self.numcells.set(level, nc);
    }

    /// Extends the table of numbers of cells to `level`, with the number at
    /// the largest level.
    pub fn extend_numcells(&mut self, level: usize)
        requires
            spec_max_level(old(self).ptn()) < old(self).counts().len(),
            level < usize::MAX,
        ensures
            final(self).lab() == old(self).lab(),
            final(self).ptn() == old(self).ptn(),
            final(self).counts() == extended_counts(
                old(self).counts(),
                spec_max_level(old(self).ptn()),
                level,
            ),
    {
        if level >= self.numcells.len() {
            let v = self.max_level_numcells();
            let len = self.numcells.len();
            let mut i: usize = 0;
            let ghost old_counts = self.numcells@;
            while i < level - len + 1
                invariant
                    len == old_counts.len(),
                    len <= level < usize::MAX,
                    i <= level - len + 1,
                    self.numcells@ == old_counts + Seq::new(i as nat, |_k: int| v),
                    self.lab@ == old(self).lab@,
                    self.ptn@ == old(self).ptn@,
                decreases level - len + 1 - i,
            {
                self.numcells.push(v);
                i = i + 1;
                assert(self.numcells@ =~= old_counts + Seq::new(i as nat, |_k: int| v));
            }
            assert(self.numcells@ =~= extended_counts(old_counts, spec_max_level(self.ptn@), level));
        }
    }
}

/// The table of numbers of cells extended to `level` with the entry at `max`.
pub open spec fn extended_counts(counts: Seq<usize>, max: usize, level: usize) -> Seq<usize> {
    if level >= counts.len() {
        counts + Seq::new((level - counts.len() + 1) as nat, |_k: int| counts[max as int])
    } else {
        counts
    }
}

} // verus!
