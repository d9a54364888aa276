//! A cell of a partition, as a slice of its labelling.
use crate::nauty::bitset::{bitset_bits, max_bits, BitSet};
use crate::nauty::partition_nest::partition::{lists_wide_starts, Partition};
use crate::nauty::partition_nest::is_cell_end_from;
use crate::nauty::bitset::SetTrait;
use crate::nauty::Graph;
use vstd::prelude::*;
use vstd::slice::slice_subrange;

verus! {

/// The cell starting at `s` holds a vertex adjacent to `v` and a vertex not
/// adjacent to `v`: `v` splits it.
pub open spec fn splits_cell(g: Graph, lab: Seq<usize>, ptn: Seq<usize>, level: usize, v: int, s: int) -> bool {
    exists|e: int|
        #![trigger is_cell_end_from(ptn, level, s, e)]
        is_cell_end_from(ptn, level, s, e) && (exists|k: int| s <= k <= e && g.adj(v, lab[k] as int))
            && (exists|k: int| s <= k <= e && !g.adj(v, lab[k] as int))
}

/// The first vertex of the cell starting at `w[a]` splits the cell starting
/// at `w[b]`.
pub open spec fn pair_splits(g: Graph, p: Partition, w: Seq<usize>, a: int, b: int) -> bool {
    splits_cell(g, p.nest.lab(), p.nest.ptn(), p.level, p.nest.lab()[w[a] as int] as int, w[b] as int)
}

/// The number of cells among `w[lo..hi]` that the first vertex of `w[k]`'s
/// cell splits, or whose first vertex splits `w[k]`'s cell, as `first` says.
pub open spec fn count_pairs(g: Graph, p: Partition, w: Seq<usize>, k: int, lo: int, hi: int, first: bool) -> nat
    decreases hi - lo,
{
    if hi <= lo {
        0
    } else {
        count_pairs(g, p, w, k, lo, hi - 1, first) + if (if first {
            pair_splits(g, p, w, k, hi - 1)
        } else {
            pair_splits(g, p, w, hi - 1, k)
        }) {
            1nat
        } else {
            0nat
        }
    }
}

/// The number of pairs of cells of `w` splitting one another that involve
/// `w[k]`, counting the cells of `w` before `k` up to `v2`.
pub open spec fn pair_count(g: Graph, p: Partition, w: Seq<usize>, k: int, v2: int) -> nat {
    if k < v2 {
        count_pairs(g, p, w, k, 0, k, false) + count_pairs(g, p, w, k, k + 1, v2, true)
    } else {
        0
    }
}

/// There are at most `hi - lo` pairs counted among `w[lo..hi]`.
pub proof fn lemma_count_pairs_bound(g: Graph, p: Partition, w: Seq<usize>, k: int, lo: int, hi: int, first: bool)
    requires
        lo <= hi,
    ensures
        count_pairs(g, p, w, k, lo, hi, first) <= hi - lo,
    decreases hi - lo,
{
    if hi > lo {
        lemma_count_pairs_bound(g, p, w, k, lo, hi - 1, first);
    }
}

/// `best` is the first index of largest count among the `n` cells.
pub open spec fn is_first_best(counts: Seq<nat>, best: int) -> bool {
    &&& 0 <= best < counts.len()
    &&& forall|i: int| 0 <= i < counts.len() ==> #[trigger] counts[i] <= counts[best]
    &&& forall|i: int| 0 <= i < best ==> #[trigger] counts[i] < counts[best]
}

/// A cell has one end.
pub proof fn lemma_cell_end_unique(ptn: Seq<usize>, level: usize, s: int, e1: int, e2: int)
    requires
        is_cell_end_from(ptn, level, s, e1),
        is_cell_end_from(ptn, level, s, e2),
    ensures
        e1 == e2,
{
    if e1 < e2 {
        assert(ptn[e1] > level);
    }
    if e2 < e1 {
        assert(ptn[e2] > level);
    }
}

/// A cell of `partition`: the labels from `first_lab_index` on.
pub struct Cell<'a> {
    pub partition: &'a Partition,
    pub first_lab_index: usize,
    pub cell_lab: &'a [usize],
}

impl<'a> Cell<'a> {
    /// The cell starts past the last label.
    pub fn is_at_end(&self) -> (r: bool)
        ensures
            r == (self.first_lab_index == self.partition.nest.lab().len()),
    {
        self.first_lab_index == self.partition.len()
    }

    /// The number of vertices of the cell.
    pub fn len(&self) -> (r: usize)
        ensures
            r == self.cell_lab@.len(),
    {
        self.cell_lab.len()
    }

    /// The cell holds no vertex.
    #[must_use]
    pub fn is_empty(&self) -> (r: bool)
        ensures
            r == (self.cell_lab@.len() == 0),
    {
        self.cell_lab.len() == 0
    }

    /// The label at position `i` of the cell.
    pub fn get(&self, i: usize) -> (r: usize)
        requires
            i < self.cell_lab@.len(),
        ensures
            r == self.cell_lab@[i as int],
    {
        self.cell_lab[i]
    }

    /// The set of the vertices of the cell, out of the vertices of the
    /// partition.
    pub fn get_splitters(&self) -> (r: BitSet)
        requires
            self.partition.nest.lab().len() <= max_bits(),
            forall|k: int|
                0 <= k < self.cell_lab@.len() ==> #[trigger] self.cell_lab@[k] < self.partition.nest.lab().len(),
        ensures
            bitset_bits(r).len() == self.partition.nest.lab().len(),
            forall|v: int|
                0 <= v < self.partition.nest.lab().len() ==> (#[trigger] bitset_bits(r)[v] <==> self.cell_lab@.contains(
                    v as usize,
                )),
    {
        let n = self.partition.len();
        let mut set = BitSet::zeros(n);
        let mut i: usize = 0;
        while i < self.cell_lab.len()
            invariant
                n == self.partition.nest.lab().len(),
                i <= self.cell_lab@.len(),
                forall|k: int| 0 <= k < self.cell_lab@.len() ==> #[trigger] self.cell_lab@[k] < n,
                bitset_bits(set).len() == n,
                forall|v: int|
                    0 <= v < n ==> (#[trigger] bitset_bits(set)[v] <==> self.cell_lab@.take(
                        i as int,
                    ).contains(v as usize)),
            decreases self.cell_lab@.len() - i,
        {
            let ghost before = bitset_bits(set);
            let x = self.cell_lab[i];
            set.set(x, true);
            proof {
                assert forall|v: int| 0 <= v < n implies (#[trigger] bitset_bits(set)[v]
                    <==> self.cell_lab@.take(i + 1).contains(v as usize)) by {
                    let t = self.cell_lab@.take(i as int);
                    let t1 = self.cell_lab@.take(i + 1);
                    assert(t1 =~= t.push(x));
                    if v != x {
                        assert(bitset_bits(set)[v] == before[v]);
                        if t1.contains(v as usize) {
                            let k = choose|k: int| 0 <= k < t1.len() && t1[k] == v as usize;
                            assert(t[k] == v as usize);
                        }
                    } else {
                        assert(t1[i as int] == x);
                    }
                }
            }
            i = i + 1;
        }
        assert(self.cell_lab@.take(self.cell_lab@.len() as int) =~= self.cell_lab@);
        set
    }

    /// The labels of the cell, one by one.
    pub fn iter(&self) -> (r: std::slice::Iter<'_, usize>)
        ensures
            r == self.cell_lab.iter(),
    {
        self.cell_lab.iter()
    }

    /// The rows of the graph for the cell's vertices, AND-ed into an empty
    /// set: the result has no element.
    pub fn set(&self, g: &Graph) -> (r: BitSet)
        requires
            g.num_vertices() <= max_bits(),
            forall|k: int| 0 <= k < self.cell_lab@.len() ==> #[trigger] self.cell_lab@[k] < g.num_vertices(),
        ensures
            bitset_bits(r) == Seq::new(g.num_vertices(), |_k: int| false),
    {
        let mut acc = BitSet::zeros(g.n());
        let mut i: usize = 0;
        while i < self.cell_lab.len()
            invariant
                i <= self.cell_lab@.len(),
                g.num_vertices() <= max_bits(),
                forall|k: int| 0 <= k < self.cell_lab@.len() ==> #[trigger] self.cell_lab@[k] < g.num_vertices(),
                bitset_bits(acc) == Seq::new(g.num_vertices(), |_k: int| false),
            decreases self.cell_lab@.len() - i,
        {
            let row = g.get(self.cell_lab[i]);
            acc = acc.and(row);
            assert(bitset_bits(acc) =~= Seq::new(g.num_vertices(), |_k: int| false));
            i = i + 1;
        }
        acc
    }
}

impl Partition {
    /// The labels from `i` to the end at the partition's level of the cell
    /// that holds `i`: the cell that starts at `i` when `i` starts one.
    pub fn get_cell<'a>(&'a self, i: usize) -> (r: Cell<'a>)
        requires
            self.wf(),
            i < self.nest.lab().len(),
        ensures
            r.partition == self,
            r.first_lab_index == i,
            exists|e: int|
                #![trigger crate::nauty::partition_nest::is_cell_end_from(self.nest.ptn(), self.level, i as int, e)]
                crate::nauty::partition_nest::is_cell_end_from(self.nest.ptn(), self.level, i as int, e)
                    && r.cell_lab@ == self.nest.lab().subrange(i as int, e + 1),
    {
        let _n = self.len();
        let end = self.cell_end(i);
        let lab = slice_subrange(self.nest.lab_slice(), i, end + 1);
        Cell { partition: self, first_lab_index: i, cell_lab: lab }
    }

    /// The cell of two vertices or more that most other such cells are
    /// split by or split, the first one of those: the pairs counted are
    /// those where the first vertex of one cell has both neighbours and
    /// non-neighbours in the other.
    pub fn bestcell<'a>(&'a self, g: &Graph) -> (r: Cell<'a>)
        requires
            self.wf(),
            g.wf(),
            g.num_vertices() == self.nest.lab().len(),
            g.num_vertices() <= max_bits(),
            forall|k: int| 0 <= k < self.nest.lab().len() ==> #[trigger] self.nest.lab()[k] < self.nest.lab().len(),
            exists|s: int| crate::nauty::partition_nest::partition::is_wide_cell_start(self.nest.ptn(), self.level, s),
        ensures
            r.partition == self,
            exists|w: Seq<usize>|
                #![trigger lists_wide_starts(w, self.nest.ptn(), self.level)]
                lists_wide_starts(w, self.nest.ptn(), self.level) && exists|best: int|
                    is_first_best(
                        Seq::new(w.len(), |k: int| pair_count(*g, *self, w, k, w.len() as int)),
                        best,
                    ) && r.first_lab_index == w[best],
            exists|e: int|
                #![trigger is_cell_end_from(self.nest.ptn(), self.level, r.first_lab_index as int, e)]
                is_cell_end_from(self.nest.ptn(), self.level, r.first_lab_index as int, e)
                    && r.cell_lab@ == self.nest.lab().subrange(r.first_lab_index as int, e + 1),
    {
        let n = self.len();
        let starts = self.non_singleton_starts();
        let ghost w = starts@;
        let k = starts.len();
        proof {
            let s0 = choose|s: int| crate::nauty::partition_nest::partition::is_wide_cell_start(self.nest.ptn(), self.level, s);
            assert(exists|a: int| 0 <= a < w.len() && w[a] == s0);
        }
        let mut counts: Vec<usize> = Vec::new();
        let mut i: usize = 0;
        while i < k
            invariant
                i <= k,
                counts@.len() == i,
                forall|t: int| 0 <= t < i ==> #[trigger] counts@[t] == 0,
            decreases k - i,
        {
            counts.push(0);
            i = i + 1;
        }
        let mut v2: usize = 0;
        while v2 < k
            invariant
                self.wf(),
                g.wf(),
                n == self.nest.lab().len(),
                n == g.num_vertices(),
                n <= max_bits(),
                forall|t: int| 0 <= t < n ==> #[trigger] self.nest.lab()[t] < n,
                w == starts@,
                k == w.len(),
                lists_wide_starts(w, self.nest.ptn(), self.level),
                v2 <= k,
                counts@.len() == k,
                forall|t: int| 0 <= t < k ==> #[trigger] counts@[t] == pair_count(*g, *self, w, t, v2 as int),
            decreases k - v2,
        {
            let s2 = starts[v2];
            let workset = self.get_splitters(s2);
            let mut v1: usize = 0;
            while v1 < v2
                invariant
                    self.wf(),
                    g.wf(),
                    n == self.nest.lab().len(),
                    n == g.num_vertices(),
                    forall|t: int| 0 <= t < n ==> #[trigger] self.nest.lab()[t] < n,
                    w == starts@,
                    k == w.len(),
                    lists_wide_starts(w, self.nest.ptn(), self.level),
                    v1 <= v2 < k,
                    s2 == w[v2 as int],
                    counts@.len() == k,
                    bitset_bits(workset).len() == n,
                    exists|e: int|
                        #![trigger is_cell_end_from(self.nest.ptn(), self.level, s2 as int, e)]
                        is_cell_end_from(self.nest.ptn(), self.level, s2 as int, e) && forall|v: int|
                            0 <= v < n ==> (#[trigger] bitset_bits(workset)[v] <==> exists|kk: int|
                                s2 <= kk <= e && self.nest.lab()[kk] == v),
                    forall|t: int| 0 <= t < v1 ==> #[trigger] counts@[t] == pair_count(*g, *self, w, t, v2 + 1),
                    forall|t: int| v1 <= t < k && t != v2 ==> #[trigger] counts@[t] == pair_count(*g, *self, w, t, v2 as int),
                    counts@[v2 as int] == count_pairs(*g, *self, w, v2 as int, 0, v1 as int, false),
                decreases v2 - v1,
            {
                let s1 = starts[v1];
                let x = self.nest.get(s1);
                let gp = g.get(x);
                let set1 = workset.duplicate().and(gp);
                let set2 = workset.duplicate().and(&gp.duplicate().not());
                let b1 = set1.any();
                let b2 = set2.any();
                proof {
                    let e = choose|e: int|
                        #![trigger is_cell_end_from(self.nest.ptn(), self.level, s2 as int, e)]
                        is_cell_end_from(self.nest.ptn(), self.level, s2 as int, e) && forall|v: int|
                            0 <= v < n ==> (#[trigger] bitset_bits(workset)[v] <==> exists|kk: int|
                                s2 <= kk <= e && self.nest.lab()[kk] == v);
                    let ws = bitset_bits(workset);
                    let row = g.0@[x as int]@;
                    assert(row.len() == n);
                    assert(b1 <==> exists|kk: int| s2 <= kk <= e && g.adj(x as int, self.nest.lab()[kk] as int)) by {
                        if b1 {
                            let v = choose|v: int| 0 <= v < bitset_bits(set1).len() && bitset_bits(set1)[v];
                            assert(ws[v] && row[v]);
                            let kk = choose|kk: int| s2 <= kk <= e && self.nest.lab()[kk] == v;
                            assert(g.adj(x as int, self.nest.lab()[kk] as int));
                        }
                        if exists|kk: int| s2 <= kk <= e && g.adj(x as int, self.nest.lab()[kk] as int) {
                            let kk = choose|kk: int| s2 <= kk <= e && g.adj(x as int, self.nest.lab()[kk] as int);
                            let v = self.nest.lab()[kk] as int;
                            assert(ws[v]);
                            assert(bitset_bits(set1)[v]);
                        }
                    }
                    assert(b2 <==> exists|kk: int| s2 <= kk <= e && !g.adj(x as int, self.nest.lab()[kk] as int)) by {
                        if b2 {
                            let v = choose|v: int| 0 <= v < bitset_bits(set2).len() && bitset_bits(set2)[v];
                            assert(ws[v] && !row[v]);
                            let kk = choose|kk: int| s2 <= kk <= e && self.nest.lab()[kk] == v;
                            assert(!g.adj(x as int, self.nest.lab()[kk] as int));
                        }
                        if exists|kk: int| s2 <= kk <= e && !g.adj(x as int, self.nest.lab()[kk] as int) {
                            let kk = choose|kk: int| s2 <= kk <= e && !g.adj(x as int, self.nest.lab()[kk] as int);
                            let v = self.nest.lab()[kk] as int;
                            assert(ws[v]);
                            assert(bitset_bits(set2)[v]);
                        }
                    }
                    assert((b1 && b2) == pair_splits(*g, *self, w, v1 as int, v2 as int)) by {
                        if pair_splits(*g, *self, w, v1 as int, v2 as int) {
                            let e2 = choose|e2: int|
                                #![trigger is_cell_end_from(self.nest.ptn(), self.level, s2 as int, e2)]
                                is_cell_end_from(self.nest.ptn(), self.level, s2 as int, e2) && (exists|kk: int| s2 <= kk <= e2 && g.adj(x as int, self.nest.lab()[kk] as int))
                                    && (exists|kk: int| s2 <= kk <= e2 && !g.adj(x as int, self.nest.lab()[kk] as int));
                            lemma_cell_end_unique(self.nest.ptn(), self.level, s2 as int, e, e2);
                        }
                    }
                    lemma_count_pairs_bound(*g, *self, w, v1 as int, 0, v1 as int, false);
                    lemma_count_pairs_bound(*g, *self, w, v1 as int, v1 + 1, v2 + 1, true);
                    lemma_count_pairs_bound(*g, *self, w, v2 as int, 0, v1 + 1, false);
                }
                if b1 && b2 {
                    let c1 = counts[v1];
                    counts.set(v1, c1 + 1);
                    let c2 = counts[v2];
                    counts.set(v2, c2 + 1);
                }
                v1 = v1 + 1;
            }
            v2 = v2 + 1;
        }
        let ghost cs = Seq::new(w.len(), |t: int| pair_count(*g, *self, w, t, w.len() as int));
        assert(forall|t: int| 0 <= t < k ==> #[trigger] counts@[t] == cs[t]);
        let mut best: usize = 0;
        let mut i: usize = 1;
        while i < k
            invariant
                cs.len() == k,
                forall|t: int| 0 <= t < k ==> #[trigger] counts@[t] == cs[t],
                1 <= i <= k,
                best < i,
                counts@.len() == k,
                forall|t: int| 0 <= t < i ==> #[trigger] counts@[t] <= counts@[best as int],
                forall|t: int| 0 <= t < best ==> #[trigger] counts@[t] < counts@[best as int],
            decreases k - i,
        {
            if counts[i] > counts[best] {
                best = i;
            }
            i = i + 1;
        }
        assert(is_first_best(cs, best as int)) by {
            assert forall|t: int| 0 <= t < k implies #[trigger] cs[t] <= cs[best as int] by {
                assert(counts@[t] <= counts@[best as int]);
            }
            assert forall|t: int| 0 <= t < best implies #[trigger] cs[t] < cs[best as int] by {
                assert(counts@[t] < counts@[best as int]);
            }
        }
        let s = starts[best];
        let end = self.cell_end(s);
        let lab = slice_subrange(self.nest.lab_slice(), s, end + 1);
        let r = Cell { partition: self, first_lab_index: s, cell_lab: lab };
        assert(is_cell_end_from(self.nest.ptn(), self.level, r.first_lab_index as int, end as int));
        assert(r.cell_lab@ == self.nest.lab().subrange(r.first_lab_index as int, end + 1));
        r
    }
}

} // verus!
