//! Graph routines of nauty's `naugraph.c`: automorphism test and
//! partition refinement.
use crate::nautil::{searched_bits, SetWordNautilTrait};
use crate::nauty::bitset::{
    count_true, first_true, lemma_count_true_bounds, lemma_count_true_set, lemma_first_true,
    seq_and, BitSet, SetTrait,
};
use crate::nauty::partition_nest::partition::counting::{
    closed_runs, count_below, count_eq, distinct_in, is_max, is_min, lemma_closed_runs,
    lemma_count_below_next, lemma_count_bounds, lemma_count_eq_take,
    lemma_count_push, lemma_distinct_mono, lemma_closed_runs_upto, lemma_sorted_pos, sorted_pos,
    is_run_end, is_run_end_below, lemma_distinct_none_below, lemma_distinct_none_above,
    lemma_sorted_pos_const, lemma_count_eq_all, lemma_count_order,
};
use crate::nauty::partition_nest::partition::cell_mut::{
    hits, lemma_block_perm_multiset, lemma_sorted_pos_bijection, lemma_swap_multiset, swap_partition,
};
use crate::nauty::partition_nest::partition::Partition;
use crate::nauty::Graph;
use vstd::prelude::*;

verus! {

/// The hash step: an expression whose value depends only on `l` and `i`,
/// kept to 15 bits.
pub open spec fn spec_mash(l: usize, i: usize) -> usize {
    (((l ^ 0o65435usize) + i) as usize) & 0o77777usize
}

/// Mixes `i` into the hash code `l`.
pub fn mash(l: usize, i: usize) -> (r: usize)
    requires
        (l ^ 0o65435usize) + i <= usize::MAX,
    ensures
        r == spec_mash(l, i),
        r <= 0o77777,
{
    let r = ((l ^ 0o65435) + i) & 0o77777;
    assert(r <= 0o77777) by (bit_vector)
        requires
            r == (((l ^ 0o65435usize) + i) as usize) & 0o77777usize,
    ;
    r
}

/// The final hash code: `l` reduced modulo `0o77777`.
pub fn cleanup(l: usize) -> (r: usize)
    ensures
        r == l % 0o77777,
        r < 0o77777,
{
    l % 0o77777
}

/// The number of positions whose `ptn` entry is above `level`: the
/// positions inside cells, where a cell may still be split.
pub open spec fn count_wide(ptn: Seq<usize>, level: usize) -> nat
    decreases ptn.len(),
{
    if ptn.len() == 0 {
        0
    } else {
        count_wide(ptn.drop_last(), level) + if ptn.last() > level {
            1nat
        } else {
            0nat
        }
    }
}

/// `after` is `before` with some entries above `level` lowered to `level`.
pub open spec fn refines(before: Seq<usize>, after: Seq<usize>, level: usize) -> bool {
    &&& before.len() == after.len()
    &&& forall|p: int|
        0 <= p < before.len() ==> #[trigger] after[p] == before[p] || (before[p] > level && after[p]
            == level)
}

/// Positions `a ..= b` make up whole cells of the partition at `level`
/// given by `ptn`: `a` starts a cell and `b` ends one.
pub open spec fn closed_block(ptn: Seq<usize>, level: usize, a: int, b: int) -> bool {
    &&& 0 <= a <= b < ptn.len()
    &&& (a == 0 || ptn[a - 1] <= level)
    &&& ptn[b] <= level
}

/// Every run of whole cells of the partition at `level` given by `ptn`
/// holds the same labels, counted with multiplicity, in `after` as in
/// `before`: the labels only moved within their cells.
pub open spec fn same_cell_labels(before: Seq<usize>, after: Seq<usize>, ptn: Seq<usize>, level: usize) -> bool {
    &&& before.len() == after.len()
    &&& forall|a: int, b: int|
        #[trigger] closed_block(ptn, level, a, b) ==> after.subrange(a, b + 1).to_multiset()
            =~= before.subrange(a, b + 1).to_multiset()
}

/// Moving labels within a cell `c1 ..= c2` of a refinement of `ptn0` keeps
/// the labels of every run of whole cells of `ptn0`.
proof fn lemma_move_in_cell(
    lab0: Seq<usize>,
    lab: Seq<usize>,
    lab2: Seq<usize>,
    ptn0: Seq<usize>,
    ptn: Seq<usize>,
    level: usize,
    c1: int,
    c2: int,
)
    requires
        same_cell_labels(lab0, lab, ptn0, level),
        refines(ptn0, ptn, level),
        lab.len() == ptn0.len(),
        lab2.len() == lab.len(),
        0 <= c1 <= c2 < lab.len(),
        forall|p: int| c1 <= p < c2 ==> #[trigger] ptn[p] > level,
        forall|k: int| 0 <= k < lab.len() && !(c1 <= k <= c2) ==> #[trigger] lab2[k] == lab[k],
        lab2.subrange(c1, c2 + 1).to_multiset() =~= lab.subrange(c1, c2 + 1).to_multiset(),
    ensures
        same_cell_labels(lab0, lab2, ptn0, level),
{
    assert forall|a: int, b: int| #[trigger] closed_block(ptn0, level, a, b) implies lab2.subrange(a, b + 1).to_multiset()
        =~= lab0.subrange(a, b + 1).to_multiset() by {
        if c2 < a || b < c1 {
            assert(lab2.subrange(a, b + 1) =~= lab.subrange(a, b + 1));
        } else {
            if c1 < a {
                assert(ptn[a - 1] > level);
                assert(ptn[a - 1] == ptn0[a - 1] || (ptn0[a - 1] > level && ptn[a - 1] == level));
            }
            if b < c2 {
                assert(ptn[b] > level);
                assert(ptn[b] == ptn0[b] || (ptn0[b] > level && ptn[b] == level));
            }
            let x1 = lab.subrange(a, c1);
            let y1 = lab.subrange(c1, c2 + 1);
            let z1 = lab.subrange(c2 + 1, b + 1);
            let x2 = lab2.subrange(a, c1);
            let y2 = lab2.subrange(c1, c2 + 1);
            let z2 = lab2.subrange(c2 + 1, b + 1);
            assert(x2 =~= x1);
            assert(z2 =~= z1);
            assert(lab.subrange(a, b + 1) =~= x1 + y1 + z1);
            assert(lab2.subrange(a, b + 1) =~= x2 + y2 + z2);
            vstd::seq_lib::lemma_multiset_commutative(x1 + y1, z1);
            vstd::seq_lib::lemma_multiset_commutative(x1, y1);
            vstd::seq_lib::lemma_multiset_commutative(x2 + y2, z2);
            vstd::seq_lib::lemma_multiset_commutative(x2, y2);
        }
    }
}

/// Lowering an entry above `level` to `level` takes one position out of the
/// cells' insides.
pub proof fn lemma_count_wide_split(ptn: Seq<usize>, level: usize, p: int)
    requires
        0 <= p < ptn.len(),
        ptn[p] > level,
    ensures
        count_wide(ptn.update(p, level), level) + 1 == count_wide(ptn, level),
    decreases ptn.len(),
{
    if p < ptn.len() - 1 {
        lemma_count_wide_split(ptn.drop_last(), level, p);
        assert(ptn.update(p, level).drop_last() =~= ptn.drop_last().update(p, level));
    } else {
        assert(ptn.update(p, level).drop_last() =~= ptn.drop_last());
    }
}

/// The number of cells of `ptn` at `level`: the positions whose entry is at
/// most `level`, each ending a cell.
pub open spec fn cell_count(ptn: Seq<usize>, level: usize) -> nat
    decreases ptn.len(),
{
    if ptn.len() == 0 {
        0
    } else {
        cell_count(ptn.drop_last(), level) + if ptn.last() <= level {
            1nat
        } else {
            0nat
        }
    }
}

/// Every position either ends a cell or lies inside one.
pub proof fn lemma_cell_count_wide(ptn: Seq<usize>, level: usize)
    ensures
        cell_count(ptn, level) + count_wide(ptn, level) == ptn.len(),
    decreases ptn.len(),
{
    if ptn.len() > 0 {
        lemma_cell_count_wide(ptn.drop_last(), level);
    }
}

/// The number of positions at which `after` differs from `before`.
pub open spec fn changed_count(before: Seq<usize>, after: Seq<usize>) -> nat
    decreases before.len(),
{
    if before.len() == 0 || after.len() == 0 {
        0
    } else {
        changed_count(before.drop_last(), after.drop_last()) + if before.last() != after.last() {
            1nat
        } else {
            0nat
        }
    }
}

/// Refining `ptn` at `level` takes one position out of the cells' insides
/// for each entry it changes.
pub proof fn lemma_count_wide_changed(before: Seq<usize>, after: Seq<usize>, level: usize)
    requires
        refines(before, after, level),
    ensures
        count_wide(before, level) == count_wide(after, level) + changed_count(before, after),
    decreases before.len(),
{
    if before.len() > 0 {
        assert(refines(before.drop_last(), after.drop_last(), level)) by {
            assert forall|p: int| 0 <= p < before.len() - 1 implies #[trigger] after.drop_last()[p]
                == before.drop_last()[p] || (before.drop_last()[p] > level && after.drop_last()[p]
                == level) by {
                assert(after[p] == before[p] || (before[p] > level && after[p] == level));
            }
        }
        lemma_count_wide_changed(before.drop_last(), after.drop_last(), level);
        assert(after[before.len() - 1] == before[before.len() - 1] || (before[before.len() - 1] > level
            && after[before.len() - 1] == level));
    }
}

/// Refining never adds positions inside cells.
pub proof fn lemma_count_wide_refines(before: Seq<usize>, after: Seq<usize>, level: usize)
    requires
        refines(before, after, level),
    ensures
        count_wide(after, level) <= count_wide(before, level),
    decreases before.len(),
{
    if before.len() > 0 {
        assert(refines(before.drop_last(), after.drop_last(), level)) by {
            assert forall|p: int| 0 <= p < before.len() - 1 implies #[trigger] after.drop_last()[p]
                == before.drop_last()[p] || (before.drop_last()[p] > level && after.drop_last()[p]
                == level) by {
                assert(after[p] == before[p] || (before[p] > level && after[p] == level));
            }
        }
        lemma_count_wide_refines(before.drop_last(), after.drop_last(), level);
        assert(after[before.len() - 1] == before[before.len() - 1] || (before[before.len() - 1] > level && after[before.len() - 1] == level));
    }
}

/// There are at most as many positions inside cells as positions.
pub proof fn lemma_count_wide_bound(ptn: Seq<usize>, level: usize)
    ensures
        count_wide(ptn, level) <= ptn.len(),
    decreases ptn.len(),
{
    if ptn.len() > 0 {
        lemma_count_wide_bound(ptn.drop_last(), level);
    }
}

/// Adding an element adds at most one to the number of elements.
pub proof fn lemma_count_add(s: Seq<bool>, i: int)
    requires
        0 <= i < s.len(),
    ensures
        count_true(s.update(i, true)) <= count_true(s) + 1,
{
    if s[i] {
        assert(s.update(i, true) =~= s);
    } else {
        lemma_count_true_set(s, i);
    }
}

/// Taking out an element, in a set of at most one word, takes one from the
/// number of elements if it was there.
pub proof fn lemma_count_remove(s: Seq<bool>, i: int)
    requires
        s.len() <= usize::BITS,
        0 <= i < s.len(),
    ensures
        Seq::new(s.len(), |k: int| s[k] && k < usize::BITS && k != i) =~= s.update(i, false),
        count_true(s.update(i, false)) <= count_true(s),
        s[i] ==> count_true(s.update(i, false)) + 1 == count_true(s),
{
    assert(s.update(i, false).update(i, true) =~= s.update(i, true));
    lemma_count_true_set(s.update(i, false), i);
    if !s[i] {
        assert(s.update(i, false) =~= s);
    } else {
        assert(s.update(i, true) =~= s);
    }
}

/// The exclusive-or with the mash constant adds at most the constant.
pub proof fn lemma_mash_bound(l: usize)
    requires
        l <= 0x3fff_ffffusize,
    ensures
        (l ^ 0o65435usize) <= l + 0o65435usize,
{
    assert((l ^ 0o65435usize) <= l + 0o65435usize) by (bit_vector)
        requires
            l <= 0x3fff_ffffusize,
    ;
}

/// The bound kept on the running hash code.
pub open spec fn code_bound() -> usize {
    0x3fff_ffffusize
}

/// Adjacency to vertex `v` of `g`.
pub open spec fn adjacent_to(g: Graph, v: int) -> spec_fn(usize) -> bool {
    |x: usize| g.adj(v, x as int)
}

/// Positions `cell1 .. s` of `lab` hold neighbours of `v`, and positions
/// `s ..= cell2` hold vertices that are not.
pub open spec fn neighbours_first(g: Graph, v: int, lab: Seq<usize>, cell1: int, cell2: int, s: int) -> bool {
    &&& cell1 <= s <= cell2 + 1
    &&& forall|k: int| cell1 <= k < s ==> #[trigger] g.adj(v, lab[k] as int)
    &&& forall|k: int| s <= k <= cell2 ==> !#[trigger] g.adj(v, lab[k] as int)
}

/// What splitting cell `cell1 ..= cell2` at `s` (neighbours of the splitting
/// vertex before `s`) does to `ptn`, the number of cells, the hash code, the
/// active set and the hint: when both parts are non-empty, `s - 1` ends a
/// cell, one more cell is counted, `s - 1` is mixed into the code, and the
/// part after `s` is made active if the cell was active or that part is not
/// the larger one, the part at `cell1` otherwise (a part of one vertex at
/// the end of the cell, or at its start, becoming the hint); otherwise
/// nothing changes.
pub open spec fn vertex_split_effects(
    cell1: int,
    cell2: int,
    s: int,
    level: usize,
    ptn0: Seq<usize>,
    ptn1: Seq<usize>,
    nc0: usize,
    nc1: usize,
    lc0: usize,
    lc1: usize,
    act0: Seq<bool>,
    act1: Seq<bool>,
    hint0: usize,
    hint1: usize,
) -> bool {
    if cell1 < s <= cell2 {
        &&& ptn1 == ptn0.update(s - 1, level)
        &&& nc1 == nc0 + 1
        &&& lc1 == spec_mash(lc0, (s - 1) as usize)
        &&& if act0[cell1] || s - 1 - cell1 >= cell2 - s {
            &&& act1 == act0.update(s, true)
            &&& hint1 == if s == cell2 { s as usize } else { hint0 }
        } else {
            &&& act1 == act0.update(cell1, true)
            &&& hint1 == if s - 1 == cell1 { cell1 as usize } else { hint0 }
        }
    } else {
        &&& ptn1 == ptn0
        &&& nc1 == nc0
        &&& lc1 == lc0
        &&& act1 == act0
        &&& hint1 == hint0
    }
}

/// Splits the cell `cell1..=cell2` by the neighbours of vertex `v`: they
/// are moved to the front of the cell, and if both parts are non-empty the
/// cell is split between them, one more cell is counted and the smaller
/// part (or the front part, if the cell is active) is made active.
fn split_cell_by_vertex(
    g: &Graph,
    v: usize,
    lab: &mut [usize],
    ptn: &mut [usize],
    level: usize,
    cell1: usize,
    cell2: usize,
    numcells: &mut usize,
    active: &mut BitSet,
    hint: &mut usize,
    longcode: &mut usize,
)
    requires
        g.wf(),
        1 <= g.num_vertices() <= usize::BITS,
        v < g.num_vertices(),
        old(lab)@.len() == g.num_vertices(),
        old(ptn)@.len() == g.num_vertices(),
        forall|k: int| 0 <= k < g.num_vertices() ==> #[trigger] old(lab)@[k] < g.num_vertices(),
        cell1 < cell2 < g.num_vertices(),
        forall|p: int| cell1 <= p < cell2 ==> #[trigger] old(ptn)@[p] > level,
        old(active)@.len() == g.num_vertices(),
        *old(hint) < g.num_vertices(),
        *old(longcode) <= code_bound(),
        *old(numcells) < code_bound(),
    ensures
        final(lab)@.len() == g.num_vertices(),
        final(lab)@.subrange(cell1 as int, cell2 + 1).to_multiset() =~= old(lab)@.subrange(
            cell1 as int,
            cell2 + 1,
        ).to_multiset(),
        forall|k: int| 0 <= k < g.num_vertices() ==> #[trigger] final(lab)@[k] < g.num_vertices(),
        forall|k: int| 0 <= k < g.num_vertices() && !(cell1 <= k <= cell2) ==> #[trigger] final(lab)@[k] == old(lab)@[k],
        refines(old(ptn)@, final(ptn)@, level),
        forall|p: int| 0 <= p < g.num_vertices() && !(cell1 <= p < cell2) ==> #[trigger] final(ptn)@[p] == old(ptn)@[p],
        *final(numcells) + count_wide(final(ptn)@, level) == *old(numcells) + count_wide(old(ptn)@, level),
        *final(numcells) <= *old(numcells) + 1,
        count_true(final(active)@) + (g.num_vertices() + 2) * count_wide(final(ptn)@, level) <= count_true(old(active)@)
            + (g.num_vertices() + 2) * count_wide(old(ptn)@, level),
        final(active)@.len() == g.num_vertices(),
        *final(hint) < g.num_vertices(),
        *final(longcode) <= code_bound(),
        ({
            let (lab1, s) = swap_partition(old(lab)@, adjacent_to(*g, v as int), cell1 as int, cell2 + 1);
            &&& final(lab)@ == lab1
            &&& neighbours_first(*g, v as int, final(lab)@, cell1 as int, cell2 as int, s)
            &&& vertex_split_effects(
                cell1 as int,
                cell2 as int,
                s,
                level,
                old(ptn)@,
                final(ptn)@,
                *old(numcells),
                *final(numcells),
                *old(longcode),
                *final(longcode),
                old(active)@,
                final(active)@,
                *old(hint),
                *final(hint),
            )
        }),
{
    let ghost keep = adjacent_to(*g, v as int);
    let n = g.n();
    let gptr = g.get(v);
    let mut c1 = cell1;
    let mut hi = cell2 + 1;
    while c1 < hi
        invariant
            g.wf(),
            n == g.num_vertices(),
            *gptr == g.0@[v as int],
            gptr@.len() == n,
            lab@.len() == n,
            cell1 <= c1 <= hi <= cell2 + 1,
            cell2 < n,
            forall|k: int| 0 <= k < n ==> #[trigger] lab@[k] < n,
            forall|k: int| 0 <= k < n && !(cell1 <= k <= cell2) ==> #[trigger] lab@[k] == old(lab)@[k],
            lab@.subrange(cell1 as int, cell2 + 1).to_multiset() =~= old(lab)@.subrange(
                cell1 as int,
                cell2 + 1,
            ).to_multiset(),
            v < n,
            forall|k: int| cell1 <= k < c1 ==> #[trigger] g.adj(v as int, lab@[k] as int),
            forall|k: int| hi <= k <= cell2 ==> !#[trigger] g.adj(v as int, lab@[k] as int),
            keep == adjacent_to(*g, v as int),
            swap_partition(lab@, keep, c1 as int, hi as int) == swap_partition(
                old(lab)@,
                keep,
                cell1 as int,
                cell2 + 1,
            ),
        decreases hi - c1,
    {
        let labc1 = lab[c1];
        if gptr.contains(labc1) {
            c1 = c1 + 1;
        } else {
            let ghost sub0 = lab@.subrange(cell1 as int, cell2 + 1);
            proof {
                lemma_swap_multiset(sub0, c1 - cell1, hi - 1 - cell1);
            }
            lab[c1] = lab[hi - 1];
            lab[hi - 1] = labc1;
            assert(lab@.subrange(cell1 as int, cell2 + 1) =~= sub0.update(c1 - cell1, sub0[hi - 1 - cell1]).update(
                hi - 1 - cell1,
                sub0[c1 - cell1],
            ));
            hi = hi - 1;
        }
    }
    assert(neighbours_first(*g, v as int, lab@, cell1 as int, cell2 as int, c1 as int));
    if c1 > cell1 && c1 <= cell2 {
        let c2 = c1 - 1;
        proof {
            lemma_count_wide_split(ptn@, level, c2 as int);
            let w0 = count_wide(ptn@, level) as int;
            let w1 = count_wide(ptn@.update(c2 as int, level), level) as int;
            assert((n + 2) * w1 + (n + 2) == (n + 2) * w0) by (nonlinear_arith)
                requires
                    w1 + 1 == w0,
            ;
            lemma_mash_bound(*longcode);
            lemma_count_add(active@, c1 as int);
            lemma_count_add(active@, cell1 as int);
        }
        ptn[c2] = level;
        *longcode = mash(*longcode, c2);
        *numcells = *numcells + 1;
        if active.contains(cell1) || (c2 - cell1 >= cell2 - c1) {
            active.add_one(c1);
            if c1 == cell2 {
                *hint = c1;
            }
        } else {
            active.add_one(cell1);
            if c2 == cell1 {
                *hint = cell1;
            }
        }
    }
}

/// The number of neighbours in `workset` of the vertex `lab[i]`.
fn count_neighbours(g: &Graph, workset: &BitSet, x: usize) -> (r: usize)
    requires
        g.wf(),
        x < g.num_vertices(),
        workset@.len() == g.num_vertices(),
    ensures
        r == count_true(seq_and(workset@, g.0@[x as int]@)),
        r <= g.num_vertices(),
{
    let r = workset.duplicate().and(g.get(x)).count_ones();
    proof {
        lemma_count_true_bounds(seq_and(workset@, g.0@[x as int]@));
    }
    r
}

/// The number of neighbours in `workset` of vertex `x`.
pub open spec fn nbr_count(g: Graph, workset: Seq<bool>, x: int) -> nat {
    count_true(seq_and(workset, g.0@[x]@))
}

/// The hash code `l` with, for each key `v` below `hi` that occurs in `keys`
/// in increasing order, the key plus the position of its run (its first
/// position once the keys are sorted, offset by `base`) mixed in.
pub open spec fn hash_runs(l: usize, keys: Seq<usize>, base: int, hi: int) -> usize
    decreases hi,
{
    if hi <= 0 {
        l
    } else {
        let l2 = hash_runs(l, keys, base, hi - 1);
        if count_eq(keys, (hi - 1) as usize) > 0 {
            spec_mash(l2, (hi - 1 + base + count_below(keys, (hi - 1) as usize)) as usize)
        } else {
            l2
        }
    }
}

/// Keys that do not occur leave the hash code of the runs as it is.
proof fn lemma_hash_runs_absent(l: usize, keys: Seq<usize>, base: int, a: int, b: int)
    requires
        0 <= a <= b,
        forall|v: int| a <= v < b ==> #[trigger] count_eq(keys, v as usize) == 0,
    ensures
        hash_runs(l, keys, base, b) == hash_runs(l, keys, base, a),
    decreases b - a,
{
    if b > a {
        lemma_hash_runs_absent(l, keys, base, a, b - 1);
    }
}

/// Counting distinct keys from 0 or from a bound below every key gives the
/// same number.
proof fn lemma_distinct_from_min(keys: Seq<usize>, lo: int, hi: int)
    requires
        0 <= lo <= hi,
        forall|j: int| 0 <= j < keys.len() ==> lo <= #[trigger] keys[j],
    ensures
        distinct_in(keys, 0, hi) == distinct_in(keys, lo, hi),
    decreases hi - lo,
{
    if hi > lo {
        lemma_distinct_from_min(keys, lo, hi - 1);
    } else {
        lemma_distinct_none_below(keys, lo);
    }
}

/// When every key is `b`: sorting keeps every position, no run ends before
/// the last position, there is one distinct key, and one run is hashed.
proof fn lemma_uniform_keys(keys: Seq<usize>, b: usize, l: usize, base: int)
    requires
        keys.len() >= 1,
        b < usize::MAX,
        forall|j: int| 0 <= j < keys.len() ==> #[trigger] keys[j] == b,
    ensures
        forall|k: int| 0 <= k < keys.len() ==> #[trigger] sorted_pos(keys, k) == k,
        forall|p: int| 0 <= p < keys.len() ==> !#[trigger] is_run_end(keys, p),
        distinct_in(keys, 0, usize::MAX + 1) == 1,
        hash_runs(l, keys, base, usize::MAX + 1) == spec_mash(l, (b + base) as usize),
{
    assert forall|k: int| 0 <= k < keys.len() implies #[trigger] sorted_pos(keys, k) == k by {
        assert(keys[0] == b);
        lemma_sorted_pos_const(keys, k);
    }
    lemma_count_eq_all(keys, b);
    lemma_count_bounds(keys, b);
    assert forall|p: int| 0 <= p < keys.len() implies !#[trigger] is_run_end(keys, p) by {
        if is_run_end(keys, p) {
            let x = choose|x: usize|
                #![trigger count_eq(keys, x)]
                count_eq(keys, x) > 0 && count_below(keys, x) + count_eq(keys, x) == p + 1 && p + 1 < keys.len();
            lemma_count_bounds(keys, x);
            let j = choose|j: int| 0 <= j < keys.len() && keys[j] == x;
            assert(x == b);
        }
    }
    assert forall|v: int| b + 1 <= v < usize::MAX + 1 implies #[trigger] count_eq(keys, v as usize) == 0 by {
        lemma_count_bounds(keys, v as usize);
        if count_eq(keys, v as usize) > 0 {
            let j = choose|j: int| 0 <= j < keys.len() && keys[j] == v as usize;
        }
    }
    assert forall|v: int| 0 <= v < b implies #[trigger] count_eq(keys, v as usize) == 0 by {
        lemma_count_bounds(keys, v as usize);
        if count_eq(keys, v as usize) > 0 {
            let j = choose|j: int| 0 <= j < keys.len() && keys[j] == v as usize;
        }
    }
    lemma_hash_runs_absent(l, keys, base, b + 1, usize::MAX + 1);
    lemma_hash_runs_absent(l, keys, base, 0, b as int);
    lemma_distinct_from_min(keys, b as int, b + 1);
    assert(distinct_in(keys, b as int, b as int) == 0);
    assert(forall|j: int| 0 <= j < keys.len() ==> #[trigger] keys[j] < b + 1);
    lemma_distinct_none_above(keys, b + 1, usize::MAX + 1);
}

/// Allowing one more key `v` adds the end of its run, if it occurs and is
/// not at the last position.
proof fn lemma_run_end_step(keys: Seq<usize>, v: usize, p: int)
    ensures
        is_run_end_below(keys, p, v + 1) == (is_run_end_below(keys, p, v as int) || (count_eq(keys, v) > 0
            && count_below(keys, v) + count_eq(keys, v) == p + 1 && p + 1 < keys.len())),
{
    if is_run_end_below(keys, p, v + 1) {
        let x = choose|x: usize|
            #![trigger count_eq(keys, x)]
            x < v + 1 && count_eq(keys, x) > 0 && count_below(keys, x) + count_eq(keys, x) == p + 1 && p + 1
                < keys.len();
        if x != v {
            assert(x < v);
        }
    }
    if is_run_end_below(keys, p, v as int) {
        let x = choose|x: usize|
            #![trigger count_eq(keys, x)]
            x < v && count_eq(keys, x) > 0 && count_below(keys, x) + count_eq(keys, x) == p + 1 && p + 1
                < keys.len();
        assert(x < v + 1);
    }
}

/// With the keys between `lo` and `hi`: no run ends below `lo`, the run
/// ends below `hi + 1` are all of them, the distinct keys and the hashed
/// runs from `lo` to `hi` are all of them.
proof fn lemma_keys_in_range(keys: Seq<usize>, lo: usize, hi: usize, l: usize, base: int)
    requires
        keys.len() >= 1,
        lo <= hi < usize::MAX,
        is_min(keys, lo),
        is_max(keys, hi),
    ensures
        forall|p: int| 0 <= p < keys.len() ==> !#[trigger] is_run_end_below(keys, p, lo as int),
        forall|p: int| 0 <= p < keys.len() ==> #[trigger] is_run_end_below(keys, p, hi + 1) == is_run_end(keys, p),
        distinct_in(keys, 0, usize::MAX + 1) == distinct_in(keys, lo as int, hi + 1),
        hash_runs(l, keys, base, lo as int) == l,
        hash_runs(l, keys, base, usize::MAX + 1) == hash_runs(l, keys, base, hi + 1),
{
    assert forall|p: int| 0 <= p < keys.len() implies !#[trigger] is_run_end_below(keys, p, lo as int) by {
        if is_run_end_below(keys, p, lo as int) {
            let x = choose|x: usize|
                #![trigger count_eq(keys, x)]
                x < lo && count_eq(keys, x) > 0 && count_below(keys, x) + count_eq(keys, x) == p + 1 && p + 1
                    < keys.len();
            lemma_count_bounds(keys, x);
            let j = choose|j: int| 0 <= j < keys.len() && keys[j] == x;
            assert(lo <= keys[j]);
        }
    }
    assert forall|p: int| 0 <= p < keys.len() implies #[trigger] is_run_end_below(keys, p, hi + 1) == is_run_end(keys, p) by {
        if is_run_end(keys, p) {
            let x = choose|x: usize|
                #![trigger count_eq(keys, x)]
                count_eq(keys, x) > 0 && count_below(keys, x) + count_eq(keys, x) == p + 1 && p + 1 < keys.len();
            lemma_count_bounds(keys, x);
            let j = choose|j: int| 0 <= j < keys.len() && keys[j] == x;
            assert(keys[j] <= hi);
            assert(x < hi + 1);
        }
        if is_run_end_below(keys, p, hi + 1) {
            let x = choose|x: usize|
                #![trigger count_eq(keys, x)]
                x < hi + 1 && count_eq(keys, x) > 0 && count_below(keys, x) + count_eq(keys, x) == p + 1 && p + 1
                    < keys.len();
            assert(count_eq(keys, x) > 0);
        }
    }
    assert forall|v: int| hi + 1 <= v < usize::MAX + 1 implies #[trigger] count_eq(keys, v as usize) == 0 by {
        lemma_count_bounds(keys, v as usize);
        if count_eq(keys, v as usize) > 0 {
            let j = choose|j: int| 0 <= j < keys.len() && keys[j] == v as usize;
            assert(keys[j] <= hi);
        }
    }
    assert forall|v: int| 0 <= v < lo implies #[trigger] count_eq(keys, v as usize) == 0 by {
        lemma_count_bounds(keys, v as usize);
        if count_eq(keys, v as usize) > 0 {
            let j = choose|j: int| 0 <= j < keys.len() && keys[j] == v as usize;
            assert(lo <= keys[j]);
        }
    }
    lemma_hash_runs_absent(l, keys, base, hi + 1, usize::MAX + 1);
    lemma_hash_runs_absent(l, keys, base, 0, lo as int);
    assert(forall|j: int| 0 <= j < keys.len() ==> #[trigger] keys[j] < hi + 1);
    lemma_distinct_none_above(keys, hi + 1, usize::MAX + 1);
    assert(forall|j: int| 0 <= j < keys.len() ==> lo <= #[trigger] keys[j]);
    lemma_distinct_from_min(keys, lo as int, hi + 1);
}

/// Some key below `hi` occurs and has its run start at position `q` once
/// the keys are sorted.
pub open spec fn run_start_below(keys: Seq<usize>, q: int, hi: int) -> bool {
    exists|v: usize|
        #![trigger count_eq(keys, v)]
        v < hi && count_eq(keys, v) > 0 && count_below(keys, v) == q
}

/// The hint `h` after the runs of the keys below `hi`: the start (offset
/// by `base`) of the last run of one key that is not the first run, or `h`.
pub open spec fn hint_runs(h: usize, keys: Seq<usize>, base: int, hi: int) -> usize
    decreases hi,
{
    if hi <= 0 {
        h
    } else {
        let h2 = hint_runs(h, keys, base, hi - 1);
        let v = (hi - 1) as usize;
        if count_eq(keys, v) == 1 && count_below(keys, v) > 0 {
            (base + count_below(keys, v)) as usize
        } else {
            h2
        }
    }
}

/// The start and the length of the first longest run among the keys below
/// `hi`, or `(-1, -1)` when none of them occurs.
pub open spec fn best_run(keys: Seq<usize>, hi: int) -> (int, int)
    decreases hi,
{
    if hi <= 0 {
        (-1, -1)
    } else {
        let (s0, c0) = best_run(keys, hi - 1);
        let e = count_eq(keys, (hi - 1) as usize) as int;
        if e > 0 && e > c0 {
            (count_below(keys, (hi - 1) as usize) as int, e)
        } else {
            (s0, c0)
        }
    }
}

/// The active set after splitting a cell starting at `cell1` by `keys`:
/// every run start but the first is made active; if `cell1` was not active,
/// it is made active and the start `mp` of the first longest run is made
/// inactive.
pub open spec fn split_active(act0: Seq<bool>, keys: Seq<usize>, cell1: int, mp: int) -> Seq<bool> {
    let a1 = Seq::new(
        act0.len(),
        |p: int| act0[p] || (p > cell1 && run_start_below(keys, p - cell1, usize::MAX + 1)),
    );
    if act0[cell1] {
        a1
    } else {
        Seq::new(act0.len(), |p: int| a1.update(cell1, true)[p] && p != mp)
    }
}

/// Keys that do not occur leave the hint and the longest run as they are.
proof fn lemma_runs_absent(h: usize, keys: Seq<usize>, base: int, a: int, b: int)
    requires
        0 <= a <= b,
        forall|v: int| a <= v < b ==> #[trigger] count_eq(keys, v as usize) == 0,
    ensures
        hint_runs(h, keys, base, b) == hint_runs(h, keys, base, a),
        best_run(keys, b) == best_run(keys, a),
    decreases b - a,
{
    if b > a {
        lemma_runs_absent(h, keys, base, a, b - 1);
    }
}

/// Allowing one more key `v` adds the start of its run, if it occurs.
proof fn lemma_run_start_step(keys: Seq<usize>, v: usize, q: int)
    ensures
        run_start_below(keys, q, v + 1) == (run_start_below(keys, q, v as int) || (count_eq(keys, v) > 0
            && count_below(keys, v) == q)),
{
    if run_start_below(keys, q, v + 1) {
        let x = choose|x: usize| #![trigger count_eq(keys, x)] x < v + 1 && count_eq(keys, x) > 0 && count_below(keys, x) == q;
        if x != v {
            assert(x < v);
        }
    }
    if run_start_below(keys, q, v as int) {
        let x = choose|x: usize| #![trigger count_eq(keys, x)] x < v && count_eq(keys, x) > 0 && count_below(keys, x) == q;
        assert(x < v + 1);
    }
}

/// With the keys between `lo` and `hi`: no run starts below `lo`, the run
/// starts, the hint and the longest run below `hi + 1` are all of them.
proof fn lemma_runs_in_range(keys: Seq<usize>, lo: usize, hi: usize, h: usize, base: int)
    requires
        keys.len() >= 1,
        lo <= hi < usize::MAX,
        is_min(keys, lo),
        is_max(keys, hi),
    ensures
        forall|q: int| !#[trigger] run_start_below(keys, q, lo as int),
        forall|q: int| #[trigger] run_start_below(keys, q, hi + 1) == run_start_below(keys, q, usize::MAX + 1),
        hint_runs(h, keys, base, lo as int) == h,
        best_run(keys, lo as int) == (-1int, -1int),
        hint_runs(h, keys, base, usize::MAX + 1) == hint_runs(h, keys, base, hi + 1),
        best_run(keys, usize::MAX + 1) == best_run(keys, hi + 1),
{
    assert forall|q: int| !#[trigger] run_start_below(keys, q, lo as int) by {
        if run_start_below(keys, q, lo as int) {
            let x = choose|x: usize| #![trigger count_eq(keys, x)] x < lo && count_eq(keys, x) > 0 && count_below(keys, x) == q;
            lemma_count_bounds(keys, x);
            let j = choose|j: int| 0 <= j < keys.len() && keys[j] == x;
            assert(lo <= keys[j]);
        }
    }
    assert forall|q: int| #[trigger] run_start_below(keys, q, hi + 1) == run_start_below(keys, q, usize::MAX + 1) by {
        if run_start_below(keys, q, usize::MAX + 1) {
            let x = choose|x: usize| #![trigger count_eq(keys, x)] x < usize::MAX + 1 && count_eq(keys, x) > 0 && count_below(keys, x) == q;
            lemma_count_bounds(keys, x);
            let j = choose|j: int| 0 <= j < keys.len() && keys[j] == x;
            assert(keys[j] <= hi);
            assert(x < hi + 1);
        }
        if run_start_below(keys, q, hi + 1) {
            let x = choose|x: usize| #![trigger count_eq(keys, x)] x < hi + 1 && count_eq(keys, x) > 0 && count_below(keys, x) == q;
            assert(x < usize::MAX + 1);
        }
    }
    assert forall|v: int| hi + 1 <= v < usize::MAX + 1 implies #[trigger] count_eq(keys, v as usize) == 0 by {
        lemma_count_bounds(keys, v as usize);
        if count_eq(keys, v as usize) > 0 {
            let j = choose|j: int| 0 <= j < keys.len() && keys[j] == v as usize;
            assert(keys[j] <= hi);
        }
    }
    assert forall|v: int| 0 <= v < lo implies #[trigger] count_eq(keys, v as usize) == 0 by {
        lemma_count_bounds(keys, v as usize);
        if count_eq(keys, v as usize) > 0 {
            let j = choose|j: int| 0 <= j < keys.len() && keys[j] == v as usize;
            assert(lo <= keys[j]);
        }
    }
    lemma_runs_absent(h, keys, base, hi + 1, usize::MAX + 1);
    lemma_runs_absent(h, keys, base, 0, lo as int);
}

/// Splits the cell `cell1..=cell2` by the numbers of neighbours of its
/// vertices in `workset`: the numbers are kept in `count`, the vertices are
/// sorted by them into fragments, each fragment but the last ends a cell,
/// the fragments but the first are made active, and the first largest
/// fragment is made inactive when the cell was not active (its start kept
/// in `maxpos`). Each fragment's number of neighbours plus its start is
/// mixed into the hash code, and the last fragment of one vertex other than
/// the first becomes the hint. When all the numbers are equal, only the
/// hash code and `count` change.
#[verifier::rlimit(60)]
#[verifier::spinoff_prover]
fn split_cell_by_counts(
    g: &Graph,
    workset: &BitSet,
    lab: &mut [usize],
    ptn: &mut [usize],
    level: usize,
    cell1: usize,
    cell2: usize,
    numcells: &mut usize,
    count: &mut Vec<usize>,
    active: &mut BitSet,
    hint: &mut usize,
    longcode: &mut usize,
    workperm: &mut Vec<usize>,
    bucket: &mut Vec<usize>,
    maxpos: &mut Option<usize>,
)
    requires
        g.wf(),
        1 <= g.num_vertices() <= usize::BITS,
        workset@.len() == g.num_vertices(),
        old(lab)@.len() == g.num_vertices(),
        old(ptn)@.len() == g.num_vertices(),
        forall|k: int| 0 <= k < g.num_vertices() ==> #[trigger] old(lab)@[k] < g.num_vertices(),
        cell1 < cell2 < g.num_vertices(),
        forall|p: int| cell1 <= p < cell2 ==> #[trigger] old(ptn)@[p] > level,
        old(count)@.len() > cell2,
        old(active)@.len() == g.num_vertices(),
        *old(hint) < g.num_vertices(),
        *old(longcode) <= code_bound(),
        *old(numcells) + count_wide(old(ptn)@, level) < code_bound(),
        old(workperm)@.len() == g.num_vertices(),
        forall|k: int| 0 <= k < g.num_vertices() ==> #[trigger] old(workperm)@[k] < g.num_vertices(),
        old(bucket)@.len() == g.num_vertices() + 2,
        *old(maxpos) matches Some(x) ==> x < g.num_vertices(),
    ensures
        final(lab)@.len() == g.num_vertices(),
        forall|k: int| 0 <= k < g.num_vertices() ==> #[trigger] final(lab)@[k] < g.num_vertices(),
        forall|k: int| 0 <= k < g.num_vertices() && !(cell1 <= k <= cell2) ==> #[trigger] final(lab)@[k] == old(lab)@[k],
        refines(old(ptn)@, final(ptn)@, level),
        forall|p: int| 0 <= p < g.num_vertices() && !(cell1 <= p < cell2) ==> #[trigger] final(ptn)@[p] == old(ptn)@[p],
        *final(numcells) + count_wide(final(ptn)@, level) == *old(numcells) + count_wide(old(ptn)@, level),
        count_true(final(active)@) + (g.num_vertices() + 2) * count_wide(final(ptn)@, level) <= count_true(old(active)@)
            + (g.num_vertices() + 2) * count_wide(old(ptn)@, level),
        final(active)@.len() == g.num_vertices(),
        final(count)@.len() == old(count)@.len(),
        *final(hint) < g.num_vertices(),
        *final(longcode) <= code_bound(),
        final(workperm)@.len() == g.num_vertices(),
        forall|k: int| 0 <= k < g.num_vertices() ==> #[trigger] final(workperm)@[k] < g.num_vertices(),
        final(bucket)@.len() == g.num_vertices() + 2,
        *final(maxpos) matches Some(x) ==> x < g.num_vertices(),
        final(lab)@.subrange(cell1 as int, cell2 + 1).to_multiset() =~= old(lab)@.subrange(
            cell1 as int,
            cell2 + 1,
        ).to_multiset(),
        forall|k: int|
            0 <= k <= cell2 - cell1 ==> #[trigger] final(count)@[cell1 + k] == nbr_count(
                *g,
                workset@,
                old(lab)@[cell1 + k] as int,
            ),
        forall|j: int| 0 <= j < old(count)@.len() && !(cell1 <= j <= cell2) ==> #[trigger] final(count)@[j] == old(count)@[j],
        ({
            let keys = final(count)@.subrange(cell1 as int, cell2 + 1);
            &&& forall|k: int|
                0 <= k <= cell2 - cell1 ==> #[trigger] final(lab)@[cell1 + sorted_pos(keys, k)] == old(lab)@[cell1 + k]
            &&& forall|p: int|
                cell1 <= p < cell2 ==> #[trigger] final(ptn)@[p] == if is_run_end(keys, p - cell1) {
                    level
                } else {
                    old(ptn)@[p]
                }
            &&& *final(numcells) == *old(numcells) + distinct_in(keys, 0, usize::MAX + 1) - 1
            &&& *final(longcode) == hash_runs(*old(longcode), keys, cell1 as int, usize::MAX + 1)
            &&& if distinct_in(keys, 0, usize::MAX + 1) > 1 {
                &&& *final(maxpos) == Some((cell1 + best_run(keys, usize::MAX + 1).0) as usize)
                &&& *final(hint) == hint_runs(*old(hint), keys, cell1 as int, usize::MAX + 1)
                &&& final(active)@ == split_active(
                    old(active)@,
                    keys,
                    cell1 as int,
                    cell1 + best_run(keys, usize::MAX + 1).0,
                )
            } else {
                &&& *final(maxpos) == *old(maxpos)
                &&& *final(hint) == *old(hint)
                &&& final(active)@ == old(active)@
            }
        }),
{
    let n = g.n();
    let ghost m = cell2 - cell1 + 1;
    let cnt0 = count_neighbours(g, workset, lab[cell1]);
    count.set(cell1, cnt0);
    let mut bmin = cnt0;
    let mut bmax = cnt0;
    bucket.set(cnt0, 1);
    proof {
        assert(count@.subrange(cell1 as int, cell1 + 1) =~= seq![cnt0]);
        assert(count@.subrange(cell1 as int, cell1 + 1)[0] == cnt0);
        reveal_with_fuel(count_eq, 2);
    }
    let mut i = cell1 + 1;
    while i <= cell2
        invariant
            g.wf(),
            n == g.num_vertices(),
            workset@.len() == n,
            lab@.len() == n,
            forall|k: int| 0 <= k < n ==> #[trigger] lab@[k] < n,
            cell1 < i <= cell2 + 1,
            cell2 < n,
            count@.len() == old(count)@.len(),
            count@.len() > cell2,
            bucket@.len() == n + 2,
            bmin <= bmax <= n,
            is_min(count@.subrange(cell1 as int, i as int), bmin),
            is_max(count@.subrange(cell1 as int, i as int), bmax),
            forall|j: int| cell1 <= j < i ==> #[trigger] count@[j] <= n,
            forall|v: int| bmin <= v <= bmax ==> #[trigger] bucket@[v] == count_eq(count@.subrange(cell1 as int, i as int), v as usize),
            lab@ == old(lab)@,
            forall|j: int| cell1 <= j < i ==> #[trigger] count@[j] == nbr_count(*g, workset@, lab@[j] as int),
            forall|j: int| 0 <= j < count@.len() && !(cell1 <= j < i) ==> #[trigger] count@[j] == old(count)@[j],
        decreases cell2 + 1 - i,
    {
        let ghost vp = count@.subrange(cell1 as int, i as int);
        let cnt = count_neighbours(g, workset, lab[i]);
        proof {
            lemma_count_bounds(vp, cnt);
        }
        let ghost bmin0 = bmin;
        let ghost bmax0 = bmax;
        while bmin > cnt
            invariant
                bucket@.len() == n + 2,
                bmin <= bmin0 <= bmax0 <= n,
                bmin == bmin0 || bmin >= cnt,
                bmax == bmax0,
                is_min(vp, bmin0),
                is_max(vp, bmax0),
                forall|v: int| bmin <= v <= bmax ==> #[trigger] bucket@[v] == count_eq(vp, v as usize),
            decreases bmin,
        {
            bmin = bmin - 1;
            bucket.set(bmin, 0);
            proof {
                lemma_count_bounds(vp, bmin);
                if count_eq(vp, bmin) > 0 {
                    let j = choose|j: int| 0 <= j < vp.len() && vp[j] == bmin;
                    assert(bmin0 <= vp[j]);
                }
            }
        }
        while bmax < cnt
            invariant
                bucket@.len() == n + 2,
                bmin <= bmax0 <= bmax <= n,
                cnt <= n,
                bmax == bmax0 || bmax <= cnt,
                bmin == bmin0 || bmin == cnt,
                bmin <= bmin0,
                is_max(vp, bmax0),
                forall|v: int| bmin <= v <= bmax ==> #[trigger] bucket@[v] == count_eq(vp, v as usize),
            decreases cnt - bmax,
        {
            bmax = bmax + 1;
            bucket.set(bmax, 0);
            proof {
                lemma_count_bounds(vp, bmax);
                if count_eq(vp, bmax) > 0 {
                    let j = choose|j: int| 0 <= j < vp.len() && vp[j] == bmax;
                    assert(vp[j] <= bmax0);
                }
            }
        }
        let b = bucket[cnt];
        proof {
            lemma_count_bounds(vp, cnt);
        }
        bucket.set(cnt, b + 1);
        count.set(i, cnt);
        proof {
            let vp1 = count@.subrange(cell1 as int, i + 1);
            assert(vp1 =~= vp.push(cnt));
            assert forall|v: int| bmin <= v <= bmax implies #[trigger] bucket@[v] == count_eq(vp1, v as usize) by {
                lemma_count_push(vp, cnt, v as usize);
            }
            assert forall|j: int| 0 <= j < vp1.len() implies bmin <= #[trigger] vp1[j] && vp1[j] <= bmax by {
                if j < vp.len() {
                    assert(vp1[j] == vp[j]);
                }
            }
            if cnt != bmin {
                let j = choose|j: int| 0 <= j < vp.len() && vp[j] == bmin;
                assert(vp1[j] == bmin);
            } else {
                assert(vp1[vp.len() as int] == bmin);
            }
            if cnt != bmax {
                let j = choose|j: int| 0 <= j < vp.len() && vp[j] == bmax;
                assert(vp1[j] == bmax);
            } else {
                assert(vp1[vp.len() as int] == bmax);
            }
        }
        i = i + 1;
    }
    let ghost vv = count@.subrange(cell1 as int, cell2 + 1);
    if bmin == bmax {
        proof {
            lemma_mash_bound(*longcode);
            assert forall|j: int| 0 <= j < vv.len() implies #[trigger] vv[j] == bmin by {
                assert(bmin <= vv[j] <= bmax);
            }
            lemma_uniform_keys(vv, bmin, *longcode, cell1 as int);
        }
        *longcode = mash(*longcode, bmin + cell1);
        return;
    }
    let ghost ptn0 = ptn@;
    let ghost nc0 = *numcells;
    let ghost a0 = count_true(active@);
    let ghost w0 = count_wide(ptn@, level);
    let ghost lc0 = *longcode;
    let ghost h0 = *hint;
    let ghost act0 = active@;
    proof {
        assert(vv.len() == m);
        lemma_count_bounds(vv, bmin);
        lemma_count_bounds(vv, bmax);
        lemma_count_wide_bound(ptn@, level);
        lemma_count_true_bounds(active@);
        lemma_keys_in_range(vv, bmin, bmax, lc0, cell1 as int);
        lemma_runs_in_range(vv, bmin, bmax, h0, cell1 as int);
    }
    let mut c1 = cell1;
    let mut maxcell: isize = -1;
    let mut i = bmin;
    while i <= bmax
        invariant
            g.wf(),
            n == g.num_vertices(),
            1 <= n <= usize::BITS,
            lab@.len() == n,
            ptn@.len() == n,
            cell1 < cell2 < n,
            m == cell2 - cell1 + 1,
            vv == count@.subrange(cell1 as int, cell2 + 1),
            vv.len() == m,
            count@.len() > cell2,
            bucket@.len() == n + 2,
            bmin < bmax <= n,
            is_min(vv, bmin),
            is_max(vv, bmax),
            bmin <= i <= bmax + 1,
            forall|v: int|
                bmin <= v <= bmax ==> #[trigger] bucket@[v] == if v < i {
                    if count_eq(vv, v as usize) > 0 {
                        (cell1 + count_below(vv, v as usize)) as usize
                    } else {
                        0
                    }
                } else {
                    count_eq(vv, v as usize) as usize
                },
            cell1 <= c1 <= cell2,
            count_below(vv, i) < m ==> c1 == cell1 + count_below(vv, i),
            (count_below(vv, i) > 0) == (distinct_in(vv, bmin as int, i as int) > 0),
            *numcells == nc0 + distinct_in(vv, bmin as int, i as int) - if distinct_in(vv, bmin as int, i as int) > 0 {
                1int
            } else {
                0int
            },
            nc0 + w0 < code_bound(),
            w0 == count_wide(ptn0, level),
            refines(ptn0, ptn@, level),
            count_wide(ptn@, level) + closed_runs(vv, bmin as int, i as int) == w0,
            forall|p: int| 0 <= p < n && !(cell1 <= p < cell2) ==> #[trigger] ptn@[p] == ptn0[p],
            forall|p: int| c1 <= p < cell2 ==> #[trigger] ptn@[p] == ptn0[p],
            forall|p: int| cell1 <= p < cell2 ==> #[trigger] ptn0[p] > level,
            active@.len() == n,
            count_true(active@) <= a0 + distinct_in(vv, bmin as int, i as int) - if distinct_in(vv, bmin as int, i as int) > 0 {
                1int
            } else {
                0int
            },
            *hint < n,
            *longcode <= code_bound(),
            -1 <= maxcell <= n,
            *maxpos matches Some(x) ==> x < n,
            *longcode == hash_runs(lc0, vv, cell1 as int, i as int),
            *hint == hint_runs(h0, vv, cell1 as int, i as int),
            maxcell as int == best_run(vv, i as int).1,
            best_run(vv, i as int).1 >= 0 ==> *maxpos == Some((cell1 + best_run(vv, i as int).0) as usize),
            best_run(vv, i as int).1 >= 0 ==> 0 <= best_run(vv, i as int).0 && cell1 + best_run(vv, i as int).0 <= cell2,
            distinct_in(vv, bmin as int, i as int) > 0 ==> best_run(vv, i as int).1 > 0,
            act0.len() == n,
            forall|p: int|
                0 <= p < n ==> #[trigger] active@[p] == (act0[p] || (p > cell1 && run_start_below(
                    vv,
                    p - cell1,
                    i as int,
                ))),
            forall|p: int|
                cell1 <= p < cell2 ==> #[trigger] ptn@[p] == if is_run_end_below(vv, p - cell1, i as int) {
                    level
                } else {
                    ptn0[p]
                },
        decreases bmax + 1 - i,
    {
        proof {
            lemma_count_bounds(vv, i);
            lemma_count_below_next(vv, i);
            lemma_count_bounds(vv, (i + 1) as usize);
            assert(distinct_in(vv, bmin as int, i + 1) == distinct_in(vv, bmin as int, i as int) + if count_eq(vv, i) > 0 {
                1nat
            } else {
                0nat
            });
            assert(closed_runs(vv, bmin as int, i + 1) == closed_runs(vv, bmin as int, i as int) + if count_eq(vv, i) > 0 && count_below(vv, (i + 1) as usize) < vv.len() {
                1nat
            } else {
                0nat
            });
        }
        let ghost ptn_i = ptn@;
        proof {
            assert forall|q: int| 0 <= q < m implies #[trigger] is_run_end_below(vv, q, i + 1) == (is_run_end_below(vv, q, i as int) || (count_eq(vv, i) > 0
                && count_below(vv, i) + count_eq(vv, i) == q + 1 && q + 1 < vv.len())) by {
                lemma_run_end_step(vv, i, q);
            }
            assert forall|q: int| #[trigger] run_start_below(vv, q, i + 1) == (run_start_below(vv, q, i as int) || (count_eq(vv, i) > 0
                && count_below(vv, i) == q)) by {
                lemma_run_start_step(vv, i, q);
            }
        }
        let ghost act_i = active@;
        if bucket[i] != 0 {
            let c2 = c1 + bucket[i];
            bucket.set(i, c1);
            proof {
                lemma_mash_bound(*longcode);
            }
            *longcode = mash(*longcode, i + c1);
            if ((c2 - c1) as isize) > maxcell {
                maxcell = (c2 - c1) as isize;
                *maxpos = Some(c1);
            }
            if c1 != cell1 {
                proof {
                    lemma_count_add(active@, c1 as int);
                    lemma_closed_runs_upto(vv, bmin, i, bmax);
                }
                active.add_one(c1);
                if c2 - c1 == 1 {
                    *hint = c1;
                }
                *numcells = *numcells + 1;
            }
            if c2 <= cell2 {
                proof {
                    lemma_count_wide_split(ptn@, level, c2 - 1);
                }
                ptn[c2 - 1] = level;
                c1 = c2;
            }
            proof {
                assert forall|p: int| cell1 <= p < cell2 implies #[trigger] ptn@[p] == if is_run_end_below(vv, p - cell1, i + 1) {
                    level
                } else {
                    ptn0[p]
                } by {
                    assert(is_run_end_below(vv, p - cell1, i + 1) == (is_run_end_below(vv, p - cell1, i as int) || (count_eq(vv, i) > 0
                        && count_below(vv, i) + count_eq(vv, i) == p - cell1 + 1 && p - cell1 + 1 < vv.len())));
                    assert(ptn_i[p] == if is_run_end_below(vv, p - cell1, i as int) { level } else { ptn0[p] });
                }
            }
        } else {
            proof {
                assert forall|p: int| cell1 <= p < cell2 implies #[trigger] ptn@[p] == if is_run_end_below(vv, p - cell1, i + 1) {
                    level
                } else {
                    ptn0[p]
                } by {
                    assert(is_run_end_below(vv, p - cell1, i + 1) == is_run_end_below(vv, p - cell1, i as int));
                }
            }
        }
        i = i + 1;
    }
    proof {
        lemma_closed_runs(vv, bmin, bmax);
        let d = distinct_in(vv, bmin as int, bmax + 1);
        assert(d >= 2) by {
            assert(distinct_in(vv, bmin as int, bmin + 1) == 1) by {
                assert(distinct_in(vv, bmin as int, bmin as int) == 0);
            }
            lemma_distinct_mono(vv, bmin as int, bmin + 1, bmax as int);
        }
        assert(vv.take(0) =~= Seq::<usize>::empty());
        assert forall|v: int|
            bmin <= v <= bmax && count_eq(vv, v as usize) > 0 implies #[trigger] bucket@[v] == cell1 + count_below(vv, v as usize)
                + count_eq(vv.take(0), v as usize) by {
            lemma_count_bounds(vv, v as usize);
        }
    }
    let ghost a1 = count_true(active@);
    let ghost w1 = count_wide(ptn@, level);
    let ghost d = distinct_in(vv, bmin as int, bmax + 1) as int;
    assert(a1 <= a0 + d - 1);
    assert(w1 == w0 - (d - 1));
    let mut i = cell1;
    while i <= cell2
        invariant
            n == g.num_vertices(),
            lab@.len() == n,
            forall|k: int| 0 <= k < n ==> #[trigger] lab@[k] < n,
            cell1 <= i <= cell2 + 1,
            cell2 < n,
            m == cell2 - cell1 + 1,
            vv == count@.subrange(cell1 as int, cell2 + 1),
            vv.len() == m,
            count@.len() > cell2,
            bucket@.len() == n + 2,
            bmin < bmax <= n,
            is_min(vv, bmin),
            is_max(vv, bmax),
            forall|v: int|
                bmin <= v <= bmax && count_eq(vv, v as usize) > 0 ==> #[trigger] bucket@[v] == cell1 + count_below(vv, v as usize)
                    + count_eq(vv.take(i - cell1), v as usize),
            workperm@.len() == n,
            forall|k: int| 0 <= k < n ==> #[trigger] workperm@[k] < n,
            forall|k: int|
                0 <= k < i - cell1 ==> #[trigger] workperm@[cell1 + sorted_pos(vv, k)] == lab@[cell1 + k],
        decreases cell2 + 1 - i,
    {
        let ci = count[i];
        proof {
            let k = i - cell1;
            assert(vv[k] == ci);
            lemma_count_eq_take(vv, k, ci);
            lemma_count_eq_take(vv, k + 1, ci);
            lemma_count_bounds(vv, ci);
            assert(bmin <= ci <= bmax);
        }
        let b = bucket[ci];
        let l = lab[i];
        let ghost wp0 = workperm@;
        workperm.set(b, l);
        bucket.set(ci, b + 1);
        proof {
            let k = i - cell1;
            assert(b == cell1 + sorted_pos(vv, k));
            assert forall|j: int| 0 <= j < k + 1 implies #[trigger] workperm@[cell1 + sorted_pos(vv, j)] == lab@[cell1 + j] by {
                if j < k {
                    lemma_sorted_pos(vv, j, k);
                    assert(wp0[cell1 + sorted_pos(vv, j)] == lab@[cell1 + j]);
                }
            }
            assert forall|v: int|
                bmin <= v <= bmax && count_eq(vv, v as usize) > 0 implies #[trigger] bucket@[v] == cell1
                    + count_below(vv, v as usize) + count_eq(vv.take(k + 1), v as usize) by {
                lemma_count_eq_take(vv, k, v as usize);
            }
        }
        i = i + 1;
    }
    let ghost lab_a = lab@;
    let mut i = cell1;
    while i <= cell2
        invariant
            n == g.num_vertices(),
            lab@.len() == n,
            workperm@.len() == n,
            forall|k: int| 0 <= k < n ==> #[trigger] lab@[k] < n,
            forall|k: int| 0 <= k < n ==> #[trigger] workperm@[k] < n,
            forall|k: int| 0 <= k < n && !(cell1 <= k <= cell2) ==> #[trigger] lab@[k] == old(lab)@[k],
            forall|k: int| 0 <= k < n && !(cell1 <= k < i) ==> #[trigger] lab@[k] == lab_a[k],
            forall|p: int| cell1 <= p < i ==> #[trigger] lab@[p] == workperm@[p],
            cell1 <= i <= cell2 + 1,
            cell2 < n,
        decreases cell2 + 1 - i,
    {
        lab[i] = workperm[i];
        i = i + 1;
    }
    proof {
        let pi = Seq::new(m as nat, |k: int| sorted_pos(vv, k));
        lemma_sorted_pos_bijection(vv);
        assert forall|k: int| 0 <= k < m implies lab@[cell1 + #[trigger] pi[k]] == lab_a[cell1 + k] by {
            assert(0 <= pi[k] < m);
            assert(pi[k] == sorted_pos(vv, k));
        }
        let sa = lab_a.subrange(cell1 as int, cell2 + 1);
        let sb = lab@.subrange(cell1 as int, cell2 + 1);
        assert forall|k: int| 0 <= k < m implies sb[0 + #[trigger] pi[k]] == sa[0 + k] by {
            assert(0 <= pi[k] < m);
            assert(lab@[cell1 + pi[k]] == lab_a[cell1 + k]);
        }
        lemma_block_perm_multiset(sa, sb, 0, m, pi);
    }
    assert(count_true(active@) == a1);
    let ghost a_loop = active@;
    if !active.contains(cell1) {
        proof {
            lemma_count_add(active@, cell1 as int);
        }
        active.add_one(cell1);
        assert(count_true(active@) <= a1 + 1);
        let ghost a2 = active@;
        assert(*maxpos == Some((cell1 + best_run(vv, bmax + 1).0) as usize));
        assert(a2 =~= a_loop.update(cell1 as int, true));
        if let Some(mp) = *maxpos {
            proof {
                lemma_count_remove(active@, mp as int);
            }
            active.remove_one(mp);
            assert(active@ =~= a2.update(mp as int, false));
        }
        assert(active@ =~= Seq::new(
            a_loop.len(),
            |p: int| a_loop.update(cell1 as int, true)[p] && p != cell1 + best_run(vv, bmax + 1).0,
        ));
    }
    assert(count_true(active@) <= a1 + 1);
    assert(count_wide(ptn@, level) == w1);
    proof {
        assert((n + 2) * (w1 as int) + (d - 1) * (n + 2) == (n + 2) * w0) by (nonlinear_arith)
            requires
                w1 == w0 - (d - 1),
        ;
        assert((d - 1) * (n + 2) >= d) by (nonlinear_arith)
            requires
                d >= 2,
                n >= 1,
        ;
        assert(count@.subrange(cell1 as int, cell2 + 1) == vv);
        assert forall|p: int| cell1 <= p < cell2 implies #[trigger] ptn@[p] == if is_run_end(vv, p - cell1) {
            level
        } else {
            old(ptn)@[p]
        } by {
            assert(is_run_end_below(vv, p - cell1, bmax + 1) == is_run_end(vv, p - cell1));
        }
        assert(lab_a == old(lab)@);
        assert forall|k: int| 0 <= k <= cell2 - cell1 implies #[trigger] lab@[cell1 + sorted_pos(vv, k)] == old(lab)@[cell1 + k] by {
            assert(Seq::new(m as nat, |k: int| sorted_pos(vv, k))[k] == sorted_pos(vv, k));
        }
        let big = usize::MAX + 1;
        assert(distinct_in(vv, 0, big) == d);
        assert(act0 == old(active)@);
        assert(h0 == *old(hint));
        let a1 = Seq::new(
            act0.len(),
            |p: int| act0[p] || (p > cell1 && run_start_below(vv, p - cell1, big)),
        );
        assert(a_loop =~= a1) by {
            assert forall|p: int| 0 <= p < n implies #[trigger] a_loop[p] == a1[p] by {
                assert(run_start_below(vv, p - cell1, bmax + 1) == run_start_below(vv, p - cell1, big));
            }
        }
        assert(best_run(vv, big) == best_run(vv, bmax + 1));
        let mp = cell1 + best_run(vv, big).0;
        if act0[cell1 as int] {
            assert(active@ =~= split_active(act0, vv, cell1 as int, mp));
        } else {
            assert(active@ =~= split_active(act0, vv, cell1 as int, mp));
        }
    }
}

/// What `refine` works on from one step to the next: the labels, `ptn`,
/// the number of cells, the neighbour counts, the active cells, the hint
/// for the next splitting cell and the running hash code.
pub ghost struct RefineState {
    pub lab: Seq<usize>,
    pub ptn: Seq<usize>,
    pub numcells: usize,
    pub count: Seq<usize>,
    pub active: Seq<bool>,
    pub hint: usize,
    pub longcode: usize,
}

/// The state `refine` starts from: the hint at 0, the hash code at the
/// number of cells.
pub open spec fn refine_start(
    lab: Seq<usize>,
    ptn: Seq<usize>,
    numcells: usize,
    count: Seq<usize>,
    active: Seq<bool>,
) -> RefineState {
    RefineState { lab, ptn, numcells, count, active, hint: 0, longcode: numcells }
}

/// The end of the cell at `level` that starts at `c`: the first position
/// from `c` on whose `ptn` entry is at most `level`, or the last position.
pub open spec fn cell_end_at(ptn: Seq<usize>, c: int, level: usize) -> int
    decreases ptn.len() - c,
{
    if c >= ptn.len() - 1 || ptn[c] <= level {
        c
    } else {
        cell_end_at(ptn, c + 1, level)
    }
}

/// Splitting the cell `c1 ..= c2` by the neighbours of `v`: the labels
/// after the swap partition by adjacency to `v`, and, when both parts are
/// non-empty, the effects of `vertex_split_effects`.
#[verifier::opaque]
pub open spec fn vertex_split(g: Graph, v: int, level: usize, st: RefineState, c1: int, c2: int) -> RefineState {
    let (lab1, s) = swap_partition(st.lab, adjacent_to(g, v), c1, c2 + 1);
    if c1 < s <= c2 {
        let back = st.active[c1] || s - 1 - c1 >= c2 - s;
        RefineState {
            lab: lab1,
            ptn: st.ptn.update(s - 1, level),
            numcells: (st.numcells + 1) as usize,
            count: st.count,
            active: if back {
                st.active.update(s, true)
            } else {
                st.active.update(c1, true)
            },
            hint: if back && s == c2 {
                s as usize
            } else if !back && s - 1 == c1 {
                c1 as usize
            } else {
                st.hint
            },
            longcode: spec_mash(st.longcode, (s - 1) as usize),
        }
    } else {
        RefineState { lab: lab1, ptn: st.ptn, numcells: st.numcells, count: st.count, active: st.active, hint: st.hint, longcode: st.longcode }
    }
}

/// When the neighbours of `v` split the cell `c1 ..= c2` into two
/// fragments, a fragment smaller than the other is made active (the second
/// one when both have the same size), and if the cell was active both
/// fragments are: no fragment of an active cell is left inactive, and no
/// active position is dropped.
pub proof fn lemma_vertex_split_active_fragments(g: Graph, v: int, level: usize, st: RefineState, c1: int, c2: int)
    requires
        0 <= c1 < c2 < st.lab.len(),
        st.active.len() == st.lab.len(),
    ensures
        ({
            let s = swap_partition(st.lab, adjacent_to(g, v), c1, c2 + 1).1;
            let fin = vertex_split(g, v, level, st, c1, c2);
            c1 < s <= c2 ==> {
                &&& st.active[c1] ==> fin.active[c1] && fin.active[s]
                &&& s - c1 < c2 + 1 - s ==> fin.active[c1]
                &&& c2 + 1 - s <= s - c1 ==> fin.active[s]
                &&& forall|p: int| 0 <= p < st.active.len() && #[trigger] st.active[p] ==> fin.active[p]
            }
        }),
{
    reveal(vertex_split);
}

/// The same for the effects that `split_cell_by_vertex` states: when the
/// split happens, the smaller fragment is made active (the second one when
/// both have the same size), both fragments are when the cell was active,
/// and no active position is dropped.
pub proof fn lemma_vertex_split_effects_active(
    cell1: int,
    cell2: int,
    s: int,
    level: usize,
    ptn0: Seq<usize>,
    ptn1: Seq<usize>,
    nc0: usize,
    nc1: usize,
    lc0: usize,
    lc1: usize,
    act0: Seq<bool>,
    act1: Seq<bool>,
    hint0: usize,
    hint1: usize,
)
    requires
        0 <= cell1 < cell2 < act0.len(),
        cell1 < s <= cell2,
        vertex_split_effects(cell1, cell2, s, level, ptn0, ptn1, nc0, nc1, lc0, lc1, act0, act1, hint0, hint1),
    ensures
        act0[cell1] ==> act1[cell1] && act1[s],
        s - cell1 < cell2 + 1 - s ==> act1[cell1],
        cell2 + 1 - s <= s - cell1 ==> act1[s],
        forall|p: int| 0 <= p < act0.len() && #[trigger] act0[p] ==> act1[p],
{
}

/// Splitting every cell from position `c` on by the neighbours of `v`.
#[verifier::opaque]
pub open spec fn vertex_pass(g: Graph, v: int, level: usize, n: int, st: RefineState, c: int) -> RefineState
    decreases n - c,
{
    if c >= n {
        st
    } else {
        let e = cell_end_at(st.ptn, c, level);
        if c < e < n {
            vertex_pass(g, v, level, n, vertex_split(g, v, level, st, c, e), e + 1)
        } else {
            vertex_pass(g, v, level, n, st, c + 1)
        }
    }
}

/// The numbers of neighbours in `workset` of the labels `c1 ..= c2`.
pub open spec fn nbr_keys(g: Graph, workset: Seq<bool>, lab: Seq<usize>, c1: int, c2: int) -> Seq<usize> {
    Seq::new((c2 - c1 + 1) as nat, |k: int| nbr_count(g, workset, lab[c1 + k] as int) as usize)
}

/// The entry of `keys` that goes to position `p` when `keys` is sorted
/// stably.
pub open spec fn sorted_source(keys: Seq<usize>, p: int) -> int {
    choose|k: int| 0 <= k < keys.len() && sorted_pos(keys, k) == p
}

/// Splitting the cell `c1 ..= c2` by the numbers of neighbours of its
/// labels in `workset`: the labels sorted stably by them, a cell ended at
/// each run of equal numbers, the numbers kept in `count`, and the cell
/// count, active cells, hint and hash code of `split_cell_by_counts`.
#[verifier::opaque]
pub open spec fn counts_split(g: Graph, workset: Seq<bool>, level: usize, st: RefineState, c1: int, c2: int) -> RefineState {
    let keys = nbr_keys(g, workset, st.lab, c1, c2);
    let d = distinct_in(keys, 0, usize::MAX + 1);
    RefineState {
        lab: Seq::new(
            st.lab.len(),
            |p: int|
                if c1 <= p <= c2 {
                    st.lab[c1 + sorted_source(keys, p - c1)]
                } else {
                    st.lab[p]
                },
        ),
        ptn: Seq::new(
            st.ptn.len(),
            |p: int|
                if c1 <= p < c2 && is_run_end(keys, p - c1) {
                    level
                } else {
                    st.ptn[p]
                },
        ),
        numcells: (st.numcells + d - 1) as usize,
        count: Seq::new(
            st.count.len(),
            |j: int|
                if c1 <= j <= c2 {
                    keys[j - c1]
                } else {
                    st.count[j]
                },
        ),
        active: if d > 1 {
            split_active(st.active, keys, c1, c1 + best_run(keys, usize::MAX + 1).0)
        } else {
            st.active
        },
        hint: if d > 1 {
            hint_runs(st.hint, keys, c1, usize::MAX + 1)
        } else {
            st.hint
        },
        longcode: hash_runs(st.longcode, keys, c1, usize::MAX + 1),
    }
}

/// The best run of the keys below `hi`: none (`-1`) when no key below
/// `hi` occurs, else a run of a key below `hi` whose length is the largest
/// of them, with its start once the keys are sorted.
proof fn lemma_best_run(keys: Seq<usize>, hi: int)
    requires
        0 <= hi <= usize::MAX + 1,
    ensures
        ({
            let (s, c) = best_run(keys, hi);
            &&& c == -1 || c > 0
            &&& c == -1 ==> forall|u: usize| u < hi ==> #[trigger] count_eq(keys, u) == 0
            &&& c > 0 ==> exists|v: usize|
                #![trigger count_eq(keys, v)]
                v < hi && count_eq(keys, v) == c && count_below(keys, v) == s
            &&& c > 0 ==> forall|u: usize| u < hi ==> #[trigger] count_eq(keys, u) <= c
        }),
    decreases hi,
{
    if hi > 0 {
        lemma_best_run(keys, hi - 1);
        let (s0, c0) = best_run(keys, hi - 1);
        let top = (hi - 1) as usize;
        let e = count_eq(keys, top) as int;
        if e > 0 && e > c0 {
            assert(count_eq(keys, top) == e);
            assert forall|u: usize| u < hi implies #[trigger] count_eq(keys, u) <= e by {
                if u < hi - 1 && c0 > 0 {
                    assert(count_eq(keys, u) <= c0);
                }
            }
        } else {
            if c0 > 0 {
                let v = choose|v: usize| #![trigger count_eq(keys, v)] v < hi - 1 && count_eq(keys, v) == c0 && count_below(keys, v) == s0;
                assert(v < hi && count_eq(keys, v) == c0);
            }
            assert forall|u: usize| u < hi implies #[trigger] count_eq(keys, u) <= c0 || (c0 == -1 && count_eq(keys, u) == 0) by {
                if u == top {
                }
            }
        }
    }
}

/// When the numbers of neighbours in `w` split the cell `c1 ..= c2` into
/// several fragments, one per number that occurs (the fragment of number
/// `v` starting `count_below(keys, v)` positions into the cell once it is
/// sorted), every fragment is made active if the cell was active, and
/// otherwise every fragment but one of the largest is: no fragment of an
/// active cell is left inactive, and a fragment left inactive is one of the
/// largest.
pub proof fn lemma_counts_split_active_fragments(g: Graph, w: Seq<bool>, level: usize, st: RefineState, c1: int, c2: int)
    requires
        0 <= c1 <= c2 < st.active.len(),
    ensures
        ({
            let keys = nbr_keys(g, w, st.lab, c1, c2);
            let fin = counts_split(g, w, level, st, c1, c2);
            distinct_in(keys, 0, usize::MAX + 1) > 1 ==> {
                &&& st.active[c1] ==> forall|v: usize|
                    #[trigger] count_eq(keys, v) > 0 ==> fin.active[c1 + count_below(keys, v)]
                &&& forall|v: usize, u: usize|
                    #[trigger] count_eq(keys, v) > 0 && count_eq(keys, v) < #[trigger] count_eq(keys, u)
                        ==> fin.active[c1 + count_below(keys, v)]
            }
        }),
{
    reveal(counts_split);
    let keys = nbr_keys(g, w, st.lab, c1, c2);
    let fin = counts_split(g, w, level, st, c1, c2);
    if distinct_in(keys, 0, usize::MAX + 1) > 1 {
        lemma_best_run(keys, usize::MAX + 1);
        let (bs, bc) = best_run(keys, usize::MAX + 1);
        let mp = c1 + bs;
        assert forall|v: usize| #[trigger] count_eq(keys, v) > 0 implies c1 + count_below(keys, v) < st.active.len()
            && (count_below(keys, v) > 0 ==> run_start_below(keys, count_below(keys, v) as int, usize::MAX + 1)) by {
            lemma_count_bounds(keys, v);
        }
        assert forall|v: usize| st.active[c1] && #[trigger] count_eq(keys, v) > 0 implies fin.active[c1
            + count_below(keys, v)] by {
            lemma_count_bounds(keys, v);
        }
        assert forall|v: usize, u: usize|
            #[trigger] count_eq(keys, v) > 0 && count_eq(keys, v) < #[trigger] count_eq(keys, u) implies fin.active[c1
            + count_below(keys, v)] by {
            lemma_count_bounds(keys, v);
            if bc == -1 {
                assert(count_eq(keys, u) == 0);
            }
            let vb = choose|x: usize| #![trigger count_eq(keys, x)] x < usize::MAX + 1 && count_eq(keys, x) == bc
                && count_below(keys, x) == bs;
            assert(count_eq(keys, u) <= bc);
            assert(vb != v);
            if vb < v {
                lemma_count_order(keys, vb, v);
            } else {
                lemma_count_order(keys, v, vb);
            }
            assert(c1 + count_below(keys, v) != mp);
        }
    }
}

/// `count` lengthened with zeros to `n` entries when it is too short for
/// a cell ending at `e`.
pub open spec fn count_for(count: Seq<usize>, e: int, n: int) -> Seq<usize> {
    if count.len() <= e {
        count + Seq::new((n - count.len()) as nat, |j: int| 0usize)
    } else {
        count
    }
}

/// Splitting every cell from position `c` on by the numbers of neighbours
/// of its labels in `workset`.
#[verifier::opaque]
pub open spec fn counts_pass(g: Graph, workset: Seq<bool>, level: usize, n: int, st: RefineState, c: int) -> RefineState
    decreases n - c,
{
    if c >= n {
        st
    } else {
        let e = cell_end_at(st.ptn, c, level);
        if c < e < n {
            let st1 = RefineState { count: count_for(st.count, e, n), ..st };
            counts_pass(g, workset, level, n, counts_split(g, workset, level, st1, c, e), e + 1)
        } else {
            counts_pass(g, workset, level, n, st, c + 1)
        }
    }
}

/// The vertices at positions `a .. b` of `lab`, as a set of `n` bits.
pub open spec fn cell_members(lab: Seq<usize>, a: int, b: int, n: int) -> Seq<bool> {
    Seq::new(n as nat, |x: int| exists|k: int| a <= k < b && lab[k] == x)
}

/// No step is left: the partition is discrete or no cell is active.
pub open spec fn refine_done(n: int, st: RefineState) -> bool {
    st.numcells == n || first_true(st.active) == st.active.len()
}

/// Where the next splitting cell starts: the hint if it is active, else
/// the first active position after it, else the first active position.
pub open spec fn splitter_start(active: Seq<bool>, hint: usize) -> int {
    if active[hint as int] {
        hint as int
    } else if first_true(searched_bits(active, Some(hint))) < active.len() {
        first_true(searched_bits(active, Some(hint)))
    } else {
        first_true(active)
    }
}

/// One step of `refine`: the splitting cell is taken out of the active
/// set, mixed into the hash code, and every cell is split by it (by the
/// neighbours of its vertex when it has one, else by the numbers of
/// neighbours in it).
#[verifier::opaque]
pub open spec fn refine_step(g: Graph, level: usize, st: RefineState) -> RefineState {
    let n = g.num_vertices() as int;
    let split1 = splitter_start(st.active, st.hint);
    let split2 = cell_end_at(st.ptn, split1, level);
    let st1 = RefineState {
        active: st.active.update(split1, false),
        longcode: spec_mash(st.longcode, (split1 + split2) as usize),
        ..st
    };
    if split1 == split2 {
        vertex_pass(g, st.lab[split1] as int, level, n, st1, 0)
    } else {
        let workset = cell_members(st.lab, split1, split2 + 1, n);
        let st2 = RefineState { longcode: spec_mash(st1.longcode, (split2 - split1 + 1) as usize), ..st1 };
        counts_pass(g, workset, level, n, st2, 0)
    }
}

/// The state after `k` steps of `refine` from `st`, or after fewer, where
/// none is left.
pub open spec fn refine_run(g: Graph, level: usize, st: RefineState, k: nat) -> RefineState
    decreases k,
{
    if k == 0 {
        st
    } else {
        let prev = refine_run(g, level, st, (k - 1) as nat);
        if refine_done(g.num_vertices() as int, prev) {
            prev
        } else {
            refine_step(g, level, prev)
        }
    }
}

/// `lab`, `ptn`, `numcells`, `count`, `active` and `code` are what
/// `refine` leaves from `start`: the state where its steps end, with the
/// number of cells mixed into the hash code and the code reduced modulo
/// `0o77777`.
pub open spec fn refine_result(
    g: Graph,
    level: usize,
    start: RefineState,
    lab: Seq<usize>,
    ptn: Seq<usize>,
    numcells: usize,
    count: Seq<usize>,
    active: Seq<bool>,
    code: usize,
) -> bool {
    exists|k: nat|
        {
            let fin = #[trigger] refine_run(g, level, start, k);
            &&& refine_done(g.num_vertices() as int, fin)
            &&& lab == fin.lab
            &&& ptn == fin.ptn
            &&& numcells == fin.numcells
            &&& count == fin.count
            &&& active == fin.active
            &&& code == spec_mash(fin.longcode, fin.numcells) % 0o77777
        }
}

/// Once the steps of `refine` have ended they stay ended: a later count of
/// steps gives the same state.
pub proof fn lemma_refine_run_stays(g: Graph, level: usize, st: RefineState, k1: nat, k2: nat)
    requires
        k1 <= k2,
        refine_done(g.num_vertices() as int, refine_run(g, level, st, k1)),
    ensures
        refine_run(g, level, st, k2) == refine_run(g, level, st, k1),
    decreases k2,
{
    if k2 > k1 {
        lemma_refine_run_stays(g, level, st, k1, (k2 - 1) as nat);
    }
}

/// What `refine` leaves is a function of where it starts: two outcomes
/// from one start are the same.
pub proof fn lemma_refine_result_unique(
    g: Graph,
    level: usize,
    start: RefineState,
    lab1: Seq<usize>,
    ptn1: Seq<usize>,
    numcells1: usize,
    count1: Seq<usize>,
    active1: Seq<bool>,
    code1: usize,
    lab2: Seq<usize>,
    ptn2: Seq<usize>,
    numcells2: usize,
    count2: Seq<usize>,
    active2: Seq<bool>,
    code2: usize,
)
    requires
        refine_result(g, level, start, lab1, ptn1, numcells1, count1, active1, code1),
        refine_result(g, level, start, lab2, ptn2, numcells2, count2, active2, code2),
    ensures
        lab1 == lab2,
        ptn1 == ptn2,
        numcells1 == numcells2,
        count1 == count2,
        active1 == active2,
        code1 == code2,
{
    let k1 = choose|k: nat|
        {
            let fin = #[trigger] refine_run(g, level, start, k);
            &&& refine_done(g.num_vertices() as int, fin)
            &&& lab1 == fin.lab
            &&& ptn1 == fin.ptn
            &&& numcells1 == fin.numcells
            &&& count1 == fin.count
            &&& active1 == fin.active
            &&& code1 == spec_mash(fin.longcode, fin.numcells) % 0o77777
        };
    let k2 = choose|k: nat|
        {
            let fin = #[trigger] refine_run(g, level, start, k);
            &&& refine_done(g.num_vertices() as int, fin)
            &&& lab2 == fin.lab
            &&& ptn2 == fin.ptn
            &&& numcells2 == fin.numcells
            &&& count2 == fin.count
            &&& active2 == fin.active
            &&& code2 == spec_mash(fin.longcode, fin.numcells) % 0o77777
        };
    if k1 <= k2 {
        lemma_refine_run_stays(g, level, start, k1, k2);
    } else {
        lemma_refine_run_stays(g, level, start, k2, k1);
    }
}

/// Labels placed at their stable sorted positions are the labels read
/// back through `sorted_source`.
proof fn lemma_sorted_labels(old_lab: Seq<usize>, new_lab: Seq<usize>, keys: Seq<usize>, c1: int, c2: int)
    requires
        0 <= c1 <= c2 < old_lab.len(),
        new_lab.len() == old_lab.len(),
        keys.len() == c2 - c1 + 1,
        forall|k: int| 0 <= k <= c2 - c1 ==> #[trigger] new_lab[c1 + sorted_pos(keys, k)] == old_lab[c1 + k],
        forall|k: int| 0 <= k < old_lab.len() && !(c1 <= k <= c2) ==> #[trigger] new_lab[k] == old_lab[k],
    ensures
        new_lab == Seq::new(
            old_lab.len(),
            |p: int|
                if c1 <= p <= c2 {
                    old_lab[c1 + sorted_source(keys, p - c1)]
                } else {
                    old_lab[p]
                },
        ),
{
    lemma_sorted_pos_bijection(keys);
    let m = keys.len() as int;
    let pi = Seq::new(keys.len(), |k: int| sorted_pos(keys, k));
    assert forall|p: int| c1 <= p <= c2 implies new_lab[p] == old_lab[c1 + sorted_source(keys, p - c1)] by {
        assert(hits(pi, m, p - c1));
        let k0 = choose|k: int| 0 <= k < m && #[trigger] pi[k] == p - c1;
        assert(0 <= k0 < m && sorted_pos(keys, k0) == p - c1);
        let k = sorted_source(keys, p - c1);
        assert(0 <= k < m && sorted_pos(keys, k) == p - c1);
        assert(new_lab[c1 + sorted_pos(keys, k)] == old_lab[c1 + k]);
    }
    assert(new_lab =~= Seq::new(
        old_lab.len(),
        |p: int|
            if c1 <= p <= c2 {
                old_lab[c1 + sorted_source(keys, p - c1)]
            } else {
                old_lab[p]
            },
    ));
}

/// A step of `refine` whose splitting cell has one vertex is the pass of
/// splits by that vertex.
proof fn lemma_vertex_step(
    g: Graph,
    level: usize,
    prev: RefineState,
    split1: int,
    split2: int,
    st1: RefineState,
    fin: RefineState,
    c: int,
)
    requires
        split1 == splitter_start(prev.active, prev.hint),
        split2 == cell_end_at(prev.ptn, split1, level),
        split1 == split2,
        st1 == (RefineState {
            active: prev.active.update(split1, false),
            longcode: spec_mash(prev.longcode, (split1 + split2) as usize),
            ..prev
        }),
        c >= g.num_vertices(),
        vertex_pass(g, prev.lab[split1] as int, level, g.num_vertices() as int, st1, 0) == vertex_pass(
            g,
            prev.lab[split1] as int,
            level,
            g.num_vertices() as int,
            fin,
            c,
        ),
    ensures
        refine_step(g, level, prev) == fin,
{
    reveal(refine_step);
    reveal(vertex_pass);
}

/// A step of `refine` whose splitting cell has several vertices is the
/// pass of splits by the numbers of neighbours in it.
proof fn lemma_counts_step(
    g: Graph,
    level: usize,
    prev: RefineState,
    split1: int,
    split2: int,
    st1: RefineState,
    st2: RefineState,
    ws: Seq<bool>,
    fin: RefineState,
    c: int,
)
    requires
        split1 == splitter_start(prev.active, prev.hint),
        split2 == cell_end_at(prev.ptn, split1, level),
        split1 != split2,
        st1 == (RefineState {
            active: prev.active.update(split1, false),
            longcode: spec_mash(prev.longcode, (split1 + split2) as usize),
            ..prev
        }),
        st2 == (RefineState { longcode: spec_mash(st1.longcode, (split2 - split1 + 1) as usize), ..st1 }),
        ws == cell_members(prev.lab, split1, split2 + 1, g.num_vertices() as int),
        c >= g.num_vertices(),
        counts_pass(g, ws, level, g.num_vertices() as int, st2, 0) == counts_pass(
            g,
            ws,
            level,
            g.num_vertices() as int,
            fin,
            c,
        ),
    ensures
        refine_step(g, level, prev) == fin,
{
    reveal(refine_step);
    reveal(counts_pass);
}

/// Sorted stably, entries that no run end separates have equal keys.
proof fn lemma_sorted_run(keys: Seq<usize>, t1: int, t2: int)
    requires
        0 <= t1 <= t2 < keys.len(),
        forall|r: int| t1 <= r < t2 ==> !#[trigger] is_run_end(keys, r),
    ensures
        0 <= sorted_source(keys, t1) < keys.len(),
        0 <= sorted_source(keys, t2) < keys.len(),
        keys[sorted_source(keys, t1)] == keys[sorted_source(keys, t2)],
{
    lemma_sorted_pos_bijection(keys);
    let m = keys.len() as int;
    let pi = Seq::new(keys.len(), |k: int| sorted_pos(keys, k));
    assert(hits(pi, m, t1));
    assert(hits(pi, m, t2));
    let w1 = choose|k: int| 0 <= k < m && #[trigger] pi[k] == t1;
    let w2 = choose|k: int| 0 <= k < m && #[trigger] pi[k] == t2;
    assert(0 <= w1 < m && sorted_pos(keys, w1) == t1);
    assert(0 <= w2 < m && sorted_pos(keys, w2) == t2);
    let k1 = sorted_source(keys, t1);
    let k2 = sorted_source(keys, t2);
    assert(0 <= k1 < m && sorted_pos(keys, k1) == t1);
    assert(0 <= k2 < m && sorted_pos(keys, k2) == t2);
    let x = keys[k1];
    let y = keys[k2];
    lemma_count_eq_take(keys, k1, x);
    lemma_count_eq_take(keys, k1 + 1, x);
    lemma_count_eq_take(keys, k2, y);
    lemma_count_eq_take(keys, k2 + 1, y);
    lemma_count_bounds(keys, x);
    lemma_count_bounds(keys, y);
    if x < y {
        lemma_count_order(keys, x, y);
        let r = count_below(keys, x) + count_eq(keys, x) - 1;
        assert(t1 <= r < t2);
        assert(is_run_end(keys, r));
    } else if y < x {
        lemma_count_order(keys, y, x);
    }
}

/// Positions `p .. q` of `ptn` lie inside one cell at `level`.
pub open spec fn same_cell_at(ptn: Seq<usize>, level: usize, p: int, q: int) -> bool {
    forall|r: int| p <= r < q ==> #[trigger] ptn[r] > level
}

/// The cells at `level` of `(lab, ptn)` that lie below position `c` are
/// equitable relative to the vertex set `w`: the vertices of one such cell
/// have equal numbers of neighbours in `w`.
pub open spec fn equitable_below(
    g: Graph,
    w: Seq<bool>,
    lab: Seq<usize>,
    ptn: Seq<usize>,
    level: usize,
    c: int,
) -> bool {
    forall|p: int, q: int|
        0 <= p <= q < c && same_cell_at(ptn, level, p, q) ==> #[trigger] nbr_count(g, w, lab[p] as int)
            == #[trigger] nbr_count(g, w, lab[q] as int)
}

/// The end of the cell that starts at `c` closes it, and the positions
/// before it lie inside it.
proof fn lemma_cell_end_at(ptn: Seq<usize>, c: int, level: usize)
    requires
        0 <= c < ptn.len(),
        ptn[ptn.len() - 1] <= level,
    ensures
        c <= cell_end_at(ptn, c, level) < ptn.len(),
        ptn[cell_end_at(ptn, c, level)] <= level,
        same_cell_at(ptn, level, c, cell_end_at(ptn, c, level)),
    decreases ptn.len() - c,
{
    if !(c >= ptn.len() - 1 || ptn[c] <= level) {
        lemma_cell_end_at(ptn, c + 1, level);
    }
}

/// The pass of splits by the numbers of neighbours in `w`, from a cell
/// start `c` on, leaves every cell equitable relative to `w`.
proof fn lemma_counts_pass_equitable(g: Graph, w: Seq<bool>, level: usize, st: RefineState, c: int)
    requires
        g.wf(),
        1 <= g.num_vertices() <= usize::BITS,
        w.len() == g.num_vertices(),
        st.lab.len() == g.num_vertices(),
        st.ptn.len() == g.num_vertices(),
        st.ptn[g.num_vertices() - 1] <= level,
        0 <= c <= g.num_vertices(),
        c == 0 || st.ptn[c - 1] <= level,
        equitable_below(g, w, st.lab, st.ptn, level, c),
    ensures
        ({
            let fin = counts_pass(g, w, level, g.num_vertices() as int, st, c);
            equitable_below(g, w, fin.lab, fin.ptn, level, g.num_vertices() as int)
        }),
    decreases g.num_vertices() - c,
{
    let n = g.num_vertices() as int;
    reveal(counts_pass);
    if c >= n {
        return;
    }
    lemma_cell_end_at(st.ptn, c, level);
    let e = cell_end_at(st.ptn, c, level);
    if c < e < n {
        reveal(counts_split);
        let st1 = RefineState { count: count_for(st.count, e, n), ..st };
        let st2 = counts_split(g, w, level, st1, c, e);
        let keys = nbr_keys(g, w, st1.lab, c, e);
        assert forall|p: int, q: int|
            0 <= p <= q < e + 1 && same_cell_at(st2.ptn, level, p, q) implies #[trigger] nbr_count(
            g,
            w,
            st2.lab[p] as int,
        ) == #[trigger] nbr_count(g, w, st2.lab[q] as int) by {
            if q < c {
                assert(st2.lab[p] == st.lab[p] && st2.lab[q] == st.lab[q]);
                assert forall|r: int| p <= r < q implies #[trigger] st.ptn[r] > level by {
                    assert(st2.ptn[r] > level);
                }
            } else if p < c {
                assert(st2.ptn[c - 1] > level);
            } else {
                assert forall|r: int| p - c <= r < q - c implies !#[trigger] is_run_end(keys, r) by {
                    assert(st2.ptn[c + r] > level);
                }
                lemma_sorted_run(keys, p - c, q - c);
                let s1 = sorted_source(keys, p - c);
                let s2 = sorted_source(keys, q - c);
                assert(st2.lab[p] == st.lab[c + s1]);
                assert(st2.lab[q] == st.lab[c + s2]);
                lemma_count_true_bounds(seq_and(w, g.0@[st.lab[c + s1] as int]@));
                lemma_count_true_bounds(seq_and(w, g.0@[st.lab[c + s2] as int]@));
                assert(keys[s1] == nbr_count(g, w, st.lab[c + s1] as int));
                assert(keys[s2] == nbr_count(g, w, st.lab[c + s2] as int));
            }
        }
        assert(st2.ptn[e] == st.ptn[e]);
        lemma_counts_pass_equitable(g, w, level, st2, e + 1);
    } else {
        assert(e == c);
        assert forall|p: int, q: int|
            0 <= p <= q < c + 1 && same_cell_at(st.ptn, level, p, q) implies #[trigger] nbr_count(
            g,
            w,
            st.lab[p] as int,
        ) == #[trigger] nbr_count(g, w, st.lab[q] as int) by {
            if q == c && p < c {
                assert(st.ptn[c - 1] > level);
            }
        }
        lemma_counts_pass_equitable(g, w, level, st, c + 1);
    }
}

/// The swap partition keeps the entries outside `lo .. hi`, puts the kept
/// entries first in `lo .. hi`, and ends them at the index it returns.
proof fn lemma_swap_partition(s: Seq<usize>, keep: spec_fn(usize) -> bool, lo: int, hi: int)
    requires
        0 <= lo <= hi <= s.len(),
    ensures
        ({
            let (t, m) = swap_partition(s, keep, lo, hi);
            &&& lo <= m <= hi
            &&& t.len() == s.len()
            &&& forall|k: int| lo <= k < m ==> keep(#[trigger] t[k])
            &&& forall|k: int| m <= k < hi ==> !keep(#[trigger] t[k])
            &&& forall|k: int| 0 <= k < s.len() && !(lo <= k < hi) ==> #[trigger] t[k] == s[k]
        }),
    decreases hi - lo,
{
    if hi > lo {
        if keep(s[lo]) {
            lemma_swap_partition(s, keep, lo + 1, hi);
        } else {
            let s2 = s.update(lo, s[hi - 1]).update(hi - 1, s[lo]);
            lemma_swap_partition(s2, keep, lo, hi - 1);
        }
    }
}

/// The cells at `level` of `(lab, ptn)` that lie below position `c` are
/// all adjacent to `v` or all not, cell by cell.
pub open spec fn adjacency_uniform_below(g: Graph, v: int, lab: Seq<usize>, ptn: Seq<usize>, level: usize, c: int) -> bool {
    forall|p: int, q: int|
        0 <= p <= q < c && same_cell_at(ptn, level, p, q) ==> #[trigger] g.adj(v, lab[p] as int) == #[trigger] g.adj(
            v,
            lab[q] as int,
        )
}

/// The pass of splits by the neighbours of `v`, from a cell start `c` on,
/// leaves every cell all adjacent to `v` or all not.
proof fn lemma_vertex_pass_uniform(g: Graph, v: int, level: usize, st: RefineState, c: int)
    requires
        1 <= g.num_vertices(),
        st.lab.len() == g.num_vertices(),
        st.ptn.len() == g.num_vertices(),
        st.ptn[g.num_vertices() - 1] <= level,
        0 <= c <= g.num_vertices(),
        c == 0 || st.ptn[c - 1] <= level,
        adjacency_uniform_below(g, v, st.lab, st.ptn, level, c),
    ensures
        ({
            let fin = vertex_pass(g, v, level, g.num_vertices() as int, st, c);
            adjacency_uniform_below(g, v, fin.lab, fin.ptn, level, g.num_vertices() as int)
        }),
    decreases g.num_vertices() - c,
{
    let n = g.num_vertices() as int;
    reveal(vertex_pass);
    if c >= n {
        return;
    }
    lemma_cell_end_at(st.ptn, c, level);
    let e = cell_end_at(st.ptn, c, level);
    if c < e < n {
        reveal(vertex_split);
        let keep = adjacent_to(g, v);
        lemma_swap_partition(st.lab, keep, c, e + 1);
        let (t, m) = swap_partition(st.lab, keep, c, e + 1);
        let st2 = vertex_split(g, v, level, st, c, e);
        assert(st2.lab == t);
        assert forall|p: int, q: int|
            0 <= p <= q < e + 1 && same_cell_at(st2.ptn, level, p, q) implies #[trigger] g.adj(v, st2.lab[p] as int)
            == #[trigger] g.adj(v, st2.lab[q] as int) by {
            if q < c {
                assert(t[p] == st.lab[p] && t[q] == st.lab[q]);
                assert forall|r: int| p <= r < q implies #[trigger] st.ptn[r] > level by {
                    assert(st2.ptn[r] > level);
                }
            } else if p < c {
                assert(st2.ptn[c - 1] > level);
            } else {
                if p < m && m <= q {
                    assert(c < m <= e);
                    assert(st2.ptn[m - 1] == level);
                    assert(st2.ptn[m - 1] > level);
                }
                if p < m {
                    assert(keep(t[p]) && keep(t[q]));
                } else {
                    assert(!keep(t[p]) && !keep(t[q]));
                }
            }
        }
        assert(st2.ptn[e] == st.ptn[e]);
        lemma_vertex_pass_uniform(g, v, level, st2, e + 1);
    } else {
        assert(e == c);
        assert forall|p: int, q: int|
            0 <= p <= q < c + 1 && same_cell_at(st.ptn, level, p, q) implies #[trigger] g.adj(v, st.lab[p] as int)
            == #[trigger] g.adj(v, st.lab[q] as int) by {
            if q == c && p < c {
                assert(st.ptn[c - 1] > level);
            }
        }
        lemma_vertex_pass_uniform(g, v, level, st, c + 1);
    }
}

/// Each step of `refine` leaves every cell equitable relative to its
/// splitting cell: for a splitting cell of several vertices, the vertices
/// of each cell have equal numbers of neighbours among its vertices; for a
/// splitting cell of one vertex `v`, the vertices of each cell are all
/// adjacent to `v` or all not.
pub proof fn lemma_refine_step_equitable(g: Graph, level: usize, st: RefineState)
    requires
        g.wf(),
        1 <= g.num_vertices() <= usize::BITS,
        st.lab.len() == g.num_vertices(),
        st.ptn.len() == g.num_vertices(),
        st.ptn[g.num_vertices() - 1] <= level,
    ensures
        ({
            let n = g.num_vertices() as int;
            let split1 = splitter_start(st.active, st.hint);
            let split2 = cell_end_at(st.ptn, split1, level);
            let fin = refine_step(g, level, st);
            &&& split1 != split2 ==> equitable_below(
                g,
                cell_members(st.lab, split1, split2 + 1, n),
                fin.lab,
                fin.ptn,
                level,
                n,
            )
            &&& split1 == split2 ==> adjacency_uniform_below(g, st.lab[split1] as int, fin.lab, fin.ptn, level, n)
        }),
{
    reveal(refine_step);
    let n = g.num_vertices() as int;
    let split1 = splitter_start(st.active, st.hint);
    let split2 = cell_end_at(st.ptn, split1, level);
    let st1 = RefineState {
        active: st.active.update(split1, false),
        longcode: spec_mash(st.longcode, (split1 + split2) as usize),
        ..st
    };
    if split1 == split2 {
        lemma_vertex_pass_uniform(g, st.lab[split1] as int, level, st1, 0);
    } else {
        let w = cell_members(st.lab, split1, split2 + 1, n);
        let st2 = RefineState { longcode: spec_mash(st1.longcode, (split2 - split1 + 1) as usize), ..st1 };
        lemma_counts_pass_equitable(g, w, level, st2, 0);
    }
}

/// The state kept through `refine`: the labels are vertices, `ptn` refines
/// the starting one and still ends a cell at the last position, and one
/// cell is counted for each position taken out of the cells' insides.
pub open spec fn refine_state(
    n: int,
    lab: Seq<usize>,
    ptn0: Seq<usize>,
    ptn: Seq<usize>,
    level: usize,
    nc0: int,
    numcells: int,
) -> bool {
    &&& lab.len() == n
    &&& forall|k: int| 0 <= k < n ==> #[trigger] lab[k] < n
    &&& ptn0.len() == n
    &&& ptn0[n - 1] <= level
    &&& refines(ptn0, ptn, level)
    &&& numcells + count_wide(ptn, level) == nc0 + count_wide(ptn0, level)
}

/// Refining twice is refining.
pub proof fn lemma_refines_trans(a: Seq<usize>, b: Seq<usize>, c: Seq<usize>, level: usize)
    requires
        refines(a, b, level),
        refines(b, c, level),
    ensures
        refines(a, c, level),
{
    assert forall|p: int| 0 <= p < a.len() implies #[trigger] c[p] == a[p] || (a[p] > level && c[p] == level) by {
        assert(b[p] == a[p] || (a[p] > level && b[p] == level));
        assert(c[p] == b[p] || (b[p] > level && c[p] == level));
    }
}

/// Refines the partition at `level` of `(lab, ptn)` in the manner of
/// nauty's `refine`, the steps towards an equitable partition: while the
/// partition is not discrete and a splitting cell is active, the cells are
/// split by the number of neighbours their vertices have in the splitting
/// cell, with a hash code of the steps kept in `code`. The labels only move within the cells they
/// started in, and cells are only split. `count` is working space for the
/// numbers of neighbours; where it is too short for a cell to be split by
/// them, it is first lengthened to `n` entries. The outcome is exactly the
/// state where the steps of `refine_step` from `refine_start` end
/// (`refine_result`).
#[verifier::rlimit(100)]
#[verifier::spinoff_prover]
pub fn refine(
    g: &mut Graph,
    lab: &mut [usize],
    ptn: &mut [usize],
    level: usize,
    numcells: &mut usize,
    count: &mut Vec<usize>,
    active: &mut BitSet,
    code: &mut usize,
)
    requires
        old(g).wf(),
        1 <= old(g).num_vertices() <= usize::BITS,
        old(lab)@.len() == old(g).num_vertices(),
        old(ptn)@.len() == old(g).num_vertices(),
        forall|k: int| 0 <= k < old(g).num_vertices() ==> #[trigger] old(lab)@[k] < old(g).num_vertices(),
        old(ptn)@[old(g).num_vertices() - 1] <= level,
        old(active)@.len() == old(g).num_vertices(),
        *old(numcells) <= old(g).num_vertices(),
    ensures
        *final(g) == *old(g),
        final(lab)@.len() == old(g).num_vertices(),
        forall|k: int| 0 <= k < old(g).num_vertices() ==> #[trigger] final(lab)@[k] < old(g).num_vertices(),
        same_cell_labels(old(lab)@, final(lab)@, old(ptn)@, level),
        final(lab)@.to_multiset() =~= old(lab)@.to_multiset(),
        refines(old(ptn)@, final(ptn)@, level),
        *final(numcells) + count_wide(final(ptn)@, level) == *old(numcells) + count_wide(old(ptn)@, level),
        *final(numcells) == *old(numcells) + changed_count(old(ptn)@, final(ptn)@),
        *old(numcells) == cell_count(old(ptn)@, level) ==> *final(numcells) == cell_count(final(ptn)@, level),
        *final(numcells) == old(g).num_vertices() || forall|k: int|
            0 <= k < old(g).num_vertices() ==> !#[trigger] final(active)@[k],
        old(count)@.len() <= final(count)@.len(),
        final(count)@.len() == old(count)@.len() || final(count)@.len() == old(g).num_vertices(),
        final(active)@.len() == old(g).num_vertices(),
        *final(code) < 0o77777,
        refine_result(
            *old(g),
            level,
            refine_start(old(lab)@, old(ptn)@, *old(numcells), old(count)@, old(active)@),
            final(lab)@,
            final(ptn)@,
            *final(numcells),
            final(count)@,
            final(active)@,
            *final(code),
        ),
{
    let gr: &Graph = &*g;
    let n = gr.n();
    let ghost ptn0 = ptn@;
    let ghost lab0 = lab@;
    let ghost nc0 = *numcells as int;
    proof {
        lemma_count_wide_bound(ptn@, level);
    }
    let mut workperm: Vec<usize> = Vec::new();
    let mut bucket: Vec<usize> = Vec::new();
    let mut i: usize = 0;
    while i < n + 2
        invariant
            i <= n + 2,
            n <= usize::BITS,
            workperm@.len() == if i < n { i as int } else { n as int },
            forall|k: int| 0 <= k < workperm@.len() ==> #[trigger] workperm@[k] < n || n == 0,
            bucket@.len() == i,
        decreases n + 2 - i,
    {
        if i < n {
            workperm.push(0);
        }
        bucket.push(0);
        i = i + 1;
    }
    let mut maxpos: Option<usize> = None;
    let mut longcode: usize = *numcells;
    let mut hint: usize = 0;
    let ghost start = refine_start(lab@, ptn@, *numcells, count@, active@);
    let ghost mut steps: nat = 0;
    loop
        invariant
            refine_run(*gr, level, start, steps) == (RefineState {
                lab: lab@,
                ptn: ptn@,
                numcells: *numcells,
                count: count@,
                active: active@,
                hint,
                longcode,
            }),
            gr.wf(),
            n == gr.num_vertices(),
            1 <= n <= usize::BITS,
            refine_state(n as int, lab@, ptn0, ptn@, level, nc0, *numcells as int),
            same_cell_labels(lab0, lab@, ptn0, level),
            nc0 + n < code_bound(),
            count_wide(ptn0, level) <= n,
            old(count)@.len() <= count@.len(),
            count@.len() == old(count)@.len() || count@.len() == n,
            active@.len() == n,
            hint < n,
            longcode <= code_bound(),
            workperm@.len() == n,
            forall|k: int| 0 <= k < n ==> #[trigger] workperm@[k] < n,
            bucket@.len() == n + 2,
            maxpos matches Some(x) ==> x < n,
        ensures
            refine_state(n as int, lab@, ptn0, ptn@, level, nc0, *numcells as int),
            same_cell_labels(lab0, lab@, ptn0, level),
            old(count)@.len() <= count@.len(),
            count@.len() == old(count)@.len() || count@.len() == n,
            active@.len() == n,
            longcode <= code_bound(),
            *numcells == n || forall|k: int| 0 <= k < n ==> !#[trigger] active@[k],
            refine_run(*gr, level, start, steps) == (RefineState {
                lab: lab@,
                ptn: ptn@,
                numcells: *numcells,
                count: count@,
                active: active@,
                hint,
                longcode,
            }),
            refine_done(n as int, refine_run(*gr, level, start, steps)),
        decreases (n + 2) * count_wide(ptn@, level) + count_true(active@),
    {
        let ghost prev = RefineState {
            lab: lab@,
            ptn: ptn@,
            numcells: *numcells,
            count: count@,
            active: active@,
            hint,
            longcode,
        };
        if *numcells == n {
            break;
        }
        let mut split1 = hint;
        if !active.contains(split1) {
            split1 = match active.next_element(Some(split1)) {
                Some(next) => {
                    proof {
                        lemma_first_true(searched_bits(active@, Some(hint)));
                        assert(searched_bits(active@, Some(hint))[next as int]);
                        assert(active@[next as int]);
                    }
                    next
                },
                None => match active.first_one() {
                    Some(first) => {
                        proof {
                            lemma_first_true(active@);
                            assert(active@[first as int]);
                        }
                        first
                    },
                    None => {
                        proof {
                            lemma_first_true(active@);
                        }
                        break;
                    },
                },
            };
        }
        assert(active@[split1 as int]);
        assert(split1 == splitter_start(prev.active, prev.hint));
        proof {
            lemma_first_true(prev.active);
        }
        assert(!refine_done(n as int, prev));
        let ghost m_start = (n + 2) * count_wide(ptn@, level) + count_true(active@);
        let ghost a_before = active@;
        proof {
            lemma_count_remove(active@, split1 as int);
        }
        active.remove_one(split1);
        assert(active@ =~= a_before.update(split1 as int, false));
        let mut split2 = split1;
        while ptn[split2] > level
            invariant
                split1 <= split2 < n,
                ptn@.len() == n,
                ptn@[n - 1] <= level,
                cell_end_at(ptn@, split2 as int, level) == cell_end_at(ptn@, split1 as int, level),
            decreases n - split2,
        {
            split2 = split2 + 1;
        }
        proof {
            lemma_mash_bound(longcode);
        }
        longcode = mash(longcode, split1 + split2);
        let ghost st1 = RefineState {
            lab: lab@,
            ptn: ptn@,
            numcells: *numcells,
            count: count@,
            active: active@,
            hint,
            longcode,
        };
        assert(st1 == (RefineState {
            active: prev.active.update(split1 as int, false),
            longcode: spec_mash(prev.longcode, (split1 + split2) as usize),
            ..prev
        }));
        if split1 == split2 {
            let v = lab[split1];
            let mut cell1: usize = 0;
            while cell1 < n
                invariant
                    gr.wf(),
                    n == gr.num_vertices(),
                    1 <= n <= usize::BITS,
                    v < n,
                    refine_state(n as int, lab@, ptn0, ptn@, level, nc0, *numcells as int),
                    same_cell_labels(lab0, lab@, ptn0, level),
                    nc0 + n < code_bound(),
                    count_wide(ptn0, level) <= n,
                    active@.len() == n,
                    hint < n,
                    longcode <= code_bound(),
                    cell1 <= n,
                    (n + 2) * count_wide(ptn@, level) + count_true(active@) < m_start,
                    vertex_pass(*gr, v as int, level, n as int, st1, 0) == vertex_pass(
                        *gr,
                        v as int,
                        level,
                        n as int,
                        (RefineState {
                            lab: lab@,
                            ptn: ptn@,
                            numcells: *numcells,
                            count: count@,
                            active: active@,
                            hint,
                            longcode,
                        }),
                        cell1 as int,
                    ),
                decreases n - cell1,
            {
                let ghost cur = RefineState {
                    lab: lab@,
                    ptn: ptn@,
                    numcells: *numcells,
                    count: count@,
                    active: active@,
                    hint,
                    longcode,
                };
                let mut cell2 = cell1;
                while ptn[cell2] > level
                    invariant
                        cell1 <= cell2 < n,
                        ptn@.len() == n,
                        ptn@[n - 1] <= level,
                        forall|p: int| cell1 <= p < cell2 ==> #[trigger] ptn@[p] > level,
                        cell_end_at(ptn@, cell2 as int, level) == cell_end_at(ptn@, cell1 as int, level),
                    decreases n - cell2,
                {
                    cell2 = cell2 + 1;
                }
                assert(cell2 == cell_end_at(cur.ptn, cell1 as int, level));
                if cell1 == cell2 {
                    assert(vertex_pass(*gr, v as int, level, n as int, cur, cell1 as int) == vertex_pass(
                        *gr,
                        v as int,
                        level,
                        n as int,
                        cur,
                        cell1 + 1,
                    )) by {
                        reveal(vertex_pass);
                    }
                    cell1 = cell2 + 1;
                    continue;
                }
                let ghost ptn_before = ptn@;
                let ghost lab_before = lab@;
                proof {
                    lemma_count_wide_refines(ptn0, ptn@, level);
                }
                split_cell_by_vertex(gr, v, lab, ptn, level, cell1, cell2, numcells, active, &mut hint, &mut longcode);
                assert((RefineState {
                    lab: lab@,
                    ptn: ptn@,
                    numcells: *numcells,
                    count: count@,
                    active: active@,
                    hint,
                    longcode,
                }) == vertex_split(*gr, v as int, level, cur, cell1 as int, cell2 as int)) by {
                    reveal(vertex_split);
                }
                assert(vertex_pass(*gr, v as int, level, n as int, cur, cell1 as int) == vertex_pass(
                    *gr,
                    v as int,
                    level,
                    n as int,
                    vertex_split(*gr, v as int, level, cur, cell1 as int, cell2 as int),
                    cell2 + 1,
                )) by {
                    reveal(vertex_pass);
                }
                proof {
                    lemma_refines_trans(ptn0, ptn_before, ptn@, level);
                    lemma_move_in_cell(lab0, lab_before, lab@, ptn0, ptn_before, level, cell1 as int, cell2 as int);
                }
                cell1 = cell2 + 1;
            }
            proof {
                lemma_vertex_step(*gr, level, prev, split1 as int, split2 as int, st1, (RefineState {
                    lab: lab@,
                    ptn: ptn@,
                    numcells: *numcells,
                    count: count@,
                    active: active@,
                    hint,
                    longcode,
                }), cell1 as int);
            }
        } else {
            let mut workset = BitSet::zeros(n);
            let mut i = split1;
            while i <= split2
                invariant
                    split1 <= i <= split2 + 1,
                    split2 < n,
                    n <= usize::BITS,
                    lab@.len() == n,
                    forall|k: int| 0 <= k < n ==> #[trigger] lab@[k] < n,
                    workset@.len() == n,
                    workset@ == cell_members(lab@, split1 as int, i as int, n as int),
                decreases split2 + 1 - i,
            {
                let ghost w0 = workset@;
                workset.add_one(lab[i]);
                assert(workset@ =~= cell_members(lab@, split1 as int, i + 1, n as int)) by {
                    assert forall|x: int| 0 <= x < n implies #[trigger] workset@[x] == cell_members(
                        lab@,
                        split1 as int,
                        i + 1,
                        n as int,
                    )[x] by {
                        if x == lab@[i as int] {
                            assert(lab@[i as int] == x);
                        } else {
                            if exists|k: int| split1 <= k < i + 1 && lab@[k] == x {
                                let k = choose|k: int| split1 <= k < i + 1 && lab@[k] == x;
                                assert(k < i);
                            }
                        }
                    }
                }
                i = i + 1;
            }
            proof {
                lemma_mash_bound(longcode);
            }
            longcode = mash(longcode, split2 - split1 + 1);
            let ghost st2 = RefineState {
                lab: lab@,
                ptn: ptn@,
                numcells: *numcells,
                count: count@,
                active: active@,
                hint,
                longcode,
            };
            assert(st2 == (RefineState { longcode: spec_mash(st1.longcode, (split2 - split1 + 1) as usize), ..st1 }));
            let ghost ws = workset@;
            let mut cell1: usize = 0;
            while cell1 < n
                invariant
                    gr.wf(),
                    n == gr.num_vertices(),
                    1 <= n <= usize::BITS,
                    workset@.len() == n,
                    refine_state(n as int, lab@, ptn0, ptn@, level, nc0, *numcells as int),
                    same_cell_labels(lab0, lab@, ptn0, level),
                    nc0 + n < code_bound(),
                    count_wide(ptn0, level) <= n,
                    old(count)@.len() <= count@.len(),
                    count@.len() == old(count)@.len() || count@.len() == n,
                    active@.len() == n,
                    hint < n,
                    longcode <= code_bound(),
                    workperm@.len() == n,
                    forall|k: int| 0 <= k < n ==> #[trigger] workperm@[k] < n,
                    bucket@.len() == n + 2,
                    maxpos matches Some(x) ==> x < n,
                    cell1 <= n,
                    (n + 2) * count_wide(ptn@, level) + count_true(active@) < m_start,
                    workset@ == ws,
                    counts_pass(*gr, ws, level, n as int, st2, 0) == counts_pass(
                        *gr,
                        ws,
                        level,
                        n as int,
                        (RefineState {
                            lab: lab@,
                            ptn: ptn@,
                            numcells: *numcells,
                            count: count@,
                            active: active@,
                            hint,
                            longcode,
                        }),
                        cell1 as int,
                    ),
                decreases n - cell1,
            {
                let ghost cur = RefineState {
                    lab: lab@,
                    ptn: ptn@,
                    numcells: *numcells,
                    count: count@,
                    active: active@,
                    hint,
                    longcode,
                };
                let mut cell2 = cell1;
                while ptn[cell2] > level
                    invariant
                        cell1 <= cell2 < n,
                        ptn@.len() == n,
                        ptn@[n - 1] <= level,
                        forall|p: int| cell1 <= p < cell2 ==> #[trigger] ptn@[p] > level,
                        cell_end_at(ptn@, cell2 as int, level) == cell_end_at(ptn@, cell1 as int, level),
                    decreases n - cell2,
                {
                    cell2 = cell2 + 1;
                }
                assert(cell2 == cell_end_at(cur.ptn, cell1 as int, level));
                if cell1 == cell2 {
                    assert(counts_pass(*gr, ws, level, n as int, cur, cell1 as int) == counts_pass(
                        *gr,
                        ws,
                        level,
                        n as int,
                        cur,
                        cell1 + 1,
                    )) by {
                        reveal(counts_pass);
                    }
                    cell1 = cell2 + 1;
                    continue;
                }
                if count.len() <= cell2 {
                    while count.len() < n
                        invariant
                            count@.len() <= n,
                            old(count)@.len() <= count@.len(),
                            cur.count.len() <= count@.len(),
                            count@ == cur.count + Seq::new((count@.len() - cur.count.len()) as nat, |j: int| 0usize),
                        decreases n - count@.len(),
                    {
                        count.push(0);
                    }
                }
                assert(count@ == count_for(cur.count, cell2 as int, n as int));
                let ghost ptn_before = ptn@;
                let ghost lab_before = lab@;
                proof {
                    lemma_count_wide_refines(ptn0, ptn@, level);
                }
                split_cell_by_counts(
                    gr,
                    &workset,
                    lab,
                    ptn,
                    level,
                    cell1,
                    cell2,
                    numcells,
                    count,
                    active,
                    &mut hint,
                    &mut longcode,
                    &mut workperm,
                    &mut bucket,
                    &mut maxpos,
                );
                proof {
                    let cur1 = RefineState { count: count_for(cur.count, cell2 as int, n as int), ..cur };
                    reveal(counts_split);
                    let keys = count@.subrange(cell1 as int, cell2 + 1);
                    assert(keys =~= nbr_keys(*gr, ws, cur1.lab, cell1 as int, cell2 as int));
                    lemma_sorted_labels(cur1.lab, lab@, keys, cell1 as int, cell2 as int);
                    assert(count@ =~= counts_split(*gr, ws, level, cur1, cell1 as int, cell2 as int).count);
                    assert(ptn@ =~= counts_split(*gr, ws, level, cur1, cell1 as int, cell2 as int).ptn);
                    assert((RefineState {
                        lab: lab@,
                        ptn: ptn@,
                        numcells: *numcells,
                        count: count@,
                        active: active@,
                        hint,
                        longcode,
                    }) == counts_split(*gr, ws, level, cur1, cell1 as int, cell2 as int));
                    reveal(counts_pass);
                    assert(counts_pass(*gr, ws, level, n as int, cur, cell1 as int) == counts_pass(
                        *gr,
                        ws,
                        level,
                        n as int,
                        counts_split(*gr, ws, level, cur1, cell1 as int, cell2 as int),
                        cell2 + 1,
                    ));
                }
                proof {
                    lemma_refines_trans(ptn0, ptn_before, ptn@, level);
                    lemma_move_in_cell(lab0, lab_before, lab@, ptn0, ptn_before, level, cell1 as int, cell2 as int);
                }
                cell1 = cell2 + 1;
            }
            proof {
                lemma_counts_step(*gr, level, prev, split1 as int, split2 as int, st1, st2, ws, (RefineState {
                    lab: lab@,
                    ptn: ptn@,
                    numcells: *numcells,
                    count: count@,
                    active: active@,
                    hint,
                    longcode,
                }), cell1 as int);
            }
        }
        proof {
            steps = steps + 1;
        }
    }
    proof {
        lemma_count_wide_refines(ptn0, ptn@, level);
        lemma_count_wide_changed(ptn0, ptn@, level);
        lemma_cell_count_wide(ptn0, level);
        lemma_cell_count_wide(ptn@, level);
        lemma_mash_bound(longcode);
        assert(closed_block(ptn0, level, 0, n - 1));
        assert(lab@.subrange(0, n as int) =~= lab@);
        assert(lab0.subrange(0, n as int) =~= lab0);
    }
    let ghost fin = refine_run(*gr, level, start, steps);
    longcode = mash(longcode, *numcells);
    *code = cleanup(longcode);
    assert(refine_result(*gr, level, start, lab@, ptn@, *numcells, count@, active@, *code)) by {
        assert(fin == refine_run(*gr, level, start, steps));
    }
}

/// Refines `partition` at its level in the manner of nauty's `refine`, on
/// the nest's labels and cell ends, with the nest's number of cells at the
/// partition's level counted along: the outcome is that of `refine` on
/// them.
pub fn refine_nest(
    g: &mut Graph,
    partition: &mut Partition,
    count: &mut Vec<usize>,
    active: &mut BitSet,
    code: &mut usize,
)
    requires
        old(g).wf(),
        1 <= old(g).num_vertices() <= usize::BITS,
        old(partition).wf(),
        old(partition).nest.lab().len() == old(g).num_vertices(),
        forall|k: int| 0 <= k < old(g).num_vertices() ==> #[trigger] old(partition).nest.lab()[k] < old(g).num_vertices(),
        old(active)@.len() == old(g).num_vertices(),
        old(partition).nest.counts()[old(partition).level as int] <= old(g).num_vertices(),
    ensures
        *final(g) == *old(g),
        final(partition).level == old(partition).level,
        final(partition).nest.counts().len() == old(partition).nest.counts().len(),
        forall|l: int|
            0 <= l < old(partition).nest.counts().len() && l != old(partition).level
                ==> #[trigger] final(partition).nest.counts()[l] == old(partition).nest.counts()[l],
        refine_result(
            *old(g),
            old(partition).level,
            refine_start(
                old(partition).nest.lab(),
                old(partition).nest.ptn(),
                old(partition).nest.counts()[old(partition).level as int],
                old(count)@,
                old(active)@,
            ),
            final(partition).nest.lab(),
            final(partition).nest.ptn(),
            final(partition).nest.counts()[old(partition).level as int],
            final(count)@,
            final(active)@,
            *final(code),
        ),
{
    let level = partition.level;
    partition.nest.refine_at(g, level, count, active, code);
}

/// `perm` sends every edge `{i, j}` of `g` with `i < j` to an edge.
pub open spec fn maps_edges(g: Graph, perm: Seq<usize>) -> bool {
    forall|i: int, j: int|
        0 <= i < j < g.num_vertices() && #[trigger] g.adj(i, j) ==> g.adj(perm[i] as int, perm[j] as int)
}

/// `perm` is an automorphism of `g`: `g^perm = g`, vertices `i` and `j`
/// being adjacent exactly when `perm[i]` and `perm[j]` are.
pub open spec fn is_automorphism(g: Graph, perm: Seq<usize>) -> bool {
    forall|i: int, j: int|
        0 <= i < g.num_vertices() && 0 <= j < g.num_vertices() ==> #[trigger] g.adj(
            perm[i] as int,
            perm[j] as int,
        ) == g.adj(i, j)
}

/// Whether `perm` is an automorphism of `g` (`g^perm = g`), the graph being
/// taken as undirected: each edge `{i, j}` with `i < j` is checked to be sent
/// to an edge.
pub fn is_autom(g: &Graph, perm: &[usize]) -> (r: bool)
    requires
        g.wf(),
        perm@.len() >= g.num_vertices(),
        forall|k: int| 0 <= k < g.num_vertices() ==> #[trigger] perm@[k] < g.num_vertices(),
    ensures
        r == maps_edges(*g, perm@),
{
    let n = g.n();
    let mut i_row: usize = 0;
    while i_row < n
        invariant
            g.wf(),
            n == g.num_vertices(),
            perm@.len() >= n,
            forall|k: int| 0 <= k < n ==> #[trigger] perm@[k] < n,
            i_row <= n,
            forall|i: int, j: int|
                0 <= i < i_row && i < j < n && #[trigger] g.adj(i, j) ==> g.adj(perm@[i] as int, perm@[j] as int),
        decreases n - i_row,
    {
        let row = g.get(i_row);
        let p_row = g.get(perm[i_row]);
        assert(row@.len() == n);
        assert(p_row@.len() == n);
        let mut pos = i_row + 1;
        while pos < n
            invariant
                g.wf(),
                n == g.num_vertices(),
                i_row < n,
                i_row < pos <= n,
                perm@.len() >= n,
                forall|k: int| 0 <= k < n ==> #[trigger] perm@[k] < n,
                *row == g.0@[i_row as int],
                *p_row == g.0@[perm@[i_row as int] as int],
                row@.len() == n,
                p_row@.len() == n,
                forall|j: int|
                    i_row < j < pos && #[trigger] g.adj(i_row as int, j) ==> g.adj(perm@[i_row as int] as int, perm@[j] as int),
            decreases n - pos,
        {
            if row.get(pos) && !p_row.get(perm[pos]) {
                assert(g.adj(i_row as int, pos as int));
                assert(!g.adj(perm@[i_row as int] as int, perm@[pos as int] as int));
                return false;
            }
            pos = pos + 1;
        }
        i_row = i_row + 1;
    }
    true
}

/// For an undirected graph without loops and a permutation of its vertices,
/// sending every edge to an edge, as `is_autom` checks, is being an
/// automorphism.
#[verifier::spinoff_prover]
pub proof fn lemma_is_autom_iff_automorphism(g: Graph, perm: Seq<usize>)
    requires
        g.is_simple(),
        perm.len() >= g.num_vertices(),
        forall|k: int| 0 <= k < g.num_vertices() ==> #[trigger] perm[k] < g.num_vertices(),
        forall|a: int, b: int| 0 <= a < b < g.num_vertices() ==> #[trigger] perm[a] != #[trigger] perm[b],
    ensures
        maps_edges(g, perm) <==> is_automorphism(g, perm),
{
    let n = g.num_vertices() as int;
    if is_automorphism(g, perm) {
        assert forall|i: int, j: int| 0 <= i < j < n && #[trigger] g.adj(i, j) implies g.adj(
            perm[i] as int,
            perm[j] as int,
        ) by {
            assert(g.adj(perm[i] as int, perm[j] as int) == g.adj(i, j));
        }
    }
    if maps_edges(g, perm) && n > 0 {
        // every edge, in either order, is sent to an edge
        assert forall|i: int, j: int| 0 <= i < n && 0 <= j < n && g.adj(i, j) implies #[trigger] g.adj(
            perm[i] as int,
            perm[j] as int,
        ) by {
            if i < j {
            } else if j < i {
                assert(g.adj(j, i));
                assert(g.adj(perm[j] as int, perm[i] as int));
            } else {
                assert(!g.adj(i, i));
            }
        }
        assert(n * n >= 0) by (nonlinear_arith)
            requires
                n > 0,
        ;
        let nn = n * n;
        let range = vstd::set_lib::set_int_range(0, nn);
        vstd::set_lib::lemma_int_range(0, nn);
        let edges = range.filter(|k: int| g.adj(k / n, k % n));
        range.lemma_len_filter(|k: int| g.adj(k / n, k % n));
        let f = |k: int| (perm[k / n] as int) * n + (perm[k % n] as int);
        assert(vstd::relations::injective_on(f, edges)) by {
            assert forall|k1: int, k2: int|
                edges.contains(k1) && edges.contains(k2) && #[trigger] f(k1) == #[trigger] f(k2) implies k1 == k2 by {
                lemma_pair_decode(n, k1);
                lemma_pair_decode(n, k2);
                let (i1, j1) = (k1 / n, k1 % n);
                let (i2, j2) = (k2 / n, k2 % n);
                lemma_pair_code(n, perm[i1] as int, perm[j1] as int);
                lemma_pair_code(n, perm[i2] as int, perm[j2] as int);
                assert(perm[i1] == perm[i2]);
                assert(perm[j1] == perm[j2]);
                if i1 != i2 {
                    if i1 < i2 {
                        assert(perm[i1] != perm[i2]);
                    } else {
                        assert(perm[i2] != perm[i1]);
                    }
                }
                if j1 != j2 {
                    if j1 < j2 {
                        assert(perm[j1] != perm[j2]);
                    } else {
                        assert(perm[j2] != perm[j1]);
                    }
                }
            }
        }
        let image = edges.map(f);
        vstd::set_lib::lemma_map_size(edges, image, f);
        assert(image.subset_of(edges)) by {
            assert forall|k2: int| image.contains(k2) implies edges.contains(k2) by {
                let k = choose|k: int| edges.contains(k) && f(k) == k2;
                lemma_pair_decode(n, k);
                let (i, j) = (k / n, k % n);
                assert(g.adj(i, j));
                assert(g.adj(perm[i] as int, perm[j] as int));
                lemma_pair_code(n, perm[i] as int, perm[j] as int);
            }
        }
        vstd::set_lib::lemma_subset_equality(image, edges);
        assert forall|i: int, j: int| 0 <= i < n && 0 <= j < n implies #[trigger] g.adj(
            perm[i] as int,
            perm[j] as int,
        ) == g.adj(i, j) by {
            if g.adj(perm[i] as int, perm[j] as int) {
                let k2 = (perm[i] as int) * n + (perm[j] as int);
                lemma_pair_code(n, perm[i] as int, perm[j] as int);
                assert(edges.contains(k2));
                assert(image.contains(k2));
                let k = choose|k: int| edges.contains(k) && f(k) == k2;
                lemma_pair_decode(n, k);
                let (a, b) = (k / n, k % n);
                lemma_pair_code(n, perm[a] as int, perm[b] as int);
                assert(perm[a] == perm[i]);
                assert(perm[b] == perm[j]);
                if a != i {
                    if a < i {
                        assert(perm[a] != perm[i]);
                    } else {
                        assert(perm[i] != perm[a]);
                    }
                }
                if b != j {
                    if b < j {
                        assert(perm[b] != perm[j]);
                    } else {
                        assert(perm[j] != perm[b]);
                    }
                }
                assert(g.adj(a, b));
            }
        }
    }
}

/// The pair `(a, b)` of vertices below `n`, written as the number `a * n + b`.
proof fn lemma_pair_code(n: int, a: int, b: int)
    requires
        0 <= a < n,
        0 <= b < n,
    ensures
        0 <= a * n + b < n * n,
        (a * n + b) / n == a,
        (a * n + b) % n == b,
{
    assert(0 <= a * n + b < n * n) by (nonlinear_arith)
        requires
            0 <= a < n,
            0 <= b < n,
    ;
    vstd::arithmetic::div_mod::lemma_fundamental_div_mod_converse(a * n + b, n, a, b);
}

/// A number below `n * n` written back as the pair of its quotient and
/// remainder by `n`.
proof fn lemma_pair_decode(n: int, k: int)
    requires
        0 < n,
        0 <= k < n * n,
    ensures
        0 <= k / n < n,
        0 <= k % n < n,
        k == (k / n) * n + k % n,
{
    vstd::arithmetic::div_mod::lemma_fundamental_div_mod(k, n);
    vstd::arithmetic::div_mod::lemma_mod_bound(k, n);
    let q = k / n;
    let r = k % n;
    assert(0 <= q < n) by (nonlinear_arith)
        requires
            k == n * q + r,
            0 <= r < n,
            0 <= k < n * n,
            0 < n,
    ;
    assert(k == q * n + r) by (nonlinear_arith)
        requires
            k == n * q + r,
    ;
}

} // verus!
