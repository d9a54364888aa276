//! A cell of a partition that can be changed in place.
use crate::nauty::bitset::{bitset_bits, BitSet};
use crate::nauty::partition_nest::partition::counting::{
    count_below, count_eq, distinct_in, is_max, is_run_end_below, is_min, is_run_end, lemma_count_below_next,
    lemma_count_bounds, lemma_count_eq_all, lemma_count_eq_take,
    lemma_count_push, lemma_distinct_none_above, lemma_distinct_none_below, lemma_sorted_pos,
    lemma_sorted_pos_const, sorted_pos,
};
use crate::nauty::partition_nest::partition::Partition;
use crate::nauty::vec_map::VecMap;
use vstd::prelude::*;
use vstd::std_specs::iter::IteratorSpec;
use vstd::slice::slice_subrange;

verus! {

broadcast use vstd::seq_lib::group_to_multiset_ensures;

/// Swapping two entries keeps the multiset of a sequence.
pub proof fn lemma_swap_multiset(s: Seq<usize>, i: int, j: int)
    requires
        0 <= i < s.len(),
        0 <= j < s.len(),
    ensures
        s.update(i, s[j]).update(j, s[i]).to_multiset() =~= s.to_multiset(),
{
    broadcast use vstd::multiset::group_multiset_axioms;

    let t = s.update(i, s[j]);
    assert(t.to_multiset() == s.to_multiset().insert(s[j]).remove(s[i]));
    assert(t.update(j, s[i]).to_multiset() == t.to_multiset().insert(s[i]).remove(t[j]));
}

/// The swap partition of `s[lo .. hi]` by `keep`, and where its kept part
/// ends. The scan takes the entry at `lo`: a kept entry stays and the scan
/// moves past it; any other entry is swapped with the last unscanned one
/// (at `hi - 1`), which the scan takes next.
pub open spec fn swap_partition(s: Seq<usize>, keep: spec_fn(usize) -> bool, lo: int, hi: int) -> (Seq<
    usize,
>, int)
    decreases hi - lo,
{
    if hi <= lo {
        (s, lo)
    } else if keep(s[lo]) {
        swap_partition(s, keep, lo + 1, hi)
    } else {
        swap_partition(s.update(lo, s[hi - 1]).update(hi - 1, s[lo]), keep, lo, hi - 1)
    }
}

/// Membership in the set whose bits are `bits`.
pub open spec fn member_of(bits: Seq<bool>) -> spec_fn(usize) -> bool {
    |x: usize| 0 <= x < bits.len() && bits[x as int]
}

/// `b` equals `a` outside the positions `f .. f + len`.
pub open spec fn same_outside(a: Seq<usize>, b: Seq<usize>, f: int, len: int) -> bool {
    &&& a.len() == b.len()
    &&& forall|k: int| 0 <= k < a.len() && !(f <= k < f + len) ==> #[trigger] b[k] == a[k]
}

/// `keys[k]` is a result of `f` on label `k` of `lab`.
pub open spec fn keys_of<F: Fn(&usize) -> usize>(f: F, lab: Seq<usize>, keys: Seq<usize>) -> bool {
    &&& keys.len() == lab.len()
    &&& forall|k: int| 0 <= k < lab.len() ==> call_ensures(f, (&lab[k],), #[trigger] keys[k])
}

/// The running results of the fold over the keys: the smallest and the
/// largest key, the keys in order and the number of each key.
pub open spec fn folded(acc: (Option<usize>, Option<usize>, Vec<usize>, VecMap), keys: Seq<usize>) -> bool {
    &&& acc.2@ == keys
    &&& keys.len() == 0 ==> acc.0 is None && acc.1 is None
    &&& keys.len() > 0 ==> (acc.0 matches Some(m) && is_min(keys, m)) && (acc.1 matches Some(m) && is_max(keys, m))
    &&& forall|u: usize| #[trigger] acc.3.lookup(u as int) == if count_eq(keys, u) > 0 {
        Some(count_eq(keys, u) as usize)
    } else {
        None
    }
}

/// One step of the fold over the keys: `x` joins the smallest and largest
/// keys, the keys and the number of each key.
pub fn fold_step(acc: (Option<usize>, Option<usize>, Vec<usize>, VecMap), x: usize) -> (r: (
    Option<usize>,
    Option<usize>,
    Vec<usize>,
    VecMap,
))
    requires
        x < usize::MAX,
        acc.3.lookup(x as int) matches Some(c) ==> c < usize::MAX,
    ensures
        r.0 == Some(
            match acc.0 {
                Some(m) => if x < m {
                    x
                } else {
                    m
                },
                None => x,
            },
        ),
        r.1 == Some(
            match acc.1 {
                Some(m) => if x > m {
                    x
                } else {
                    m
                },
                None => x,
            },
        ),
        r.2@ == acc.2@.push(x),
        forall|k: int| #[trigger]
            r.3.lookup(k) == if k == x {
                Some(
                    (match acc.3.lookup(x as int) {
                        Some(c) => c,
                        None => 0,
                    } + 1) as usize,
                )
            } else {
                acc.3.lookup(k)
            },
{
    let (min, max, mut f_results, mut f_antecedant_counts) = acc;
    f_results.push(x);
    let c = match f_antecedant_counts.get_safely(x) {
        Some(c) => c,
        None => 0,
    };
    f_antecedant_counts.set(x, c + 1);
    let new_min = match min {
        Some(m) => if x < m {
            x
        } else {
            m
        },
        None => x,
    };
    let new_max = match max {
        Some(m) => if x > m {
            x
        } else {
            m
        },
        None => x,
    };
    (Some(new_min), Some(new_max), f_results, f_antecedant_counts)
}

/// Reorders `slice` in place so that the elements for which `predicate`
/// returns `true` precede those for which it returns `false`, and returns the
/// number of the former. The relative order of the elements is not kept:
/// the first `false` element from the front is repeatedly swapped with the
/// last `true` element from the back.
pub fn partition_in_place<P: Fn(&usize) -> bool>(slice: &mut [usize], predicate: P) -> (r: usize)
    requires
        forall|k: int| 0 <= k < old(slice)@.len() ==> call_requires(predicate, (&#[trigger] old(slice)@[k],)),
    ensures
        final(slice)@.len() == old(slice)@.len(),
        final(slice)@.to_multiset() == old(slice)@.to_multiset(),
        r <= old(slice)@.len(),
        forall|k: int| 0 <= k < r ==> call_ensures(predicate, (&#[trigger] final(slice)@[k],), true),
        forall|k: int| r <= k < old(slice)@.len() ==> call_ensures(predicate, (&#[trigger] final(slice)@[k],), false),
{
    let n = slice.len();
    let mut lo: usize = 0;
    let mut hi: usize = n;
    let mut true_count: usize = 0;
    loop
        invariant_except_break
            n == old(slice)@.len(),
            slice@.len() == n,
            slice@.to_multiset() == old(slice)@.to_multiset(),
            forall|k: int| 0 <= k < n ==> call_requires(predicate, (&#[trigger] slice@[k],)),
            lo <= hi <= n,
            true_count == lo,
            forall|k: int| 0 <= k < lo ==> call_ensures(predicate, (&#[trigger] slice@[k],), true),
            forall|k: int| hi <= k < n ==> call_ensures(predicate, (&#[trigger] slice@[k],), false),
        ensures
            slice@.len() == n,
            slice@.to_multiset() == old(slice)@.to_multiset(),
            true_count <= n,
            forall|k: int| 0 <= k < true_count ==> call_ensures(predicate, (&#[trigger] slice@[k],), true),
            forall|k: int| true_count <= k < n ==> call_ensures(predicate, (&#[trigger] slice@[k],), false),
        decreases hi - lo,
    {
        let ghost lo0 = lo;
        let ghost hi0 = hi;
        let mut found = false;
        while lo < hi && !found
            invariant
                lo0 <= lo,
                hi == hi0,
                n == old(slice)@.len(),
                slice@.len() == n,
                forall|k: int| 0 <= k < n ==> call_requires(predicate, (&#[trigger] slice@[k],)),
                lo <= hi <= n,
                found ==> lo < hi && call_ensures(predicate, (&slice@[lo as int],), false),
                !found ==> true_count == lo,
                found ==> true_count == lo,
                forall|k: int| 0 <= k < lo ==> call_ensures(predicate, (&#[trigger] slice@[k],), true),
            decreases hi - lo, if found { 0int } else { 1int },
        {
            let p = predicate(&slice[lo]);
            if p {
                true_count = true_count + 1;
                lo = lo + 1;
            } else {
                found = true;
            }
        }
        if !found {
            break;
        }
        let head = lo;
        lo = lo + 1;
        let mut tail_found = false;
        while hi > lo && !tail_found
            invariant
                lo == head + 1,
                lo0 <= head,
                hi <= hi0,
                n == old(slice)@.len(),
                slice@.len() == n,
                forall|k: int| 0 <= k < n ==> call_requires(predicate, (&#[trigger] slice@[k],)),
                lo <= hi <= n,
                tail_found ==> lo < hi && call_ensures(predicate, (&slice@[hi - 1],), true),
                forall|k: int| hi <= k < n && !(tail_found && k == hi - 1) ==> call_ensures(predicate, (&#[trigger] slice@[k],), false),
            decreases hi - lo, if tail_found { 0int } else { 1int },
        {
            let p = predicate(&slice[hi - 1]);
            if p {
                tail_found = true;
            } else {
                hi = hi - 1;
            }
        }
        if !tail_found {
            true_count = head;
            break;
        }
        let tail = hi - 1;
        hi = hi - 1;
        let ghost before = slice@;
        let a = slice[head];
        let b = slice[tail];
        slice[head] = b;
        slice[tail] = a;
        proof {
            lemma_swap_multiset(before, head as int, tail as int);
            assert(slice@ =~= before.update(head as int, before[tail as int]).update(tail as int, before[head as int]));
        }
        true_count = true_count + 1;
    }
    true_count
}

/// A cell of `partition`: `cell_len` labels from `first_lab_index` on.
pub struct CellMut<'a> {
    pub partition: &'a mut Partition,
    pub level: usize,
    pub first_lab_index: usize,
    pub cell_len: usize,
}

impl<'a> CellMut<'a> {
    /// The cell lies within the partition, at its level.
    pub open spec fn wf(self) -> bool {
        &&& self.partition.wf()
        &&& self.level == self.partition.level
        &&& self.first_lab_index + self.cell_len <= self.partition.nest.lab().len()
    }

    /// The labels of the cell.
    pub open spec fn lab(self) -> Seq<usize> {
        self.partition.nest.lab().subrange(
            self.first_lab_index as int,
            self.first_lab_index + self.cell_len,
        )
    }

    /// The labels of the whole partition.
    pub open spec fn all_labels(self) -> Seq<usize> {
        self.partition.nest.lab()
    }

    /// `after` is the same cell of the same partition as `self`, which keeps
    /// its `ptn`, its numbers of cells and its labels outside the cell.
    pub open spec fn labels_moved(self, after: Self) -> bool {
        &&& after.wf()
        &&& after.level == self.level
        &&& after.first_lab_index == self.first_lab_index
        &&& after.cell_len == self.cell_len
        &&& after.partition.level == self.partition.level
        &&& after.partition.nest.ptn() == self.partition.nest.ptn()
        &&& after.partition.nest.counts() == self.partition.nest.counts()
        &&& same_outside(
            self.partition.nest.lab(),
            after.partition.nest.lab(),
            self.first_lab_index as int,
            self.cell_len as int,
        )
    }

    /// The number of vertices of the cell.
    pub fn len(&self) -> (r: usize)
        ensures
            r == self.cell_len,
    {
        self.cell_len
    }

    /// The cell holds no vertex.
    #[must_use]
    pub fn is_empty(&self) -> (r: bool)
        ensures
            r == (self.cell_len == 0),
    {
        self.cell_len == 0
    }

    /// The label at position `i` of the cell.
    pub fn get(&self, i: usize) -> (r: usize)
        requires
            self.wf(),
            i < self.cell_len,
        ensures
            r == self.lab()[i as int],
    {
        let _n = self.partition.len();
        self.partition.nest.get(self.first_lab_index + i)
    }

    /// Swaps the labels at positions `a` and `b` of the cell.
    pub fn swap(&mut self, a: usize, b: usize)
        requires
            old(self).wf(),
            a < old(self).cell_len,
            b < old(self).cell_len,
        ensures
            *final(final(self).partition) == *final(old(self).partition),
            old(self).labels_moved(*final(self)),
            final(self).lab() == old(self).lab().update(a as int, old(self).lab()[b as int]).update(
                b as int,
                old(self).lab()[a as int],
            ),
    {
        let _n = self.partition.len();
        let f = self.first_lab_index;
        self.partition.nest.swap(f + a, f + b);
        assert(self.lab() =~= old(self).lab().update(a as int, old(self).lab()[b as int]).update(
            b as int,
            old(self).lab()[a as int],
        ));
    }

    /// Ends a cell at position `i` of the cell and counts one more cell.
    pub fn split_trivial(&mut self, i: usize)
        requires
            old(self).wf(),
            i < old(self).cell_len,
            old(self).partition.nest.counts()[old(self).level as int] < usize::MAX,
        ensures
            *final(final(self).partition) == *final(old(self).partition),
            final(self).wf(),
            final(self).level == old(self).level,
            final(self).first_lab_index == old(self).first_lab_index,
            final(self).cell_len == old(self).cell_len,
            final(self).partition.level == old(self).partition.level,
            final(self).partition.nest.lab() == old(self).partition.nest.lab(),
            final(self).partition.nest.ptn() == old(self).partition.nest.ptn().update(
                old(self).first_lab_index + i,
                old(self).level,
            ),
            final(self).partition.nest.counts() == old(self).partition.nest.counts().update(
                old(self).level as int,
                (old(self).partition.nest.counts()[old(self).level as int] + 1) as usize,
            ),
    {
        let _n = self.partition.len();
        let f = self.first_lab_index;
        let level = self.level;
        proof {
            crate::nauty::partition_nest::lemma_max_level_update(
                self.partition.nest.ptn(),
                (f + i) as int,
                level,
            );
        }
        self.partition.nest.set_ptn(f + i, level);
        self.partition.nest.add_cell(level);
    }

    /// The position in the partition of position `i` of the cell.
    pub fn partition_index(&self, i: usize) -> (r: usize)
        requires
            self.first_lab_index + i <= usize::MAX,
        ensures
            r == self.first_lab_index + i,
    {
        self.first_lab_index + i
    }

    /// Writes the labels of `src` over those of the cell.
    pub fn copy_from_slice(&mut self, src: &[usize])
        requires
            old(self).wf(),
            src@.len() == old(self).cell_len,
        ensures
            *final(final(self).partition) == *final(old(self).partition),
            old(self).labels_moved(*final(self)),
            final(self).lab() == src@,
    {
        let n = self.partition.len();
        let f = self.first_lab_index;
        let mut i: usize = 0;
        while i < src.len()
            invariant
                old(self).wf(),
                n == self.partition.nest.lab().len(),
                f + src@.len() <= n,
                f == old(self).first_lab_index,
                src@.len() == old(self).cell_len,
                i <= src@.len(),
                self.partition.level == old(self).partition.level,
                self.level == old(self).level,
                self.first_lab_index == f,
                self.cell_len == old(self).cell_len,
                *final(self.partition) == *final(old(self).partition),
                self.partition.nest.ptn() == old(self).partition.nest.ptn(),
                self.partition.nest.counts() == old(self).partition.nest.counts(),
                same_outside(old(self).partition.nest.lab(), self.partition.nest.lab(), f as int, src@.len() as int),
                forall|k: int| 0 <= k < i ==> #[trigger] self.partition.nest.lab()[f + k] == src@[k],
            decreases src@.len() - i,
        {
            self.partition.nest.set_lab(f + i, src[i]);
            i = i + 1;
        }
        assert forall|k: int| 0 <= k < src@.len() implies #[trigger] self.lab()[k] == src@[k] by {
            assert(self.lab()[k] == self.partition.nest.lab()[f + k]);
        }
        assert(self.lab() =~= src@);
    }

    /// The labels of the cell, one by one.
    pub fn iter(&self) -> (r: std::slice::Iter<'_, usize>)
        requires
            self.wf(),
        ensures
            r.remaining() == self.lab().as_ref(),
    {
        let _n = self.partition.len();
        let s = slice_subrange(
            self.partition.nest.lab_slice(),
            self.first_lab_index,
            self.first_lab_index + self.cell_len,
        );
        proof {
            vstd::std_specs::slice::axiom_spec_slice_iter(s);
        }
        s.iter()
    }

    /// After sorting by `keys`: the labels of `self` are in `after` in the
    /// stable order of their keys, each run of equal keys but the last ends
    /// a cell at the level, and one more cell is counted for each distinct
    /// key but the first.
    pub open spec fn sorted_by(self, after: Self, keys: Seq<usize>) -> bool {
        let f = self.first_lab_index as int;
        let m = self.cell_len as int;
        let ptn0 = self.partition.nest.ptn();
        &&& after.wf()
        &&& after.level == self.level
        &&& after.first_lab_index == self.first_lab_index
        &&& after.cell_len == self.cell_len
        &&& after.partition.level == self.partition.level
        &&& same_outside(self.partition.nest.lab(), after.partition.nest.lab(), f, m)
        &&& same_outside(ptn0, after.partition.nest.ptn(), f, m)
        &&& forall|k: int| 0 <= k < m ==> #[trigger] after.lab()[sorted_pos(keys, k)] == self.lab()[k]
        &&& forall|p: int|
            0 <= p < m ==> #[trigger] after.partition.nest.ptn()[f + p] == if is_run_end(keys, p) {
                self.level
            } else {
                ptn0[f + p]
            }
        &&& after.partition.nest.counts() == self.partition.nest.counts().update(
            self.level as int,
            (self.partition.nest.counts()[self.level as int] + distinct_in(keys, 0, usize::MAX + 1)
                - 1) as usize,
        )
    }

    /// Splits the cell by the values of `f` on its labels: the labels are
    /// sorted stably by value, each run of equal values ends a cell, and the
    /// new cells are counted.
    pub fn split_from_fn<F: Fn(&usize) -> usize>(&mut self, f: F)
        requires
            old(self).wf(),
            old(self).cell_len >= 1,
            old(self).partition.nest.counts()[old(self).level as int] + old(self).cell_len <= usize::MAX,
            forall|k: int| 0 <= k < old(self).cell_len ==> call_requires(f, (&#[trigger] old(self).lab()[k],)),
            forall|x: usize, y: usize| call_ensures(f, (&x,), y) ==> y < usize::MAX,
        ensures
            *final(final(self).partition) == *final(old(self).partition),
            exists|keys: Seq<usize>| #[trigger] keys_of(f, old(self).lab(), keys) && old(self).sorted_by(*final(self), keys),
    {
        let n = self.partition.len();
        let m = self.cell_len;
        let first = self.first_lab_index;
        let level = self.level;
        let ghost lab0 = self.lab();
        let mut acc: (Option<usize>, Option<usize>, Vec<usize>, VecMap) = (None, None, Vec::new(), VecMap::new());
        let mut k: usize = 0;
        while k < m
            invariant
                *self == *old(self),
                m == self.cell_len,
                lab0 == self.lab(),
                self.wf(),
                k <= m,
                folded(acc, acc.2@),
                acc.2@.len() == k,
                forall|j: int| 0 <= j < k ==> call_ensures(f, (&lab0[j],), #[trigger] acc.2@[j]),
                forall|j: int| 0 <= j < m ==> call_requires(f, (&#[trigger] lab0[j],)),
                forall|x: usize, y: usize| call_ensures(f, (&x,), y) ==> y < usize::MAX,
            decreases m - k,
        {
            let l = self.get(k);
            let x = f(&l);
            let ghost keys = acc.2@;
            proof {
                lemma_count_bounds(keys, x);
                lemma_count_push(keys, x, x);
            }
            acc = fold_step(acc, x);
            proof {
                let keys1 = keys.push(x);
                assert(acc.2@ =~= keys1);
                assert forall|u: usize| #[trigger] acc.3.lookup(u as int) == if count_eq(keys1, u) > 0 {
                    Some(count_eq(keys1, u) as usize)
                } else {
                    None
                } by {
                    lemma_count_push(keys, x, u);
                    lemma_count_bounds(keys1, u);
                }
                assert forall|j: int| 0 <= j < keys1.len() implies #[trigger] keys1[j] <= acc.1->Some_0 by {
                    if j < keys.len() {
                        assert(keys1[j] == keys[j]);
                    }
                }
                assert forall|j: int| 0 <= j < keys1.len() implies acc.0->Some_0 <= #[trigger] keys1[j] by {
                    if j < keys.len() {
                        assert(keys1[j] == keys[j]);
                    }
                }
                if keys.len() > 0 {
                    let jm = choose|j: int| 0 <= j < keys.len() && keys[j] == acc.1->Some_0 || keys1[keys.len() as int] == acc.1->Some_0;
                }
                assert(keys1[keys.len() as int] == x);
                if acc.0->Some_0 != x {
                    let j = choose|j: int| 0 <= j < keys.len() && keys[j] == acc.0->Some_0;
                    assert(keys1[j] == keys[j]);
                }
                if acc.1->Some_0 != x {
                    let j = choose|j: int| 0 <= j < keys.len() && keys[j] == acc.1->Some_0;
                    assert(keys1[j] == keys[j]);
                }
            }
            k = k + 1;
        }
        let (min, max, f_results, f_antecedant_counts) = acc;
        let ghost keys = f_results@;
        assert(keys_of(f, lab0, keys));
        let min = min.unwrap();
        let max = max.unwrap();
        proof {
            assert(max < usize::MAX) by {
                let j = choose|j: int| 0 <= j < keys.len() && keys[j] == max;
                assert(call_ensures(f, (&lab0[j],), keys[j]));
            }
            assert forall|j: int| 0 <= j < m implies #[trigger] keys[j] < usize::MAX by {
                assert(call_ensures(f, (&lab0[j],), keys[j]));
            }
        }
        if min == max {
            proof {
                assert forall|j: int| 0 <= j < keys.len() implies #[trigger] keys[j] == keys[0] by {
                    assert(min <= keys[j] <= max);
                    assert(min <= keys[0] <= max);
                }
                let x0 = keys[0];
                lemma_count_eq_all(keys, x0);
                lemma_count_bounds(keys, x0);
                assert forall|k: int| 0 <= k < m implies #[trigger] self.lab()[sorted_pos(keys, k)] == self.lab()[k] by {
                    lemma_sorted_pos_const(keys, k);
                }
                assert forall|p: int| 0 <= p < m implies !is_run_end(keys, p) by {
                    if is_run_end(keys, p) {
                        let x = choose|x: usize| #![trigger count_eq(keys, x)] count_eq(keys, x) > 0 && count_below(keys, x) + count_eq(keys, x) == p + 1 && p + 1 < keys.len();
                        lemma_count_bounds(keys, x);
                        let j = choose|j: int| 0 <= j < keys.len() && keys[j] == x;
                        assert(x == x0);
                    }
                }
                lemma_distinct_none_below(keys, x0 as int);
                lemma_distinct_none_above(keys, x0 + 1, usize::MAX + 1);
                assert(distinct_in(keys, 0, x0 + 1) == 1);
                assert(self.partition.nest.counts() =~= self.partition.nest.counts().update(
                    level as int,
                    (self.partition.nest.counts()[level as int] + distinct_in(keys, 0, usize::MAX + 1) - 1) as usize,
                ));
                assert(old(self).sorted_by(*self, keys));
            }
            return;
        }
        let ghost ptn0 = self.partition.nest.ptn();
        let ghost counts0 = self.partition.nest.counts();
        let ghost full0 = self.partition.nest.lab();
        proof {
            lemma_count_bounds(keys, min);
            lemma_distinct_none_below(keys, min as int);
        }
        let mut f_value_indices = VecMap::new();
        proof {
            assert forall|u: usize| #[trigger] f_value_indices.lookup(u as int) == if u < min && count_eq(keys, u) > 0 {
                Some(count_below(keys, u) as usize)
            } else {
                None
            } by {
                lemma_count_bounds(keys, u);
                if count_eq(keys, u) > 0 {
                    let j = choose|j: int| 0 <= j < keys.len() && keys[j] == u;
                    assert(min <= keys[j]);
                }
            }
        }
        proof {
            assert forall|p: int| 0 <= p < m implies !is_run_end_below(keys, p, min as int) by {
                if is_run_end_below(keys, p, min as int) {
                    let x = choose|x: usize| #![trigger count_eq(keys, x)] x < min && count_eq(keys, x) > 0 && count_below(keys, x) + count_eq(keys, x) == p + 1 && p + 1 < keys.len();
                    lemma_count_bounds(keys, x);
                    let j = choose|j: int| 0 <= j < keys.len() && keys[j] == x;
                    assert(min <= keys[j]);
                }
            }
        }
        let mut current: usize = 0;
        let mut v: usize = min;
        while v <= max
            invariant
                *final(self.partition) == *final(old(self).partition),
                self.level == level,
                self.first_lab_index == first,
                self.cell_len == m,
                self.partition.level == level,
                level == old(self).level,
                first == old(self).first_lab_index,
                m == old(self).cell_len,
                m >= 1,
                n == self.partition.nest.lab().len(),
                first + m <= n,
                self.wf(),
                self.partition.nest.lab() == full0,
                full0 == old(self).partition.nest.lab(),
                lab0 == self.lab(),
                ptn0 == old(self).partition.nest.ptn(),
                counts0 == old(self).partition.nest.counts(),
                counts0[level as int] + m <= usize::MAX,
                level < counts0.len(),
                keys.len() == m,
                is_min(keys, min),
                is_max(keys, max),
                max < usize::MAX,
                forall|u: usize| #[trigger] f_antecedant_counts.lookup(u as int) == if count_eq(keys, u) > 0 {
                    Some(count_eq(keys, u) as usize)
                } else {
                    None
                },
                min <= v <= max + 1,
                current == count_below(keys, v),
                forall|u: usize| #[trigger] f_value_indices.lookup(u as int) == if u < v && count_eq(keys, u) > 0 {
                    Some(count_below(keys, u) as usize)
                } else {
                    None
                },
                (current != 0) == (distinct_in(keys, 0, v as int) > 0),
                distinct_in(keys, 0, v as int) <= current,
                self.partition.nest.counts() == counts0.update(
                    level as int,
                    (counts0[level as int] + distinct_in(keys, 0, v as int) - if distinct_in(keys, 0, v as int) > 0 {
                        1int
                    } else {
                        0int
                    }) as usize,
                ),
                same_outside(ptn0, self.partition.nest.ptn(), first as int, m as int),
                forall|p: int| 0 <= p < m ==> #[trigger] self.partition.nest.ptn()[first + p] == if is_run_end_below(keys, p, v as int) {
                    level
                } else {
                    ptn0[first + p]
                },
            decreases max + 1 - v,
        {
            proof {
                lemma_count_bounds(keys, v);
                lemma_count_below_next(keys, v);
                lemma_count_bounds(keys, (v + 1) as usize);
            }
            let found = f_antecedant_counts.get_safely(v);
            assert(found == f_antecedant_counts.lookup(v as int));
            assert(distinct_in(keys, 0, v + 1) == distinct_in(keys, 0, v as int) + if count_eq(keys, v) > 0 {
                1nat
            } else {
                0nat
            });
            match found {
                Some(count) => {
                    assert(count == count_eq(keys, v));
                    assert(current + count <= m);
                    f_value_indices.set(v, current);
                    assert(count >= 1);
                    assert(distinct_in(keys, 0, v as int) < m);
                    let ghost dd = distinct_in(keys, 0, v as int);
                    assert(level < counts0.len());
                    assert(0 <= counts0[level as int] + dd - (if dd > 0 { 1int } else { 0int }) <= usize::MAX);
                    assert(self.partition.nest.counts()[level as int] == counts0[level as int] + dd - (if dd > 0 {
                        1int
                    } else {
                        0int
                    }));
                    if current != 0 {
                        self.partition.nest.add_cell(level);
                    }
                    let ghost prev = current;
                    current = current + count;
                    if current < m {
                        proof {
                            crate::nauty::partition_nest::lemma_max_level_update(
                                self.partition.nest.ptn(),
                                first + current - 1,
                                level,
                            );
                        }
                        self.partition.nest.set_ptn(first + current - 1, level);
                    }
                    proof {
                        assert forall|p: int| 0 <= p < m implies #[trigger] self.partition.nest.ptn()[first + p] == if is_run_end_below(keys, p, v + 1) {
                            level
                        } else {
                            ptn0[first + p]
                        } by {
                            if p + 1 == current && current < m {
                                assert(count_eq(keys, v) > 0);
                                assert(is_run_end_below(keys, p, v + 1));
                            } else {
                                if is_run_end_below(keys, p, v + 1) {
                                    let x = choose|x: usize| #![trigger count_eq(keys, x)] x < v + 1 && count_eq(keys, x) > 0 && count_below(keys, x) + count_eq(keys, x) == p + 1 && p + 1 < keys.len();
                                    if x == v {
                                        assert(false);
                                    }
                                    assert(is_run_end_below(keys, p, v as int));
                                }
                                if is_run_end_below(keys, p, v as int) {
                                    let x = choose|x: usize| #![trigger count_eq(keys, x)] x < v && count_eq(keys, x) > 0 && count_below(keys, x) + count_eq(keys, x) == p + 1 && p + 1 < keys.len();
                                    assert(x < v + 1);
                                }
                            }
                        }
                        assert forall|u: usize| #[trigger] f_value_indices.lookup(u as int) == if u < v + 1 && count_eq(keys, u) > 0 {
                            Some(count_below(keys, u) as usize)
                        } else {
                            None
                        } by {
                        }
                    }
                },
                None => {
                    proof {
                        assert forall|p: int| 0 <= p < m implies is_run_end_below(keys, p, v + 1) == is_run_end_below(keys, p, v as int) by {
                            if is_run_end_below(keys, p, v + 1) {
                                let x = choose|x: usize| #![trigger count_eq(keys, x)] x < v + 1 && count_eq(keys, x) > 0 && count_below(keys, x) + count_eq(keys, x) == p + 1 && p + 1 < keys.len();
                                assert(x != v);
                            }
                        }
                    }
                },
            }
            v = v + 1;
        }
        let ghost ptn1 = self.partition.nest.ptn();
        let ghost counts1 = self.partition.nest.counts();
        let mut new_lab: Vec<usize> = Vec::new();
        let mut i: usize = 0;
        while i < m
            invariant
                i <= m,
                new_lab@.len() == i,
            decreases m - i,
        {
            new_lab.push(0);
            i = i + 1;
        }
        proof {
            assert forall|u: usize| #[trigger] f_value_indices.lookup(u as int) == if count_eq(keys, u) > 0 {
                Some((count_below(keys, u) + count_eq(keys.take(0), u)) as usize)
            } else {
                None
            } by {
                lemma_count_bounds(keys, u);
                assert(keys.take(0) =~= Seq::<usize>::empty());
                if count_eq(keys, u) > 0 {
                    let j = choose|j: int| 0 <= j < keys.len() && keys[j] == u;
                    assert(keys[j] <= max);
                }
            }
        }
        let mut k: usize = 0;
        while k < m
            invariant
                *final(self.partition) == *final(old(self).partition),
                self.level == level,
                self.first_lab_index == first,
                self.cell_len == m,
                self.partition.level == level,
                self.wf(),
                self.partition.nest.lab() == full0,
                self.partition.nest.ptn() == ptn1,
                self.partition.nest.counts() == counts1,
                lab0 == self.lab(),
                f_results@ == keys,
                keys.len() == m,
                k <= m,
                new_lab@.len() == m,
                forall|u: usize| #[trigger] f_value_indices.lookup(u as int) == if count_eq(keys, u) > 0 {
                    Some((count_below(keys, u) + count_eq(keys.take(k as int), u)) as usize)
                } else {
                    None
                },
                forall|j: int| 0 <= j < k ==> #[trigger] new_lab@[sorted_pos(keys, j)] == lab0[j],
            decreases m - k,
        {
            let key = f_results[k];
            proof {
                lemma_count_eq_take(keys, k as int, key);
                lemma_count_eq_take(keys, k + 1, key);
                lemma_count_bounds(keys, key);
                assert(count_eq(keys, key) > 0);
            }
            assert(f_value_indices.lookup(key as int) == Some((count_below(keys, key) + count_eq(keys.take(k as int), key)) as usize));
            let p = f_value_indices.get(key);
            let l = self.get(k);
            proof {
                assert(p == sorted_pos(keys, k as int));
            }
            let ghost before = new_lab@;
            let ghost map_before = f_value_indices;
            new_lab.set(p, l);
            f_value_indices.increment(key);
            proof {
                assert forall|j: int| 0 <= j < k + 1 implies #[trigger] new_lab@[sorted_pos(keys, j)] == lab0[j] by {
                    if j < k {
                        lemma_sorted_pos(keys, j, k as int);
                        assert(new_lab@[sorted_pos(keys, j)] == before[sorted_pos(keys, j)]);
                    }
                }
                assert forall|u: usize| #[trigger] f_value_indices.lookup(u as int) == if count_eq(keys, u) > 0 {
                    Some((count_below(keys, u) + count_eq(keys.take(k + 1), u)) as usize)
                } else {
                    None
                } by {
                    lemma_count_eq_take(keys, k as int, u);
                    lemma_count_eq_take(keys, k + 1, u);
                    lemma_count_bounds(keys, u);
                    assert(map_before.lookup(u as int) == if count_eq(keys, u) > 0 {
                        Some((count_below(keys, u) + count_eq(keys.take(k as int), u)) as usize)
                    } else {
                        None
                    });
                    if u != key {
                        assert(f_value_indices.lookup(u as int) == map_before.lookup(u as int));
                    } else {
                        assert(f_value_indices.lookup(u as int) == Some((map_before.value(u as int) + 1) as usize));
                    }
                }
            }
            k = k + 1;
        }
        self.copy_from_slice(new_lab.as_slice());
        proof {
            assert forall|p: int| 0 <= p < m implies is_run_end_below(keys, p, max + 1) == is_run_end(keys, p) by {
                if is_run_end(keys, p) {
                    let x = choose|x: usize| #![trigger count_eq(keys, x)] count_eq(keys, x) > 0 && count_below(keys, x) + count_eq(keys, x) == p + 1 && p + 1 < keys.len();
                    lemma_count_bounds(keys, x);
                    let j = choose|j: int| 0 <= j < keys.len() && keys[j] == x;
                    assert(x <= max);
                }
            }
            lemma_count_bounds(keys, (max + 1) as usize);
            assert(keys[0] < max + 1);
            lemma_distinct_none_above(keys, max + 1, usize::MAX + 1);
            assert(old(self).sorted_by(*self, keys));
        }
    }

    /// Partitions the cell in place with the algorithm of
    /// `partition_in_place`, the splitter's neighbours first, and returns
    /// their number.
    pub fn partition_in_place_std(&mut self, splitter_neighbours: &BitSet) -> (r: usize)
        requires
            old(self).wf(),
            forall|k: int| 0 <= k < old(self).cell_len ==> #[trigger] old(self).lab()[k] < bitset_bits(*splitter_neighbours).len(),
        ensures
            *final(final(self).partition) == *final(old(self).partition),
            old(self).labels_moved(*final(self)),
            final(self).lab().to_multiset() == old(self).lab().to_multiset(),
            r <= old(self).cell_len,
            forall|k: int| 0 <= k < r ==> bitset_bits(*splitter_neighbours)[#[trigger] final(self).lab()[k] as int],
            forall|k: int| r <= k < old(self).cell_len ==> !bitset_bits(*splitter_neighbours)[#[trigger] final(self).lab()[k] as int],
    {
        let n = self.partition.len();
        let f = self.first_lab_index;
        let e = f + self.cell_len;
        let ghost lab0 = self.partition.nest.lab();
        let predicate = |c: &usize| -> (b: bool)
            requires
                *c < splitter_neighbours@.len(),
            ensures
                b == splitter_neighbours@[*c as int],
        { splitter_neighbours.get(*c) };
        let slice = self.partition.nest.lab_range_mut(f, e);
        assert(slice@ == old(self).lab());
        let r = partition_in_place(slice, predicate);
        proof {
            assert(self.partition.nest.lab() == lab0.subrange(0, f as int) + final(slice)@ + lab0.subrange(e as int, n as int));
            assert(self.lab() =~= final(slice)@);
        }
        r
    }

    /// Partitions the cell in place, the splitter's neighbours first, and
    /// returns their number.
    pub fn partition_in_place_orig(&mut self, splitter_neighbours: &BitSet) -> (r: usize)
        requires
            old(self).wf(),
            forall|k: int| 0 <= k < old(self).cell_len ==> #[trigger] old(self).lab()[k] < bitset_bits(*splitter_neighbours).len(),
        ensures
            *final(final(self).partition) == *final(old(self).partition),
            old(self).labels_moved(*final(self)),
            final(self).lab().to_multiset() == old(self).lab().to_multiset(),
            r <= old(self).cell_len,
            forall|k: int| 0 <= k < r ==> bitset_bits(*splitter_neighbours)[#[trigger] final(self).lab()[k] as int],
            forall|k: int| r <= k < old(self).cell_len ==> !bitset_bits(*splitter_neighbours)[#[trigger] final(self).lab()[k] as int],
            (final(self).lab(), r as int) == swap_partition(
                old(self).lab(),
                member_of(bitset_bits(*splitter_neighbours)),
                0,
                old(self).cell_len as int,
            ),
    {
        let ghost keep = member_of(bitset_bits(*splitter_neighbours));
        let mut c1: usize = 0;
        let mut hi: usize = self.cell_len;
        while c1 < hi
            invariant
                keep == member_of(bitset_bits(*splitter_neighbours)),
                swap_partition(self.lab(), keep, c1 as int, hi as int) == swap_partition(
                    old(self).lab(),
                    keep,
                    0,
                    old(self).cell_len as int,
                ),
                self.lab().len() == old(self).cell_len,
                old(self).labels_moved(*self),
                *final(self.partition) == *final(old(self).partition),
                c1 <= hi <= old(self).cell_len,
                self.lab().to_multiset() == old(self).lab().to_multiset(),
                forall|k: int| 0 <= k < old(self).cell_len ==> #[trigger] self.lab()[k] < bitset_bits(*splitter_neighbours).len(),
                forall|k: int| 0 <= k < c1 ==> bitset_bits(*splitter_neighbours)[#[trigger] self.lab()[k] as int],
                forall|k: int| hi <= k < old(self).cell_len ==> !bitset_bits(*splitter_neighbours)[#[trigger] self.lab()[k] as int],
            decreases hi - c1,
        {
            let x = self.get(c1);
            if splitter_neighbours.get(x) {
                c1 = c1 + 1;
            } else {
                let ghost before = self.lab();
                self.swap(c1, hi - 1);
                proof {
                    lemma_swap_multiset(before, c1 as int, hi - 1);
                }
                hi = hi - 1;
            }
        }
        c1
    }
}

/// Some position below `m` is sent to `p` by `pi`.
pub open spec fn hits(pi: Seq<int>, m: int, p: int) -> bool {
    exists|k: int| 0 <= k < m && #[trigger] pi[k] == p
}

/// `pi` is a bijection of `0..m`.
pub open spec fn is_bijection(pi: Seq<int>, m: int) -> bool {
    &&& pi.len() == m
    &&& forall|k: int| 0 <= k < m ==> 0 <= #[trigger] pi[k] < m
    &&& forall|j: int, k: int| 0 <= j < k < m ==> #[trigger] pi[j] != #[trigger] pi[k]
    &&& forall|p: int| 0 <= p < m ==> #[trigger] hits(pi, m, p)
}

/// The stable sorted positions of the entries of `keys` form a bijection of
/// `0..keys.len()`.
pub proof fn lemma_sorted_pos_bijection(keys: Seq<usize>)
    ensures
        is_bijection(Seq::new(keys.len(), |k: int| sorted_pos(keys, k)), keys.len() as int),
{
    let m = keys.len() as int;
    let pi = Seq::new(m as nat, |k: int| sorted_pos(keys, k));
    let f = |k: int| sorted_pos(keys, k);
    let x = vstd::set_lib::set_int_range(0, m);
    vstd::set_lib::lemma_int_range(0, m);
    assert forall|j: int, k: int| 0 <= j < k < m implies #[trigger] pi[j] != #[trigger] pi[k] && 0 <= pi[j] < m && 0 <= pi[k] < m by {
        lemma_sorted_pos(keys, j, k);
    }
    assert forall|k: int| 0 <= k < m implies 0 <= #[trigger] pi[k] < m by {
        if k + 1 < m {
            lemma_sorted_pos(keys, k, k + 1);
        } else if k > 0 {
            lemma_sorted_pos(keys, 0, k);
        } else {
            lemma_count_bounds(keys, keys[0]);
            lemma_count_eq_take(keys, 0, keys[0]);
            lemma_count_eq_take(keys, 1, keys[0]);
        }
    }
    assert(vstd::relations::injective_on(f, x)) by {
        assert forall|a: int, b: int| x.contains(a) && x.contains(b) && #[trigger] f(a) == #[trigger] f(b) implies a == b by {
            if a < b {
                lemma_sorted_pos(keys, a, b);
            } else if b < a {
                lemma_sorted_pos(keys, b, a);
            }
        }
    }
    let y = x.map(f);
    vstd::set_lib::lemma_map_size(x, y, f);
    assert(y.subset_of(x)) by {
        assert forall|p: int| y.contains(p) implies x.contains(p) by {
            let k = choose|k: int| x.contains(k) && f(k) == p;
            assert(pi[k] == p);
        }
    }
    vstd::set_lib::lemma_subset_equality(y, x);
    assert forall|p: int| 0 <= p < m implies #[trigger] hits(pi, m, p) by {
        assert(x.contains(p));
        assert(y.contains(p));
        let k = choose|k: int| x.contains(k) && f(k) == p;
        assert(pi[k] == p);
    }
}

/// A sequence whose entries are those of `a` moved by a bijection of the
/// positions holds the same multiset of entries.
pub proof fn lemma_perm_multiset(a: Seq<usize>, b: Seq<usize>, pi: Seq<int>)
    requires
        a.len() == b.len(),
        is_bijection(pi, a.len() as int),
        forall|k: int| 0 <= k < a.len() ==> b[#[trigger] pi[k]] == a[k],
    ensures
        a.to_multiset() =~= b.to_multiset(),
    decreases a.len(),
{
    if a.len() > 0 {
        let m = a.len() as int;
        let p = pi[m - 1];
        let a2 = a.drop_last();
        let b2 = b.remove(p);
        let pi2 = Seq::new((m - 1) as nat, |k: int| if pi[k] < p { pi[k] } else { pi[k] - 1 });
        assert forall|k: int| 0 <= k < m - 1 implies 0 <= #[trigger] pi2[k] < m - 1 by {
            assert(pi[k] != pi[m - 1]);
            assert(0 <= pi[k] < m);
        }
        assert forall|j: int, k: int| 0 <= j < k < m - 1 implies #[trigger] pi2[j] != #[trigger] pi2[k] by {
            assert(pi[j] != pi[k]);
            assert(pi[j] != pi[m - 1] && pi[k] != pi[m - 1]);
        }
        assert forall|q: int| 0 <= q < m - 1 implies #[trigger] hits(pi2, m - 1, q) by {
            let q2 = if q < p {
                q
            } else {
                q + 1
            };
            assert(hits(pi, m, q2));
            let k = choose|k: int| 0 <= k < m && #[trigger] pi[k] == q2;
            assert(k != m - 1);
            assert(pi2[k] == q);
        }
        assert forall|k: int| 0 <= k < m - 1 implies b2[#[trigger] pi2[k]] == a2[k] by {
            assert(pi[k] != pi[m - 1]);
            assert(b[pi[k]] == a[k]);
        }
        lemma_perm_multiset(a2, b2, pi2);
        assert(a2.push(a[m - 1]) =~= a);
        vstd::seq_lib::to_multiset_build(a2, a[m - 1]);
        assert(b2.insert(p, b[p]) =~= b);
        vstd::seq_lib::to_multiset_insert(b2, p, b[p]);
        assert(b[p] == a[m - 1]);
    }
}

/// Moving the entries of `a` at positions `f .. f + m` by a bijection of
/// those positions, and keeping the others, keeps the multiset of entries.
pub proof fn lemma_block_perm_multiset(a: Seq<usize>, b: Seq<usize>, f: int, m: int, pi: Seq<int>)
    requires
        a.len() == b.len(),
        0 <= f,
        0 <= m,
        f + m <= a.len(),
        is_bijection(pi, m),
        forall|k: int| 0 <= k < m ==> b[f + #[trigger] pi[k]] == a[f + k],
        forall|q: int| 0 <= q < a.len() && !(f <= q < f + m) ==> #[trigger] b[q] == a[q],
    ensures
        a.to_multiset() =~= b.to_multiset(),
{
    let l = a.len() as int;
    let big = Seq::new(l as nat, |j: int| if f <= j < f + m { f + pi[j - f] } else { j });
    assert forall|j: int| 0 <= j < l implies 0 <= #[trigger] big[j] < l by {
        if f <= j < f + m {
            assert(0 <= pi[j - f] < m);
        }
    }
    assert forall|i: int, j: int| 0 <= i < j < l implies #[trigger] big[i] != #[trigger] big[j] by {
        if f <= i < f + m && f <= j < f + m {
            assert(pi[i - f] != pi[j - f]);
        } else if f <= i < f + m {
            assert(0 <= pi[i - f] < m);
        } else if f <= j < f + m {
            assert(0 <= pi[j - f] < m);
        }
    }
    assert forall|q: int| 0 <= q < l implies #[trigger] hits(big, l, q) by {
        if f <= q < f + m {
            assert(hits(pi, m, q - f));
            let k = choose|k: int| 0 <= k < m && #[trigger] pi[k] == q - f;
            assert(big[f + k] == q);
        } else {
            assert(big[q] == q);
        }
    }
    assert forall|j: int| 0 <= j < l implies b[#[trigger] big[j]] == a[j] by {
        if f <= j < f + m {
            assert(b[f + pi[j - f]] == a[f + (j - f)]);
        }
    }
    lemma_perm_multiset(a, b, big);
}

/// Splitting a cell by key moves its labels by a bijection of its positions:
/// the cell holds the same labels before and after, and the partition the
/// same multiset of labels.
pub proof fn lemma_split_permutes_cell(before: CellMut, after: CellMut, keys: Seq<usize>)
    requires
        keys.len() == before.cell_len,
        before.sorted_by(after, keys),
    ensures
        exists|pi: Seq<int>|
            #![trigger is_bijection(pi, before.cell_len as int)]
            is_bijection(pi, before.cell_len as int) && forall|k: int|
                0 <= k < before.cell_len ==> after.lab()[#[trigger] pi[k]] == before.lab()[k],
        after.all_labels().to_multiset() =~= before.all_labels().to_multiset(),
{
    let m = before.cell_len as int;
    let f = before.first_lab_index as int;
    let pi = Seq::new(m as nat, |k: int| sorted_pos(keys, k));
    lemma_sorted_pos_bijection(keys);
    assert forall|k: int| 0 <= k < m implies after.lab()[#[trigger] pi[k]] == before.lab()[k] by {
        assert(pi[k] == sorted_pos(keys, k));
    }
    assert(is_bijection(pi, m));
    let la = before.partition.nest.lab();
    let lb = after.partition.nest.lab();
    assert forall|k: int| 0 <= k < m implies lb[f + #[trigger] pi[k]] == la[f + k] by {
        assert(0 <= pi[k] < m);
        assert(after.lab()[pi[k]] == lb[f + pi[k]]);
        assert(before.lab()[k] == la[f + k]);
    }
    lemma_block_perm_multiset(la, lb, f, m, pi);
}

impl Partition {
    /// The labels from `i` to the end at the partition's level of the cell
    /// that holds `i` (the cell that starts at `i` when `i` starts one), to
    /// be changed in place.
    pub fn get_cell_mut<'a>(&'a mut self, i: usize) -> (r: CellMut<'a>)
        requires
            old(self).wf(),
            i < old(self).nest.lab().len(),
        ensures
            *r.partition == *old(self),
            *final(self) == *final(r.partition),
            r.wf(),
            r.level == old(self).level,
            r.first_lab_index == i,
            crate::nauty::partition_nest::is_cell_end_from(
                old(self).nest.ptn(),
                old(self).level,
                i as int,
                i + r.cell_len - 1,
            ),
    {
        let _n = self.len();
        let end = self.cell_end(i);
        let level = self.level;
        CellMut { partition: self, level, first_lab_index: i, cell_len: end - i + 1 }
    }
}

} // verus!
