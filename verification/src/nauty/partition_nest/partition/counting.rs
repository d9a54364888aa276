//! Counting the values of a sequence, for sorting a cell by key.
use vstd::prelude::*;

verus! {

/// The number of entries of `v` below `x`.
pub open spec fn count_below(v: Seq<usize>, x: usize) -> nat
    decreases v.len(),
{
    if v.len() == 0 {
        0
    } else {
        count_below(v.drop_last(), x) + if v.last() < x {
            1nat
        } else {
            0nat
        }
    }
}

/// The number of entries of `v` equal to `x`.
pub open spec fn count_eq(v: Seq<usize>, x: usize) -> nat
    decreases v.len(),
{
    if v.len() == 0 {
        0
    } else {
        count_eq(v.drop_last(), x) + if v.last() == x {
            1nat
        } else {
            0nat
        }
    }
}

/// The position of entry `k` once `v` is sorted stably: the entries below
/// it, then the equal ones before it.
pub open spec fn sorted_pos(v: Seq<usize>, k: int) -> int {
    (count_below(v, v[k]) + count_eq(v.take(k), v[k])) as int
}

/// `p` is the last position of a run of equal keys, other than the last
/// position of all.
pub open spec fn is_run_end(v: Seq<usize>, p: int) -> bool {
    exists|x: usize|
        #![trigger count_eq(v, x)]
        count_eq(v, x) > 0 && count_below(v, x) + count_eq(v, x) == p + 1 && p + 1 < v.len()
}

/// The number of distinct keys of `v` in `lo .. hi`.
pub open spec fn distinct_in(v: Seq<usize>, lo: int, hi: int) -> nat
    decreases hi - lo,
{
    if hi <= lo {
        0
    } else {
        distinct_in(v, lo, hi - 1) + if count_eq(v, (hi - 1) as usize) > 0 {
            1nat
        } else {
            0nat
        }
    }
}

/// The smallest key.
pub open spec fn is_min(v: Seq<usize>, m: usize) -> bool {
    &&& exists|j: int| 0 <= j < v.len() && v[j] == m
    &&& forall|j: int| 0 <= j < v.len() ==> m <= #[trigger] v[j]
}

/// The largest key.
pub open spec fn is_max(v: Seq<usize>, m: usize) -> bool {
    &&& exists|j: int| 0 <= j < v.len() && v[j] == m
    &&& forall|j: int| 0 <= j < v.len() ==> #[trigger] v[j] <= m
}

/// The number of distinct keys of `v`.
pub open spec fn distinct(v: Seq<usize>) -> nat {
    distinct_in(v, 0, usize::MAX + 1)
}

pub proof fn lemma_count_push(v: Seq<usize>, y: usize, x: usize)
    ensures
        count_eq(v.push(y), x) == count_eq(v, x) + if y == x { 1nat } else { 0nat },
        count_below(v.push(y), x) == count_below(v, x) + if y < x { 1nat } else { 0nat },
{
    assert(v.push(y).drop_last() =~= v);
}

pub proof fn lemma_count_bounds(v: Seq<usize>, x: usize)
    ensures
        count_below(v, x) + count_eq(v, x) <= v.len(),
        count_eq(v, x) > 0 <==> exists|j: int| 0 <= j < v.len() && v[j] == x,
        count_below(v, x) == 0 <==> forall|j: int| 0 <= j < v.len() ==> x <= #[trigger] v[j],
    decreases v.len(),
{
    if v.len() > 0 {
        lemma_count_bounds(v.drop_last(), x);
        let w = v.drop_last();
        if exists|j: int| 0 <= j < w.len() && w[j] == x {
            let j = choose|j: int| 0 <= j < w.len() && w[j] == x;
            assert(v[j] == x);
        }
        if count_eq(v, x) > 0 {
            if v.last() == x {
                assert(v[v.len() - 1] == x);
            } else {
                let j = choose|j: int| 0 <= j < w.len() && w[j] == x;
                assert(v[j] == x);
            }
        }
        if exists|j: int| 0 <= j < v.len() && v[j] == x {
            let j = choose|j: int| 0 <= j < v.len() && v[j] == x;
            if j < v.len() - 1 {
                assert(w[j] == x);
            }
        }
        if count_below(v, x) == 0 {
            assert forall|j: int| 0 <= j < v.len() implies x <= #[trigger] v[j] by {
                if j < v.len() - 1 {
                    assert(v[j] == w[j]);
                }
            }
        }
        if forall|j: int| 0 <= j < v.len() ==> x <= #[trigger] v[j] {
            assert forall|j: int| 0 <= j < w.len() implies x <= #[trigger] w[j] by {
                assert(w[j] == v[j]);
            }
            assert(x <= v[v.len() - 1]);
        }
    }
}

/// Values below `b` include every value equal to a smaller `a`.
pub proof fn lemma_count_order(v: Seq<usize>, a: usize, b: usize)
    requires
        a < b,
    ensures
        count_below(v, a) + count_eq(v, a) <= count_below(v, b),
    decreases v.len(),
{
    if v.len() > 0 {
        lemma_count_order(v.drop_last(), a, b);
    }
}

/// Counting one more value up to `x + 1` adds the entries equal to `x`.
pub proof fn lemma_count_below_next(v: Seq<usize>, x: usize)
    requires
        x < usize::MAX,
    ensures
        count_below(v, (x + 1) as usize) == count_below(v, x) + count_eq(v, x),
    decreases v.len(),
{
    if v.len() > 0 {
        lemma_count_below_next(v.drop_last(), x);
    }
}

/// A prefix holds at most as many entries equal to `x`.
pub proof fn lemma_count_eq_take(v: Seq<usize>, k: int, x: usize)
    requires
        0 <= k <= v.len(),
    ensures
        count_eq(v.take(k), x) <= count_eq(v, x),
        k < v.len() ==> count_eq(v.take(k + 1), x) == count_eq(v.take(k), x) + if v[k] == x { 1nat } else { 0nat },
    decreases v.len() - k,
{
    if k < v.len() {
        assert(v.take(k + 1).drop_last() =~= v.take(k));
        lemma_count_eq_take(v, k + 1, x);
    } else {
        assert(v.take(k) =~= v);
    }
}

/// Sorted positions lie within the sequence and differ from each other.
pub proof fn lemma_sorted_pos(v: Seq<usize>, j: int, k: int)
    requires
        0 <= j < k < v.len(),
    ensures
        0 <= sorted_pos(v, j) < v.len(),
        0 <= sorted_pos(v, k) < v.len(),
        sorted_pos(v, j) != sorted_pos(v, k),
{
    lemma_count_eq_take(v, j, v[j]);
    lemma_count_eq_take(v, k, v[k]);
    lemma_count_eq_take(v, j + 1, v[j]);
    lemma_count_eq_take(v, k + 1, v[k]);
    lemma_count_bounds(v, v[j]);
    lemma_count_bounds(v, v[k]);
    if v[j] == v[k] {
        lemma_count_eq_take_mono(v, j + 1, k, v[k]);
    } else if v[j] < v[k] {
        lemma_count_order(v, v[j], v[k]);
    } else {
        lemma_count_order(v, v[k], v[j]);
    }
}

/// Longer prefixes hold at least as many entries equal to `x`.
pub proof fn lemma_count_eq_take_mono(v: Seq<usize>, a: int, b: int, x: usize)
    requires
        0 <= a <= b <= v.len(),
    ensures
        count_eq(v.take(a), x) <= count_eq(v.take(b), x),
{
    lemma_count_eq_take(v.take(b), a, x);
    assert(v.take(b).take(a) =~= v.take(a));
}

/// When all keys are equal, the sorted position of each entry is its own.
pub proof fn lemma_sorted_pos_const(v: Seq<usize>, k: int)
    requires
        0 <= k < v.len(),
        forall|j: int| 0 <= j < v.len() ==> #[trigger] v[j] == v[0],
    ensures
        sorted_pos(v, k) == k,
{
    lemma_count_bounds(v, v[k]);
    lemma_count_eq_all(v.take(k), v[0]);
}

/// A sequence of copies of `x` holds as many entries equal to `x` as its
/// length.
pub proof fn lemma_count_eq_all(v: Seq<usize>, x: usize)
    requires
        forall|j: int| 0 <= j < v.len() ==> #[trigger] v[j] == x,
    ensures
        count_eq(v, x) == v.len(),
    decreases v.len(),
{
    if v.len() > 0 {
        lemma_count_eq_all(v.drop_last(), x);
    }
}

/// With no key below `b`, no distinct key lies below `b`.
pub proof fn lemma_distinct_none_below(v: Seq<usize>, b: int)
    requires
        forall|j: int| 0 <= j < v.len() ==> b <= #[trigger] v[j],
    ensures
        distinct_in(v, 0, b) == 0,
    decreases b,
{
    if b > 0 {
        lemma_distinct_none_below(v, b - 1);
        lemma_count_bounds(v, (b - 1) as usize);
    }
}

/// With no key at or above `a`, the distinct keys below `b >= a` are those
/// below `a`.
pub proof fn lemma_distinct_none_above(v: Seq<usize>, a: int, b: int)
    requires
        0 <= a <= b <= usize::MAX + 1,
        forall|j: int| 0 <= j < v.len() ==> #[trigger] v[j] < a,
    ensures
        distinct_in(v, 0, b) == distinct_in(v, 0, a),
    decreases b - a,
{
    if b > a {
        lemma_distinct_none_above(v, a, b - 1);
        lemma_count_bounds(v, (b - 1) as usize);
    }
}

/// `p` is the last position of a run of some key below `v`, other than the
/// last position of all.
pub open spec fn is_run_end_below(keys: Seq<usize>, p: int, v: int) -> bool {
    exists|x: usize|
        #![trigger count_eq(keys, x)]
        x < v && count_eq(keys, x) > 0 && count_below(keys, x) + count_eq(keys, x) == p + 1 && p + 1
            < keys.len()
}

/// With every key below `x`, all keys count as below `x`.
pub proof fn lemma_count_below_all(v: Seq<usize>, x: usize)
    requires
        forall|j: int| 0 <= j < v.len() ==> #[trigger] v[j] < x,
    ensures
        count_below(v, x) == v.len(),
    decreases v.len(),
{
    if v.len() > 0 {
        assert forall|j: int| 0 <= j < v.len() - 1 implies #[trigger] v.drop_last()[j] < x by {
            assert(v.drop_last()[j] == v[j]);
        }
        lemma_count_below_all(v.drop_last(), x);
    }
}

/// The number of keys in `lo .. hi` whose run of equal keys is followed by
/// another run.
pub open spec fn closed_runs(v: Seq<usize>, lo: int, hi: int) -> nat
    decreases hi - lo,
{
    if hi <= lo {
        0
    } else {
        closed_runs(v, lo, hi - 1) + if count_eq(v, (hi - 1) as usize) > 0 && count_below(
            v,
            hi as usize,
        ) < v.len() {
            1nat
        } else {
            0nat
        }
    }
}

/// Every run but the last one is followed by another: the closed runs are
/// one fewer than the distinct keys.
pub proof fn lemma_closed_runs(v: Seq<usize>, lo: usize, max: usize)
    requires
        lo <= max,
        max < usize::MAX,
        is_min(v, lo),
        is_max(v, max),
    ensures
        closed_runs(v, lo as int, max + 1) + 1 == distinct_in(v, lo as int, max + 1),
{
    lemma_closed_runs_upto(v, lo, max, max);
    assert forall|j: int| 0 <= j < v.len() implies #[trigger] v[j] < max + 1 by {
        assert(v[j] <= max);
    }
    lemma_count_below_all(v, (max + 1) as usize);
    lemma_count_bounds(v, max);
}

/// Below the largest key, each run is followed by another.
pub proof fn lemma_closed_runs_upto(v: Seq<usize>, lo: usize, hi: usize, max: usize)
    requires
        lo <= hi <= max,
        max < usize::MAX,
        is_min(v, lo),
        is_max(v, max),
    ensures
        closed_runs(v, lo as int, hi as int) == distinct_in(v, lo as int, hi as int),
    decreases hi - lo,
{
    if hi > lo {
        lemma_closed_runs_upto(v, lo, (hi - 1) as usize, max);
        let x = (hi - 1) as usize;
        if count_eq(v, x) > 0 {
            lemma_count_below_next(v, x);
            lemma_count_order(v, x, max);
            lemma_count_bounds(v, max);
        }
    }
}

/// Wider ranges hold at least as many distinct keys.
pub proof fn lemma_distinct_mono(v: Seq<usize>, lo: int, a: int, b: int)
    requires
        lo <= a <= b,
    ensures
        distinct_in(v, lo, a) <= distinct_in(v, lo, b),
    decreases b - a,
{
    if b > a {
        lemma_distinct_mono(v, lo, a, b - 1);
    }
}

} // verus!
