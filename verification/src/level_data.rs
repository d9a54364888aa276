//! The data kept for each level of the generation: bounds on the degree of
//! the next vertex and the sets of vertices it may be joined to.
use crate::env::Env;
use vstd::arithmetic::power2::pow2;
use vstd::prelude::*;

verus! {

/// The number of bytes in a set word.
pub const WORD_SIZE: usize = (usize::BITS / 8) as usize;

/// The largest number of vertices.
pub const MAXN: usize = WORD_SIZE;

/// `a * b / c` as computed from the quotient and remainder of `a` by `c`.
pub open spec fn spec_arith(a: int, b: int, c: int) -> int {
    (a / c) * b + ((a % c) * b) / c
}

/// `a * b / c`, computed without overflowing on `a * b`.
pub fn arith(a: usize, b: usize, c: usize) -> (r: usize)
    requires
        c > 0,
        spec_arith(a as int, b as int, c as int) <= usize::MAX,
        (a as int % c as int) * b <= usize::MAX,
    ensures
        r == spec_arith(a as int, b as int, c as int),
        r == (a as int * b as int) / c as int,
{
    proof {
        lemma_arith(a as int, b as int, c as int);
    }
    (a / c) * b + ((a % c) * b) / c
}

/// The quotient and remainder of `a` by `c` give the quotient of `a * b`
/// by `c`.
pub proof fn lemma_arith(a: int, b: int, c: int)
    requires
        a >= 0,
        b >= 0,
        c > 0,
    ensures
        (a / c) * b + ((a % c) * b) / c == (a * b) / c,
{
    let q = a / c;
    let r = a % c;
    vstd::arithmetic::div_mod::lemma_fundamental_div_mod(a, c);
    assert(a * b == r * b + (q * b) * c) by (nonlinear_arith)
        requires
            a == c * q + r,
    ;
    vstd::arithmetic::div_mod::lemma_hoist_over_denominator(r * b, q * b, c as nat);
}

/// The number of ones in the binary representation of `x`.
pub open spec fn popcount(x: nat) -> nat
    decreases x,
{
    if x == 0 {
        0
    } else {
        x % 2 + popcount(x / 2)
    }
}

/// The numbers `C(n, j)` as computed by `arith` from `C(n, j - 1)`.
pub open spec fn chain(n: int, j: int) -> int
    decreases j,
{
    if j <= 0 {
        1
    } else {
        spec_arith(chain(n, j - 1), n - j + 1, j)
    }
}

/// One plus the numbers `chain(n, j)` for `1 <= j < nn`: the number of
/// x-sets of a level.
pub open spec fn total_sets(n: int, nn: int) -> int
    decreases nn,
{
    if nn <= 1 {
        1
    } else {
        total_sets(n, nn - 1) + chain(n, nn - 1)
    }
}

/// The number of ones in the binary representation of `x`.
pub(crate) fn usize_count_ones(x: usize) -> (r: u32)
    ensures
        r == popcount(x as nat),
{
    proof {
        vstd::arithmetic::power2::lemma2_to64();
        lemma_popcount_bound(x as nat, 64);
    }
    let mut y = x;
    let mut c: u32 = 0;
    while y > 0
        invariant
            c + popcount(y as nat) == popcount(x as nat),
            popcount(x as nat) <= 64,
        decreases y,
    {
        c = c + (y % 2) as u32;
        y = y / 2;
    }
    c
}

/// A number below `2^n` has at most `n` ones.
pub proof fn lemma_popcount_bound(x: nat, n: nat)
    requires
        x < pow2(n),
    ensures
        popcount(x) <= n,
    decreases n,
{
    if x > 0 {
        if n == 0 {
            vstd::arithmetic::power2::lemma2_to64();
        } else {
            vstd::arithmetic::power2::lemma_pow2_unfold(n);
            lemma_popcount_bound(x / 2, (n - 1) as nat);
        }
    }
}

/// `total_sets(n, n)` is `2^n - 1` for the numbers of vertices up to 7.
pub proof fn lemma_total_sets_full(n: int)
    requires
        1 <= n < 8,
    ensures
        total_sets(n, n) == pow2(n as nat) - 1,
        forall|j: int| 0 <= j < n ==> #[trigger] chain(n, j) <= 35,
        forall|j: int| 1 <= j <= n ==> #[trigger] total_sets(n, j) <= 127,
{
    vstd::arithmetic::power2::lemma2_to64();
    if n == 1 {
        assert(chain(1, 0) == 1);
        assert(total_sets(1, 1) == 1);
        assert forall|j: int| 0 <= j < 1 implies #[trigger] chain(1, j) <= 35 by {
            if j == 0 {}
        }
        assert forall|j: int| 1 <= j <= 1 implies #[trigger] total_sets(1, j) <= 127 by {
            if j == 1 {}
        }
    } else if n == 2 {
        assert(chain(2, 0) == 1);
        assert(total_sets(2, 1) == 1);
        assert(spec_arith(1, 2, 1) == 2) by (nonlinear_arith);
        assert(chain(2, 1) == 2);
        assert(total_sets(2, 2) == 3);
        assert forall|j: int| 0 <= j < 2 implies #[trigger] chain(2, j) <= 35 by {
            if j == 0 {} else if j == 1 {}
        }
        assert forall|j: int| 1 <= j <= 2 implies #[trigger] total_sets(2, j) <= 127 by {
            if j == 1 {} else if j == 2 {}
        }
    } else if n == 3 {
        assert(chain(3, 0) == 1);
        assert(total_sets(3, 1) == 1);
        assert(spec_arith(1, 3, 1) == 3) by (nonlinear_arith);
        assert(chain(3, 1) == 3);
        assert(spec_arith(3, 2, 2) == 3) by (nonlinear_arith);
        assert(chain(3, 2) == 3);
        assert(total_sets(3, 2) == 4);
        assert(total_sets(3, 3) == 7);
        assert forall|j: int| 0 <= j < 3 implies #[trigger] chain(3, j) <= 35 by {
            if j == 0 {} else if j == 1 {} else if j == 2 {}
        }
        assert forall|j: int| 1 <= j <= 3 implies #[trigger] total_sets(3, j) <= 127 by {
            if j == 1 {} else if j == 2 {} else if j == 3 {}
        }
    } else if n == 4 {
        assert(chain(4, 0) == 1);
        assert(total_sets(4, 1) == 1);
        assert(spec_arith(1, 4, 1) == 4) by (nonlinear_arith);
        assert(chain(4, 1) == 4);
        assert(spec_arith(4, 3, 2) == 6) by (nonlinear_arith);
        assert(chain(4, 2) == 6);
        assert(spec_arith(6, 2, 3) == 4) by (nonlinear_arith);
        assert(chain(4, 3) == 4);
        assert(total_sets(4, 2) == 5);
        assert(total_sets(4, 3) == 11);
        assert(total_sets(4, 4) == 15);
        assert forall|j: int| 0 <= j < 4 implies #[trigger] chain(4, j) <= 35 by {
            if j == 0 {} else if j == 1 {} else if j == 2 {} else if j == 3 {}
        }
        assert forall|j: int| 1 <= j <= 4 implies #[trigger] total_sets(4, j) <= 127 by {
            if j == 1 {} else if j == 2 {} else if j == 3 {} else if j == 4 {}
        }
    } else if n == 5 {
        assert(chain(5, 0) == 1);
        assert(total_sets(5, 1) == 1);
        assert(spec_arith(1, 5, 1) == 5) by (nonlinear_arith);
        assert(chain(5, 1) == 5);
        assert(spec_arith(5, 4, 2) == 10) by (nonlinear_arith);
        assert(chain(5, 2) == 10);
        assert(spec_arith(10, 3, 3) == 10) by (nonlinear_arith);
        assert(chain(5, 3) == 10);
        assert(spec_arith(10, 2, 4) == 5) by (nonlinear_arith);
        assert(chain(5, 4) == 5);
        assert(total_sets(5, 2) == 6);
        assert(total_sets(5, 3) == 16);
        assert(total_sets(5, 4) == 26);
        assert(total_sets(5, 5) == 31);
        assert forall|j: int| 0 <= j < 5 implies #[trigger] chain(5, j) <= 35 by {
            if j == 0 {} else if j == 1 {} else if j == 2 {} else if j == 3 {} else if j == 4 {}
        }
        assert forall|j: int| 1 <= j <= 5 implies #[trigger] total_sets(5, j) <= 127 by {
            if j == 1 {} else if j == 2 {} else if j == 3 {} else if j == 4 {} else if j == 5 {}
        }
    } else if n == 6 {
        assert(chain(6, 0) == 1);
        assert(total_sets(6, 1) == 1);
        assert(spec_arith(1, 6, 1) == 6) by (nonlinear_arith);
        assert(chain(6, 1) == 6);
        assert(spec_arith(6, 5, 2) == 15) by (nonlinear_arith);
        assert(chain(6, 2) == 15);
        assert(spec_arith(15, 4, 3) == 20) by (nonlinear_arith);
        assert(chain(6, 3) == 20);
        assert(spec_arith(20, 3, 4) == 15) by (nonlinear_arith);
        assert(chain(6, 4) == 15);
        assert(spec_arith(15, 2, 5) == 6) by (nonlinear_arith);
        assert(chain(6, 5) == 6);
        assert(total_sets(6, 2) == 7);
        assert(total_sets(6, 3) == 22);
        assert(total_sets(6, 4) == 42);
        assert(total_sets(6, 5) == 57);
        assert(total_sets(6, 6) == 63);
        assert forall|j: int| 0 <= j < 6 implies #[trigger] chain(6, j) <= 35 by {
            if j == 0 {} else if j == 1 {} else if j == 2 {} else if j == 3 {} else if j == 4 {} else if j == 5 {}
        }
        assert forall|j: int| 1 <= j <= 6 implies #[trigger] total_sets(6, j) <= 127 by {
            if j == 1 {} else if j == 2 {} else if j == 3 {} else if j == 4 {} else if j == 5 {} else if j == 6 {}
        }
    } else if n == 7 {
        assert(chain(7, 0) == 1);
        assert(total_sets(7, 1) == 1);
        assert(spec_arith(1, 7, 1) == 7) by (nonlinear_arith);
        assert(chain(7, 1) == 7);
        assert(spec_arith(7, 6, 2) == 21) by (nonlinear_arith);
        assert(chain(7, 2) == 21);
        assert(spec_arith(21, 5, 3) == 35) by (nonlinear_arith);
        assert(chain(7, 3) == 35);
        assert(spec_arith(35, 4, 4) == 35) by (nonlinear_arith);
        assert(chain(7, 4) == 35);
        assert(spec_arith(35, 3, 5) == 21) by (nonlinear_arith);
        assert(chain(7, 5) == 21);
        assert(spec_arith(21, 2, 6) == 7) by (nonlinear_arith);
        assert(chain(7, 6) == 7);
        assert(total_sets(7, 2) == 8);
        assert(total_sets(7, 3) == 29);
        assert(total_sets(7, 4) == 64);
        assert(total_sets(7, 5) == 99);
        assert(total_sets(7, 6) == 120);
        assert(total_sets(7, 7) == 127);
        assert forall|j: int| 0 <= j < 7 implies #[trigger] chain(7, j) <= 35 by {
            if j == 0 {} else if j == 1 {} else if j == 2 {} else if j == 3 {} else if j == 4 {} else if j == 5 {} else if j == 6 {}
        }
        assert forall|j: int| 1 <= j <= 7 implies #[trigger] total_sets(7, j) <= 127 by {
            if j == 1 {} else if j == 2 {} else if j == 3 {} else if j == 4 {} else if j == 5 {} else if j == 6 {} else if j == 7 {}
        }
    }
}

/// Pairs in increasing lexicographic order.
pub open spec fn pair_le(a: (usize, usize), b: (usize, usize)) -> bool {
    a.0 < b.0 || (a.0 == b.0 && a.1 <= b.1)
}

/// `slice::sort` on pairs of integers: the same pairs, in increasing
/// lexicographic order.
#[verifier::external_body]
pub(crate) fn sort_pairs(v: &mut Vec<(usize, usize)>)
    ensures
        final(v)@.len() == old(v)@.len(),
        final(v)@.to_multiset() == old(v)@.to_multiset(),
        forall|i: int, j: int| 0 <= i < j < final(v)@.len() ==> pair_le(#[trigger] final(v)@[i], #[trigger] final(v)@[j]),
{
    v.sort()
}

/// The starting lower bound on the extension degree of level `n`: 0 for
/// the first level, else the larger of `dmax` and the average degree
/// rounded up.
pub open spec fn start_xlb(n: int, edge_count: int, dmax: int) -> int {
    if n == 1 {
        0
    } else if dmax > (2 * edge_count + n - 2) / (n - 1) {
        dmax
    } else {
        (2 * edge_count + n - 2) / (n - 1)
    }
}

/// The starting upper bound on the extension degree of level `n`.
pub open spec fn start_xub(n: int) -> int {
    if n < MAXN {
        n
    } else {
        MAXN as int
    }
}

/// The degree and number of edges reached from degree `d` and `m` edges at
/// level `nn`, each further level raising the degree to the average degree
/// rounded up and adding it to the edges.
pub open spec fn grow(maxn: int, nn: int, d: int, m: int) -> (int, int)
    decreases maxn - nn,
{
    if nn >= maxn || nn < 2 {
        (d, m)
    } else {
        let q = (2 * m + nn - 2) / (nn - 1);
        let d2 = if d < q {
            q
        } else {
            d
        };
        grow(maxn, nn + 1, d2, m + d2)
    }
}

/// Extending level `n` by degree `xc` leads past the degree or edge limits.
pub open spec fn too_big(env: Env, n: int, edge_count: int, xc: int) -> bool {
    let (d, m) = grow(env.maxn as int, n + 1, xc, edge_count + xc);
    d > env.maxdeg || m > env.maxe
}

/// The upper bound found scanning down from `xc` to `lo`: one below each
/// degree that is too big, until one that is not.
pub open spec fn scan_down(env: Env, n: int, edge_count: int, lo: int, xc: int, xub: int) -> int
    decreases xc - lo + 1,
{
    if xc < lo || xc < 0 {
        xub
    } else if too_big(env, n, edge_count, xc) {
        scan_down(env, n, edge_count, lo, xc - 1, xc - 1)
    } else {
        xub
    }
}

/// The computation of `grow` fits in a `usize` from degree `xc`.
pub open spec fn grow_fits(env: Env, n: int, edge_count: int, xc: int) -> bool {
    let (d, m) = grow(env.maxn as int, n + 1, xc, edge_count + xc);
    2 * m + env.maxn <= usize::MAX
}

/// Every degree that the downward scan computes with fits in a `usize`.
pub open spec fn scan_down_fits(env: Env, n: int, edge_count: int, lo: int, xc: int) -> bool
    decreases xc - lo + 1,
{
    xc < lo || xc < 0 || (grow_fits(env, n, edge_count, xc) && (too_big(env, n, edge_count, xc)
        ==> scan_down_fits(env, n, edge_count, lo, xc - 1)))
}

/// `m` plus `count` times `step`.
pub open spec fn add_times(m: int, count: int, step: int) -> int
    decreases count,
{
    if count <= 0 {
        m
    } else {
        add_times(m + step, count - 1, step)
    }
}

/// The number of edges reached from degree `xc` when every further level
/// adds the smaller of `n` and `maxdeg`.
pub open spec fn edges_up(env: Env, n: int, edge_count: int, xc: int) -> int {
    add_times(
        edge_count + xc,
        env.maxn - (n + 1),
        if n < env.maxdeg {
            n
        } else {
            env.maxdeg as int
        },
    )
}

/// The lower bound found scanning up from `xc` to `hi`: one above each
/// degree that stays below the least number of edges, until one that does
/// not.
pub open spec fn scan_up(env: Env, n: int, edge_count: int, hi: int, xc: int, xlb: int) -> int
    decreases hi - xc + 1,
{
    if xc > hi {
        xlb
    } else if edges_up(env, n, edge_count, xc) < env.mine {
        scan_up(env, n, edge_count, hi, xc + 1, xc + 1)
    } else {
        xlb
    }
}

/// Every degree that the upward scan computes with fits in a `usize`.
pub open spec fn scan_up_fits(env: Env, n: int, edge_count: int, hi: int, xc: int) -> bool
    decreases hi - xc + 1,
{
    xc > hi || (edges_up(env, n, edge_count, xc) <= usize::MAX && (edges_up(env, n, edge_count, xc)
        < env.mine ==> scan_up_fits(env, n, edge_count, hi, xc + 1)))
}

/// The downward scan from `hi` finds the largest degree in `lo ..= hi`
/// that is not too big, or `lo - 1` when every one is.
pub proof fn lemma_scan_down_largest(env: Env, n: int, edge_count: int, lo: int, hi: int)
    requires
        0 <= lo,
        lo - 1 <= hi,
    ensures
        ({
            let r = scan_down(env, n, edge_count, lo, hi, hi);
            &&& lo - 1 <= r <= hi
            &&& forall|x: int| r < x <= hi ==> #[trigger] too_big(env, n, edge_count, x)
            &&& r >= lo ==> !too_big(env, n, edge_count, r)
        }),
    decreases hi - lo + 1,
{
    if hi >= lo && too_big(env, n, edge_count, hi) {
        lemma_scan_down_largest(env, n, edge_count, lo, hi - 1);
    }
}

/// The upward scan from `lo` finds the least degree in `lo ..= hi` whose
/// edges reach the least number of edges, or `hi + 1` when none does.
pub proof fn lemma_scan_up_least(env: Env, n: int, edge_count: int, lo: int, hi: int)
    requires
        lo <= hi + 1,
    ensures
        ({
            let r = scan_up(env, n, edge_count, hi, lo, lo);
            &&& lo <= r <= hi + 1
            &&& forall|x: int| lo <= x < r ==> #[trigger] edges_up(env, n, edge_count, x) < env.mine
            &&& r <= hi ==> edges_up(env, n, edge_count, r) >= env.mine
        }),
    decreases hi - lo + 1,
{
    if lo <= hi && edges_up(env, n, edge_count, lo) < env.mine {
        lemma_scan_up_least(env, n, edge_count, lo + 1, hi);
    }
}

/// The upper bound on the extension degree of level `n`.
pub open spec fn final_xub(env: Env, n: int, edge_count: int, dmax: int) -> int {
    scan_down(env, n, edge_count, start_xlb(n, edge_count, dmax), start_xub(n), start_xub(n))
}

/// The lower bound on the extension degree of level `n`.
pub open spec fn final_xlb(env: Env, n: int, edge_count: int, dmax: int) -> int {
    let xlb = start_xlb(n, edge_count, dmax);
    if edge_count + xlb < env.mine {
        scan_up(env, n, edge_count, final_xub(env, n, edge_count, dmax), xlb, xlb)
    } else {
        xlb
    }
}

/// The degree and number of edges reached from a new vertex of degree
/// `xc` at level `n` with `edge_count` edges, each later level raising the
/// degree to the average degree rounded up and adding it to the edges.
pub open spec fn grown(env: Env, n: int, edge_count: int, xc: int) -> (int, int) {
    grow(env.maxn as int, n + 1, xc, edge_count + xc)
}

/// `add_times` with a step that is not negative never goes below its
/// start.
proof fn lemma_add_times_ge(m: int, count: int, step: int)
    requires
        step >= 0,
    ensures
        add_times(m, count, step) >= m,
    decreases count,
{
    if count > 0 {
        lemma_add_times_ge(m + step, count - 1, step);
    }
}

/// The starting lower bound on the new vertex's degree at level `n > 1`
/// with `edge_count` edges and largest degree `dmax`: the larger of `dmax`
/// and the least `k` with `k * (n - 1) >= 2 * edge_count` (the degree sum
/// spread over `n - 1` vertices, rounded up); 0 at level 1.
pub proof fn lemma_start_xlb(n: int, edge_count: int, dmax: int)
    requires
        n >= 1,
        edge_count >= 0,
        dmax >= 0,
    ensures
        n == 1 ==> start_xlb(n, edge_count, dmax) == 0,
        n > 1 ==> {
            let r = start_xlb(n, edge_count, dmax);
            &&& r >= dmax
            &&& r * (n - 1) >= 2 * edge_count
            &&& r == dmax || (r - 1) * (n - 1) < 2 * edge_count
        },
{
    if n > 1 {
        let q = (2 * edge_count + n - 2) / (n - 1);
        assert(q * (n - 1) >= 2 * edge_count && (q - 1) * (n - 1) < 2 * edge_count) by (nonlinear_arith)
            requires
                n > 1,
                edge_count >= 0,
                q == (2 * edge_count + n - 2) / (n - 1),
        ;
        let r = start_xlb(n, edge_count, dmax);
        if r == dmax {
            assert(r * (n - 1) >= q * (n - 1)) by (nonlinear_arith)
                requires
                    r >= q,
                    n > 1,
            ;
        }
    }
}

/// `ceil(a / b)` for `b > 0` and `a >= 0`, written as the least `k >= 0`
/// with `k * b >= a`.
pub open spec fn is_ceil_div(k: int, a: int, b: int) -> bool {
    k >= 0 && k * b >= a && (k == 0 || (k - 1) * b < a)
}

/// One level of `grow`: at level `nn` (from 2 up to below `maxn`) the
/// degree is raised to the degree sum `2 * m` spread over `nn - 1`
/// vertices, rounded up, if that is larger, and the edges grow by the
/// degree; at `maxn` and beyond nothing changes.
pub proof fn lemma_grow_level(maxn: int, nn: int, d: int, m: int)
    requires
        nn >= 2,
        m >= 0,
    ensures
        nn >= maxn ==> grow(maxn, nn, d, m) == (d, m),
        nn < maxn ==> exists|q: int|
            #[trigger] is_ceil_div(q, 2 * m, nn - 1) && grow(maxn, nn, d, m) == grow(
                maxn,
                nn + 1,
                if d < q {
                    q
                } else {
                    d
                },
                m + if d < q {
                    q
                } else {
                    d
                },
            ),
{
    if nn < maxn {
        let q = (2 * m + nn - 2) / (nn - 1);
        assert(q >= 0 && q * (nn - 1) >= 2 * m && (q == 0 || (q - 1) * (nn - 1) < 2 * m)) by (nonlinear_arith)
            requires
                nn >= 2,
                m >= 0,
                q == (2 * m + nn - 2) / (nn - 1),
        ;
        assert(is_ceil_div(q, 2 * m, nn - 1));
    }
}

/// `add_times(m, count, step)` is `m + count * step` for a count that is
/// not negative.
proof fn lemma_add_times_closed(m: int, count: int, step: int)
    requires
        count >= 0,
    ensures
        add_times(m, count, step) == m + count * step,
    decreases count,
{
    if count > 0 {
        lemma_add_times_closed(m + step, count - 1, step);
        assert(m + step + (count - 1) * step == m + count * step) by (nonlinear_arith);
    } else {
        assert(count * step == 0) by (nonlinear_arith)
            requires
                count == 0,
        ;
    }
}

/// The edges reached from a new vertex of degree `xc` at level `n`, when
/// each of the `maxn - n - 1` later levels adds the smaller of `n` and
/// `maxdeg`: `edge_count + xc + (maxn - n - 1) * min(n, maxdeg)`.
pub proof fn lemma_edges_up(env: Env, n: int, edge_count: int, xc: int)
    requires
        n + 1 <= env.maxn,
    ensures
        edges_up(env, n, edge_count, xc) == edge_count + xc + (env.maxn - n - 1) * (if n < env.maxdeg {
            n
        } else {
            env.maxdeg as int
        }),
{
    lemma_add_times_closed(
        edge_count + xc,
        env.maxn - (n + 1),
        if n < env.maxdeg {
            n
        } else {
            env.maxdeg as int
        },
    );
}

/// The upper bound that `xbnds` finds is the largest degree, from the
/// starting lower bound up to `min(n, MAXN)`, whose growth stays within
/// both the largest degree `maxdeg` and the largest number of edges
/// `maxe`; every larger degree up to that limit breaks one of them. When
/// none stays within, it is one below the starting lower bound.
pub proof fn lemma_final_xub_largest_within_limits(env: Env, n: int, edge_count: int, dmax: int)
    requires
        n >= 1,
        edge_count >= 0,
        dmax >= 0,
    ensures
        ({
            let lo = start_xlb(n, edge_count, dmax);
            let hi = start_xub(n);
            let r = final_xub(env, n, edge_count, dmax);
            &&& hi <= n && hi <= MAXN && (hi == n || hi == MAXN)
            &&& lo <= hi + 1 ==> lo - 1 <= r <= hi
            &&& lo > hi + 1 ==> r == hi
            &&& forall|xc: int|
                r < xc <= hi ==> #[trigger] grown(env, n, edge_count, xc).0 > env.maxdeg || grown(
                    env,
                    n,
                    edge_count,
                    xc,
                ).1 > env.maxe
            &&& lo <= r ==> grown(env, n, edge_count, r).0 <= env.maxdeg && grown(env, n, edge_count, r).1
                <= env.maxe
        }),
{
    let lo = start_xlb(n, edge_count, dmax);
    let hi = start_xub(n);
    assert(lo >= 0) by {
        if n > 1 {
            assert((2 * edge_count + n - 2) / (n - 1) >= 0) by (nonlinear_arith)
                requires
                    n > 1,
                    edge_count >= 0,
            ;
        }
    }
    if lo <= hi + 1 {
        lemma_scan_down_largest(env, n, edge_count, lo, hi);
        let r = final_xub(env, n, edge_count, dmax);
        assert forall|xc: int| r < xc <= hi implies #[trigger] grown(env, n, edge_count, xc).0 > env.maxdeg
            || grown(env, n, edge_count, xc).1 > env.maxe by {
            assert(too_big(env, n, edge_count, xc));
        }
    }
}

/// The lower bound that `xbnds` finds is the least degree, from the
/// starting lower bound on, whose edges (each later level adding the
/// smaller of `n` and `maxdeg`) reach the least number of edges `mine`:
/// every smaller degree from the starting bound falls short of `mine`, and
/// the bound itself reaches it unless it is past the upper bound.
pub proof fn lemma_final_xlb_least_reaching_mine(env: Env, n: int, edge_count: int, dmax: int)
    requires
        n >= 1,
        edge_count >= 0,
        dmax >= 0,
    ensures
        ({
            let lo = start_xlb(n, edge_count, dmax);
            let hi = final_xub(env, n, edge_count, dmax);
            let r = final_xlb(env, n, edge_count, dmax);
            &&& lo <= r
            &&& lo <= hi + 1 ==> r <= hi + 1
            &&& forall|xc: int| lo <= xc < r ==> #[trigger] edges_up(env, n, edge_count, xc) < env.mine
            &&& r <= hi ==> edges_up(env, n, edge_count, r) >= env.mine
        }),
{
    let lo = start_xlb(n, edge_count, dmax);
    let hi = final_xub(env, n, edge_count, dmax);
    if edge_count + lo < env.mine {
        if lo <= hi + 1 {
            lemma_scan_up_least(env, n, edge_count, lo, hi);
        }
    } else {
        lemma_add_times_ge(
            edge_count + lo,
            env.maxn - (n + 1),
            if n < env.maxdeg {
                n
            } else {
                env.maxdeg as int
            },
        );
    }
}

/// `grow` only adds edges, and the degree stays below the edges.
pub proof fn lemma_grow(maxn: int, nn: int, d: int, m: int)
    requires
        0 <= d <= m,
    ensures
        m <= grow(maxn, nn, d, m).1,
        d <= grow(maxn, nn, d, m).0 <= grow(maxn, nn, d, m).1,
    decreases maxn - nn,
{
    if nn < maxn && nn >= 2 {
        let q = (2 * m + nn - 2) / (nn - 1);
        let d2 = if d < q {
            q
        } else {
            d
        };
        assert(q >= 0) by (nonlinear_arith)
            requires
                m >= 0,
                nn >= 2,
                q == (2 * m + nn - 2) / (nn - 1),
        ;
        lemma_grow(maxn, nn + 1, d2, m + d2);
    }
}

/// One step of `grow`.
pub proof fn lemma_grow_step(maxn: int, nn: int, d: int, m: int)
    requires
        2 <= nn < maxn,
    ensures
        grow(maxn, nn, d, m) == grow(
            maxn,
            nn + 1,
            if d < (2 * m + nn - 2) / (nn - 1) {
                (2 * m + nn - 2) / (nn - 1)
            } else {
                d
            },
            m + if d < (2 * m + nn - 2) / (nn - 1) {
                (2 * m + nn - 2) / (nn - 1)
            } else {
                d
            },
        ),
{
}

/// `add_times` only adds nonnegative steps.
pub proof fn lemma_add_times(m: int, count: int, step: int)
    requires
        step >= 0,
    ensures
        m <= add_times(m, count, step),
        count > 0 ==> m + step <= add_times(m, count, step),
    decreases count,
{
    if count > 0 {
        lemma_add_times(m + step, count - 1, step);
    }
}

/// A mask of `c` ones has `c` ones.
pub proof fn lemma_popcount_mask(c: nat)
    ensures
        pow2(c) >= 1,
        popcount((pow2(c) - 1) as nat) == c,
    decreases c,
{
    vstd::arithmetic::power2::lemma_pow2_pos(c);
    if c > 0 {
        vstd::arithmetic::power2::lemma_pow2_unfold(c);
        lemma_popcount_mask((c - 1) as nat);
        let p = pow2((c - 1) as nat) as int;
        let x = 2 * p - 1;
        vstd::arithmetic::div_mod::lemma_fundamental_div_mod_converse(x, 2, p - 1, 1);
    } else {
        vstd::arithmetic::power2::lemma2_to64();
    }
}

/// `a` comes before `b` in the order of the x-sets: by cardinality, then by
/// set.
pub open spec fn card_set_lt(a: SetCard, b: SetCard) -> bool {
    a.card < b.card || (a.card == b.card && a.set < b.set)
}

/// `i` is the first index of `s` whose cardinality is at least `k`, or the
/// length of `s` when there is none.
pub open spec fn first_card_at_least(s: Seq<SetCard>, k: int, i: int) -> bool {
    &&& 0 <= i <= s.len()
    &&& (i < s.len() ==> s[i].card >= k)
    &&& forall|j: int| 0 <= j < i ==> #[trigger] s[j].card < k
}

/// The x-set tables of level `n` for degrees up to `maxdeg`: `x_set_card`
/// lists each set below `2^n` of at most `maxdeg` elements once, with its
/// number of elements, in increasing order of (cardinality, set); `xinv`
/// maps each set below `2^n` to its index, or to `None` when it has more
/// than `maxdeg` elements; `xstart[k]` is the first index of cardinality at
/// least `k`, for `k` up to one more than the largest cardinality, and 0
/// beyond.
pub open spec fn xsets_made(d: LevelData, n: nat, maxdeg: nat) -> bool {
    let s = d.x_set_card@;
    &&& s.len() > 0
    &&& forall|t: int|
        0 <= t < s.len() ==> (#[trigger] s[t]).set < pow2(n) && s[t].card == popcount(s[t].set as nat)
            && s[t].card <= maxdeg
    &&& forall|i: int, j: int| 0 <= i < j < s.len() ==> card_set_lt(#[trigger] s[i], #[trigger] s[j])
    &&& d.xinv@.len() == pow2(n)
    &&& forall|x: int|
        0 <= x < pow2(n) ==> match #[trigger] d.xinv@[x] {
            Some(t) => t < s.len() && s[t as int].set == x,
            None => popcount(x as nat) > maxdeg,
        }
    &&& d.xstart@.len() == MAXN + 1
    &&& forall|k: int|
        0 <= k <= s.last().card + 1 ==> first_card_at_least(s, k, #[trigger] d.xstart@[k] as int)
    &&& forall|k: int| s.last().card + 1 < k <= MAXN ==> #[trigger] d.xstart@[k] == 0
}

/// None of the first `i` x-sets is `x`.
pub open spec fn set_absent_below(s: Seq<SetCard>, i: int, x: int) -> bool {
    forall|t: int| 0 <= t < i ==> #[trigger] s[t].set != x
}

/// Some pair of `pairs` has the set `x`.
pub open spec fn pairs_have(pairs: Seq<(usize, usize)>, x: int) -> bool {
    exists|k: int| 0 <= k < pairs.len() && pairs[k].1 == x
}

/// The parts of the x-set tables of level `n` made before `xstart`.
pub open spec fn xsets_tables(d: LevelData, n: nat, maxdeg: nat) -> bool {
    let s = d.x_set_card@;
    &&& s.len() > 0
    &&& forall|t: int|
        0 <= t < s.len() ==> (#[trigger] s[t]).set < pow2(n) && s[t].card == popcount(s[t].set as nat)
            && s[t].card <= maxdeg
    &&& forall|i: int, j: int| 0 <= i < j < s.len() ==> card_set_lt(#[trigger] s[i], #[trigger] s[j])
    &&& d.xinv@.len() == pow2(n)
    &&& forall|x: int|
        0 <= x < pow2(n) ==> match #[trigger] d.xinv@[x] {
            Some(t) => t < s.len() && s[t as int].set == x,
            None => popcount(x as nat) > maxdeg,
        }
}

/// In the x-set tables, the cardinality rises by at most one from one
/// x-set to the next: every cardinality up to the largest has its sets.
pub proof fn lemma_no_gap(d: LevelData, n: nat, maxdeg: nat, i: int)
    requires
        xsets_tables(d, n, maxdeg),
        1 <= i < d.x_set_card@.len(),
    ensures
        d.x_set_card@[i].card <= d.x_set_card@[i - 1].card + 1,
{
    let s = d.x_set_card@;
    let c = s[i - 1].card + 1;
    if s[i].card > c {
        assert(c <= n) by {
            lemma_popcount_bound(s[i].set as nat, n);
        }
        lemma_popcount_mask(c as nat);
        let x = (pow2(c as nat) - 1) as int;
        assert(x < pow2(n)) by {
            if c < n {
                vstd::arithmetic::power2::lemma_pow2_strictly_increases(c as nat, n);
            }
        }
        assert(popcount(x as nat) <= maxdeg);
        let t = match d.xinv@[x] {
            Some(t) => t as int,
            None => 0,
        };
        assert(d.xinv@[x] is Some);
        assert(s[t].set == x);
        assert(s[t].card == c);
        if t < i {
            if t < i - 1 {
                assert(card_set_lt(s[t], s[i - 1]));
            }
        } else {
            if t > i {
                assert(card_set_lt(s[i], s[t]));
            }
        }
    }
}

/// An x-set with its cardinality.
#[derive(PartialEq, Eq, PartialOrd, Ord, Debug)]
pub struct SetCard {
    /// cardinalities of all x-sets
    pub card: usize,
    /// the x-set
    pub set: usize,
}

/// The data of one level.
#[derive(Debug)]
pub struct LevelData {
    /// values used for xlb,xub calculation
    pub edge_count: usize,
    pub dmax: usize,
    /// extension degree lower bound
    pub xlb: usize,
    /// extension degree upper bound
    pub xub: usize,
    /// work purposes for orbit calculation
    pub lo: usize,
    pub hi: usize,
    /// index into the x-sets for each cardinality
    pub xstart: Vec<usize>,
    /// array of all x-sets in card order, with their cardinalities
    pub x_set_card: Vec<SetCard>,
    /// map from x-set to index in the x-sets
    pub xinv: Vec<Option<usize>>,
    /// min orbit representative
    pub xorb: Vec<usize>,
    /// candidate x-sets
    pub xx: Vec<usize>,
    /// number of x-sets in xx[]
    pub xlim: usize,
}

impl LevelData {
    /// Every field is zero or empty, but `xlb`, and `xstart` holds
    /// `MAXN + 1` zeros.
    pub open spec fn blank(self, xlb: usize) -> bool {
        &&& self.xlb == xlb
        &&& self.xub == 0
        &&& self.xstart@ == Seq::new((MAXN + 1) as nat, |_k: int| 0usize)
        &&& self.xorb@ == Seq::<usize>::empty()
        &&& self.x_set_card@ == Seq::<SetCard>::empty()
        &&& self.edge_count == 0 && self.dmax == 0 && self.lo == 0 && self.hi == 0 && self.xlim == 0
        &&& self.xinv@ == Seq::<Option<usize>>::empty()
        &&& self.xx@ == Seq::<usize>::empty()
    }

    /// The scalar fields but `xlb` are zero.
    pub open spec fn zero_counters(self) -> bool {
        self.edge_count == 0 && self.dmax == 0 && self.xub == 0 && self.lo == 0 && self.hi == 0 && self.xlim == 0
    }

    /// The scalar fields are zero but `xlb`, which is `usize::MAX`, and
    /// `xstart` has `MAXN + 1` entries.
    pub open spec fn fresh(self) -> bool {
        &&& self.xlb == usize::MAX
        &&& self.zero_counters()
        &&& self.xstart@.len() == MAXN + 1
    }

    /// The cardinality of x-set `i`.
    pub fn xcard(&self, i: usize) -> (r: usize)
        requires
            i < self.x_set_card@.len(),
        ensures
            r == self.x_set_card@[i as int].card,
    {
        self.x_set_card[i].card
    }

    /// The x-set `i`.
    pub fn xset(&self, i: usize) -> (r: usize)
        requires
            i < self.x_set_card@.len(),
        ensures
            r == self.x_set_card@[i as int].set,
    {
        self.x_set_card[i].set
    }

    /// Level data with every field zero or empty, but `xlb`, and `xstart`
    /// holding `MAXN + 1` zeros.
    pub fn blank_with(xlb: usize) -> (r: Self)
        ensures
            r.blank(xlb),
    {
        let mut xstart: Vec<usize> = Vec::new();
        let mut i: usize = 0;
        while i < MAXN + 1
            invariant
                i <= MAXN + 1,
                xstart@ == Seq::new(i as nat, |_k: int| 0usize),
            decreases MAXN + 1 - i,
        {
            xstart.push(0);
            i = i + 1;
            assert(xstart@ =~= Seq::new(i as nat, |_k: int| 0usize));
        }
        LevelData {
            edge_count: 0,
            dmax: 0,
            xlb,
            xub: 0,
            lo: 0,
            hi: 0,
            xstart,
            x_set_card: Vec::new(),
            xinv: Vec::new(),
            xorb: Vec::new(),
            xx: Vec::new(),
            xlim: 0,
        }
    }

    /// The level data of level `n` for degrees up to `maxdeg`: its x-set
    /// tables made, `xlb` at `usize::MAX`, every other field zero or empty.
    #[verifier::spinoff_prover]
    #[verifier::rlimit(80)]
    fn make_level(n: usize, maxdeg: usize) -> (d: Self)
        requires
            1 <= n < MAXN,
        ensures
            d.fresh(),
            d.xorb@ == Seq::<usize>::empty(),
            d.xx@ == Seq::<usize>::empty(),
            xsets_made(d, n as nat, maxdeg as nat),
    {
        let nn = if n < maxdeg {
            n
        } else {
            maxdeg
        };
        proof {
            lemma_total_sets_full(n as int);
        }
        let mut ncj: usize = 1;
        let mut nxsets: usize = 1;
        let mut j: usize = 1;
        while j <= nn
            invariant
                1 <= n < 8,
                nn <= n,
                1 <= j <= nn + 1,
                ncj <= 35,
                nxsets <= 35 * j,
                forall|t: int| 0 <= t < n ==> #[trigger] chain(n as int, t) <= 35,
                ncj == chain(n as int, j - 1),
            decreases nn + 1 - j,
        {
            assert((ncj as int % j as int) * (n - j + 1) <= 35 * 8) by (nonlinear_arith)
                requires
                    ncj <= 35,
                    1 <= j <= 7,
                    n <= 7,
                    j <= n,
            ;
            assert(spec_arith(ncj as int, (n - j + 1) as int, j as int) <= 35) by {
                if j < n {
                    assert(chain(n as int, j as int) <= 35);
                    assert(chain(n as int, j as int) == spec_arith(ncj as int, (n - j + 1) as int, j as int));
                } else {
                    assert(spec_arith(ncj as int, 1, j as int) <= ncj) by (nonlinear_arith)
                        requires
                            ncj >= 0,
                            j >= 1,
                    {
                        assert((ncj as int / j as int) * 1 <= ncj);
                        assert(((ncj as int % j as int) * 1) / (j as int) == 0);
                    }
                }
            }
            ncj = arith(ncj, n - j + 1, j);
            nxsets = nxsets + ncj;
            j = j + 1;
        }
        let mut d = Self::default();
        d.xlb = usize::MAX;
        proof {
            vstd::bits::lemma_usize_shl_is_mul(1, n);
            vstd::arithmetic::power2::lemma2_to64();
        }
        let tttn: usize = 1 << n;
        d.x_set_card = Vec::with_capacity(nxsets);
        let mut xinv: Vec<Option<usize>> = Vec::new();
        let mut x: usize = 0;
        while x < tttn
            invariant
                x <= tttn,
                xinv@.len() == x,
                forall|t: int| 0 <= t < x ==> #[trigger] xinv@[t] is None,
            decreases tttn - x,
        {
            xinv.push(None);
            x = x + 1;
        }
        d.xinv = xinv;
        d.xorb = Vec::with_capacity(nxsets);
        let ilast = if n == WORD_SIZE {
            usize::MAX
        } else {
            (1 << n) - 1
        };
        let mut pairs: Vec<(usize, usize)> = Vec::new();
        let mut i: usize = 0;
        loop
            invariant_except_break
                pairs@.len() <= i,
                forall|k: int| 0 <= k < pairs@.len() ==> (#[trigger] pairs@[k]).1 < i,
                forall|a: int, b: int| 0 <= a < b < pairs@.len() ==> (#[trigger] pairs@[a]).1 < (#[trigger] pairs@[b]).1,
                forall|y: int| 0 <= y < i && popcount(y as nat) <= maxdeg ==> #[trigger] pairs_have(pairs@, y),
            invariant
                ilast == pow2(n as nat) - 1,
                tttn == pow2(n as nat),
                n < 8,
                i <= ilast,
                forall|k: int|
                    0 <= k < pairs@.len() ==> (#[trigger] pairs@[k]).1 <= i && pairs@[k].0 == popcount(
                        pairs@[k].1 as nat,
                    ) && pairs@[k].0 <= maxdeg,
            ensures
                forall|k: int|
                    0 <= k < pairs@.len() ==> (#[trigger] pairs@[k]).1 < tttn && pairs@[k].0 == popcount(
                        pairs@[k].1 as nat,
                    ) && pairs@[k].0 <= maxdeg,
                forall|a: int, b: int| 0 <= a < b < pairs@.len() ==> (#[trigger] pairs@[a]).1 < (#[trigger] pairs@[b]).1,
                forall|y: int| 0 <= y < tttn && popcount(y as nat) <= maxdeg ==> #[trigger] pairs_have(pairs@, y),
            decreases ilast - i,
        {
            let h: usize = usize_count_ones(i) as usize;
            let ghost before = pairs@;
            if h <= maxdeg {
                pairs.push((h, i));
                assert(pairs_have(pairs@, i as int)) by {
                    assert(pairs@[pairs@.len() - 1].1 == i);
                }
            }
            assert forall|y: int| 0 <= y <= i && popcount(y as nat) <= maxdeg implies #[trigger] pairs_have(pairs@, y) by {
                if y < i {
                    assert(pairs_have(before, y));
                    let k = choose|k: int| 0 <= k < before.len() && before[k].1 == y;
                    assert(pairs@[k] == before[k]);
                }
            }
            if i == ilast {
                break;
            }
            i = i + 1;
        }
        let ghost unsorted = pairs@;
        sort_pairs(&mut pairs);
        proof {
            broadcast use vstd::seq_lib::group_to_multiset_ensures;

            assert(unsorted.no_duplicates()) by {
                assert forall|a: int, b: int| 0 <= a < unsorted.len() && 0 <= b < unsorted.len() && a != b implies unsorted[a] != unsorted[b] by {
                    if a < b {
                        assert(unsorted[a].1 < unsorted[b].1);
                    } else {
                        assert(unsorted[b].1 < unsorted[a].1);
                    }
                }
            }
            unsorted.lemma_multiset_has_no_duplicates();
            pairs@.lemma_multiset_has_no_duplicates_conv();
            assert forall|k: int| 0 <= k < pairs@.len() implies unsorted.contains(#[trigger] pairs@[k]) by {
                assert(pairs@.contains(pairs@[k]));
                assert(pairs@.to_multiset().count(pairs@[k]) > 0);
                assert(unsorted.to_multiset().count(pairs@[k]) > 0);
            }
            assert forall|k: int| 0 <= k < unsorted.len() implies pairs@.contains(#[trigger] unsorted[k]) by {
                assert(unsorted.contains(unsorted[k]));
                assert(unsorted.to_multiset().count(unsorted[k]) > 0);
                assert(pairs@.to_multiset().count(unsorted[k]) > 0);
            }
        }
        let ghost sorted = pairs@;
        let mut k: usize = 0;
        while k < pairs.len()
            invariant
                d.fresh(),
                d.xorb@ == Seq::<usize>::empty(),
                d.xx@ == Seq::<usize>::empty(),
                d.xinv@.len() == tttn,
                forall|t: int| 0 <= t < tttn ==> #[trigger] d.xinv@[t] is None,
                d.xstart@ == Seq::new((MAXN + 1) as nat, |_k: int| 0usize),
                pairs@ == sorted,
                k <= pairs@.len(),
                d.x_set_card@.len() == k,
                forall|t: int|
                    0 <= t < k ==> #[trigger] d.x_set_card@[t].card == pairs@[t].0 && d.x_set_card@[t].set
                        == pairs@[t].1,
            decreases pairs@.len() - k,
        {
            let (card, set) = pairs[k];
            let ghost xs0 = d.x_set_card@;
            d.x_set_card.push(SetCard { card, set });
            assert(d.x_set_card@ == xs0.push(SetCard { card, set }));
            assert(card == pairs@[k as int].0 && set == pairs@[k as int].1);
            k = k + 1;
        }
        let ghost xs = d.x_set_card@;
        assert(xs.len() == sorted.len());
        proof {
            assert forall|t: int| 0 <= t < xs.len() implies (#[trigger] xs[t]).set < pow2(n as nat) && xs[t].card
                == popcount(xs[t].set as nat) && xs[t].card <= maxdeg by {
                assert(d.x_set_card@[t].card == pairs@[t].0 && d.x_set_card@[t].set == pairs@[t].1);
                assert(xs[t].card == sorted[t].0 && xs[t].set == sorted[t].1);
                assert(unsorted.contains(sorted[t]));
                let u = choose|u: int| 0 <= u < unsorted.len() && unsorted[u] == sorted[t];
                assert(unsorted[u].1 < tttn && unsorted[u].0 == popcount(unsorted[u].1 as nat) && unsorted[u].0 <= maxdeg);
            }
            assert forall|i: int, j: int| 0 <= i < j < xs.len() implies card_set_lt(#[trigger] xs[i], #[trigger] xs[j]) by {
                assert(pair_le(sorted[i], sorted[j]));
                assert(sorted[i] != sorted[j]);
            }
            assert forall|y: int| 0 <= y < tttn && #[trigger] popcount(y as nat) <= maxdeg implies exists|t: int|
                0 <= t < xs.len() && #[trigger] xs[t].set == y by {
                assert(pairs_have(unsorted, y));
                let u = choose|u: int| 0 <= u < unsorted.len() && unsorted[u].1 == y;
                assert(sorted.contains(unsorted[u]));
                let t = choose|t: int| 0 <= t < sorted.len() && sorted[t] == unsorted[u];
                assert(xs[t].set == y);
            }
        }
        let mut i: usize = 0;
        while i < d.x_set_card.len()
            invariant
                d.fresh(),
                d.xorb@ == Seq::<usize>::empty(),
                d.xx@ == Seq::<usize>::empty(),
                d.x_set_card@ == xs,
                d.xinv@.len() == tttn,
                d.xstart@ == Seq::new((MAXN + 1) as nat, |_k: int| 0usize),
                tttn == pow2(n as nat),
                i <= xs.len(),
                forall|t: int| 0 <= t < xs.len() ==> (#[trigger] xs[t]).set < tttn,
                forall|a: int, b: int| 0 <= a < b < xs.len() ==> card_set_lt(#[trigger] xs[a], #[trigger] xs[b]),
                forall|x: int|
                    0 <= x < tttn ==> match #[trigger] d.xinv@[x] {
                        Some(t) => t < i && xs[t as int].set == x,
                        None => set_absent_below(xs, i as int, x),
                    },
            decreases xs.len() - i,
        {
            let set = d.x_set_card[i].set;
            d.xinv.set(set, Some(i));
            proof {
                assert forall|x: int| 0 <= x < tttn implies match #[trigger] d.xinv@[x] {
                    Some(t) => t < i + 1 && d.x_set_card@[t as int].set == x,
                    None => set_absent_below(xs, i + 1, x),
                } by {
                    if x != set {
                    } else {
                        assert(d.xinv@[x] == Some(i));
                    }
                }
            }
            i = i + 1;
        }
        proof {
            assert forall|x: int| 0 <= x < pow2(n as nat) implies match #[trigger] d.xinv@[x] {
                Some(t) => t < xs.len() && xs[t as int].set == x,
                None => popcount(x as nat) > maxdeg,
            } by {
                if d.xinv@[x] is None && popcount(x as nat) <= maxdeg {
                    let t = choose|t: int| 0 <= t < xs.len() && #[trigger] xs[t].set == x;
                    assert(set_absent_below(xs, xs.len() as int, x));
                    assert(xs[t].set != x);
                }
            }
            // the empty set comes first, with no element
            assert(popcount(0) == 0);
            vstd::arithmetic::power2::lemma_pow2_pos(n as nat);
            let t0 = match d.xinv@[0] {
                Some(t) => t as int,
                None => 0,
            };
            assert(d.xinv@[0] is Some);
            assert(xs[t0].set == 0);
            if t0 > 0 {
                assert(card_set_lt(xs[0], xs[t0]));
            }
            assert(xs[0].card == 0);
        }
        d.xstart.set(0, 0);
        let mut i: usize = 1;
        while i < d.x_set_card.len()
            invariant
                d.fresh(),
                d.xorb@ == Seq::<usize>::empty(),
                d.xx@ == Seq::<usize>::empty(),
                d.x_set_card@ == xs,
                xsets_tables(d, n as nat, maxdeg as nat),
                1 <= i <= xs.len(),
                n < MAXN,
                d.xstart@.len() == MAXN + 1,
                xs[0].card == 0,
                forall|k: int| 0 <= k <= xs[i - 1].card ==> first_card_at_least(xs, k, #[trigger] d.xstart@[k] as int),
                forall|k: int| xs[i - 1].card < k <= MAXN ==> #[trigger] d.xstart@[k] == 0,
            decreases xs.len() - i,
        {
            if d.x_set_card[i].card > d.x_set_card[i - 1].card {
                let c = d.xcard(i);
                proof {
                    lemma_no_gap(d, n as nat, maxdeg as nat, i as int);
                    lemma_popcount_bound(xs[i as int].set as nat, n as nat);
                }
                d.xstart.set(c, i);
                proof {
                    assert forall|k: int| 0 <= k <= xs[i as int].card implies first_card_at_least(xs, k, #[trigger] d.xstart@[k] as int) by {
                        if k == c {
                            assert forall|j: int| 0 <= j < i implies #[trigger] xs[j].card < k by {
                                if j < i - 1 {
                                    assert(card_set_lt(xs[j], xs[i - 1]));
                                }
                            }
                        }
                    }
                }
            } else {
                proof {
                    assert(xs[i as int].card == xs[i - 1].card) by {
                        assert(card_set_lt(xs[i - 1], xs[i as int]));
                    }
                }
            }
            i = i + 1;
        }
        let c = d.xcard(d.x_set_card.len() - 1);
        proof {
            assert(c <= n) by {
                lemma_popcount_bound(xs.last().set as nat, n as nat);
            }
        }
        let len = d.x_set_card.len();
        d.xstart.set(c + 1, len);
        proof {
            assert forall|k: int| 0 <= k <= xs.last().card + 1 implies first_card_at_least(xs, k, #[trigger] d.xstart@[k] as int) by {
                if k == c + 1 {
                    assert forall|j: int| 0 <= j < len implies #[trigger] xs[j].card < k by {
                        if j < len - 1 {
                            assert(card_set_lt(xs[j], xs[len - 1]));
                        }
                    }
                }
            }
        }
        d
    }

    /// The level data for each level below `maxn` (one level at least):
    /// level 0 with `xlb` 0; for each level `n` from 1 on, `xlb` at
    /// `usize::MAX` and, unless `restricted`, the x-set tables of `n`
    /// vertices for degrees up to `maxdeg`, every other field zero or empty.
    pub fn make(restricted: bool, maxn: usize, maxdeg: usize) -> (r: Vec<Self>)
        requires
            maxn <= MAXN,
        ensures
            r@.len() == if maxn <= 1 {
                1
            } else {
                maxn as int
            },
            r@[0].blank(0),
            restricted ==> forall|k: int| 1 <= k < r@.len() ==> #[trigger] r@[k].blank(usize::MAX),
            !restricted ==> forall|k: int|
                1 <= k < r@.len() ==> {
                    &&& (#[trigger] r@[k]).fresh()
                    &&& r@[k].xorb@ == Seq::<usize>::empty()
                    &&& r@[k].xx@ == Seq::<usize>::empty()
                    &&& xsets_made(r@[k], k as nat, maxdeg as nat)
                },
    {
        let mut data: Vec<LevelData> = Vec::with_capacity(maxn);
        data.push(LevelData::default());
        let mut n: usize = 1;
        while n < maxn
            invariant
                maxn <= MAXN,
                1 <= n,
                n <= maxn || n == 1,
                data@.len() == n,
                data@[0].blank(0),
                restricted ==> forall|k: int| 1 <= k < data@.len() ==> #[trigger] data@[k].blank(usize::MAX),
                !restricted ==> forall|k: int|
                    1 <= k < data@.len() ==> {
                        &&& (#[trigger] data@[k]).fresh()
                        &&& data@[k].xorb@ == Seq::<usize>::empty()
                        &&& data@[k].xx@ == Seq::<usize>::empty()
                        &&& xsets_made(data@[k], k as nat, maxdeg as nat)
                    },
            decreases maxn - n,
        {
            if restricted {
                let mut d = Self::default();
                d.xlb = usize::MAX;
                data.push(d);
            } else {
                let d = Self::make_level(n, maxdeg);
                data.push(d);
            }
            n = n + 1;
        }
        data
    }

    /// Finds bounds on the extension degree of level `n` with
    /// `edge_count` edges and largest degree `dmax`, and keeps them with
    /// the edge count and the largest degree.
    pub fn xbnds(&mut self, env: &Env, n: usize, edge_count: usize, dmax: usize)
        requires
            1 <= n < usize::MAX,
            2 * edge_count + n <= usize::MAX,
            edge_count + start_xlb(n as int, edge_count as int, dmax as int) <= usize::MAX,
            start_xlb(n as int, edge_count as int, dmax as int) <= start_xub(n as int) ==> scan_down_fits(
                *env,
                n as int,
                edge_count as int,
                start_xlb(n as int, edge_count as int, dmax as int),
                start_xub(n as int),
            ),
            final_xub(*env, n as int, edge_count as int, dmax as int) >= 0,
            edge_count + start_xlb(n as int, edge_count as int, dmax as int) < env.mine ==> scan_up_fits(
                *env,
                n as int,
                edge_count as int,
                final_xub(*env, n as int, edge_count as int, dmax as int),
                start_xlb(n as int, edge_count as int, dmax as int),
            ),
        ensures
            final(self).xlb == final_xlb(*env, n as int, edge_count as int, dmax as int),
            final(self).xub == final_xub(*env, n as int, edge_count as int, dmax as int),
            final(self).edge_count == edge_count,
            final(self).dmax == dmax,
            final(self).lo == old(self).lo,
            final(self).hi == old(self).hi,
            final(self).xstart == old(self).xstart,
            final(self).x_set_card == old(self).x_set_card,
            final(self).xinv == old(self).xinv,
            final(self).xorb == old(self).xorb,
            final(self).xx == old(self).xx,
            final(self).xlim == old(self).xlim,
    {
        let mut xlb: usize = if n == 1 {
            0
        } else if dmax > (2 * edge_count + n - 2) / (n - 1) {
            dmax
        } else {
            (2 * edge_count + n - 2) / (n - 1)
        };
        let ghost xlb0 = xlb as int;
        let mut xub: usize = if n < MAXN {
            n
        } else {
            MAXN
        };
        let ghost xub0 = xub as int;
        if xlb <= xub {
            let mut xc: usize = xub;
            loop
                invariant
                    xlb == xlb0,
                    xlb <= xc,
                    xc <= xub0,
                    xub <= xub0,
                    n < usize::MAX,
                    xub0 == start_xub(n as int),
                    xub0 <= MAXN,
                    scan_down(*env, n as int, edge_count as int, xlb as int, xub0, xub0)
                        == scan_down(*env, n as int, edge_count as int, xlb as int, xc as int, xub as int),
                    scan_down_fits(*env, n as int, edge_count as int, xlb as int, xc as int),
                    scan_down(*env, n as int, edge_count as int, xlb as int, xub0, xub0) >= 0,
                    2 * edge_count + n <= usize::MAX,
                    1 <= n,
                ensures
                    xub as int == scan_down(*env, n as int, edge_count as int, xlb as int, xub0, xub0),
                decreases xc,
            {
                let mut d: usize = xc;
                let mut m: usize = edge_count + d;
                let mut nn: usize = n + 1;
                proof {
                    lemma_grow(env.maxn as int, (n + 1) as int, xc as int, (edge_count + xc) as int);
                }
                while nn < env.maxn
                    invariant
                        n + 1 <= nn,
                        nn >= 2,
                        0 <= d <= m,
                        grow(env.maxn as int, n + 1, xc as int, edge_count + xc) == grow(env.maxn as int, nn as int, d as int, m as int),
                        2 * grow(env.maxn as int, n + 1, xc as int, edge_count + xc).1 + env.maxn <= usize::MAX,
                    decreases env.maxn - nn,
                {
                    proof {
                        lemma_grow(env.maxn as int, nn as int, d as int, m as int);
                        lemma_grow_step(env.maxn as int, nn as int, d as int, m as int);
                    }
                    if d < (2 * m + nn - 2) / (nn - 1) {
                        d = (2 * m + nn - 2) / (nn - 1);
                    }
                    proof {
                        lemma_grow(env.maxn as int, nn + 1, d as int, m + d);
                    }
                    m = m + d;
                    nn = nn + 1;
                }
                if d > env.maxdeg || m > env.maxe {
                    proof {
                        assert(too_big(*env, n as int, edge_count as int, xc as int));
                        if xc == 0 {
                            assert(scan_down(*env, n as int, edge_count as int, xlb as int, -1, -1) == -1);
                        }
                    }
                    xub = xc - 1;
                    if xc == xlb {
                        assert(scan_down(*env, n as int, edge_count as int, xlb as int, xc - 1, xc - 1) == xc - 1);
                        break;
                    }
                    xc = xc - 1;
                } else {
                    break;
                }
            }
        }
        let ghost xub_final = xub;
        if edge_count + xlb < env.mine {
            let mut xc: usize = xlb;
            while xc <= xub
                invariant
                    xub == xub_final,
                    xub <= MAXN,
                    n < usize::MAX,
                    scan_up(*env, n as int, edge_count as int, xub as int, xlb0, xlb0)
                        == scan_up(*env, n as int, edge_count as int, xub as int, xc as int, xlb as int),
                    scan_up_fits(*env, n as int, edge_count as int, xub as int, xc as int),
                ensures
                    xlb as int == scan_up(*env, n as int, edge_count as int, xub as int, xlb0, xlb0),
                decreases xub + 1 - xc,
            {
                let step = if n < env.maxdeg {
                    n
                } else {
                    env.maxdeg
                };
                proof {
                    lemma_add_times(edge_count + xc, env.maxn - (n + 1), step as int);
                }
                let mut m: usize = edge_count + xc;
                let mut nn: usize = n + 1;
                while nn < env.maxn
                    invariant
                        edges_up(*env, n as int, edge_count as int, xc as int) == add_times(m as int, env.maxn - nn, step as int),
                        edges_up(*env, n as int, edge_count as int, xc as int) <= usize::MAX,
                    decreases env.maxn - nn,
                {
                    proof {
                        lemma_add_times(m as int, env.maxn - nn, step as int);
                    }
                    m = m + step;
                    nn = nn + 1;
                }
                if m < env.mine {
                    xlb = xc + 1;
                } else {
                    break;
                }
                xc = xc + 1;
            }
        }
        self.edge_count = edge_count;
        self.dmax = dmax;
        self.xlb = xlb;
        self.xub = xub;
    }
}

impl Default for LevelData {
    fn default() -> (r: Self)
        ensures
            r.blank(0),
    {
        LevelData::blank_with(0)
    }
}

} // verus!
