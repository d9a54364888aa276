//! Families of graphs: cycles, paths, stars, complete and complete
//! multipartite graphs, wheels.
use crate::nauty::bitset::max_bits;
use crate::nauty::Graph;
use vstd::prelude::*;

verus! {

/// `i` and `j` are equal modulo `n`.
pub open spec fn spec_eq_mod(i: int, j: int, n: int) -> bool {
    i % n == j % n
}

/// `i` and `j` are next to each other on a cycle of `n` vertices.
pub open spec fn spec_are_next(i: int, j: int, n: int) -> bool {
    spec_eq_mod(i, j + 1, n) || spec_eq_mod(i + 1, j, n)
}

/// `i` and `j` are equal modulo `n`.
pub fn eq_mod(i: usize, j: usize, n: usize) -> (r: bool)
    requires
        n > 0,
    ensures
        r == spec_eq_mod(i as int, j as int, n as int),
{
    i % n == j % n
}

/// `i` and `j` are next to each other on a cycle of `n` vertices.
pub fn are_next(i: usize, j: usize, n: usize) -> (r: bool)
    requires
        n > 0,
        i < usize::MAX,
        j < usize::MAX,
    ensures
        r == spec_are_next(i as int, j as int, n as int),
{
    eq_mod(i, j + 1, n) || eq_mod(i + 1, j, n)
}

/// The adjacency of the path `0 - 1 - ... - (n-1)`.
pub open spec fn path_adj(i: int, j: int, n: int) -> bool {
    if i == 0 {
        j == 1
    } else if i == n - 1 {
        j == n - 2
    } else {
        spec_are_next(i, j, n)
    }
}

/// The adjacency of the star centred on vertex 0.
pub open spec fn star_adj(i: int, j: int) -> bool {
    if i == 0 {
        j != 0
    } else {
        j == 0
    }
}

/// The adjacency of the wheel: vertex 0 joined to the cycle of the other
/// vertices.
pub open spec fn wheel_adj(i: int, j: int, n: int) -> bool {
    if i == 0 {
        j != 0
    } else {
        j == 0 || spec_are_next(i - 1, j - 1, n - 1)
    }
}

/// The adjacency of the complete tripartite graph with parts of sizes `p`,
/// `q` and `r`.
pub open spec fn tripartite_adj(i: int, j: int, p: int, q: int) -> bool {
    if i < p {
        j >= p
    } else if i < p + q {
        j < p || j >= p + q
    } else {
        j < p + q
    }
}

/// The running sums of `ps`.
pub open spec fn prefix_sums(ps: Seq<usize>) -> Seq<int>
    decreases ps.len(),
{
    if ps.len() == 0 {
        Seq::empty()
    } else {
        let s = prefix_sums(ps.drop_last());
        s.push(
            (if s.len() == 0 {
                0
            } else {
                s.last()
            }) + ps.last(),
        )
    }
}

/// The sum of `ps`.
pub open spec fn seq_sum(ps: Seq<usize>) -> int
    decreases ps.len(),
{
    if ps.len() == 0 {
        0
    } else {
        seq_sum(ps.drop_last()) + ps.last()
    }
}

/// The last entry of `idx` at most `i`, looking from the back.
pub open spec fn last_at_most(idx: Seq<usize>, i: int) -> Option<usize>
    decreases idx.len(),
{
    if idx.len() == 0 {
        None
    } else if idx.last() <= i {
        Some(idx.last())
    } else {
        last_at_most(idx.drop_last(), i)
    }
}

/// The first entry of `idx` above `i`.
pub open spec fn first_above(idx: Seq<usize>, i: int) -> Option<usize>
    decreases idx.len(),
{
    if idx.len() == 0 {
        None
    } else if idx[0] > i {
        Some(idx[0])
    } else {
        first_above(idx.drop_first(), i)
    }
}

/// The adjacency of the complete multipartite graph with part ends `idx`:
/// `j` lies outside the part of `i`.
pub open spec fn k_partite_adj(idx: Seq<usize>, i: int, j: int) -> bool {
    match (last_at_most(idx, i), first_above(idx, i)) {
        (None, None) => false,
        (None, Some(after)) => after <= j,
        (Some(before), None) => j < before,
        (Some(before), Some(after)) => j < before || after <= j,
    }
}

/// The cycle on at least three vertices, the star, the complete graph and
/// the complete bipartite and tripartite graphs are undirected and without
/// loops: their adjacencies are symmetric and irreflexive.
pub proof fn lemma_families_undirected(n: int, i: int, j: int, p: int, q: int)
    requires
        0 <= i < n,
        0 <= j < n,
        0 <= p,
        0 <= q,
    ensures
        n >= 3 ==> spec_are_next(i, j, n) == spec_are_next(j, i, n) && !spec_are_next(i, i, n),
        star_adj(i, j) == star_adj(j, i) && !star_adj(i, i),
        (i != j) == (j != i),
        ((i < p) == (j >= p)) == ((j < p) == (i >= p)) && !((i < p) == (i >= p)),
        tripartite_adj(i, j, p, q) == tripartite_adj(j, i, p, q) && !tripartite_adj(i, i, p, q),
{
    if n >= 3 {
        assert(i % n == i && (i + 1) % n == if i + 1 == n { 0 } else { i + 1 }) by {
            vstd::arithmetic::div_mod::lemma_small_mod(i as nat, n as nat);
            if i + 1 < n {
                vstd::arithmetic::div_mod::lemma_small_mod((i + 1) as nat, n as nat);
            } else {
                vstd::arithmetic::div_mod::lemma_mod_self_0(n);
            }
        }
        assert(j % n == j && (j + 1) % n == if j + 1 == n { 0 } else { j + 1 }) by {
            vstd::arithmetic::div_mod::lemma_small_mod(j as nat, n as nat);
            if j + 1 < n {
                vstd::arithmetic::div_mod::lemma_small_mod((j + 1) as nat, n as nat);
            } else {
                vstd::arithmetic::div_mod::lemma_mod_self_0(n);
            }
        }
    }
}

/// The cycle `0 - 1 - ... - (n-1) - 0`.
pub fn cycle(n: usize) -> (r: Graph)
    requires
        n <= max_bits(),
    ensures
        r.num_vertices() == n,
        r.wf(),
        forall|i: int, j: int| 0 <= i < n && 0 <= j < n ==> #[trigger] r.adj(i, j) == spec_are_next(i, j, n as int),
{
    Graph::from_closure(n, |i: usize, j: usize, n: usize| -> (b: bool)
        requires
            i < n,
            j < n,
        ensures
            b == spec_are_next(i as int, j as int, n as int),
        { are_next(i, j, n) })
}

/// The path `0 - 1 - ... - (n-1)`.
pub fn path(n: usize) -> (r: Graph)
    requires
        n <= max_bits(),
    ensures
        r.num_vertices() == n,
        r.wf(),
        forall|i: int, j: int| 0 <= i < n && 0 <= j < n ==> #[trigger] r.adj(i, j) == path_adj(i, j, n as int),
{
    Graph::from_closure(n, |i: usize, j: usize, n: usize| -> (b: bool)
        requires
            i < n,
            j < n,
        ensures
            b == path_adj(i as int, j as int, n as int),
        {
            if i == 0 {
                j == 1
            } else if i == n - 1 {
                j == n - 2
            } else {
                are_next(i, j, n)
            }
        })
}

/// The star whose centre is vertex 0.
pub fn star(n: usize) -> (r: Graph)
    requires
        n <= max_bits(),
    ensures
        r.num_vertices() == n,
        r.wf(),
        forall|i: int, j: int| 0 <= i < n && 0 <= j < n ==> #[trigger] r.adj(i, j) == star_adj(i, j),
{
    Graph::from_closure(n, |i: usize, j: usize, _n: usize| -> (b: bool)
        ensures
            b == star_adj(i as int, j as int),
        {
            if i == 0 {
                j != 0
            } else {
                j == 0
            }
        })
}

/// The complete graph on `n` vertices.
pub fn complete(n: usize) -> (r: Graph)
    requires
        n <= max_bits(),
    ensures
        r.num_vertices() == n,
        r.wf(),
        forall|i: int, j: int| 0 <= i < n && 0 <= j < n ==> #[trigger] r.adj(i, j) == (i != j),
{
    Graph::from_closure(n, |i: usize, j: usize, _n: usize| -> (b: bool)
        ensures
            b == (i != j),
        { i != j })
}

/// The wheel: vertex 0 joined to every vertex of the cycle of the others.
pub fn wheel(n: usize) -> (r: Graph)
    requires
        n <= max_bits(),
    ensures
        r.num_vertices() == n,
        r.wf(),
        forall|i: int, j: int| 0 <= i < n && 0 <= j < n ==> #[trigger] r.adj(i, j) == wheel_adj(i, j, n as int),
{
    Graph::from_closure(n, |i: usize, j: usize, n: usize| -> (b: bool)
        requires
            i < n,
            j < n,
        ensures
            b == wheel_adj(i as int, j as int, n as int),
        {
            if i == 0 {
                j != 0
            } else {
                j == 0 || are_next(i - 1, j - 1, n - 1)
            }
        })
}

/// The complete bipartite graph with parts `0..p` and `p..p+q`.
pub fn complete_bipartite(p: usize, q: usize) -> (r: Graph)
    requires
        p + q <= max_bits(),
    ensures
        r.num_vertices() == p + q,
        r.wf(),
        forall|i: int, j: int|
            0 <= i < p + q && 0 <= j < p + q ==> #[trigger] r.adj(i, j) == ((i < p) == (j >= p)),
{
    Graph::from_closure(p + q, |i: usize, j: usize, _n: usize| -> (b: bool)
        ensures
            b == ((i < p) == (j >= p)),
        { (i < p) == (j >= p) })
}

/// The complete tripartite graph with parts of sizes `p`, `q` and `r`.
pub fn complete_tripartite(p: usize, q: usize, r: usize) -> (g: Graph)
    requires
        p + q + r <= max_bits(),
    ensures
        g.num_vertices() == p + q + r,
        g.wf(),
        forall|i: int, j: int|
            0 <= i < p + q + r && 0 <= j < p + q + r ==> #[trigger] g.adj(i, j) == tripartite_adj(
                i,
                j,
                p as int,
                q as int,
            ),
{
    Graph::from_closure(p + q + r, |i: usize, j: usize, _n: usize| -> (b: bool)
        ensures
            b == tripartite_adj(i as int, j as int, p as int, q as int),
        {
            if i < p {
                j >= p
            } else if i < p + q {
                j < p || j >= p + q
            } else {
                j < p + q
            }
        })
}

/// Whether `j` lies outside the part of `i`, the parts ending at the
/// entries of `indexes`.
pub fn k_partite_edge(indexes: &Vec<usize>, i: usize, j: usize) -> (r: bool)
    ensures
        r == k_partite_adj(indexes@, i as int, j as int),
{
    let mut before: Option<usize> = None;
    let mut k = indexes.len();
    assert(indexes@.take(k as int) =~= indexes@);
    while k > 0
        invariant_except_break
            before is None,
        invariant
            k <= indexes@.len(),
            last_at_most(indexes@, i as int) == last_at_most(indexes@.take(k as int), i as int),
        ensures
            before == last_at_most(indexes@, i as int),
        decreases k,
    {
        let x = indexes[k - 1];
        assert(indexes@.take(k as int).drop_last() =~= indexes@.take(k - 1));
        if x <= i {
            before = Some(x);
            break;
        }
        k = k - 1;
    }
    if k == 0 {
        assert(indexes@.take(0) =~= Seq::<usize>::empty());
    }
    let mut after: Option<usize> = None;
    let mut k: usize = 0;
    assert(indexes@.skip(0) =~= indexes@);
    while k < indexes.len()
        invariant_except_break
            after is None,
        invariant
            k <= indexes@.len(),
            first_above(indexes@, i as int) == first_above(indexes@.skip(k as int), i as int),
        ensures
            after == first_above(indexes@, i as int),
        decreases indexes@.len() - k,
    {
        let x = indexes[k];
        assert(indexes@.skip(k as int).drop_first() =~= indexes@.skip(k + 1));
        if x > i {
            after = Some(x);
            break;
        }
        k = k + 1;
    }
    if k == indexes.len() {
        assert(indexes@.skip(k as int) =~= Seq::<usize>::empty());
    }
    match (before, after) {
        (None, None) => false,
        (None, Some(after)) => after <= j,
        (Some(before), None) => j < before,
        (Some(before), Some(after)) => j < before || after <= j,
    }
}

/// The complete multipartite graph whose parts have the sizes in `ps`.
pub fn complete_k_partite(ps: &[usize]) -> (r: Graph)
    requires
        seq_sum(ps@) <= max_bits(),
    ensures
        r.num_vertices() == seq_sum(ps@),
        r.wf(),
        forall|i: int, j: int|
            0 <= i < seq_sum(ps@) && 0 <= j < seq_sum(ps@) ==> #[trigger] r.adj(i, j) == k_partite_adj(
                prefix_sums(ps@).map_values(|x: int| x as usize),
                i,
                j,
            ),
{
    let mut indexes: Vec<usize> = Vec::new();
    let mut n: usize = 0;
    let mut k: usize = 0;
    while k < ps.len()
        invariant
            k <= ps@.len(),
            seq_sum(ps@) <= max_bits(),
            n == seq_sum(ps@.take(k as int)),
            indexes@ == prefix_sums(ps@.take(k as int)).map_values(|x: int| x as usize),
            prefix_sums(ps@.take(k as int)).len() == k,
            k > 0 ==> prefix_sums(ps@.take(k as int)).last() == n,
        decreases ps@.len() - k,
    {
        proof {
            lemma_seq_sum_prefix(ps@, k as int);
        }
        assert(ps@.take(k + 1).drop_last() =~= ps@.take(k as int));
        n = n + ps[k];
        indexes.push(n);
        k = k + 1;
        assert(indexes@ =~= prefix_sums(ps@.take(k as int)).map_values(|x: int| x as usize));
    }
    assert(ps@.take(ps@.len() as int) =~= ps@);
    Graph::from_closure(n, |i: usize, j: usize, _n: usize| -> (b: bool)
        ensures
            b == k_partite_adj(indexes@, i as int, j as int),
        { k_partite_edge(&indexes, i, j) })
}

/// The sum of a prefix is at most the sum of the whole.
pub proof fn lemma_seq_sum_prefix(ps: Seq<usize>, k: int)
    requires
        0 <= k < ps.len(),
    ensures
        seq_sum(ps.take(k + 1)) <= seq_sum(ps),
    decreases ps.len() - k,
{
    if k + 1 < ps.len() {
        lemma_seq_sum_prefix(ps, k + 1);
        assert(ps.take(k + 2).drop_last() =~= ps.take(k + 1));
    } else {
        assert(ps.take(k + 1) =~= ps);
    }
}

} // verus!
