//! Orbits of the automorphism group of a vertex-coloured graph.
use crate::naugraph::is_automorphism;
use crate::nauty::partition_nest::is_permutation;
use crate::nauty::Graph;
use vstd::prelude::*;

verus! {

/// The number of cells that end before position `k` of `ptn` (at the
/// positions whose entry is 0): the colour of the vertex at position `k`.
pub open spec fn cells_before(ptn: Seq<usize>, k: int) -> nat
    decreases k,
{
    if k <= 0 {
        0
    } else {
        cells_before(ptn, k - 1) + if ptn[k - 1] == 0 {
            1nat
        } else {
            0nat
        }
    }
}

/// The colour of each vertex `x < n` in the colouring `(lab, ptn)`: the
/// colour of the position that holds it.
pub open spec fn vertex_colours(lab: Seq<usize>, ptn: Seq<usize>, n: int) -> Seq<usize> {
    Seq::new(
        n as nat,
        |x: int| cells_before(ptn, choose|k: int| 0 <= k < n && lab[k] == x) as usize,
    )
}

/// `p` is an automorphism of `g` that keeps the colour `col[x]` of every
/// vertex `x`: a permutation of the vertices under which adjacency and
/// colours stay.
pub open spec fn colour_automorphism(g: Graph, col: Seq<usize>, p: Seq<usize>) -> bool {
    &&& p.len() == g.num_vertices()
    &&& is_permutation(p)
    &&& is_automorphism(g, p)
    &&& forall|x: int| 0 <= x < p.len() ==> #[trigger] col[p[x] as int] == col[x]
}

/// Some automorphism of `g` that keeps the colours `col` sends `i` to `j`.
pub open spec fn same_orbit(g: Graph, col: Seq<usize>, i: int, j: int) -> bool {
    exists|p: Seq<usize>| #[trigger] colour_automorphism(g, col, p) && p[i] == j
}

/// `j` is the least vertex in the orbit of `i`.
pub open spec fn least_in_orbit(g: Graph, col: Seq<usize>, i: int, j: int) -> bool {
    &&& same_orbit(g, col, i, j)
    &&& forall|k: int| 0 <= k < j ==> !#[trigger] same_orbit(g, col, i, k)
}

/// `pre` maps the first `pre.len()` vertices into the vertices of `g`
/// without repeats, keeping adjacency among them and their colours, and
/// sends `i` to `j` if `i` is among them.
pub open spec fn partial_map_ok(g: Graph, col: Seq<usize>, pre: Seq<usize>, i: int, j: int) -> bool {
    &&& pre.len() <= g.num_vertices()
    &&& forall|a: int| 0 <= a < pre.len() ==> #[trigger] pre[a] < g.num_vertices()
    &&& forall|a: int, b: int| 0 <= a < b < pre.len() ==> #[trigger] pre[a] != #[trigger] pre[b]
    &&& forall|a: int, b: int|
        0 <= a < pre.len() && 0 <= b < pre.len() ==> #[trigger] g.adj(pre[a] as int, pre[b] as int) == g.adj(a, b)
    &&& forall|a: int| 0 <= a < pre.len() ==> #[trigger] col[pre[a] as int] == col[a]
    &&& (i < pre.len() ==> pre[i] == j)
}

/// `p` is an automorphism keeping the colours `col`, sends `i` to `j`, and
/// starts with `pre`.
pub open spec fn extends_map(g: Graph, col: Seq<usize>, p: Seq<usize>, pre: Seq<usize>, i: int, j: int) -> bool {
    &&& colour_automorphism(g, col, p)
    &&& p[i] == j
    &&& p.take(pre.len() as int) == pre
}

/// Some position below `n` of `lab` holds `x`.
pub open spec fn holds_vertex(lab: Seq<usize>, n: int, x: int) -> bool {
    exists|k: int| 0 <= k < n && lab[k] == x
}

/// The first `n` labels, a permutation of `0..n`, hold every vertex below
/// `n`.
pub proof fn lemma_labels_cover(lab: Seq<usize>, n: int)
    requires
        0 <= n <= lab.len(),
        is_permutation(lab.take(n)),
    ensures
        forall|x: int| 0 <= x < n ==> #[trigger] holds_vertex(lab, n, x),
{
    let f = |k: int| lab[k] as int;
    let dom = vstd::set_lib::set_int_range(0, n);
    vstd::set_lib::lemma_int_range(0, n);
    assert(vstd::relations::injective_on(f, dom)) by {
        assert forall|a: int, b: int| dom.contains(a) && dom.contains(b) && #[trigger] f(a) == #[trigger] f(b) implies a
            == b by {
            if a != b {
                if a < b {
                    assert(lab.take(n)[a] != lab.take(n)[b]);
                } else {
                    assert(lab.take(n)[b] != lab.take(n)[a]);
                }
            }
        }
    }
    let img = dom.map(f);
    vstd::set_lib::lemma_map_size(dom, img, f);
    assert(img.subset_of(dom)) by {
        assert forall|x: int| img.contains(x) implies dom.contains(x) by {
            let k = choose|k: int| dom.contains(k) && f(k) == x;
            assert(lab.take(n)[k] < n);
        }
    }
    vstd::set_lib::lemma_subset_equality(img, dom);
    assert forall|x: int| 0 <= x < n implies #[trigger] holds_vertex(lab, n, x) by {
        assert(dom.contains(x));
        assert(img.contains(x));
        let k = choose|k: int| dom.contains(k) && f(k) == x;
        assert(lab[k] == x);
    }
}

/// The identity keeps every graph and colouring.
pub proof fn lemma_identity_automorphism(g: Graph, col: Seq<usize>)
    requires
        col.len() == g.num_vertices(),
        g.num_vertices() <= usize::MAX,
    ensures
        colour_automorphism(g, col, Seq::new(g.num_vertices(), |x: int| x as usize)),
{
    let n = g.num_vertices();
    let id = Seq::new(n, |x: int| x as usize);
    assert forall|x: int, y: int| 0 <= x < n && 0 <= y < n implies #[trigger] g.adj(id[x] as int, id[y] as int)
        == g.adj(x, y) by {
        assert(id[x] as int == x);
        assert(id[y] as int == y);
    }
    assert forall|x: int| 0 <= x < id.len() implies #[trigger] col[id[x] as int] == col[x] by {
        assert(id[x] as int == x);
    }
}

/// The vertex `v` can follow `pre` as the image of vertex `pre.len()`: it
/// is not taken yet, has that vertex's colour, is `j` if that vertex is
/// `i`, and keeps adjacency with the vertices mapped so far.
pub open spec fn fits_next_spec(g: Graph, col: Seq<usize>, pre: Seq<usize>, i: int, j: int, v: int) -> bool {
    let k = pre.len() as int;
    &&& forall|a: int| 0 <= a < k ==> #[trigger] pre[a] != v
    &&& col[v] == col[k]
    &&& (k == i ==> v == j)
    &&& g.adj(v, v) == g.adj(k, k)
    &&& forall|a: int|
        0 <= a < k ==> #[trigger] g.adj(pre[a] as int, v) == g.adj(a, k) && g.adj(v, pre[a] as int) == g.adj(k, a)
}

/// Whether the vertex `v` can follow `pre` as the image of vertex
/// `pre.len()`: it is not taken yet, has that vertex's colour, is `j` if
/// that vertex is `i`, and keeps adjacency with the vertices mapped so far.
#[verifier::spinoff_prover]
fn fits_next(g: &Graph, col: &Vec<usize>, pre: &Vec<usize>, i: usize, j: usize, v: usize) -> (r: bool)
    requires
        g.wf(),
        col@.len() == g.num_vertices(),
        pre@.len() < g.num_vertices(),
        v < g.num_vertices(),
        forall|a: int| 0 <= a < pre@.len() ==> #[trigger] pre@[a] < g.num_vertices(),
    ensures
        r == fits_next_spec(*g, col@, pre@, i as int, j as int, v as int),
{
    let k = pre.len();
    if col[v] != col[k] {
        return false;
    }
    if k == i && v != j {
        return false;
    }
    let vv = g.get(v).contains(v);
    let kk = g.get(k).contains(k);
    assert(vv == g.adj(v as int, v as int));
    assert(kk == g.adj(k as int, k as int));
    if vv != kk {
        return false;
    }
    let mut a: usize = 0;
    while a < k
        invariant
            g.wf(),
            k == pre@.len(),
            k < g.num_vertices(),
            v < g.num_vertices(),
            col@.len() == g.num_vertices(),
            col@[v as int] == col@[k as int],
            k == i ==> v == j,
            g.adj(v as int, v as int) == g.adj(k as int, k as int),
            a <= k,
            forall|b: int| 0 <= b < k ==> #[trigger] pre@[b] < g.num_vertices(),
            forall|b: int| 0 <= b < a ==> #[trigger] pre@[b] != v,
            forall|b: int|
                0 <= b < a ==> #[trigger] g.adj(pre@[b] as int, v as int) == g.adj(b, k as int) && g.adj(
                    v as int,
                    pre@[b] as int,
                ) == g.adj(k as int, b),
        decreases k - a,
    {
        let pa = pre[a];
        if pa == v {
            assert(pre@[a as int] == v);
            return false;
        }
        let x1 = g.get(pa).contains(v);
        let x2 = g.get(a).contains(k);
        let x3 = g.get(v).contains(pa);
        let x4 = g.get(k).contains(a);
        assert(x1 == g.adj(pre@[a as int] as int, v as int));
        assert(x2 == g.adj(a as int, k as int));
        assert(x3 == g.adj(v as int, pre@[a as int] as int));
        assert(x4 == g.adj(k as int, a as int));
        if x1 != x2 || x3 != x4 {
            return false;
        }
        assert forall|b: int| 0 <= b < a + 1 implies #[trigger] g.adj(pre@[b] as int, v as int) == g.adj(b, k as int)
            && g.adj(v as int, pre@[b] as int) == g.adj(k as int, b) by {
            if b == a {
                assert(x1 == x2 && x3 == x4);
                assert(pre@[b] == pa);
                assert(g.adj(pre@[b] as int, v as int) == x1);
                assert(g.adj(b, k as int) == x2);
                assert(g.adj(v as int, pre@[b] as int) == x3);
                assert(g.adj(k as int, b) == x4);
            }
        }
        a = a + 1;
    }
    assert(forall|b: int| 0 <= b < k ==> #[trigger] pre@[b] != v);
    assert(col@[v as int] == col@[k as int]);
    assert(forall|b: int|
        0 <= b < k ==> #[trigger] g.adj(pre@[b] as int, v as int) == g.adj(b, k as int) && g.adj(
            v as int,
            pre@[b] as int,
        ) == g.adj(k as int, b));
    assert(k == i ==> v == j);
    assert(g.adj(v as int, v as int) == g.adj(k as int, k as int));
    assert(fits_next_spec(*g, col@, pre@, i as int, j as int, v as int));
    true
}

/// Whether some automorphism of `g` keeping the colours `col` sends `i` to
/// `j` and starts with `pre`: the images of the next vertices are tried in
/// turn, each one that fits followed by a search further on.
fn extend_map(g: &Graph, col: &Vec<usize>, pre: &mut Vec<usize>, i: usize, j: usize) -> (r: bool)
    requires
        g.wf(),
        col@.len() == g.num_vertices(),
        i < g.num_vertices(),
        partial_map_ok(*g, col@, old(pre)@, i as int, j as int),
    ensures
        final(pre)@ == old(pre)@,
        r == exists|p: Seq<usize>| #[trigger] extends_map(*g, col@, p, old(pre)@, i as int, j as int),
    decreases g.num_vertices() - old(pre)@.len(),
{
    let n = g.n();
    let k = pre.len();
    let ghost pre0 = pre@;
    if k == n {
        proof {
            assert(pre0.take(n as int) =~= pre0);
            assert forall|a: int| 0 <= a < pre0.len() implies #[trigger] pre0[a] < pre0.len() by {}
            assert(extends_map(*g, col@, pre0, pre0, i as int, j as int));
        }
        return true;
    }
    let mut v: usize = 0;
    while v < n
        invariant
            g.wf(),
            n == g.num_vertices(),
            col@.len() == n,
            i < n,
            k == pre0.len(),
            k < n,
            pre@ == pre0,
            pre0 == old(pre)@,
            partial_map_ok(*g, col@, pre0, i as int, j as int),
            v <= n,
            forall|p: Seq<usize>|
                #[trigger] extends_map(*g, col@, p, pre0, i as int, j as int) ==> p[k as int] >= v,
        decreases n - v,
    {
        let fits = fits_next(g, col, pre, i, j, v);
        if fits {
            pre.push(v);
            let ghost pre1 = pre@;
            proof {
                assert(pre1 == pre0.push(v));
                assert forall|a: int, b: int| 0 <= a < pre1.len() && 0 <= b < pre1.len() implies #[trigger] g.adj(
                    pre1[a] as int,
                    pre1[b] as int,
                ) == g.adj(a, b) by {
                    if a < k && b < k {
                        assert(pre1[a] == pre0[a] && pre1[b] == pre0[b]);
                    } else if a < k {
                        assert(pre1[a] == pre0[a] && pre1[b] == v);
                        assert(g.adj(pre0[a] as int, v as int) == g.adj(a, k as int));
                    } else if b < k {
                        assert(pre1[b] == pre0[b] && pre1[a] == v);
                        assert(g.adj(pre0[b] as int, v as int) == g.adj(b, k as int));
                        assert(g.adj(v as int, pre0[b] as int) == g.adj(k as int, b));
                    } else {
                        assert(pre1[a] == v && pre1[b] == v);
                    }
                }
                assert forall|a: int, b: int| 0 <= a < b < pre1.len() implies #[trigger] pre1[a] != #[trigger] pre1[b] by {
                    if b < k {
                        assert(pre1[a] == pre0[a] && pre1[b] == pre0[b]);
                    } else {
                        assert(pre1[a] == pre0[a]);
                    }
                }
                assert forall|a: int| 0 <= a < pre1.len() implies #[trigger] col@[pre1[a] as int] == col@[a] by {
                    if a < k {
                        assert(pre1[a] == pre0[a]);
                    }
                }
                assert(partial_map_ok(*g, col@, pre1, i as int, j as int));
            }
            assert(pre@.len() == k + 1);
            let found = extend_map(g, col, pre, i, j);
            pre.pop();
            proof {
                assert(pre@ =~= pre0);
            }
            if found {
                proof {
                    let p = choose|p: Seq<usize>| #[trigger] extends_map(*g, col@, p, pre1, i as int, j as int);
                    assert(p.take(k as int) =~= pre1.take(k as int));
                    assert(pre1.take(k as int) =~= pre0);
                    assert(extends_map(*g, col@, p, pre0, i as int, j as int));
                }
                return true;
            }
            proof {
                assert forall|p: Seq<usize>| #[trigger] extends_map(*g, col@, p, pre0, i as int, j as int) implies p[k as int]
                    >= v + 1 by {
                    if p[k as int] == v {
                        assert(p.take(k + 1) =~= pre1);
                        assert(extends_map(*g, col@, p, pre1, i as int, j as int));
                    }
                }
            }
        } else {
            proof {
                assert forall|p: Seq<usize>| #[trigger] extends_map(*g, col@, p, pre0, i as int, j as int) implies p[k as int]
                    >= v + 1 by {
                    if p[k as int] == v {
                        assert forall|a: int| 0 <= a < k implies #[trigger] pre0[a] == p[a] by {
                            assert(p.take(k as int)[a] == p[a]);
                        }
                        assert forall|a: int| 0 <= a < k implies #[trigger] pre0[a] != v by {
                            assert(p[a] == pre0[a]);
                        }
                        assert forall|a: int| 0 <= a < k implies #[trigger] g.adj(pre0[a] as int, v as int) == g.adj(
                            a,
                            k as int,
                        ) && g.adj(v as int, pre0[a] as int) == g.adj(k as int, a) by {
                            assert(p[a] == pre0[a]);
                        }
                        assert(false);
                    }
                }
            }
        }
        v = v + 1;
    }
    proof {
        assert forall|p: Seq<usize>| #[trigger] extends_map(*g, col@, p, pre0, i as int, j as int) implies false by {
            assert(p[k as int] < n);
        }
    }
    false
}

/// The orbits of the automorphism group of `g` that keeps the colours
/// `col`: entry `i` is the least vertex in the orbit of `i`.
pub fn orbits_of(g: &Graph, col: &Vec<usize>) -> (r: Vec<usize>)
    requires
        g.wf(),
        col@.len() == g.num_vertices(),
    ensures
        r@.len() == g.num_vertices(),
        forall|i: int| 0 <= i < g.num_vertices() ==> #[trigger] least_in_orbit(*g, col@, i, r@[i] as int),
{
    let n = g.n();
    let mut orbits: Vec<usize> = Vec::new();
    let mut i: usize = 0;
    while i < n
        invariant
            g.wf(),
            n == g.num_vertices(),
            col@.len() == n,
            i <= n,
            orbits@.len() == i,
            forall|x: int| 0 <= x < i ==> #[trigger] least_in_orbit(*g, col@, x, orbits@[x] as int),
        decreases n - i,
    {
        let mut j: usize = 0;
        loop
            invariant
                g.wf(),
                n == g.num_vertices(),
                col@.len() == n,
                i < n,
                j <= i,
                forall|k: int| 0 <= k < j ==> !#[trigger] same_orbit(*g, col@, i as int, k),
            ensures
                j <= i,
                least_in_orbit(*g, col@, i as int, j as int),
            decreases i - j,
        {
            if j == i {
                proof {
                    lemma_identity_automorphism(*g, col@);
                    let id = Seq::new(n as nat, |x: int| x as usize);
                    assert(id[i as int] == i);
                    assert(same_orbit(*g, col@, i as int, i as int));
                }
                break;
            }
            let mut pre: Vec<usize> = Vec::new();
            proof {
                assert(partial_map_ok(*g, col@, pre@, i as int, j as int));
            }
            if extend_map(g, col, &mut pre, i, j) {
                proof {
                    let p = choose|p: Seq<usize>| #[trigger] extends_map(*g, col@, p, Seq::<usize>::empty(), i as int, j as int);
                    assert(same_orbit(*g, col@, i as int, j as int));
                }
                break;
            }
            proof {
                assert forall|p: Seq<usize>| #[trigger] colour_automorphism(*g, col@, p) && p[i as int] == j implies false by {
                    assert(p.take(0) =~= Seq::<usize>::empty());
                    assert(extends_map(*g, col@, p, Seq::<usize>::empty(), i as int, j as int));
                }
            }
            j = j + 1;
        }
        let ghost before = orbits@;
        orbits.push(j);
        proof {
            assert forall|x: int| 0 <= x < i + 1 implies #[trigger] least_in_orbit(*g, col@, x, orbits@[x] as int) by {
                if x < i {
                    assert(orbits@[x] == before[x]);
                }
            }
        }
        i = i + 1;
    }
    orbits
}

} // verus!
