//! The state of the generation of graphs by extension, vertex by vertex.
use crate::level_data::{card_set_lt, first_card_at_least, popcount, usize_count_ones, xsets_made, LevelData};
use crate::nauty::NautyCounter;
use vstd::arithmetic::power2::{lemma_pow2_pos, lemma_pow2_unfold, pow2};
use vstd::prelude::*;

verus! {

/// The extension state: the limits, the counts of nodes at each level and
/// the level data.
pub struct Extender {
    pub maxn: usize,
    pub mindeg: usize,
    pub connec: u8,
    pub nodes: Vec<NautyCounter>,
    pub data: Vec<LevelData>,
}

/// The set word holding vertex `i` alone.
pub fn xbit(i: usize) -> (r: usize)
    requires
        i < usize::BITS,
    ensures
        r == pow2(i as nat),
{
    proof {
        vstd::bits::lemma_usize_pow2_no_overflow(i as nat);
        vstd::bits::lemma_usize_shl_is_mul(1, i);
    }
    1 << i
}

/// The set word with bit `i` set for each vertex `i < n` of degree `v`.
pub open spec fn degree_word(deg: Seq<usize>, n: int, v: int) -> nat
    decreases n,
{
    if n <= 0 {
        0
    } else {
        degree_word(deg, n - 1, v) + if deg[n - 1] == v {
            pow2((n - 1) as nat)
        } else {
            0nat
        }
    }
}

/// A degree word over `n` vertices is below `2^n`.
pub proof fn lemma_degree_word_bound(deg: Seq<usize>, n: int, v: int)
    requires
        0 <= n,
    ensures
        degree_word(deg, n, v) < pow2(n as nat),
    decreases n,
{
    lemma_pow2_pos(n as nat);
    if n > 0 {
        lemma_degree_word_bound(deg, n - 1, v);
        lemma_pow2_unfold(n as nat);
    }
}

/// Setting bit `i` of a word below `2^i` adds `2^i`.
proof fn lemma_or_high_bit(w: usize, i: usize)
    requires
        i < usize::BITS,
        w < pow2(i as nat),
    ensures
        w | (1usize << i) == w + pow2(i as nat),
        w + pow2(i as nat) <= usize::MAX,
{
    vstd::bits::lemma_usize_pow2_no_overflow(i as nat);
    vstd::bits::lemma_usize_shl_is_mul(1, i);
    let b: usize = 1usize << i;
    assert(w < b ==> w | b == w + b) by (bit_vector)
        requires
            i < usize::BITS,
            b == 1usize << i,
    ;
    lemma_pow2_unfold((i + 1) as nat);
    vstd::bits::lemma_usize_pow2_no_overflow(i as nat);
}

/// Vertex `u` is in the set word `x`.
pub open spec fn holds(x: usize, u: int) -> bool {
    x & (1usize << (u as usize)) != 0
}

/// The bits of a degree word: vertex `u < m` is in it exactly when its
/// degree is `v`. So a word `x` meets it exactly when `x` holds such a
/// vertex, and it lies within `x` exactly when `x` holds all of them.
pub proof fn lemma_degree_word_bits(deg: Seq<usize>, m: int, v: int, x: usize)
    requires
        0 <= m <= usize::BITS,
        m <= deg.len(),
    ensures
        degree_word(deg, m, v) <= usize::MAX,
        (x & (degree_word(deg, m, v) as usize) == 0) <==> (forall|u: int|
            0 <= u < m && deg[u] == v ==> !#[trigger] holds(x, u)),
        ((degree_word(deg, m, v) as usize) & !x == 0) <==> (forall|u: int|
            0 <= u < m && deg[u] == v ==> #[trigger] holds(x, u)),
    decreases m,
{
    if m == 0 {
        assert(x & 0usize == 0) by (bit_vector);
        assert(0usize & !x == 0) by (bit_vector);
    } else {
        let k = (m - 1) as usize;
        lemma_degree_word_bits(deg, m - 1, v, x);
        lemma_degree_word_bound(deg, m - 1, v);
        let w = degree_word(deg, m - 1, v) as usize;
        lemma_or_high_bit(w, k);
        let b: usize = 1usize << k;
        vstd::bits::lemma_usize_pow2_no_overflow(k as nat);
        vstd::bits::lemma_usize_shl_is_mul(1, k);
        assert((x & (w | b) == 0) <==> (x & w == 0 && x & b == 0)) by (bit_vector);
        assert(((w | b) & !x == 0) <==> (w & !x == 0 && x & b != 0)) by (bit_vector)
            requires
                b == 1usize << k,
                k < usize::BITS,
        ;
        if deg[m - 1] == v {
            assert(degree_word(deg, m, v) == w + pow2(k as nat));
            assert(degree_word(deg, m, v) as usize == w | b);
            if x & (w | b) == 0 {
                assert forall|u: int| 0 <= u < m && deg[u] == v implies !#[trigger] holds(x, u) by {
                    if u == m - 1 {
                        assert(holds(x, u) == (x & b != 0));
                    }
                }
            }
            if forall|u: int| 0 <= u < m && deg[u] == v ==> !#[trigger] holds(x, u) {
                assert(!holds(x, m - 1));
            }
            if (w | b) & !x == 0 {
                assert forall|u: int| 0 <= u < m && deg[u] == v implies #[trigger] holds(x, u) by {
                    if u == m - 1 {
                        assert(holds(x, u) == (x & b != 0));
                    }
                }
            }
            if forall|u: int| 0 <= u < m && deg[u] == v ==> #[trigger] holds(x, u) {
                assert(holds(x, m - 1));
            }
        } else {
            assert(degree_word(deg, m, v) == w);
        }
    }
}

/// The number of vertices `u < m` of degree `v`.
pub open spec fn count_degree(deg: Seq<usize>, m: int, v: int) -> nat
    decreases m,
{
    if m <= 0 {
        0
    } else {
        count_degree(deg, m - 1, v) + if deg[m - 1] == v {
            1nat
        } else {
            0nat
        }
    }
}

/// Adding a bit above all the others adds one to the number of ones.
proof fn lemma_popcount_high_bit(w: nat, k: nat)
    requires
        w < pow2(k),
    ensures
        popcount(w + pow2(k)) == popcount(w) + 1,
    decreases k,
{
    lemma_pow2_pos(k);
    if k == 0 {
        vstd::arithmetic::power2::lemma2_to64();
        assert(w == 0);
        assert(popcount(1) == 1nat % 2 + popcount(0));
    } else {
        lemma_pow2_unfold(k);
        let h = pow2((k - 1) as nat);
        assert((w + pow2(k)) % 2 == w % 2 && (w + pow2(k)) / 2 == w / 2 + h) by (nonlinear_arith)
            requires
                pow2(k) == 2 * h,
        ;
        assert(w / 2 < h) by (nonlinear_arith)
            requires
                w < 2 * h,
        ;
        lemma_popcount_high_bit(w / 2, (k - 1) as nat);
        if w == 0 {
            assert(popcount(0) == 0);
            assert(w + pow2(k) > 0);
        }
    }
}

/// The degree word of the vertices `u < m` of degree `v` has one one for
/// each of them.
pub proof fn lemma_degree_word_count(deg: Seq<usize>, m: int, v: int)
    requires
        0 <= m,
    ensures
        popcount(degree_word(deg, m, v)) == count_degree(deg, m, v),
    decreases m,
{
    if m > 0 {
        lemma_degree_word_count(deg, m - 1, v);
        if deg[m - 1] == v {
            lemma_degree_word_bound(deg, m - 1, v);
            lemma_popcount_high_bit(degree_word(deg, m - 1, v), (m - 1) as nat);
        }
    }
}

impl Extender {
    /// The degree of the last vertex, `deg[n - 1]`, which the extension
    /// step takes as the top degree.
    pub open spec fn top_degree(deg: Seq<usize>, n: int) -> int {
        deg[n - 1] as int
    }

    /// The vertices of top degree, as a set word.
    pub open spec fn dmax_word(deg: Seq<usize>, n: int) -> usize {
        degree_word(deg, n, Self::top_degree(deg, n)) as usize
    }

    /// The vertices whose degree is so low that, with one vertex added at
    /// each remaining level, they only reach `mindeg` if every new vertex is
    /// joined to them.
    pub open spec fn critical_word(&self, deg: Seq<usize>, n: int) -> usize {
        degree_word(deg, n, self.mindeg + n - self.maxn) as usize
    }

    /// The lower bound on the degree of the new vertex: `xlb`, raised by one
    /// when it equals the top degree and the new vertex could not avoid
    /// raising a vertex of top degree past it, and raised to `mindeg` at the
    /// last level.
    pub open spec fn raised_xlb(&self, deg: Seq<usize>, n: int, xlb: int) -> int {
        let dmax = Self::top_degree(deg, n);
        let x1 = if xlb == dmax && popcount(Self::dmax_word(deg, n) as nat) + dmax > n {
            xlb + 1
        } else {
            xlb
        };
        if n + 1 == self.maxn && x1 < self.mindeg {
            self.mindeg as int
        } else {
            x1
        }
    }

    /// Whether x-set `i` of level `n` is tried as the neighbourhood of the
    /// new vertex: it is the representative of its orbit (unless the graph
    /// is rigid), it avoids the vertices of top degree if its size equals
    /// the top degree, and it holds every critical vertex.
    pub open spec fn is_candidate(&self, deg: Seq<usize>, n: int, rigid: bool, i: int) -> bool {
        let ld = self.data@[n];
        let x = ld.x_set_card@[i].set;
        let xc = ld.x_set_card@[i].card;
        &&& rigid || ld.xorb@[i] == i
        &&& !(xc == Self::top_degree(deg, n) && x & Self::dmax_word(deg, n) != 0)
        &&& self.critical_word(deg, n) & !x == 0
    }

    /// The flag handed on with x-set `i`: whether the new vertex's degree
    /// will be above the top degree of the others afterwards.
    pub open spec fn raises_top(&self, deg: Seq<usize>, n: int, i: int) -> bool {
        let ld = self.data@[n];
        let x = ld.x_set_card@[i].set;
        let xc = ld.x_set_card@[i].card as int;
        let dmax = Self::top_degree(deg, n);
        xc > dmax + 1 || (xc == dmax + 1 && x & Self::dmax_word(deg, n) == 0)
    }

    /// The flag handed with x-set `i` of level `n`, of set `x` and size
    /// `xc`: with `dmax = deg[n - 1]`, it holds exactly when `xc > dmax + 1`,
    /// or `xc == dmax + 1` and `x` holds no vertex `u < n` of degree `dmax`.
    pub proof fn lemma_raises_top_exact(&self, deg: Seq<usize>, n: int, i: int)
        requires
            1 <= n <= usize::BITS,
            n <= deg.len(),
            n < self.data@.len(),
            0 <= i < self.data@[n].x_set_card@.len(),
        ensures
            ({
                let x = self.data@[n].x_set_card@[i].set;
                let xc = self.data@[n].x_set_card@[i].card as int;
                let dmax = deg[n - 1] as int;
                self.raises_top(deg, n, i) <==> (xc > dmax + 1 || (xc == dmax + 1 && forall|u: int|
                    0 <= u < n && deg[u] == dmax ==> !#[trigger] holds(x, u)))
            }),
    {
        let x = self.data@[n].x_set_card@[i].set;
        lemma_degree_word_bits(deg, n, deg[n - 1] as int, x);
        assert(x & Self::dmax_word(deg, n) == x & (degree_word(deg, n, deg[n - 1] as int) as usize));
    }

    /// The flag handed with an x-set says whether the new vertex ends up
    /// alone at the top: when `deg[n - 1]` is the largest degree of the `n`
    /// old vertices, it holds exactly when, once the new vertex is joined to
    /// the vertices of the x-set, every old vertex has a smaller degree than
    /// the new one (whose degree is the x-set's size).
    pub proof fn lemma_raises_top_new_vertex_on_top(&self, deg: Seq<usize>, n: int, i: int)
        requires
            1 <= n <= usize::BITS,
            n <= deg.len(),
            forall|u: int| 0 <= u < n ==> #[trigger] deg[u] <= deg[n - 1],
            n < self.data@.len(),
            0 <= i < self.data@[n].x_set_card@.len(),
        ensures
            ({
                let x = self.data@[n].x_set_card@[i].set;
                let xc = self.data@[n].x_set_card@[i].card as int;
                self.raises_top(deg, n, i) <==> forall|u: int|
                    0 <= u < n ==> #[trigger] deg[u] + (if holds(x, u) {
                        1int
                    } else {
                        0
                    }) < xc
            }),
    {
        self.lemma_raises_top_exact(deg, n, i);
        let x = self.data@[n].x_set_card@[i].set;
        let xc = self.data@[n].x_set_card@[i].card as int;
        let dmax = deg[n - 1] as int;
        if forall|u: int| 0 <= u < n ==> #[trigger] deg[u] + (if holds(x, u) {
            1int
        } else {
            0
        }) < xc {
            assert(deg[n - 1] + (if holds(x, n - 1) {
                1int
            } else {
                0
            }) < xc);
            if xc == dmax + 1 {
                assert forall|u: int| 0 <= u < n && deg[u] == dmax implies !#[trigger] holds(x, u) by {
                    assert(deg[u] + (if holds(x, u) {
                        1int
                    } else {
                        0
                    }) < xc);
                }
            }
        }
    }

    /// Every x-set tried holds each old vertex `u < n` of degree
    /// `mindeg + n - maxn`: such a vertex only reaches `mindeg` if every
    /// new vertex, this one included, is joined to it. When its size is the
    /// top degree `deg[n - 1]`, it holds no vertex of that degree. And unless
    /// the graph is rigid, it is the representative of its orbit.
    pub proof fn lemma_candidate_holds_critical(&self, deg: Seq<usize>, n: int, rigid: bool, i: int)
        requires
            1 <= n <= usize::BITS,
            n <= deg.len(),
            n < self.data@.len(),
            0 <= i < self.data@[n].x_set_card@.len(),
            self.is_candidate(deg, n, rigid, i),
        ensures
            ({
                let x = self.data@[n].x_set_card@[i].set;
                let xc = self.data@[n].x_set_card@[i].card as int;
                &&& forall|u: int| 0 <= u < n && deg[u] == self.mindeg + n - self.maxn ==> #[trigger] holds(x, u)
                &&& xc == deg[n - 1] ==> forall|u: int|
                    0 <= u < n && deg[u] == deg[n - 1] ==> !#[trigger] holds(x, u)
                &&& !rigid ==> self.data@[n].xorb@[i] == i
            }),
    {
        let x = self.data@[n].x_set_card@[i].set;
        lemma_degree_word_bits(deg, n, self.mindeg + n - self.maxn, x);
        lemma_degree_word_bits(deg, n, deg[n - 1] as int, x);
    }

    /// The lower bound on the new vertex's degree is never lowered; at the
    /// last level it is at least `mindeg`. Past that, it is raised from `xlb`
    /// by one exactly when `xlb` is the top degree `deg[n - 1]` and fewer
    /// than `deg[n - 1]` of the `n` vertices have a degree other than it: a
    /// new vertex of that degree could not be joined only to vertices below
    /// the top degree.
    pub proof fn lemma_raised_xlb(&self, deg: Seq<usize>, n: int, xlb: int)
        requires
            1 <= n <= usize::BITS,
            n <= deg.len(),
        ensures
            ({
                let r = self.raised_xlb(deg, n, xlb);
                let dmax = deg[n - 1] as int;
                let others = n - count_degree(deg, n, dmax);
                let x1 = if xlb == dmax && others < dmax {
                    xlb + 1
                } else {
                    xlb
                };
                &&& xlb <= r
                &&& n + 1 == self.maxn ==> self.mindeg <= r
                &&& r == if n + 1 == self.maxn && x1 < self.mindeg {
                    self.mindeg as int
                } else {
                    x1
                }
            }),
    {
        lemma_degree_word_count(deg, n, deg[n - 1] as int);
        lemma_degree_word_bits(deg, n, deg[n - 1] as int, 0);
        assert(Self::dmax_word(deg, n) as nat == degree_word(deg, n, deg[n - 1] as int));
    }

    /// When the x-set tables of level `n` are made (as `make` makes them)
    /// and the bounds lie within the sizes of the x-sets, the x-sets in the
    /// range that `genextend` tries are exactly those whose size lies
    /// between the raised lower bound and `xub`.
    pub proof fn lemma_x_range_sizes(&self, deg: Seq<usize>, n: int, xlb: int, xub: int, maxdeg: nat)
        requires
            0 <= n < self.data@.len(),
            xsets_made(self.data@[n], n as nat, maxdeg),
            0 <= self.raised_xlb(deg, n, xlb) <= xub + 1,
            xub + 1 <= self.data@[n].x_set_card@.last().card + 1,
        ensures
            ({
                let (imin, imax) = self.x_range(deg, n, xlb, xub);
                let s = self.data@[n].x_set_card@;
                forall|i: int|
                    0 <= i < s.len() ==> (imin <= i < imax <==> self.raised_xlb(deg, n, xlb) <= #[trigger] s[i].card
                        <= xub)
            }),
    {
        let d = self.data@[n];
        let s = d.x_set_card@;
        let lo = self.raised_xlb(deg, n, xlb);
        let imin = d.xstart@[lo] as int;
        let imax = d.xstart@[xub + 1] as int;
        assert(first_card_at_least(s, lo, imin));
        assert(first_card_at_least(s, xub + 1, imax));
        assert forall|i: int| 0 <= i < s.len() implies (imin <= i < imax <==> lo <= #[trigger] s[i].card <= xub) by {
            if imin < s.len() && imin < i {
                assert(card_set_lt(s[imin], s[i]));
            }
            if imax < s.len() && imax < i {
                assert(card_set_lt(s[imax], s[i]));
            }
        }
    }

    /// The first and the last-plus-one index of the x-sets tried at level
    /// `n`, for sizes from the raised lower bound to `xub`.
    pub open spec fn x_range(&self, deg: Seq<usize>, n: int, xlb: int, xub: int) -> (int, int) {
        let ld = self.data@[n];
        (
            ld.xstart@[self.raised_xlb(deg, n, xlb)] as int,
            ld.xstart@[xub + 1] as int,
        )
    }

    /// One step of the extension of a graph on `n` vertices, whose degrees
    /// are `deg`, by one vertex: counts the node, raises the lower bound
    /// `xlb` on the new vertex's degree, and, at the last level, picks the
    /// x-sets of sizes `xlb` to `xub` that are tried as the new vertex's
    /// neighbourhood. Returns them in increasing order of index, each with
    /// the flag that the acceptance test takes along; at other levels, or
    /// when the bounds cross, nothing is picked.
    pub fn genextend(
        &mut self,
        n: usize,
        deg: &[usize],
        rigid: bool,
        xlb: usize,
        xub: usize,
    ) -> (r: Vec<(usize, bool)>)
        requires
            1 <= n <= usize::BITS,
            n <= deg@.len(),
            n < old(self).nodes@.len(),
            old(self).nodes@[n as int] < u128::MAX,
            old(self).raised_xlb(deg@, n as int, xlb as int) <= xub ==> n < old(self).data@.len(),
            xlb == deg@[n - 1] ==> xlb < usize::MAX,
            old(self).raised_xlb(deg@, n as int, xlb as int) <= xub ==> xub + 1 < old(
                self,
            ).data@[n as int].xstart@.len(),
            ({
                let (imin, imax) = old(self).x_range(deg@, n as int, xlb as int, xub as int);
                let ld = old(self).data@[n as int];
                old(self).raised_xlb(deg@, n as int, xlb as int) <= xub && n + 1 == old(self).maxn
                    && imin < imax ==> imax <= ld.x_set_card@.len() && (!rigid ==> imax
                    <= ld.xorb@.len())
            }),
        ensures
            final(self).maxn == old(self).maxn,
            final(self).mindeg == old(self).mindeg,
            final(self).connec == old(self).connec,
            final(self).data@ == old(self).data@,
            final(self).nodes@ == old(self).nodes@.update(n as int, (old(self).nodes@[n as int] + 1) as u128),
            old(self).raised_xlb(deg@, n as int, xlb as int) > xub || n + 1 != old(self).maxn ==> r@.len() == 0,
            ({
                let (imin, imax) = old(self).x_range(deg@, n as int, xlb as int, xub as int);
                &&& forall|k: int|
                    0 <= k < r@.len() ==> imin <= (#[trigger] r@[k]).0 < imax
                        && old(self).is_candidate(deg@, n as int, rigid, r@[k].0 as int)
                        && r@[k].1 == old(self).raises_top(deg@, n as int, r@[k].0 as int)
                &&& forall|j: int, k: int| 0 <= j < k < r@.len() ==> r@[j].0 < r@[k].0
                &&& old(self).raised_xlb(deg@, n as int, xlb as int) <= xub && n + 1 == old(self).maxn
                    ==> forall|i: int|
                    imin <= i < imax && #[trigger] old(self).is_candidate(deg@, n as int, rigid, i)
                        ==> exists|k: int| 0 <= k < r@.len() && r@[k].0 == i
            }),
    {
        let c = self.nodes[n];
        self.nodes.set(n, c + 1);
        assert(self.maxn == old(self).maxn && self.mindeg == old(self).mindeg);
        assert(self.data@ == old(self).data@);
        let nx = n + 1;
        let dmax = deg[n - 1];
        let ghost crit: int = self.mindeg + n - self.maxn;
        let dcrit: Option<usize> = if self.maxn > n {
            let gap = self.maxn - n;
            if self.mindeg >= gap {
                Some(self.mindeg - gap)
            } else {
                None
            }
        } else {
            self.mindeg.checked_add(n - self.maxn)
        };
        assert(dcrit matches Some(v) ==> v == crit);
        assert(dcrit is None ==> crit < 0 || crit > usize::MAX);
        let mut d: usize = 0;
        let mut dlow: usize = 0;
        let mut i: usize = 0;
        while i < n
            invariant
                i <= n <= usize::BITS,
                n <= deg@.len(),
                dmax == deg@[n - 1],
                dcrit matches Some(v) ==> v == crit,
                dcrit is None ==> crit < 0 || crit > usize::MAX,
                d == degree_word(deg@, i as int, dmax as int),
                dlow == degree_word(deg@, i as int, crit),
            decreases n - i,
        {
            proof {
                lemma_degree_word_bound(deg@, i as int, dmax as int);
                lemma_degree_word_bound(deg@, i as int, crit);
                lemma_or_high_bit(d, i);
                lemma_or_high_bit(dlow, i);
            }
            let b = xbit(i);
            proof {
                vstd::bits::lemma_usize_shl_is_mul(1, i);
            }
            if deg[i] == dmax {
                d = d | b;
            }
            let is_crit = match dcrit {
                Some(v) => deg[i] == v,
                None => false,
            };
            if is_crit {
                dlow = dlow | b;
            }
            i = i + 1;
        }
        let cnt = usize_count_ones(d);
        let xlb0 = xlb;
        let mut xlb = xlb;
        if xlb == dmax && (dmax > n || (cnt as usize) > n - dmax) {
            xlb = xlb + 1;
        }
        if nx == self.maxn && xlb < self.mindeg {
            xlb = self.mindeg;
        }
        assert(xlb == self.raised_xlb(deg@, n as int, xlb0 as int));
        let mut r: Vec<(usize, bool)> = Vec::new();
        if xlb > xub {
            return r;
        }
        let ld = &self.data[n];
        proof {
            assert(ld.xstart@.len() == ld.xstart.len());
        }
        let imin = ld.xstart[xlb];
        let imax = ld.xstart[xub + 1];
        if nx == self.maxn {
            let mut i: usize = imin;
            while i < imax
                invariant
                    imin <= i,
                    imin < imax ==> i <= imax,
                    imin >= imax ==> i == imin,
                    imin < imax ==> imax <= ld.x_set_card@.len() && (!rigid ==> imax <= ld.xorb@.len()),
                    *ld == self.data@[n as int],
                    n < self.data@.len(),
                    1 <= n <= deg@.len(),
                    dmax == deg@[n - 1],
                    d == Self::dmax_word(deg@, n as int),
                    dlow == self.critical_word(deg@, n as int),
                    forall|k: int|
                        0 <= k < r@.len() ==> imin <= (#[trigger] r@[k]).0 < i
                            && self.is_candidate(deg@, n as int, rigid, r@[k].0 as int)
                            && r@[k].1 == self.raises_top(deg@, n as int, r@[k].0 as int),
                    forall|j: int, k: int| 0 <= j < k < r@.len() ==> r@[j].0 < r@[k].0,
                    forall|j: int|
                        imin <= j < i && #[trigger] self.is_candidate(deg@, n as int, rigid, j)
                            ==> exists|k: int| 0 <= k < r@.len() && r@[k].0 == j,
                decreases imax - i,
            {
                let other_orbit = !rigid && ld.xorb[i] != i;
                if !other_orbit {
                    let x = ld.xset(i);
                    let xc = ld.xcard(i);
                    if !(xc == dmax && (x & d) != 0) && (dlow & !x) == 0 {
                        let flag = xc > dmax && (xc - dmax > 1 || (x & d) == 0);
                        let ghost r0 = r@;
                        r.push((i, flag));
                        proof {
                            assert(r@[r@.len() - 1].0 == i);
                            assert forall|j: int|
                                imin <= j < i + 1 && #[trigger] self.is_candidate(deg@, n as int, rigid, j)
                                implies exists|k: int| 0 <= k < r@.len() && r@[k].0 == j by {
                                if j < i {
                                    let k0 = choose|k: int| 0 <= k < r0.len() && r0[k].0 == j;
                                    assert(r@[k0].0 == j);
                                } else {
                                    assert(r@[r@.len() - 1].0 == j);
                                }
                            }
                        }
                    }
                }
                i = i + 1;
            }
            assert(imin < imax ==> i == imax);
            assert(imin >= imax ==> r@.len() == 0) by {
                if imin >= imax && r@.len() > 0 {
                    assert(imin <= r@[0].0 < i);
                }
            }
        }
        assert((imin as int, imax as int) == old(self).x_range(deg@, n as int, xlb0 as int, xub as int));
        assert forall|k: int| 0 <= k < r@.len() implies old(self).is_candidate(deg@, n as int, rigid, (#[trigger] r@[k]).0 as int) by {
            assert(self.is_candidate(deg@, n as int, rigid, r@[k].0 as int));
        }
        assert forall|i: int|
            n + 1 == old(self).maxn && imin <= i < imax && #[trigger] old(self).is_candidate(
                deg@,
                n as int,
                rigid,
                i,
            ) implies exists|k: int| 0 <= k < r@.len() && r@[k].0 == i by {
            assert(self.is_candidate(deg@, n as int, rigid, i));
        }
        r
    }
}

} // verus!
