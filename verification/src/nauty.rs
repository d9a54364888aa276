//! Graphs as rows of vertex sets, after nauty's `nauty.h`: row `i` holds the
//! vertices adjacent to vertex `i`.
pub mod bitset;
pub mod graphs;
pub mod orbits;
pub mod partition_nest;
pub mod vec_map;

use crate::graph6::{body_len_fits, size_encodable};
use crate::gtools::g6char::G6Char;
use crate::gtools::g6error::G6Error;
use crate::gtools::g6string::{
    ascii_chars, body_chars_read, body_readable, readable_byte, decoded_adj, graph_size, lemma_graph6_ascii, lemma_pop_bit,
    size_header_ascii, spec_graph6, spec_graph_size, G6String,
};
use vstd::arithmetic::power2::pow2;
use vstd::utf8::encode_utf8;
use crate::nauty::bitset::{
    bit, count_true, lemma_count_true_bounds, lemma_count_true_set, lemma_first_true,
    max_bits, seq_and, seq_not, BitSet, SetTrait,
};
use crate::nauty::orbits::{cells_before, holds_vertex, least_in_orbit, lemma_labels_cover, orbits_of, vertex_colours};
use crate::nauty::partition_nest::is_permutation;
use vstd::prelude::*;

verus! {

/// Bits in a set word.
pub const WORDSIZE: usize = usize::BITS as usize;

/// nauty's stand-in for infinity in `ptn`: larger than every level.
pub const NAUTY_INFINITY: usize = 2_000_000_002;

/// A graph: row `i` is the set of the vertices adjacent to vertex `i`.
#[derive(PartialEq, Debug)]
pub struct Graph(pub Vec<BitSet>);

/// The working state of a nauty search.
#[derive(Default)]
pub struct NautyEnv {
    /// temporary versions of some stats:
    pub invapplics: usize,
    pub invsuccesses: usize,
    pub invarsuclevel: usize,
    /// level of greatest ancestor for which cheapautom==FALSE
    pub noncheaplevel: usize,
    /// level to which codes for this node match those for the bsf leaf.
    pub eqlev_canon: isize,
    /// used to flag calls to shortprune
    pub needshortprune: bool,
    pub workperm: Vec<usize>,
    pub active: Vec<BitSet>,
    /// work area to hold automorphism data
    pub workspace: Vec<BitSet>,
}

/// Counters of search nodes.
pub type NautyCounter = u128;

impl Graph {
    /// Number of vertices: the number of rows.
    pub open spec fn num_vertices(self) -> nat {
        self.0@.len()
    }

    /// Whether `j` is in the row of `i`.
    pub open spec fn adj(self, i: int, j: int) -> bool {
        self.0@[i]@[j]
    }

    /// Every row has one bit per vertex.
    pub open spec fn wf(self) -> bool {
        forall|i: int| 0 <= i < self.num_vertices() ==> #[trigger] self.0@[i]@.len()
            == self.num_vertices()
    }

    /// An undirected graph: adjacency is symmetric and no vertex is adjacent
    /// to itself.
    pub open spec fn is_simple(self) -> bool {
        &&& self.wf()
        &&& forall|i: int, j: int|
            0 <= i < self.num_vertices() && 0 <= j < self.num_vertices() ==> #[trigger] self.adj(
                i,
                j,
            ) == self.adj(j, i)
        &&& forall|i: int| 0 <= i < self.num_vertices() ==> !#[trigger] self.adj(i, i)
    }

    /// The graph with one vertex and no edge.
    pub fn one() -> (r: Self)
        ensures
            r.num_vertices() == 1,
            r.wf(),
            !r.adj(0, 0),
    {
        let mut rows: Vec<BitSet> = Vec::new();
        rows.push(BitSet::zeros(1));
        Graph(rows)
    }

    /// The graph with `vertex_count` vertices and no edge.
    pub fn no_edge(vertex_count: usize) -> (r: Self)
        requires
            vertex_count <= max_bits(),
        ensures
            r.num_vertices() == vertex_count,
            r.wf(),
            forall|i: int, j: int|
                0 <= i < vertex_count && 0 <= j < vertex_count ==> !#[trigger] r.adj(i, j),
    {
        let mut rows: Vec<BitSet> = Vec::new();
        let mut i: usize = 0;
        while i < vertex_count
            invariant
                i <= vertex_count <= max_bits(),
                rows@.len() == i,
                forall|k: int| 0 <= k < i ==> #[trigger] rows@[k]@ == Seq::new(
                    vertex_count as nat,
                    |_j: int| false,
                ),
            decreases vertex_count - i,
        {
            rows.push(BitSet::zeros(vertex_count));
            i = i + 1;
        }
        Graph(rows)
    }

    /// Number of vertices.
    pub fn n(&self) -> (r: usize)
        ensures
            r == self.num_vertices(),
    {
        self.0.len()
    }

    /// The row of vertex `i`.
    pub fn get(&self, i: usize) -> (r: &BitSet)
        requires
            i < self.num_vertices(),
        ensures
            *r == self.0@[i as int],
    {
        &self.0[i]
    }

    /// The row of `i` filtered by its own shift by `i` (nauty's `masked`).
    pub fn upper(&self, i: usize) -> (r: BitSet)
        requires
            self.wf(),
            i < self.num_vertices(),
            self.num_vertices() <= max_bits(),
        ensures
            r@ == Seq::new(
                self.num_vertices(),
                |k: int| self.adj(i as int, k) && k >= i && self.adj(i as int, k - i),
            ),
    {
        self.0[i].masked(i)
    }

    /// The graph6 encoding of the graph, newline included (function `ntog6`
    /// of gtools).
    pub fn to_graph6(&self) -> (r: String)
        requires
            self.wf(),
            self.num_vertices() >= 1,
            body_len_fits(self.num_vertices() as int),
            size_encodable(self.num_vertices() as int),
            size_header_ascii(self.num_vertices() as int),
        ensures
            r@ == ascii_chars(spec_graph6(*self)),
    {
        proof {
            lemma_graph6_ascii(*self);
        }
        G6String::from(self).to_string()
    }

    /// Whether every vertex can be reached from the last one, following
    /// rows (for an undirected graph: whether it is connected).
    pub fn isconnected(&self) -> (r: bool)
        requires
            self.wf(),
            1 <= self.num_vertices() <= usize::BITS,
        ensures
            r == forall|v: int|
                0 <= v < self.num_vertices() ==> #[trigger] reachable(
                    *self,
                    self.num_vertices() - 1,
                    v,
                ),
    {
        let n = self.n();
        let ghost s = n - 1;
        let ghost b = usize::BITS as int;
        let allbits = BitSet::repeat_raw(true, n);
        let mut expanded = BitSet::one(n - 1);
        proof {
            lemma_reach_self(*self, s);
        }
        let mut seen = expanded.duplicate().or(&self.0[n - 1]);
        proof {
            let row = self.0@[s]@;
            assert(row.len() == n);
            assert forall|j: int| 0 <= j < b && #[trigger] seen@[j] implies j < n && reachable(
                *self,
                s,
                j,
            ) by {
                assert(seen@[j] == (expanded@[j] || (j < row.len() && row[j])));
                if j != s {
                    assert(row[j]);
                    lemma_reach_step(*self, s, s, j);
                }
            }
            assert forall|i: int, j: int|
                0 <= i < b && 0 <= j < n && #[trigger] expanded@[i] && #[trigger] self.adj(
                    i,
                    j,
                ) implies seen@[j] by {
                assert(i == s);
                assert(seen@[j] == (expanded@[j] || (j < row.len() && row[j])));
            }
        }
        let mut toexpand = seen.duplicate().and(&expanded.duplicate().not());
        while !seen.same_bits(&allbits) && toexpand.any()
            invariant
                self.wf(),
                n == self.num_vertices(),
                1 <= n <= usize::BITS,
                s == n - 1,
                b == usize::BITS,
                allbits@ == Seq::new(n as nat, |_k: int| true),
                expanded@.len() == b,
                seen@.len() == b,
                expanded@[s],
                forall|k: int| 0 <= k < b && #[trigger] expanded@[k] ==> seen@[k],
                forall|k: int| 0 <= k < b && #[trigger] seen@[k] ==> k < n && reachable(*self, s, k),
                forall|i: int, j: int|
                    0 <= i < b && 0 <= j < n && #[trigger] expanded@[i] && #[trigger] self.adj(i, j)
                        ==> seen@[j],
                toexpand@ == seq_and(seen@, seq_not(expanded@)),
            decreases b - count_true(expanded@),
        {
            let i = toexpand.leading_zeros();
            proof {
                lemma_first_true(toexpand@);
                lemma_bit_word_eq(i);
            }
            let ghost old_expanded = expanded@;
            expanded = expanded.or(&BitSet::one(i));
            proof {
                assert(expanded@ =~= old_expanded.update(i as int, true));
                lemma_count_true_set(old_expanded, i as int);
                lemma_count_true_bounds(expanded@);
            }
            let ghost old_seen = seen@;
            let ghost row = self.0@[i as int]@;
            seen = seen.or(&self.0[i]);
            proof {
                assert(row.len() == n);
                assert forall|k: int| 0 <= k < b && #[trigger] seen@[k] implies k < n && reachable(
                    *self,
                    s,
                    k,
                ) by {
                    assert(seen@[k] == (old_seen[k] || (k < row.len() && row[k])));
                    if !old_seen[k] {
                        assert(row[k]);
                        lemma_reach_step(*self, s, i as int, k);
                    }
                }
                assert forall|a: int, j: int|
                    0 <= a < b && 0 <= j < n && #[trigger] expanded@[a] && #[trigger] self.adj(
                        a,
                        j,
                    ) implies seen@[j] by {
                    assert(seen@[j] == (old_seen[j] || (j < row.len() && row[j])));
                    if a != i {
                        assert(old_expanded[a]);
                    }
                }
            }
            toexpand = seen.duplicate().and(&expanded.duplicate().not());
        }
        proof {
            if !(exists|k: int| 0 <= k < toexpand@.len() && toexpand@[k]) {
                assert forall|k: int| 0 <= k < seen@.len() && #[trigger] seen@[k] implies expanded@[k]
                    by {
                    assert(toexpand@[k] == (seen@[k] && !expanded@[k]));
                }
                assert forall|v: int| 0 <= v < n && reachable(*self, s, v) implies #[trigger] seen@[v]
                    by {
                    lemma_closed_contains_reachable(*self, s, v, seen@, expanded@);
                }
            }
        }
        let r = seen.prefix_equals(n, &allbits);
        proof {
            if r {
                assert forall|v: int| 0 <= v < n implies #[trigger] reachable(*self, s, v) by {
                    assert(seen@.subrange(0, n as int)[v] == allbits@[v]);
                }
            } else {
                if forall|v: int| 0 <= v < n ==> #[trigger] reachable(*self, s, v) {
                    if !(exists|k: int| 0 <= k < toexpand@.len() && toexpand@[k]) {
                        assert(seen@.subrange(0, n as int) =~= allbits@);
                    } else {
                        assert(seen@ =~= allbits@);
                        assert(seen@.subrange(0, n as int) =~= allbits@);
                    }
                }
            }
        }
        r
    }

    /// Whether every vertex but `x` can be reached from `s` along rows,
    /// through vertices other than `x` (with `x == n`, no vertex is left
    /// out).
    fn reaches_all_avoiding(&self, x: usize, s: usize) -> (r: bool)
        requires
            self.wf(),
            s < self.num_vertices(),
            s != x,
        ensures
            r == forall|v: int|
                0 <= v < self.num_vertices() && v != x ==> #[trigger] reachable_avoiding(
                    *self,
                    x as int,
                    s as int,
                    v,
                ),
    {
        let n = self.n();
        let mut seen: Vec<bool> = Vec::new();
        let mut expanded: Vec<bool> = Vec::new();
        let mut i: usize = 0;
        while i < n
            invariant
                i <= n,
                seen@.len() == i,
                expanded@.len() == i,
                forall|k: int| 0 <= k < i ==> !#[trigger] seen@[k],
                forall|k: int| 0 <= k < i ==> !#[trigger] expanded@[k],
            decreases n - i,
        {
            seen.push(false);
            expanded.push(false);
            i = i + 1;
        }
        seen.set(s, true);
        proof {
            lemma_avoid_self(*self, x as int, s as int);
        }
        loop
            invariant
                self.wf(),
                n == self.num_vertices(),
                s < n,
                s != x,
                seen@.len() == n,
                expanded@.len() == n,
                seen@[s as int],
                forall|k: int| 0 <= k < n && #[trigger] expanded@[k] ==> seen@[k],
                forall|k: int|
                    0 <= k < n && #[trigger] seen@[k] ==> k != x && reachable_avoiding(
                        *self,
                        x as int,
                        s as int,
                        k,
                    ),
                forall|a: int, j: int|
                    0 <= a < n && 0 <= j < n && j != x && #[trigger] expanded@[a] && #[trigger] self.adj(
                        a,
                        j,
                    ) ==> seen@[j],
            ensures
                seen@.len() == n,
                forall|a: int| 0 <= a < n && #[trigger] seen@[a] ==> expanded@[a],
                forall|k: int|
                    0 <= k < n && #[trigger] seen@[k] ==> k != x && reachable_avoiding(
                        *self,
                        x as int,
                        s as int,
                        k,
                    ),
                seen@[s as int],
                expanded@.len() == n,
                forall|a: int, j: int|
                    0 <= a < n && 0 <= j < n && j != x && #[trigger] expanded@[a] && #[trigger] self.adj(
                        a,
                        j,
                    ) ==> seen@[j],
            decreases n - count_true(expanded@),
        {
            let mut k: usize = 0;
            while k < n && !(seen[k] && !expanded[k])
                invariant
                    k <= n,
                    seen@.len() == n,
                    expanded@.len() == n,
                    forall|a: int| 0 <= a < k ==> !(#[trigger] seen@[a] && !expanded@[a]),
                decreases n - k,
            {
                k = k + 1;
            }
            if k == n {
                assert forall|a: int| 0 <= a < n && #[trigger] seen@[a] implies expanded@[a] by {
                    assert(!(seen@[a] && !expanded@[a]));
                }
                break;
            }
            let ghost old_expanded = expanded@;
            expanded.set(k, true);
            proof {
                lemma_count_true_set(old_expanded, k as int);
                lemma_count_true_bounds(expanded@);
            }
            let row = &self.0[k];
            assert(row@.len() == n);
            let ghost old_seen = seen@;
            let mut j: usize = 0;
            while j < n
                invariant
                    self.wf(),
                    n == self.num_vertices(),
                    k < n,
                    *row == self.0@[k as int],
                    row@.len() == n,
                    s < n,
                    s != x,
                    j <= n,
                    seen@.len() == n,
                    expanded@.len() == n,
                    expanded@[k as int],
                    seen@[k as int],
                    seen@[s as int],
                    forall|a: int| 0 <= a < n && old_seen[a] ==> #[trigger] seen@[a],
                    forall|a: int| 0 <= a < n && #[trigger] expanded@[a] ==> seen@[a],
                    forall|a: int|
                        0 <= a < n && #[trigger] seen@[a] ==> a != x && reachable_avoiding(
                            *self,
                            x as int,
                            s as int,
                            a,
                        ),
                    forall|a: int, b: int|
                        0 <= a < n && 0 <= b < n && b != x && a != k && #[trigger] expanded@[a]
                            && #[trigger] self.adj(a, b) ==> seen@[b],
                    forall|b: int| 0 <= b < j && b != x && #[trigger] self.adj(k as int, b) ==> seen@[b],
                    old_seen.len() == n,
                    forall|a: int, b: int|
                        0 <= a < n && 0 <= b < n && b != x && a != k && #[trigger] old_expanded[a]
                            && #[trigger] self.adj(a, b) ==> old_seen[b],
                    forall|a: int| 0 <= a < n && a != k ==> #[trigger] expanded@[a] == old_expanded[a],
                decreases n - j,
            {
                if j != x && row.get(j) {
                    proof {
                        lemma_avoid_step(*self, x as int, s as int, k as int, j as int);
                    }
                    seen.set(j, true);
                }
                j = j + 1;
            }
        }
        proof {
            assert forall|v: int|
                0 <= v < n && v != x && reachable_avoiding(*self, x as int, s as int, v) implies #[trigger] seen@[v] by {
                lemma_avoid_closed(*self, x as int, s as int, v, seen@, expanded@);
            }
        }
        let mut v: usize = 0;
        while v < n
            invariant
                v <= n,
                n == self.num_vertices(),
                seen@.len() == n,
                forall|a: int| 0 <= a < v && a != x ==> #[trigger] seen@[a],
                forall|a: int|
                    0 <= a < n && a != x ==> (#[trigger] seen@[a] <==> reachable_avoiding(
                        *self,
                        x as int,
                        s as int,
                        a,
                    )),
            decreases n - v,
        {
            if v != x && !seen[v] {
                assert(!reachable_avoiding(*self, x as int, s as int, v as int));
                return false;
            }
            v = v + 1;
        }
        assert forall|a: int| 0 <= a < n && a != x implies #[trigger] reachable_avoiding(
            *self,
            x as int,
            s as int,
            a,
        ) by {
            assert(seen@[a]);
        }
        true
    }

    /// Whether the graph is biconnected: it has at least three vertices,
    /// every vertex can be reached from vertex 0, and taking out any one
    /// vertex leaves the others reachable from one another.
    pub fn isbiconnected(&self) -> (r: bool)
        requires
            self.wf(),
        ensures
            r == biconnected(*self),
    {
        let n = self.n();
        if n <= 2 {
            return false;
        }
        let whole = self.reaches_all_avoiding(n, 0);
        proof {
            assert forall|v: int| 0 <= v < n implies #[trigger] reachable(*self, 0, v) == reachable_avoiding(*self, n as int, 0, v) by {
                lemma_avoid_outside(*self, 0, v);
            }
        }
        if !whole {
            assert(!(forall|v: int| 0 <= v < n ==> #[trigger] reachable(*self, 0, v))) by {
                let w = choose|v: int| !(0 <= v < n && v != n ==> #[trigger] reachable_avoiding(*self, n as int, 0, v));
                assert(reachable(*self, 0, w) == reachable_avoiding(*self, n as int, 0, w));
            }
            return false;
        }
        let mut x: usize = 0;
        while x < n
            invariant
                self.wf(),
                n == self.num_vertices(),
                3 <= n,
                x <= n,
                forall|u: int| 0 <= u < n ==> #[trigger] reachable(*self, 0, u),
                forall|y: int, v: int|
                    0 <= y < x && 0 <= v < n && v != y ==> #[trigger] reachable_avoiding(
                        *self,
                        y,
                        first_other(y),
                        v,
                    ),
            decreases n - x,
        {
            let s: usize = if x == 0 {
                1
            } else {
                0
            };
            if !self.reaches_all_avoiding(x, s) {
                assert(!biconnected(*self)) by {
                    let w = choose|v: int|
                        !(0 <= v < n && v != x ==> #[trigger] reachable_avoiding(
                            *self,
                            x as int,
                            s as int,
                            v,
                        ));
                    assert(first_other(x as int) == s);
                    assert(!reachable_avoiding(*self, x as int, first_other(x as int), w));
                }
                return false;
            }
            x = x + 1;
        }
        true
    }

    /// Sets whether `j` is in the row of `i`.
    pub fn set_adj(&mut self, i: usize, j: usize, value: bool)
        requires
            i < old(self).num_vertices(),
            j < old(self).0@[i as int]@.len(),
        ensures
            final(self).num_vertices() == old(self).num_vertices(),
            forall|a: int|
                0 <= a < old(self).num_vertices() && a != i ==> final(self).0@[a] == old(
                    self,
                ).0@[a],
            final(self).0@[i as int]@ == old(self).0@[i as int]@.update(j as int, value),
    {
        self.0[i].set(j, value);
    }

    /// Decodes a graph6 string (its newline, if any, is not read).
    pub fn from_graph6(g6: String) -> (r: Result<Self, G6Error>)
        requires
            spec_graph_size(encode_utf8(g6@), 0) is Some ==> spec_graph_size(
                encode_utf8(g6@),
                0,
            )->Some_0.0 <= max_bits(),
        ensures
            ({
                let bytes = encode_utf8(g6@);
                match spec_graph_size(bytes, 0) {
                    None => r is Err,
                    Some((n, start)) => {
                        &&& r is Ok <==> body_readable(bytes, start, n as int)
                        &&& r matches Ok(g) ==> {
                            &&& g.num_vertices() == n
                            &&& g.wf()
                            &&& forall|a: int, b: int|
                                0 <= a < n && 0 <= b < n ==> #[trigger] g.adj(a, b)
                                    == decoded_adj(bytes, start, a, b)
                        }
                    },
                }
            }),
    {
        let bytes: &[u8] = g6.as_str().as_bytes();
        let ghost bs = bytes@;
        assert(bs == encode_utf8(g6@));
        let mut pos: usize = 0;
        let n = graph_size(bytes, &mut pos)?;
        let ghost start = pos as int;
        let mut g = Self::no_edge(n);
        if pos >= bytes.len() {
            proof {
                if body_readable(bs, start, n as int) {
                    lemma_readable_at(bs, start, n as int, 0);
                }
            }
            return Err(G6Error());
        }
        let mut g6_char = match G6Char::try_from_byte(bytes[pos]) {
            Ok(c) => c,
            Err(e) => {
                proof {
                    if body_readable(bs, start, n as int) {
                        lemma_readable_at(bs, start, n as int, 0);
                    }
                }
                return Err(e);
            },
        };
        pos = pos + 1;
        proof {
            vstd::arithmetic::power2::lemma2_to64();
            assert(g6_char.value() as int * pow2(0) == g6_char.value());
        }
        let ghost mut k: int = 0;
        assert(decode_state(bs, start, k, pos as int, g6_char));
        let mut i_row: usize = 1;
        while i_row < n
            invariant
                n == g.num_vertices(),
                n <= max_bits(),
                g.wf(),
                bs == bytes@,
                bs == encode_utf8(g6@),
                spec_graph_size(bs, 0) == Some((n, start)),
                1 <= i_row,
                i_row <= n || i_row == 1,
                k == (i_row as int) * (i_row as int - 1) / 2,
                decode_state(bs, start, k, pos as int, g6_char),
                forall|a: int, b: int|
                    0 <= a < n && 0 <= b < n ==> #[trigger] g.adj(a, b) == (a != b
                        && processed(a, b, i_row as int, 0) && decoded_adj(bs, start, a, b)),
            decreases n - i_row,
        {
            proof {
                lemma_tri_bound(i_row as int, 0, n as int);
            }
            let mut i_other_vertex: usize = 0;
            while i_other_vertex < i_row
                invariant
                    n == g.num_vertices(),
                    n <= max_bits(),
                    g.wf(),
                    bs == bytes@,
                    bs == encode_utf8(g6@),
                    spec_graph_size(bs, 0) == Some((n, start)),
                    1 <= i_row < n,
                    i_other_vertex <= i_row,
                    k == (i_row as int) * (i_row as int - 1) / 2 + i_other_vertex,
                    decode_state(bs, start, k, pos as int, g6_char),
                    k < (n as int) * (n as int - 1) / 2 + 1,
                    forall|a: int, b: int|
                        0 <= a < n && 0 <= b < n ==> #[trigger] g.adj(a, b) == (a != b
                            && processed(a, b, i_row as int, i_other_vertex as int)
                            && decoded_adj(bs, start, a, b)),
                decreases i_row - i_other_vertex,
            {
                proof {
                    lemma_reads_step(k);
                    lemma_tri_bound(i_row as int, i_other_vertex as int, n as int);
                }
                if g6_char.is_empty() {
                    if pos >= bytes.len() {
                        proof {
                            lemma_unreadable(bs, start, n as int, k, reads(k));
                        }
                        return Err(G6Error());
                    }
                    g6_char = match G6Char::try_from_byte(bytes[pos]) {
                        Ok(c) => c,
                        Err(e) => {
                            proof {
                                lemma_unreadable(bs, start, n as int, k, reads(k));
                            }
                            return Err(e);
                        },
                    };
                    pos = pos + 1;
                }
                proof {
                    let c = reads(k + 1) - 1;
                    assert(readable_byte(bs, start + c));
                    let v0 = (bs[start + c] - 63) as u8;
                    let f = g6_char.free();
                    assert(f == k % 6);
                    assert(c == k / 6);
                    vstd::arithmetic::power2::lemma2_to64();
                    if f == 0 {
                        assert(pow2(0) == 1);
                        assert(v0 as int * pow2(f as nat) as int == v0) by (nonlinear_arith)
                            requires
                                pow2(f as nat) == 1,
                        ;
                    }
                    assert(g6_char.value() == (v0 as int * pow2(f as nat) as int) % 256);
                    lemma_pop_bit(v0, f);
                    vstd::arithmetic::power2::lemma_pow2_unfold((f + 1) as nat);
                    vstd::arithmetic::div_mod::lemma_mul_mod_noop_left(
                        v0 as int * pow2(f as nat),
                        2,
                        256,
                    );
                    assert(v0 as int * pow2(f as nat) * 2 == v0 as int * pow2((f + 1) as nat))
                        by (nonlinear_arith)
                        requires
                            pow2((f + 1) as nat) == 2 * pow2(f as nat),
                    ;
                    lemma_pair_index(i_other_vertex as int, i_row as int);
                }
                let bit = g6_char.pop_front();
                let ghost g_old = g;
                if bit {
                    g.set_adj(i_row, i_other_vertex, true);
                    g.set_adj(i_other_vertex, i_row, true);
                }
                proof {
                    assert forall|a: int, b: int| 0 <= a < n && 0 <= b < n implies #[trigger] g.adj(
                        a,
                        b,
                    ) == (a != b && processed(a, b, i_row as int, i_other_vertex + 1)
                        && decoded_adj(bs, start, a, b)) by {
                        if (a == i_row && b == i_other_vertex) || (b == i_row && a
                            == i_other_vertex) {
                        } else {
                            assert(g.adj(a, b) == g_old.adj(a, b));
                        }
                    }
                    k = k + 1;
                    assert(decode_state(bs, start, k, pos as int, g6_char));
                }
                i_other_vertex = i_other_vertex + 1;
            }
            proof {
                lemma_tri_succ(i_row as int);
            }
            i_row = i_row + 1;
        }
        proof {
            if n >= 1 {
                assert(i_row == n);
                assert(k == (n as int) * (n as int - 1) / 2);
            } else {
                assert(k == 0);
            }
            lemma_reads_final(n as int, k);
            crate::gtools::g6string::lemma_readable_intro(bs, start, n as int, reads(k));
            assert forall|a: int, b: int| 0 <= a < n && 0 <= b < n implies #[trigger] g.adj(a, b)
                == decoded_adj(bs, start, a, b) by {
                if n >= 1 {
                    assert(processed(a, b, n as int, 0) || a == b);
                }
            }
        }
        Ok(g)
    }

    /// The graph whose row `i` is the first `n` bits of `input[i]`, most
    /// significant first, `n` being the number of rows.
    pub fn from_u32(input: &[u32]) -> (r: Self)
        requires
            input@.len() <= 32,
        ensures
            r.num_vertices() == input@.len(),
            r.wf(),
            forall|i: int, j: int|
                0 <= i < input@.len() && 0 <= j < input@.len() ==> #[trigger] r.adj(i, j) == ((
                input@[i] >> ((31 - j) as u32)) & 1 == 1),
    {
        let n = input.len();
        let mut rows: Vec<BitSet> = Vec::new();
        let mut i: usize = 0;
        while i < n
            invariant
                n == input@.len(),
                n <= 32,
                i <= n,
                rows@.len() == i,
                forall|k: int| 0 <= k < i ==> #[trigger] rows@[k]@ == Seq::new(
                    n as nat,
                    |j: int| (input@[k] >> ((31 - j) as u32)) & 1 == 1,
                ),
            decreases n - i,
        {
            rows.push(u32_to_bitvec(input[i], n));
            i = i + 1;
        }
        Graph(rows)
    }

    /// The graph with `n` vertices whose row `i` holds `j` exactly when
    /// `f(i, j, n)` holds.
    pub fn from_closure<F: Fn(usize, usize, usize) -> bool>(n: usize, f: F) -> (r: Self)
        requires
            n <= max_bits(),
            forall|i: usize, j: usize| i < n && j < n ==> call_requires(f, (i, j, n)),
        ensures
            r.num_vertices() == n,
            r.wf(),
            forall|i: int, j: int|
                0 <= i < n && 0 <= j < n ==> call_ensures(
                    f,
                    (i as usize, j as usize, n),
                    #[trigger] r.adj(i, j),
                ),
    {
        let mut rows: Vec<BitSet> = Vec::new();
        let mut i: usize = 0;
        while i < n
            invariant
                i <= n <= max_bits(),
                rows@.len() == i,
                forall|a: usize, b: usize| a < n && b < n ==> call_requires(f, (a, b, n)),
                forall|k: int| 0 <= k < i ==> #[trigger] rows@[k]@.len() == n,
                forall|k: int, j: int|
                    0 <= k < i && 0 <= j < n ==> call_ensures(
                        f,
                        (k as usize, j as usize, n),
                        #[trigger] rows@[k]@[j],
                    ),
            decreases n - i,
        {
            let mut row = BitSet::zeros(n);
            let mut j: usize = 0;
            while j < n
                invariant
                    i < n <= max_bits(),
                    j <= n,
                    row@.len() == n,
                    forall|a: usize, b: usize| a < n && b < n ==> call_requires(f, (a, b, n)),
                    forall|b: int|
                        0 <= b < j ==> call_ensures(f, (i, b as usize, n), #[trigger] row@[b]),
                decreases n - j,
            {
                let x = f(i, j, n);
                row.set(j, x);
                j = j + 1;
            }
            rows.push(row);
            i = i + 1;
        }
        Graph(rows)
    }
}

/// The state of graph6 decoding after `k` bits were taken: the bytes read
/// so far are there and are at least 63, and the current character holds
/// the last one shifted by the bits taken from it.
pub open spec fn decode_state(bs: Seq<u8>, start: int, k: int, pos: int, c: G6Char) -> bool {
    &&& k >= 0
    &&& pos == start + reads(k)
    &&& start >= 0
    &&& forall|p: int| start <= p < start + reads(k) ==> #[trigger] readable_byte(bs, p)
    &&& c.free() == k - 6 * (reads(k) - 1)
    &&& c.value() == ((bs[start + reads(k) - 1] - 63) * pow2(c.free() as nat) as int) % 256
}

proof fn lemma_tri_succ(j: int)
    ensures
        j * (j - 1) / 2 + j == (j + 1) * j / 2,
{
    assert((j + 1) * j == j * (j - 1) + 2 * j) by (nonlinear_arith);
}

proof fn lemma_tri_bound(i_row: int, i_other: int, n: int)
    requires
        0 <= i_other < i_row < n,
    ensures
        i_row * (i_row - 1) / 2 + i_other < n * (n - 1) / 2,
{
    lemma_tri_succ(i_row);
    assert((i_row + 1) * i_row <= n * (n - 1)) by (nonlinear_arith)
        requires
            0 <= i_row < n,
    ;
    vstd::arithmetic::div_mod::lemma_div_is_ordered((i_row + 1) * i_row, n * (n - 1), 2);
}

/// The sequence of vertices `p` is a walk of `g`: each vertex is in the row
/// of the one before it.
pub open spec fn is_walk(g: Graph, p: Seq<int>) -> bool {
    &&& p.len() >= 1
    &&& forall|k: int| 0 <= k < p.len() ==> 0 <= #[trigger] p[k] < g.num_vertices()
    &&& forall|k: int| 0 <= k < p.len() - 1 ==> #[trigger] g.adj(p[k], p[k + 1])
}

/// `t` can be reached from `s` by a walk of `g`.
pub open spec fn reachable(g: Graph, s: int, t: int) -> bool {
    exists|p: Seq<int>| #[trigger] is_walk(g, p) && p[0] == s && p.last() == t
}

/// `t` can be reached from `s` by a walk of `g` that never passes through
/// `x`.
pub open spec fn reachable_avoiding(g: Graph, x: int, s: int, t: int) -> bool {
    exists|p: Seq<int>|
        #[trigger] is_walk(g, p) && p[0] == s && p.last() == t && forall|k: int|
            0 <= k < p.len() ==> p[k] != x
}

/// The vertex the others are reached from once `x` is taken out: 1 for
/// vertex 0, and 0 for any other.
pub open spec fn first_other(x: int) -> int {
    if x == 0 {
        1
    } else {
        0
    }
}

/// `g` is biconnected: it has at least three vertices, every vertex can be
/// reached from vertex 0, and once any one vertex `x` is taken out, every
/// other vertex can still be reached from the first vertex other than `x`
/// by a walk that avoids `x`. For an undirected graph: connected, with no
/// articulation point.
pub open spec fn biconnected(g: Graph) -> bool {
    &&& g.num_vertices() >= 3
    &&& forall|v: int| 0 <= v < g.num_vertices() ==> #[trigger] reachable(g, 0, v)
    &&& forall|x: int, v: int|
        0 <= x < g.num_vertices() && 0 <= v < g.num_vertices() && v != x ==> #[trigger] reachable_avoiding(
            g,
            x,
            first_other(x),
            v,
        )
}

proof fn lemma_avoid_self(g: Graph, x: int, s: int)
    requires
        0 <= s < g.num_vertices(),
        s != x,
    ensures
        reachable_avoiding(g, x, s, s),
{
    let p = seq![s];
    assert(is_walk(g, p));
}

proof fn lemma_avoid_step(g: Graph, x: int, s: int, i: int, j: int)
    requires
        reachable_avoiding(g, x, s, i),
        0 <= j < g.num_vertices(),
        j != x,
        g.adj(i, j),
    ensures
        reachable_avoiding(g, x, s, j),
{
    let p = choose|p: Seq<int>|
        #[trigger] is_walk(g, p) && p[0] == s && p.last() == i && forall|k: int|
            0 <= k < p.len() ==> p[k] != x;
    let q = p.push(j);
    assert forall|k: int| 0 <= k < q.len() - 1 implies #[trigger] g.adj(q[k], q[k + 1]) by {
        if k < p.len() - 1 {
            assert(q[k] == p[k] && q[k + 1] == p[k + 1]);
        }
    }
    assert(is_walk(g, q));
    assert forall|k: int| 0 <= k < q.len() implies q[k] != x by {
        if k < p.len() {
            assert(q[k] == p[k]);
        }
    }
}

/// Leaving out a vertex that is not in the graph leaves out nothing.
proof fn lemma_avoid_outside(g: Graph, s: int, t: int)
    ensures
        reachable(g, s, t) == reachable_avoiding(g, g.num_vertices() as int, s, t),
{
    let n = g.num_vertices() as int;
    if reachable(g, s, t) {
        let p = choose|p: Seq<int>| #[trigger] is_walk(g, p) && p[0] == s && p.last() == t;
        assert forall|k: int| 0 <= k < p.len() implies p[k] != n by {
            assert(0 <= p[k] < n);
        }
    }
}

/// A set of vertices that holds `s`, whose every element is expanded, and
/// that holds every vertex other than `x` in the row of an expanded vertex,
/// holds every vertex reachable from `s` while avoiding `x`.
proof fn lemma_avoid_closed(g: Graph, x: int, s: int, v: int, seen: Seq<bool>, expanded: Seq<bool>)
    requires
        reachable_avoiding(g, x, s, v),
        g.num_vertices() == seen.len(),
        seen.len() == expanded.len(),
        seen[s],
        forall|k: int| 0 <= k < seen.len() && #[trigger] seen[k] ==> expanded[k],
        forall|i: int, j: int|
            0 <= i < expanded.len() && 0 <= j < g.num_vertices() && j != x && #[trigger] expanded[i]
                && #[trigger] g.adj(i, j) ==> seen[j],
    ensures
        seen[v],
{
    let p = choose|p: Seq<int>|
        #[trigger] is_walk(g, p) && p[0] == s && p.last() == v && forall|k: int|
            0 <= k < p.len() ==> p[k] != x;
    lemma_avoid_walk_in_closed(g, x, p, p.len() - 1, seen, expanded);
}

proof fn lemma_avoid_walk_in_closed(
    g: Graph,
    x: int,
    p: Seq<int>,
    k: int,
    seen: Seq<bool>,
    expanded: Seq<bool>,
)
    requires
        is_walk(g, p),
        forall|a: int| 0 <= a < p.len() ==> p[a] != x,
        0 <= k < p.len(),
        seen[p[0]],
        g.num_vertices() == seen.len(),
        seen.len() == expanded.len(),
        forall|a: int| 0 <= a < seen.len() && #[trigger] seen[a] ==> expanded[a],
        forall|i: int, j: int|
            0 <= i < expanded.len() && 0 <= j < g.num_vertices() && j != x && #[trigger] expanded[i]
                && #[trigger] g.adj(i, j) ==> seen[j],
    ensures
        seen[p[k]],
    decreases k,
{
    if k > 0 {
        lemma_avoid_walk_in_closed(g, x, p, k - 1, seen, expanded);
        assert(g.adj(p[k - 1], p[k - 1 + 1]));
        assert(0 <= p[k - 1] < g.num_vertices());
        assert(expanded[p[k - 1]]);
        assert(0 <= p[k] < g.num_vertices());
        assert(p[k] != x);
    }
}

proof fn lemma_reach_self(g: Graph, s: int)
    requires
        0 <= s < g.num_vertices(),
    ensures
        reachable(g, s, s),
{
    let p = seq![s];
    assert(is_walk(g, p));
}

proof fn lemma_reach_step(g: Graph, s: int, i: int, j: int)
    requires
        reachable(g, s, i),
        0 <= j < g.num_vertices(),
        g.adj(i, j),
    ensures
        reachable(g, s, j),
{
    let p = choose|p: Seq<int>| #[trigger] is_walk(g, p) && p[0] == s && p.last() == i;
    let q = p.push(j);
    assert forall|k: int| 0 <= k < q.len() - 1 implies #[trigger] g.adj(q[k], q[k + 1]) by {
        if k < p.len() - 1 {
            assert(q[k] == p[k] && q[k + 1] == p[k + 1]);
        }
    }
    assert(is_walk(g, q));
}

/// A set of vertices that holds `s`, whose every element is expanded, and
/// that holds the row of every expanded vertex, holds every vertex reachable
/// from `s`.
proof fn lemma_closed_contains_reachable(
    g: Graph,
    s: int,
    v: int,
    seen: Seq<bool>,
    expanded: Seq<bool>,
)
    requires
        reachable(g, s, v),
        g.num_vertices() <= seen.len(),
        seen.len() == expanded.len(),
        seen[s],
        forall|k: int| 0 <= k < seen.len() && #[trigger] seen[k] ==> expanded[k],
        forall|i: int, j: int|
            0 <= i < expanded.len() && 0 <= j < g.num_vertices() && #[trigger] expanded[i]
                && #[trigger] g.adj(i, j) ==> seen[j],
    ensures
        seen[v],
{
    let p = choose|p: Seq<int>| #[trigger] is_walk(g, p) && p[0] == s && p.last() == v;
    lemma_walk_in_closed(g, p, p.len() - 1, seen, expanded);
}

proof fn lemma_walk_in_closed(g: Graph, p: Seq<int>, k: int, seen: Seq<bool>, expanded: Seq<bool>)
    requires
        is_walk(g, p),
        0 <= k < p.len(),
        seen[p[0]],
        g.num_vertices() <= seen.len(),
        seen.len() == expanded.len(),
        forall|a: int| 0 <= a < seen.len() && #[trigger] seen[a] ==> expanded[a],
        forall|i: int, j: int|
            0 <= i < expanded.len() && 0 <= j < g.num_vertices() && #[trigger] expanded[i]
                && #[trigger] g.adj(i, j) ==> seen[j],
    ensures
        seen[p[k]],
    decreases k,
{
    if k > 0 {
        lemma_walk_in_closed(g, p, k - 1, seen, expanded);
        assert(g.adj(p[k - 1], p[k - 1 + 1]));
        assert(0 <= p[k - 1] < g.num_vertices());
        assert(expanded[p[k - 1]]);
        assert(0 <= p[k] < g.num_vertices());
    }
}

/// The word with bit `i` set gives the set `{i}`.
proof fn lemma_bit_word_eq(i: usize)
    requires
        i < usize::BITS,
    ensures
        forall|k: int|
            0 <= k < usize::BITS ==> crate::nauty::bitset::word_bit(
                crate::nauty::bitset::spec_bit(i as int),
                k,
            ) == (k == i),
{
    assert forall|k: int| 0 <= k < usize::BITS implies crate::nauty::bitset::word_bit(
        crate::nauty::bitset::spec_bit(i as int),
        k,
    ) == (k == i) by {
        crate::nauty::bitset::lemma_bit_word(i, k as usize);
    }
}

/// Number of body bytes read after `k` bits were taken: one per six bits,
/// and at least one.
pub open spec fn reads(k: int) -> int {
    if k <= 0 {
        1
    } else {
        (k + 5) / 6
    }
}

/// The pair of `a` and `b` comes before the pair `(i_other, i_row)` in the
/// graph6 order.
pub open spec fn processed(a: int, b: int, i_row: int, i_other: int) -> bool {
    let lo = if a < b {
        a
    } else {
        b
    };
    let hi = if a < b {
        b
    } else {
        a
    };
    hi < i_row || (hi == i_row && lo < i_other)
}

proof fn lemma_reads_step(k: int)
    requires
        k >= 0,
    ensures
        k == 0 ==> reads(k + 1) == reads(k),
        k > 0 && k % 6 == 0 ==> reads(k + 1) == reads(k) + 1 && k - 6 * (reads(k) - 1) == 6,
        k > 0 && k % 6 != 0 ==> reads(k + 1) == reads(k) && k - 6 * (reads(k) - 1) < 6,
        k - 6 * (reads(k + 1) - 1) == k % 6,
        reads(k + 1) - 1 == k / 6,
{
}

proof fn lemma_unreadable(bs: Seq<u8>, start: int, n: int, k: int, c: int)
    requires
        k >= 0,
        k < n * (n - 1) / 2,
        k % 6 == 0,
        k > 0,
        c == reads(k),
        !(start + c < bs.len() && bs[start + c] >= 63),
    ensures
        !body_readable(bs, start, n),
{
    let nb = n * (n - 1) / 2;
    assert(c == k / 6);
    assert(nb >= k + 1);
    assert((nb + 5) / 6 >= (k + 6) / 6);
    assert(c < body_chars_read(n));
    if body_readable(bs, start, n) {
        lemma_readable_at(bs, start, n, c);
        assert(readable_byte(bs, start + c));
    }
}

proof fn lemma_readable_at(bs: Seq<u8>, start: int, n: int, c: int)
    requires
        body_readable(bs, start, n),
        0 <= c < body_chars_read(n),
    ensures
        start + c < bs.len() && bs[start + c] >= 63,
{
    assert(readable_byte(bs, start + c));
}

proof fn lemma_reads_final(n: int, k: int)
    requires
        n >= 0,
        k == (if n >= 1 {
            n * (n - 1) / 2
        } else {
            0
        }),
    ensures
        reads(k) == body_chars_read(n),
{
    if n == 0 {
        assert(n * (n - 1) / 2 == 0);
    }
}

proof fn lemma_pair_index(i: int, j: int)
    requires
        0 <= i < j,
    ensures
        crate::gtools::g6string::pair_index(i, j) == j * (j - 1) / 2 + i,
{
}

proof fn lemma_header_ascii(n: usize)
    requires
        (n >> 30usize) < 64,
    ensures
        size_header_ascii(n as int),
{
    vstd::bits::lemma_usize_shr_is_div(n, 30);
    vstd::arithmetic::power2::lemma2_to64();
    assert(n as int / 0x4000_0000 < 64);
}

proof fn lemma_ascii_bytes_back(s6: Seq<u8>)
    requires
        crate::gtools::g6string::all_ascii(s6),
    ensures
        encode_utf8(ascii_chars(s6)) == s6,
{
    let chars = ascii_chars(s6);
    assert(vstd::utf8::is_ascii_chars(chars)) by {
        assert forall|i: int| 0 <= i < chars.len() implies '\0' <= #[trigger] chars[i]
            <= '\u{7f}' by {
            assert(s6[i] < 128);
        }
    }
    vstd::utf8::is_ascii_chars_encode_utf8(chars);
    assert(encode_utf8(chars) =~= s6) by {
        assert forall|i: int| 0 <= i < s6.len() implies #[trigger] encode_utf8(chars)[i]
            == s6[i] by {
            assert(chars[i] as u8 == encode_utf8(chars)[i]);
            assert(s6[i] < 128);
        }
    }
}

proof fn lemma_graph6_body_readable(g: Graph)
    requires
        g.num_vertices() >= 2,
    ensures
        body_readable(
            spec_graph6(g),
            crate::graph6::spec_encode_graph_size(g.num_vertices() as int).len() as int,
            g.num_vertices() as int,
        ),
{
    let n = g.num_vertices() as int;
    let h = crate::graph6::spec_encode_graph_size(n);
    let tri = crate::gtools::g6string::tri_bits(g, g.num_vertices());
    let body = crate::gtools::g6string::pack6(tri);
    let s6 = spec_graph6(g);
    let start = h.len() as int;
    crate::gtools::g6string::lemma_tri_len(g, g.num_vertices());
    crate::gtools::g6string::lemma_pack6_bytes(tri);
    assert(n * (n - 1) >= 2) by (nonlinear_arith)
        requires
            n >= 2,
    ;
    assert(body.len() == body_chars_read(n));
    assert forall|p: int| start <= p < start + body_chars_read(n) implies #[trigger] readable_byte(
        s6,
        p,
    ) by {
        assert(s6[p] == body[p - start]);
    }
    crate::gtools::g6string::lemma_readable_intro(s6, start, n, body_chars_read(n));
}

proof fn lemma_graph6_decodes(g: Graph, a: int, b: int)
    requires
        g.is_simple(),
        0 <= a < g.num_vertices(),
        0 <= b < g.num_vertices(),
    ensures
        decoded_adj(
            spec_graph6(g),
            crate::graph6::spec_encode_graph_size(g.num_vertices() as int).len() as int,
            a,
            b,
        ) == g.adj(a, b),
{
    let n = g.num_vertices() as int;
    let h = crate::graph6::spec_encode_graph_size(n);
    let tri = crate::gtools::g6string::tri_bits(g, g.num_vertices());
    let body = crate::gtools::g6string::pack6(tri);
    let s6 = spec_graph6(g);
    let start = h.len() as int;
    if a != b {
        let lo = if a < b {
            a
        } else {
            b
        };
        let hi = if a < b {
            b
        } else {
            a
        };
        let k = crate::gtools::g6string::pair_index(lo, hi);
        crate::gtools::g6string::lemma_tri_index(g, g.num_vertices(), lo, hi);
        crate::gtools::g6string::lemma_pack_unpack(tri, k);
        assert(s6[start + k / 6] == body[k / 6]);
        assert(g.adj(hi, lo) == g.adj(a, b));
    }
}

/// In a simple graph, a walk read backwards is a walk.
proof fn lemma_reach_sym(g: Graph, s: int, t: int)
    requires
        g.is_simple(),
        reachable(g, s, t),
    ensures
        reachable(g, t, s),
{
    let p = choose|p: Seq<int>| #[trigger] is_walk(g, p) && p[0] == s && p.last() == t;
    let q = p.reverse();
    assert forall|k: int| 0 <= k < q.len() - 1 implies #[trigger] g.adj(q[k], q[k + 1]) by {
        let j = p.len() - 2 - k;
        assert(q[k] == p[j + 1] && q[k + 1] == p[j]);
        assert(g.adj(p[j], p[j + 1]));
    }
    assert forall|k: int| 0 <= k < q.len() implies 0 <= #[trigger] q[k] < g.num_vertices() by {
        assert(q[k] == p[p.len() - 1 - k]);
    }
    assert(is_walk(g, q));
    assert(q[0] == t && q.last() == s);
}

/// A walk from `s` to `t` followed by one from `t` to `u` is a walk from
/// `s` to `u`.
proof fn lemma_reach_trans(g: Graph, s: int, t: int, u: int)
    requires
        reachable(g, s, t),
        reachable(g, t, u),
    ensures
        reachable(g, s, u),
{
    let p = choose|p: Seq<int>| #[trigger] is_walk(g, p) && p[0] == s && p.last() == t;
    let q = choose|q: Seq<int>| #[trigger] is_walk(g, q) && q[0] == t && q.last() == u;
    let w = p + q.drop_first();
    assert forall|k: int| 0 <= k < w.len() implies 0 <= #[trigger] w[k] < g.num_vertices() by {
        if k >= p.len() {
            assert(w[k] == q[k - p.len() + 1]);
        }
    }
    assert forall|k: int| 0 <= k < w.len() - 1 implies #[trigger] g.adj(w[k], w[k + 1]) by {
        if k < p.len() - 1 {
            assert(w[k] == p[k] && w[k + 1] == p[k + 1]);
        } else if k == p.len() - 1 {
            assert(w[k] == t && w[k + 1] == q[1]);
            assert(g.adj(q[0], q[1]));
        } else {
            assert(w[k] == q[k - p.len() + 1] && w[k + 1] == q[k - p.len() + 2]);
        }
    }
    assert(is_walk(g, w));
    if q.len() == 1 {
        assert(w =~= p);
    } else {
        assert(w.last() == q.last());
    }
}

/// A biconnected simple graph, as `isbiconnected` accepts, is connected in
/// the sense of `isconnected`: every vertex can be reached from the last
/// one.
pub proof fn lemma_biconnected_is_connected(g: Graph)
    requires
        g.is_simple(),
        biconnected(g),
    ensures
        forall|v: int| 0 <= v < g.num_vertices() ==> #[trigger] reachable(g, g.num_vertices() - 1, v),
{
    let last = g.num_vertices() - 1;
    assert(reachable(g, 0, last));
    lemma_reach_sym(g, 0, last);
    assert forall|v: int| 0 <= v < g.num_vertices() implies #[trigger] reachable(g, last, v) by {
        assert(reachable(g, 0, v));
        lemma_reach_trans(g, last, 0, v);
    }
}

/// Decoding the graph6 encoding of a simple graph with at least two vertices
/// (and fewer than 2^36, the limit of the format) gives the graph back: the
/// text that `to_graph6` returns has these bytes, `from_graph6` reads the
/// size back, finds every body byte it needs, and every pair of vertices
/// decodes to its adjacency in the graph.
pub proof fn lemma_graph6_round_trip(g: Graph)
    requires
        g.is_simple(),
        g.num_vertices() >= 2,
        g.num_vertices() <= usize::MAX,
        (g.num_vertices() as usize >> 30usize) < 64,
    ensures
        ({
            let n = g.num_vertices() as int;
            let bytes = encode_utf8(ascii_chars(spec_graph6(g)));
            let start = crate::graph6::spec_encode_graph_size(n).len() as int;
            &&& bytes == spec_graph6(g)
            &&& spec_graph_size(bytes, 0) == Some((n as usize, start))
            &&& body_readable(bytes, start, n)
            &&& forall|a: int, b: int|
                0 <= a < n && 0 <= b < n ==> #[trigger] decoded_adj(bytes, start, a, b) == g.adj(
                    a,
                    b,
                )
        }),
{
    let n = g.num_vertices() as int;
    let nu = g.num_vertices() as usize;
    let h = crate::graph6::spec_encode_graph_size(n);
    let body = crate::gtools::g6string::pack6(
        crate::gtools::g6string::tri_bits(g, g.num_vertices()),
    );
    let s6 = spec_graph6(g);
    lemma_header_ascii(nu);
    lemma_graph6_ascii(g);
    lemma_ascii_bytes_back(s6);
    assert(s6 =~= h + (body + seq![10u8]));
    crate::gtools::g6string::lemma_graph_size_encode(nu, body + seq![10u8]);
    lemma_graph6_body_readable(g);
    assert forall|a: int, b: int| 0 <= a < n && 0 <= b < n implies #[trigger] decoded_adj(
        s6,
        h.len() as int,
        a,
        b,
    ) == g.adj(a, b) by {
        lemma_graph6_decodes(g, a, b);
    }
}


/// The first `n` bits of `u`, most significant first.
pub fn u32_to_bitvec(u: u32, n: usize) -> (r: BitSet)
    requires
        n <= 32,
    ensures
        r@ == Seq::new(n as nat, |k: int| (u >> ((31 - k) as u32)) & 1 == 1),
{
    BitSet::from_u32_prefix(u, n)
}

/// The labels set by `nauty` for the unit partition: the first `n`
/// positions hold `0..n`, the rest is left as it was.
pub open spec fn unit_lab(lab: Seq<usize>, n: int) -> Seq<usize> {
    Seq::new(lab.len(), |i: int| if i < n { i as usize } else { lab[i] })
}

/// The `ptn` set by `nauty` for the unit partition: one cell over the first
/// `n` positions, ended at `n - 1`.
pub open spec fn unit_ptn(ptn: Seq<usize>, n: int) -> Seq<usize> {
    Seq::new(
        ptn.len(),
        |i: int|
            if i < n - 1 {
                NAUTY_INFINITY
            } else if i == n - 1 {
                0
            } else {
                ptn[i]
            },
    )
}

/// The `ptn` given by the caller, brought to the form `nauty` works on:
/// over the first `n` positions, an entry ends a cell (`0`) where it was
/// `0` and at `n - 1`, and is `NAUTY_INFINITY` elsewhere.
pub open spec fn normal_ptn(ptn: Seq<usize>, n: int) -> Seq<usize> {
    Seq::new(
        ptn.len(),
        |i: int|
            if i >= n {
                ptn[i]
            } else if i == n - 1 || ptn[i] == 0 {
                0
            } else {
                NAUTY_INFINITY
            },
    )
}

/// nauty's search for the automorphism group of `g_arg` and the colouring
/// `(lab, ptn)`: the colouring is set to the unit partition when
/// `defaultptn` holds, and otherwise the caller's `ptn` is normalised, its
/// last cell closed at `n - 1`; `orbits_arg[i]` is then the least vertex in
/// the orbit of `i` under the automorphisms of `g_arg` that keep the
/// colouring. The result is `Ok`.
pub fn nauty(
    g_arg: &Graph,
    lab: &mut [usize],
    ptn: &mut [usize],
    orbits_arg: &mut Vec<usize>,
    defaultptn: bool,
) -> (r: Result<(), u8>)
    requires
        g_arg.wf(),
        g_arg.num_vertices() >= 1,
        old(lab)@.len() >= g_arg.num_vertices(),
        !defaultptn ==> is_permutation(old(lab)@.take(g_arg.num_vertices() as int)),
        old(ptn)@.len() >= g_arg.num_vertices(),
    ensures
        r is Ok,
        final(orbits_arg)@.len() == g_arg.num_vertices(),
        forall|i: int|
            0 <= i < g_arg.num_vertices() ==> #[trigger] least_in_orbit(
                *g_arg,
                vertex_colours(final(lab)@, final(ptn)@, g_arg.num_vertices() as int),
                i,
                final(orbits_arg)@[i] as int,
            ),
        defaultptn ==> final(lab)@ == unit_lab(old(lab)@, g_arg.num_vertices() as int),
        defaultptn ==> final(ptn)@ == unit_ptn(old(ptn)@, g_arg.num_vertices() as int),
        !defaultptn ==> final(lab)@ == old(lab)@,
        !defaultptn ==> final(ptn)@ == normal_ptn(old(ptn)@, g_arg.num_vertices() as int),
{
    let n = g_arg.n();
    if defaultptn {
        let mut i: usize = 0;
        while i < n
            invariant
                i <= n <= lab@.len(),
                n <= ptn@.len(),
                lab@.len() == old(lab)@.len(),
                ptn@.len() == old(ptn)@.len(),
                forall|k: int| 0 <= k < i ==> lab@[k] == k && ptn@[k] == NAUTY_INFINITY,
                forall|k: int| i <= k < lab@.len() ==> lab@[k] == old(lab)@[k],
                forall|k: int| i <= k < ptn@.len() ==> ptn@[k] == old(ptn)@[k],
            decreases n - i,
        {
            lab[i] = i;
            ptn[i] = NAUTY_INFINITY;
            i = i + 1;
        }
        ptn[n - 1] = 0;
        assert(lab@ == unit_lab(old(lab)@, n as int));
        assert(ptn@ == unit_ptn(old(ptn)@, n as int));
    } else {
        ptn[n - 1] = 0;
        let mut i: usize = 0;
        while i < n
            invariant
                i <= n <= ptn@.len(),
                n >= 1,
                ptn@.len() == old(ptn)@.len(),
                ptn@[n - 1] == 0 || i == n,
                forall|k: int| 0 <= k < i ==> ptn@[k] == normal_ptn(old(ptn)@, n as int)[k],
                forall|k: int| i <= k < ptn@.len() && k != n - 1 ==> ptn@[k] == old(ptn)@[k],
            decreases n - i,
        {
            if ptn[i] != 0 {
                ptn[i] = NAUTY_INFINITY;
            }
            i = i + 1;
        }
        assert(ptn@ == normal_ptn(old(ptn)@, n as int));
    }
    proof {
        if defaultptn {
            assert forall|a: int, b: int| 0 <= a < b < n implies #[trigger] lab@.take(n as int)[a] != #[trigger] lab@.take(
                n as int,
            )[b] by {}
        }
        assert(is_permutation(lab@.take(n as int)));
    }
    let col = colours(lab, ptn, n);
    *orbits_arg = orbits_of(g_arg, &col);
    Ok(())
}

/// The colour of each vertex below `n` in the colouring `(lab, ptn)`.
fn colours(lab: &[usize], ptn: &[usize], n: usize) -> (col: Vec<usize>)
    requires
        n <= lab@.len(),
        n <= ptn@.len(),
        is_permutation(lab@.take(n as int)),
    ensures
        col@ == vertex_colours(lab@, ptn@, n as int),
{
    let mut col: Vec<usize> = Vec::new();
    let mut k: usize = 0;
    while k < n
        invariant
            k <= n,
            col@.len() == k,
        decreases n - k,
    {
        col.push(0);
        k = k + 1;
    }
    let mut c: usize = 0;
    let mut k: usize = 0;
    while k < n
        invariant
            n <= lab@.len(),
            n <= ptn@.len(),
            is_permutation(lab@.take(n as int)),
            k <= n,
            col@.len() == n,
            c == cells_before(ptn@, k as int),
            c <= k,
            forall|q: int| 0 <= q < k ==> #[trigger] col@[lab@[q] as int] == cells_before(ptn@, q),
        decreases n - k,
    {
        assert(lab@.take(n as int)[k as int] == lab@[k as int]);
        let x = lab[k];
        col.set(x, c);
        assert forall|q: int| 0 <= q < k + 1 implies #[trigger] col@[lab@[q] as int] == cells_before(ptn@, q) by {
            if q < k {
                assert(lab@.take(n as int)[q] == lab@[q]);
                assert(lab@.take(n as int)[q] != lab@.take(n as int)[k as int]);
            }
        }
        if ptn[k] == 0 {
            c = c + 1;
        }
        k = k + 1;
    }
    proof {
        lemma_labels_cover(lab@, n as int);
        assert forall|x: int| 0 <= x < n implies #[trigger] col@[x] == vertex_colours(lab@, ptn@, n as int)[x] by {
            assert(holds_vertex(lab@, n as int, x));
            let k = choose|k: int| 0 <= k < n && lab@[k] == x;
            assert(col@[lab@[k] as int] == cells_before(ptn@, k));
        }
        assert(col@ =~= vertex_colours(lab@, ptn@, n as int));
    }
    col
}

} // verus!
