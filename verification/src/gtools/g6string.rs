//! Building and reading graph6 strings
//! (<https://users.cecs.anu.edu.au/~bdm/data/formats.txt>).
use crate::graph6::{
    body_len_fits, encode_graph_size, spec_encode_graph_size, size_encodable, BIAS6, SMALL_N,
};
use crate::gtools::g6char::{G6Char, CAPACITY};
use crate::gtools::g6error::G6Error;
use crate::nauty::Graph;
use std::string::FromUtf8Error;
use vstd::arithmetic::power2::{lemma2_to64, lemma_pow2_pos, lemma_pow2_unfold, pow2};
use vstd::prelude::*;

verus! {

/// The error of `String::from_utf8`.
#[verifier::external_type_specification]
#[verifier::external_body]
pub struct ExFromUtf8Error(FromUtf8Error);

/// The value of a sequence of bits read as a binary number, first bit most
/// significant.
pub open spec fn bits_value(b: Seq<bool>) -> nat
    decreases b.len(),
{
    if b.len() == 0 {
        0
    } else {
        2 * bits_value(b.drop_last()) + if b.last() {
            1nat
        } else {
            0nat
        }
    }
}

/// The graph6 body of a sequence of bits: six bits per byte, first bit
/// highest, the last byte padded with zeros, 63 added to each byte.
pub open spec fn pack6(b: Seq<bool>) -> Seq<u8>
    decreases b.len(),
{
    if b.len() == 0 {
        seq![]
    } else if b.len() <= 6 {
        seq![(BIAS6 + bits_value(b) * pow2((6 - b.len()) as nat)) as u8]
    } else {
        seq![(BIAS6 + bits_value(b.take(6))) as u8] + pack6(b.skip(6))
    }
}

/// The bytes are printable ASCII or the newline.
pub open spec fn all_ascii(s: Seq<u8>) -> bool {
    forall|k: int| 0 <= k < s.len() ==> #[trigger] s[k] < 128
}

/// The characters of a sequence of ASCII bytes.
pub open spec fn ascii_chars(s: Seq<u8>) -> Seq<char> {
    Seq::new(s.len(), |k: int| s[k] as char)
}

pub proof fn lemma_bits_value_bound(b: Seq<bool>)
    ensures
        bits_value(b) < pow2(b.len()),
    decreases b.len(),
{
    if b.len() > 0 {
        lemma_bits_value_bound(b.drop_last());
        lemma_pow2_unfold(b.len());
    } else {
        lemma2_to64();
    }
}

pub proof fn lemma_bits_value_push(b: Seq<bool>, x: bool)
    ensures
        bits_value(b.push(x)) == 2 * bits_value(b) + if x {
            1nat
        } else {
            0nat
        },
{
    assert(b.push(x).drop_last() =~= b);
}

pub proof fn lemma_pack6_bytes(b: Seq<bool>)
    ensures
        forall|k: int| 0 <= k < pack6(b).len() ==> 63 <= #[trigger] pack6(b)[k] <= 126,
        pack6(b).len() == (b.len() + 5) / 6,
    decreases b.len(),
{
    lemma2_to64();
    if b.len() == 0 {
    } else if b.len() <= 6 {
        lemma_bits_value_bound(b);
        let e = (6 - b.len()) as nat;
        vstd::arithmetic::power2::lemma_pow2_adds(b.len(), e);
        assert(b.len() + e == 6);
        assert(bits_value(b) * pow2(e) < pow2(b.len()) * pow2(e)) by (nonlinear_arith)
            requires
                bits_value(b) < pow2(b.len()),
                pow2(e) > 0,
        ;
        lemma_pow2_pos(e);
    } else {
        lemma_bits_value_bound(b.take(6));
        lemma_pack6_bytes(b.skip(6));
        let p = pack6(b);
        assert forall|k: int| 0 <= k < p.len() implies 63 <= #[trigger] p[k] <= 126 by {
            if k > 0 {
                assert(p[k] == pack6(b.skip(6))[k - 1]);
            }
        }
    }
}

/// Packing a whole number of six-bit groups and then more bits is packing
/// each part.
pub proof fn lemma_pack6_append(a: Seq<bool>, c: Seq<bool>)
    requires
        a.len() % 6 == 0,
    ensures
        pack6(a + c) == pack6(a) + pack6(c),
    decreases a.len(),
{
    lemma2_to64();
    if a.len() == 0 {
        assert(a + c =~= c);
    } else if c.len() == 0 {
        assert(a + c =~= a);
    } else {
        assert((a + c).take(6) =~= a.take(6));
        assert((a + c).skip(6) =~= a.skip(6) + c);
        lemma_pack6_append(a.skip(6), c);
        let x = (BIAS6 + bits_value(a.take(6))) as u8;
        assert(pack6(a + c) == seq![x] + pack6(a.skip(6) + c));
        if a.len() == 6 {
            assert(a.take(6) =~= a);
            assert(a.skip(6) =~= Seq::<bool>::empty());
            assert(pack6(a.skip(6)) =~= Seq::<u8>::empty());
            assert(pow2(0) == 1);
            assert(pow2((6 - a.len()) as nat) == 1);
            assert(bits_value(a) == bits_value(a.take(6)));
            assert(bits_value(a) * pow2((6 - a.len()) as nat) == bits_value(a.take(6)));
            assert(pack6(a) == seq![x]);
        } else {
            assert(pack6(a) == seq![x] + pack6(a.skip(6)));
        }
        assert(seq![x] + (pack6(a.skip(6)) + pack6(c)) =~= (seq![x] + pack6(a.skip(6))) + pack6(
            c,
        ));
    }
}

/// `String::from_utf8`: a vector of ASCII bytes is valid UTF-8, and each
/// byte is one character.
#[verifier::external_body]
fn string_from_utf8(bytes: Vec<u8>) -> (r: Result<String, FromUtf8Error>)
    ensures
        all_ascii(bytes@) ==> r is Ok,
        all_ascii(bytes@) ==> r->Ok_0@ == ascii_chars(bytes@),
{
    String::from_utf8(bytes)
}

/// A graph6 string being built, bit by bit.
pub struct G6String {
    so_far: Vec<u8>,
    current_char: G6Char,
}

/// The character being filled holds at least one free slot, and its value
/// fits the bits pushed into it.
pub open spec fn pending_char_ok(c: G6Char) -> bool {
    &&& 1 <= c.free() <= CAPACITY
    &&& c.value() < pow2((CAPACITY - c.free()) as nat)
}

impl G6String {
    /// The complete bytes written so far.
    pub closed spec fn bytes(self) -> Seq<u8> {
        self.so_far@
    }

    /// The character being filled.
    pub closed spec fn current(self) -> G6Char {
        self.current_char
    }

    /// The character being filled is in a state that `push` and `finish`
    /// accept; every constructor establishes it and `push` keeps it.
    pub open spec fn pending_ok(self) -> bool {
        pending_char_ok(self.current())
    }

    /// A graph6 string for a graph of `vertex_number` vertices: the size
    /// header, and room for the body.
    pub fn new(vertex_number: usize) -> (r: Self)
        requires
            vertex_number >= 1,
            body_len_fits(vertex_number as int),
            size_encodable(vertex_number as int),
        ensures
            r.bytes() == spec_encode_graph_size(vertex_number as int),
            r.pending_ok(),
            r.current().value() == 0,
            r.current().free() == CAPACITY,
    {
        let mut so_far = encode_graph_size(vertex_number);
        so_far.reserve(g6_body_len(vertex_number));
        proof {
            lemma2_to64();
        }
        Self { so_far, current_char: G6Char::new() }
    }

    /// Appends one bit of the body; a full character is written out.
    pub fn push(&mut self, is_element_i_j: bool)
        requires
            old(self).pending_ok(),
        ensures
            final(self).pending_ok(),
            ({
                let v = old(self).current().value() * 2 + if is_element_i_j {
                    1int
                } else {
                    0
                };
                if old(self).current().free() == 1 {
                    &&& final(self).bytes() == old(self).bytes().push((BIAS6 + v) as u8)
                    &&& final(self).current().value() == 0
                    &&& final(self).current().free() == CAPACITY
                } else {
                    &&& final(self).bytes() == old(self).bytes()
                    &&& final(self).current().value() == v
                    &&& final(self).current().free() == old(self).current().free() - 1
                }
            }),
    {
        let ghost f = self.current_char.free();
        let ghost v0 = self.current_char.value();
        let mut c = self.current_char.duplicate();
        c.push_back(is_element_i_j);
        proof {
            lemma2_to64();
            let e = (CAPACITY - f) as nat;
            lemma_pow2_unfold(e + 1);
            if e + 1 < 6 {
                vstd::arithmetic::power2::lemma_pow2_strictly_increases(e + 1, 6);
            }
            assert(pow2(e + 1) <= 64);
            assert(v0 * 2 + 1 < 64);
            let w = v0 as int * 2 + if is_element_i_j { 1int } else { 0 };
            assert(w % 256 == w);
            assert(c.value() == w);
            assert((CAPACITY - c.free()) as nat == e + 1);
        }
        if c.is_full() {
            proof {
                assert(pow2(0) == 1);
                assert(c.value() as int * pow2(c.free() as nat) == c.value());
            }
            let byte = c.to_char();
            self.so_far.push(byte);
            self.current_char = G6Char::new();
        } else {
            self.current_char = c;
        }
    }

    /// Writes out the last, partly filled character, then a newline.
    fn finish(&mut self)
        requires
            old(self).pending_ok(),
        ensures
            final(self).current() == old(self).current(),
            final(self).bytes() == if old(self).current().free() < CAPACITY {
                old(self).bytes().push(
                    (BIAS6 + old(self).current().value() * pow2(
                        old(self).current().free() as nat,
                    )) as u8,
                ).push(10u8)
            } else {
                old(self).bytes().push(10u8)
            },
    {
        proof {
            let f = self.current_char.free();
            let v = self.current_char.value();
            lemma2_to64();
            vstd::arithmetic::power2::lemma_pow2_adds((CAPACITY - f) as nat, f as nat);
            lemma_pow2_pos(f as nat);
            assert(v * pow2(f as nat) < 64) by (nonlinear_arith)
                requires
                    v < pow2((CAPACITY - f) as nat),
                    pow2((CAPACITY - f) as nat) * pow2(f as nat) == 64,
                    pow2(f as nat) > 0,
            ;
        }
        if !self.current_char.is_empty() {
            let byte = self.current_char.to_char();
            self.so_far.push(byte);
        }
        self.so_far.push(10u8);
    }

    /// The bytes written so far.
    pub fn as_bytes(&self) -> (r: &Vec<u8>)
        ensures
            r@ == self.bytes(),
    {
        &self.so_far
    }

    /// The text of the string, as `Display` would print it.
    pub fn to_string(&self) -> (r: String)
        requires
            all_ascii(self.bytes()),
        ensures
            r@ == ascii_chars(self.bytes()),
    {
        let bytes = self.so_far.clone();
        assert(bytes@ == self.so_far@);
        match string_from_utf8(bytes) {
            Ok(s) => s,
            Err(_) => {
                assert(false);
                String::new()
            },
        }
    }
}

/// The bits of the graph6 body of `g` for the rows before `m`: row `j`
/// gives its entries for the vertices before `j`, in order.
pub open spec fn tri_bits(g: Graph, m: nat) -> Seq<bool>
    decreases m,
{
    if m == 0 {
        seq![]
    } else {
        tri_bits(g, (m - 1) as nat) + Seq::new((m - 1) as nat, |i: int| g.adj(m - 1, i))
    }
}

/// The graph6 encoding of `g`, newline included.
pub open spec fn spec_graph6(g: Graph) -> Seq<u8> {
    spec_encode_graph_size(g.num_vertices() as int) + pack6(tri_bits(g, g.num_vertices()))
        + seq![10u8]
}

/// The state of a [`G6String`] after the bits `p` were pushed on the header
/// `h`.
pub open spec fn holds_bits(s: G6String, h: Seq<u8>, p: Seq<bool>) -> bool {
    let q = (p.len() / 6) as int;
    &&& s.bytes() == h + pack6(p.take(6 * q))
    &&& s.current().value() == bits_value(p.skip(6 * q))
    &&& s.current().free() == 6 - p.len() % 6
}

proof fn lemma_holds_push(s0: G6String, s1: G6String, h: Seq<u8>, p: Seq<bool>, x: bool)
    requires
        holds_bits(s0, h, p),
        s0.pending_ok(),
        ({
            let v = s0.current().value() * 2 + if x {
                1int
            } else {
                0
            };
            if s0.current().free() == 1 {
                &&& s1.bytes() == s0.bytes().push((BIAS6 + v) as u8)
                &&& s1.current().value() == 0
                &&& s1.current().free() == CAPACITY
            } else {
                &&& s1.bytes() == s0.bytes()
                &&& s1.current().value() == v
                &&& s1.current().free() == s0.current().free() - 1
            }
        }),
    ensures
        holds_bits(s1, h, p.push(x)),
{
    let q = (p.len() / 6) as int;
    let p1 = p.push(x);
    let tail = p.skip(6 * q);
    assert(p1.skip(6 * q) =~= tail.push(x));
    lemma_bits_value_push(tail, x);
    if s0.current().free() == 1 {
        assert(p1.len() / 6 == q + 1);
        assert(p1.take(6 * (q + 1)) =~= p.take(6 * q) + tail.push(x));
        lemma_pack6_append(p.take(6 * q), tail.push(x));
        lemma2_to64();
        assert(tail.push(x).len() == 6);
        assert(pow2(0) == 1);
        let t = tail.push(x);
        assert(pow2((6 - t.len()) as nat) == 1);
        assert(bits_value(t) * pow2((6 - t.len()) as nat) == bits_value(t)) by (nonlinear_arith)
            requires
                pow2((6 - t.len()) as nat) == 1,
        ;
        assert(pack6(t) =~= seq![(BIAS6 + bits_value(t)) as u8]);
        assert(p1.skip(6 * (q + 1)) =~= Seq::<bool>::empty());
        assert(s1.bytes() =~= h + pack6(p1.take(6 * (q + 1))));
    } else {
        assert(p1.len() / 6 == q);
        assert(p1.take(6 * q) =~= p.take(6 * q));
    }
}

proof fn lemma_holds_finish(s: G6String, h: Seq<u8>, p: Seq<bool>)
    requires
        holds_bits(s, h, p),
    ensures
        (if s.current().free() < CAPACITY {
            s.bytes().push(
                (BIAS6 + s.current().value() * pow2(s.current().free() as nat)) as u8,
            )
        } else {
            s.bytes()
        }) == h + pack6(p),
{
    let q = (p.len() / 6) as int;
    assert(p =~= p.take(6 * q) + p.skip(6 * q));
    lemma_pack6_append(p.take(6 * q), p.skip(6 * q));
    if s.current().free() < CAPACITY {
        assert(pack6(p.skip(6 * q)) =~= seq![
            (BIAS6 + bits_value(p.skip(6 * q)) * pow2(s.current().free() as nat)) as u8,
        ]);
    } else {
        assert(p.skip(6 * q) =~= Seq::<bool>::empty());
    }
}

/// The size header is ASCII: true for every size the format allows.
pub open spec fn size_header_ascii(n: int) -> bool {
    n <= crate::graph6::SMALLISH_N || (n / 0x4000_0000) % 256 <= 64
}

pub proof fn lemma_graph6_ascii(g: Graph)
    requires
        size_header_ascii(g.num_vertices() as int),
    ensures
        all_ascii(spec_graph6(g)),
{
    let n = g.num_vertices() as int;
    let h = spec_encode_graph_size(n);
    lemma_pack6_bytes(tri_bits(g, g.num_vertices()));
    assert forall|k: int| 0 <= k < h.len() implies #[trigger] h[k] < 128 by {
        vstd::arithmetic::power2::lemma_pow2_pos(6);
        vstd::arithmetic::power2::lemma_pow2_pos(12);
        vstd::arithmetic::power2::lemma_pow2_pos(18);
        vstd::arithmetic::power2::lemma_pow2_pos(24);
        lemma2_to64();
        if n > crate::graph6::SMALLISH_N {
            assert(n / 0x4000_0000 >= 0);
        } else if n > SMALL_N {
            vstd::arithmetic::div_mod::lemma_div_is_ordered(
                n,
                crate::graph6::SMALLISH_N as int,
                4096,
            );
        }
    }
    let s = spec_graph6(g);
    let b = pack6(tri_bits(g, g.num_vertices()));
    assert forall|k: int| 0 <= k < s.len() implies #[trigger] s[k] < 128 by {
        if k < h.len() {
            assert(s[k] == h[k]);
        } else if k < h.len() + b.len() {
            assert(s[k] == b[k - h.len()]);
        }
    }
}

impl G6String {
    /// The graph6 string of `g`: the size header, then for each vertex its
    /// adjacency to every earlier vertex, six bits per character, then a
    /// newline.
    pub fn from(g: &Graph) -> (r: Self)
        requires
            g.wf(),
            g.num_vertices() >= 1,
            body_len_fits(g.num_vertices() as int),
            size_encodable(g.num_vertices() as int),
        ensures
            r.bytes() == spec_graph6(*g),
    {
        let n = g.n();
        let mut g6_string = Self::new(n);
        let ghost h = g6_string.bytes();
        let ghost mut p: Seq<bool> = seq![];
        proof {
            assert(p.take(0) =~= Seq::<bool>::empty());
            assert(p.skip(0) =~= Seq::<bool>::empty());
        }
        let mut i_row: usize = 0;
        while i_row < n
            invariant
                n == g.num_vertices(),
                g.wf(),
                i_row <= n,
                g6_string.pending_ok(),
                holds_bits(g6_string, h, p),
                p == tri_bits(*g, i_row as nat),
            decreases n - i_row,
        {
            let ghost p_row = p;
            let mut i_other_vertex: usize = 0;
            while i_other_vertex < i_row
                invariant
                    n == g.num_vertices(),
                    g.wf(),
                    i_row < n,
                    i_other_vertex <= i_row,
                    g6_string.pending_ok(),
                    holds_bits(g6_string, h, p),
                    p == p_row + Seq::new(
                        i_other_vertex as nat,
                        |i: int| g.adj(i_row as int, i),
                    ),
                decreases i_row - i_other_vertex,
            {
                let x = g.0[i_row].get(i_other_vertex);
                let ghost s0 = g6_string;
                g6_string.push(x);
                proof {
                    lemma_holds_push(s0, g6_string, h, p, x);
                    p = p.push(x);
                    assert(p =~= p_row + Seq::new(
                        (i_other_vertex + 1) as nat,
                        |i: int| g.adj(i_row as int, i),
                    ));
                }
                i_other_vertex = i_other_vertex + 1;
            }
            i_row = i_row + 1;
        }
        proof {
            lemma_holds_finish(g6_string, h, p);
        }
        g6_string.finish();
        g6_string
    }
}

/// Encodes the size `n` of a graph (function `encodegraphsize` of gtools).
pub fn encode_graph_size_g6(vertex_number: usize) -> (r: Vec<u8>)
    requires
        size_encodable(vertex_number as int),
    ensures
        r@ == spec_encode_graph_size(vertex_number as int),
{
    encode_graph_size(vertex_number)
}

/// The quotient of `a` by `b`, rounded up.
fn usize_div_ceil(a: usize, b: usize) -> (r: usize)
    requires
        b > 0,
    ensures
        r == (a + b - 1) / b as int,
{
    let q = a / b;
    let m = a % b;
    proof {
        assert(a == b * q + m && m < b) by (nonlinear_arith)
            requires
                b > 0,
                q == a / b,
                m == a % b,
        ;
        assert((a + b - 1) / b as int == q + if m != 0 {
            1int
        } else {
            0
        }) by (nonlinear_arith)
            requires
                b > 0,
                a == b * q + m,
                0 <= m < b,
        ;
        if m != 0 {
            assert(q < a) by (nonlinear_arith)
                requires
                    a == b * q + m,
                    m > 0,
                    b > 0,
                    q >= 0,
            ;
        }
    }
    if m != 0 {
        q + 1
    } else {
        q
    }
}

/// Number of body bytes for `n` vertices.
fn g6_body_len(n: usize) -> (r: usize)
    requires
        n >= 1,
        body_len_fits(n as int),
    ensures
        r == crate::graph6::spec_g6_body_len(n as int),
{
    proof {
        crate::graph6::lemma_body_len(n as int);
    }
    (n / 12) * (n - 1) + usize_div_ceil((n % 12) * (n - 1), 12)
}

/// The value of the byte at `pos`, minus 63, if there is such a byte and it
/// is at least 63.
pub open spec fn spec_next(bytes: Seq<u8>, pos: int) -> Option<int> {
    if 0 <= pos < bytes.len() && bytes[pos] >= BIAS6 {
        Some(bytes[pos] - BIAS6)
    } else {
        None
    }
}

/// Reads one byte and removes the bias.
fn next(bytes: &[u8], pos: &mut usize) -> (r: Result<usize, ()>)
    ensures
        r is Ok <==> spec_next(bytes@, *old(pos) as int) is Some,
        r matches Ok(v) ==> v == spec_next(bytes@, *old(pos) as int)->Some_0 && *final(pos)
            == *old(pos) + 1,
{
    if *pos >= bytes.len() {
        return Err(());
    }
    let b = bytes[*pos];
    *pos = *pos + 1;
    match b.checked_sub(BIAS6) {
        Some(v) => Ok(v as usize),
        None => Err(()),
    }
}

/// `(n << 6) | v`: one more six-bit group appended to `n`.
pub open spec fn shl6_or(n: usize, v: usize) -> usize {
    (n << 6usize) | v
}

/// The vertex count that a graph6 size header starting at `pos` encodes,
/// and the position after it; `None` where the bytes end too early or one is
/// below 63.
pub open spec fn spec_graph_size(bytes: Seq<u8>, pos: int) -> Option<(usize, int)> {
    match spec_next(bytes, pos) {
        None => None,
        Some(a) => if a <= SMALL_N {
            Some((a as usize, pos + 1))
        } else {
            match spec_next(bytes, pos + 1) {
                None => None,
                Some(b) => if b <= SMALL_N {
                    match (spec_next(bytes, pos + 2), spec_next(bytes, pos + 3)) {
                        (Some(c), Some(d)) => Some(
                            (shl6_or(shl6_or(b as usize, c as usize), d as usize), pos + 4),
                        ),
                        _ => None,
                    }
                } else {
                    match (
                        spec_next(bytes, pos + 2),
                        spec_next(bytes, pos + 3),
                        spec_next(bytes, pos + 4),
                        spec_next(bytes, pos + 5),
                        spec_next(bytes, pos + 6),
                        spec_next(bytes, pos + 7),
                    ) {
                        (Some(c), Some(d), Some(e), Some(f), Some(g), Some(h)) => Some(
                            (
                                shl6_or(
                                    shl6_or(
                                        shl6_or(
                                            shl6_or(shl6_or(c as usize, d as usize), e as usize),
                                            f as usize,
                                        ),
                                        g as usize,
                                    ),
                                    h as usize,
                                ),
                                pos + 8,
                            ),
                        ),
                        _ => None,
                    }
                }
            }
        },
    }
}

/// Reads the vertex count of a graph6, digraph6 or sparse6 string from its
/// size header starting at `pos`, and moves `pos` past it (function
/// `graphsize` of gtools).
pub fn graph_size(bytes: &[u8], pos: &mut usize) -> (r: Result<usize, G6Error>)
    ensures
        r is Ok <==> spec_graph_size(bytes@, *old(pos) as int) is Some,
        r matches Ok(n) ==> ({
            let (m, end) = spec_graph_size(bytes@, *old(pos) as int)->Some_0;
            n == m && *final(pos) == end
        }),
{
    let mut n: usize = match next(bytes, pos) {
        Ok(v) => v,
        Err(()) => return Err(G6Error()),
    };
    if n > SMALL_N {
        n = match next(bytes, pos) {
            Ok(v) => v,
            Err(()) => return Err(G6Error()),
        };
        if n > SMALL_N {
            n = match next(bytes, pos) {
                Ok(v) => v,
                Err(()) => return Err(G6Error()),
            };
            n = (n << 6) | match next(bytes, pos) {
                Ok(v) => v,
                Err(()) => return Err(G6Error()),
            };
            n = (n << 6) | match next(bytes, pos) {
                Ok(v) => v,
                Err(()) => return Err(G6Error()),
            };
            n = (n << 6) | match next(bytes, pos) {
                Ok(v) => v,
                Err(()) => return Err(G6Error()),
            };
            n = (n << 6) | match next(bytes, pos) {
                Ok(v) => v,
                Err(()) => return Err(G6Error()),
            };
            n = (n << 6) | match next(bytes, pos) {
                Ok(v) => v,
                Err(()) => return Err(G6Error()),
            };
        } else {
            let c = match next(bytes, pos) {
                Ok(v) => v,
                Err(()) => return Err(G6Error()),
            };
            n = (n << 6) | c;
            let d = match next(bytes, pos) {
                Ok(v) => v,
                Err(()) => return Err(G6Error()),
            };
            n = (n << 6) | d;
        }
    }
    Ok(n)
}

/// Bit `k` of a graph6 body starting at `start`: bit `k % 6`, counted from
/// the highest of six, of the byte `k / 6`, less 63.
pub open spec fn body_bit(bytes: Seq<u8>, start: int, k: int) -> bool {
    ((bytes[start + k / 6] - BIAS6) / pow2((5 - k % 6) as nat) as int) % 2 == 1
}

/// Position of the pair `i < j` in the graph6 order of the upper triangle.
pub open spec fn pair_index(i: int, j: int) -> int {
    j * (j - 1) / 2 + i
}

/// Number of body bytes that decoding reads for `n` vertices: one per six
/// bits, and at least one.
pub open spec fn body_chars_read(n: int) -> int {
    let nb = n * (n - 1) / 2;
    if nb <= 0 {
        1
    } else {
        (nb + 5) / 6
    }
}

/// Every body byte that decoding reads is there and is at least 63.
pub open spec fn body_readable(bytes: Seq<u8>, start: int, n: int) -> bool {
    forall|p: int| start <= p < start + body_chars_read(n) ==> #[trigger] readable_byte(bytes, p)
}

/// The byte at `p` is there and is at least 63.
pub open spec fn readable_byte(bytes: Seq<u8>, p: int) -> bool {
    0 <= p < bytes.len() && bytes[p] >= 63
}

pub proof fn lemma_readable_intro(bytes: Seq<u8>, start: int, n: int, m: int)
    requires
        m == body_chars_read(n),
        forall|p: int| start <= p < start + m ==> #[trigger] readable_byte(bytes, p),
    ensures
        body_readable(bytes, start, n),
{
}

/// The adjacency that a graph6 body gives to `i` and `j`.
pub open spec fn decoded_adj(bytes: Seq<u8>, start: int, i: int, j: int) -> bool {
    if i < j {
        body_bit(bytes, start, pair_index(i, j))
    } else if j < i {
        body_bit(bytes, start, pair_index(j, i))
    } else {
        false
    }
}

/// Popping from a character read from `v0` after `f` pops gives bit `f` of
/// its six, counted from the highest.
pub proof fn lemma_pop_bit(v0: u8, f: u8)
    requires
        f <= 5,
    ensures
        ((((v0 as int * pow2(f as nat)) % 256) / 32) % 2 == 1) == ((v0 as int / pow2(
            (5 - f) as nat,
        ) as int) % 2 == 1),
{
    crate::gtools::g6char::lemma_u8_shl(v0, f);
    let g = (5 - f) as u8;
    vstd::bits::lemma_u8_shr_is_div(v0, g);
    let a = v0 << f;
    let b = v0 >> g;
    assert((a / 32u8) % 2u8 == b % 2u8) by (bit_vector)
        requires
            f <= 5,
            g == 5 - f,
            a == v0 << f,
            b == v0 >> g,
    ;
}

/// Bit `t` of a sequence of bits read as a number, first bit highest.
pub proof fn lemma_bit_of_value(c: Seq<bool>, t: int)
    requires
        0 <= t < c.len(),
    ensures
        (bits_value(c) as int / pow2((c.len() - 1 - t) as nat) as int) % 2 == if c[t] {
            1int
        } else {
            0
        },
    decreases c.len(),
{
    let l = c.len() as int;
    let c1 = c.drop_last();
    let b: int = if c.last() {
        1
    } else {
        0
    };
    let v1 = bits_value(c1) as int;
    assert(bits_value(c) == 2 * v1 + b);
    if t == l - 1 {
        lemma2_to64();
        assert(pow2(0) == 1);
        assert((2 * v1 + b) / 1 == 2 * v1 + b);
    } else {
        lemma_bit_of_value(c1, t);
        assert(c1[t] == c[t]);
        let e = (l - 2 - t) as nat;
        lemma_pow2_unfold(e + 1);
        assert((l - 1 - t) as nat == e + 1);
        lemma_pow2_pos(e);
        vstd::arithmetic::div_mod::lemma_div_denominator(2 * v1 + b, 2, pow2(e) as int);
        assert((2 * v1 + b) / 2 == v1);
        assert(2 * pow2(e) as int == pow2(e + 1) as int);
    }
}

/// Bit `t` of a packed chunk of `c.len() <= 6` bits is `c[t]`.
proof fn lemma_unpack_chunk(c: Seq<bool>, t: int)
    requires
        0 <= t < c.len() <= 6,
    ensures
        ((bits_value(c) * pow2((6 - c.len()) as nat)) as int / pow2((5 - t) as nat) as int) % 2
            == if c[t] {
            1int
        } else {
            0
        },
{
    let l = c.len() as int;
    let a = (6 - l) as nat;
    let b = (l - 1 - t) as nat;
    lemma_bit_of_value(c, t);
    vstd::arithmetic::power2::lemma_pow2_adds(a, b);
    assert((5 - t) as nat == a + b);
    lemma_pow2_pos(a);
    lemma_pow2_pos(b);
    let x = bits_value(c) as int;
    vstd::arithmetic::div_mod::lemma_div_by_multiple(x, pow2(a) as int);
    vstd::arithmetic::div_mod::lemma_div_denominator(x * pow2(a), pow2(a) as int, pow2(b) as int);
    assert(x * pow2(a) >= 0) by (nonlinear_arith)
        requires
            x >= 0,
            pow2(a) > 0,
    ;
}

/// Every bit of a packed body reads back.
pub proof fn lemma_pack_unpack(bits: Seq<bool>, k: int)
    requires
        0 <= k < bits.len(),
    ensures
        k / 6 < pack6(bits).len(),
        ((pack6(bits)[k / 6] - BIAS6) / pow2((5 - k % 6) as nat) as int) % 2 == 1 <==> bits[k],
    decreases bits.len(),
{
    lemma_pack6_bytes(bits);
    lemma2_to64();
    if bits.len() <= 6 {
        lemma_bits_value_bound(bits);
        let e = (6 - bits.len()) as nat;
        vstd::arithmetic::power2::lemma_pow2_adds(bits.len(), e);
        lemma_pow2_pos(e);
        assert(bits_value(bits) * pow2(e) < 64) by (nonlinear_arith)
            requires
                bits_value(bits) < pow2(bits.len()),
                pow2(bits.len()) * pow2(e) == 64,
                pow2(e) > 0,
        ;
        assert(pack6(bits)[0] - BIAS6 == bits_value(bits) * pow2(e));
        lemma_unpack_chunk(bits, k);
    } else if k < 6 {
        let c = bits.take(6);
        lemma_bits_value_bound(c);
        assert(pow2(0) == 1);
        assert(pack6(bits)[0] - BIAS6 == bits_value(c));
        assert(bits_value(c) * pow2((6 - c.len()) as nat) == bits_value(c)) by (nonlinear_arith)
            requires
                pow2((6 - c.len()) as nat) == 1,
        ;
        lemma_unpack_chunk(c, k);
        assert(c[k] == bits[k]);
    } else {
        lemma_pack_unpack(bits.skip(6), k - 6);
        assert(bits.skip(6)[k - 6] == bits[k]);
        assert((k - 6) / 6 == k / 6 - 1);
        assert((k - 6) % 6 == k % 6);
        assert(pack6(bits)[k / 6] == pack6(bits.skip(6))[(k - 6) / 6]);
    }
}

pub proof fn lemma_tri_len(g: Graph, m: nat)
    ensures
        tri_bits(g, m).len() == m * (m - 1) / 2,
    decreases m,
{
    if m > 0 {
        lemma_tri_len(g, (m - 1) as nat);
        let mi = m as int;
        let a = (mi - 1) * (mi - 2);
        assert(mi * (mi - 1) == a + 2 * (mi - 1)) by (nonlinear_arith)
            requires
                a == (mi - 1) * (mi - 2),
        ;
        assert((a + 2 * (mi - 1)) / 2 == a / 2 + (mi - 1));
        assert(((m - 1) as nat) * (((m - 1) as nat) - 1) == a);
        assert(tri_bits(g, m).len() == tri_bits(g, (m - 1) as nat).len() + (mi - 1));
        assert(tri_bits(g, m).len() == a / 2 + (mi - 1));
        assert(m * (m - 1) == mi * (mi - 1));
        assert(tri_bits(g, m).len() == (mi * (mi - 1)) / 2);
    } else {
        assert(m * (m - 1) == 0) by (nonlinear_arith)
            requires
                m == 0,
        ;
    }
}

pub proof fn lemma_tri_index(g: Graph, m: nat, i: int, j: int)
    requires
        0 <= i < j < m,
    ensures
        pair_index(i, j) < tri_bits(g, m).len(),
        tri_bits(g, m)[pair_index(i, j)] == g.adj(j, i),
    decreases m,
{
    lemma_tri_len(g, m);
    lemma_tri_len(g, (m - 1) as nat);
    let prev = tri_bits(g, (m - 1) as nat);
    if j == m - 1 {
        assert(pair_index(i, j) == prev.len() + i);
    } else {
        lemma_tri_index(g, (m - 1) as nat, i, j);
    }
}

/// A size header, written and read back, gives the size and its length.
pub proof fn lemma_graph_size_encode(n: usize, rest: Seq<u8>)
    requires
        (n >> 30usize) < 64,
    ensures
        spec_graph_size(spec_encode_graph_size(n as int) + rest, 0) == Some(
            (n, spec_encode_graph_size(n as int).len() as int),
        ),
{
    let h = spec_encode_graph_size(n as int);
    let bs = h + rest;
    lemma2_to64();
    crate::graph6::lemma_shift_group(n, 30);
    crate::graph6::lemma_shift_group(n, 24);
    crate::graph6::lemma_shift_group(n, 18);
    crate::graph6::lemma_shift_group(n, 12);
    crate::graph6::lemma_shift_group(n, 6);
    crate::graph6::lemma_shift_group(n, 0);
    assert(pow2(0) == 1);
    if n <= SMALL_N {
        assert(bs[0] == (BIAS6 + n) as u8);
    } else if n <= crate::graph6::SMALLISH_N {
        vstd::arithmetic::div_mod::lemma_div_is_ordered(
            n as int,
            crate::graph6::SMALLISH_N as int,
            4096,
        );
        assert(bs[0] == 126);
        assert(bs[1] == (BIAS6 + n as int / 4096) as u8);
        assert(bs[2] == (BIAS6 + ((n >> 6usize) & 63)) as u8);
        assert(bs[3] == (BIAS6 + ((n >> 0usize) & 63)) as u8);
        let b = n >> 12usize;
        let c = (n >> 6usize) & 63;
        let d = (n >> 0usize) & 63;
        assert(((b << 6usize) | c) << 6usize | d == n) by (bit_vector)
            requires
                n <= 258047,
                b == n >> 12usize,
                c == (n >> 6usize) & 63,
                d == (n >> 0usize) & 63,
        ;
    } else {
        assert(bs[0] == 126);
        assert(bs[1] == 126);
        let c = n >> 30usize;
        assert(c as int % 256 == c);
        let d = (n >> 24usize) & 63;
        let e = (n >> 18usize) & 63;
        let f = (n >> 12usize) & 63;
        let g = (n >> 6usize) & 63;
        let h0 = (n >> 0usize) & 63;
        assert(bs[2] == (BIAS6 + c) as u8);
        assert(bs[3] == (BIAS6 + d) as u8);
        assert(bs[4] == (BIAS6 + e) as u8);
        assert(bs[5] == (BIAS6 + f) as u8);
        assert(bs[6] == (BIAS6 + g) as u8);
        assert(bs[7] == (BIAS6 + h0) as u8);
        assert(((((((c << 6usize) | d) << 6usize | e) << 6usize | f) << 6usize | g) << 6usize)
            | h0 == n) by (bit_vector)
            requires
                c == n >> 30usize,
                c < 64,
                d == (n >> 24usize) & 63,
                e == (n >> 18usize) & 63,
                f == (n >> 12usize) & 63,
                g == (n >> 6usize) & 63,
                h0 == (n >> 0usize) & 63,
        ;
    }
}


/// The bytes, the value of the character being filled and its free slots
/// after `bits` are pushed one after the other from `(bytes, value, free)`,
/// as `push` states each step.
pub open spec fn pushed_state(bytes: Seq<u8>, value: int, free: int, bits: Seq<bool>) -> (Seq<u8>, int, int)
    decreases bits.len(),
{
    if bits.len() == 0 {
        (bytes, value, free)
    } else {
        let (b0, v0, f0) = pushed_state(bytes, value, free, bits.drop_last());
        let v = v0 * 2 + if bits.last() {
            1int
        } else {
            0
        };
        if f0 == 1 {
            (b0.push((BIAS6 + v) as u8), 0, CAPACITY as int)
        } else {
            (b0, v, f0 - 1)
        }
    }
}

/// The bytes written for `bits`: 63 plus the number spelled by each whole
/// group of six bits, in order.
pub open spec fn six_bit_bytes(bits: Seq<bool>) -> Seq<u8> {
    Seq::new((bits.len() / 6) as nat, |t: int| (BIAS6 + bits_value(bits.subrange(6 * t, 6 * t + 6))) as u8)
}

/// After the bits `b_0, ..., b_{k-1}` are pushed into a fresh string,
/// whose bytes hold the size header, the bytes are the header followed by
/// one byte `63 + sum_u b_(6t+u) 2^(5-u)` for each whole group of six bits,
/// and the character being filled holds the `k % 6` bits left over, in
/// push order, with `6 - k % 6` free slots.
pub proof fn lemma_pushed_bits(header: Seq<u8>, bits: Seq<bool>)
    ensures
        pushed_state(header, 0, CAPACITY as int, bits) == (
            header + six_bit_bytes(bits),
            bits_value(bits.subrange(6 * (bits.len() / 6) as int, bits.len() as int)) as int,
            6 - bits.len() % 6,
        ),
    decreases bits.len(),
{
    let k = bits.len() as int;
    if k == 0 {
        assert(six_bit_bytes(bits) =~= Seq::<u8>::empty());
        assert(header + six_bit_bytes(bits) =~= header);
        assert(bits.subrange(0, 0) =~= Seq::<bool>::empty());
    } else {
        let pre = bits.drop_last();
        lemma_pushed_bits(header, pre);
        let q = (k - 1) / 6;
        let r = (k - 1) % 6;
        assert(k - 1 == 6 * q + r && 0 <= r < 6);
        let tail0 = pre.subrange(6 * q, k - 1);
        assert(bits.subrange(6 * q, k) =~= tail0.push(bits.last()));
        assert(bits_value(tail0.push(bits.last())) == 2 * bits_value(tail0) + if bits.last() {
            1nat
        } else {
            0nat
        }) by {
            assert(tail0.push(bits.last()).drop_last() =~= tail0);
        }
        let v = bits_value(tail0) as int * 2 + if bits.last() {
            1int
        } else {
            0
        };
        assert forall|t: int| 0 <= t < q implies #[trigger] bits.subrange(6 * t, 6 * t + 6) == pre.subrange(
            6 * t,
            6 * t + 6,
        ) by {
            assert(bits.subrange(6 * t, 6 * t + 6) =~= pre.subrange(6 * t, 6 * t + 6));
        }
        if r == 5 {
            assert(k / 6 == q + 1 && k % 6 == 0);
            assert(bits.subrange(6 * (q + 1), k) =~= Seq::<bool>::empty());
            assert(six_bit_bytes(bits) =~= six_bit_bytes(pre).push((BIAS6 + v) as u8));
            assert(header + six_bit_bytes(bits) =~= (header + six_bit_bytes(pre)).push((BIAS6 + v) as u8));
        } else {
            assert(k / 6 == q && k % 6 == r + 1);
            assert(six_bit_bytes(bits) =~= six_bit_bytes(pre));
        }
    }
}

} // verus!
