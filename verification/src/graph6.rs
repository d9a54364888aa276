//! Sizes and the size header of the graph6 format
//! (<https://users.cecs.anu.edu.au/~bdm/data/formats.txt>).
use vstd::prelude::*;

verus! {

/// Largest vertex count whose size header is one byte.
pub const SMALL_N: usize = 62;

/// Largest vertex count whose size header is four bytes.
pub const SMALLISH_N: usize = 258047;

/// Offset added to every 6-bit group to make it a printable byte.
pub const BIAS6: u8 = 63;

/// Byte that announces a long size header.
pub const MAXBYTE: u8 = 126;

/// Mask of the low six bits.
pub const C6MASK: usize = 63;

/// The word whose single set bit is bit `i` counted from the most
/// significant end, as in the table `BIT` of nauty.
pub open spec fn spec_bit(i: nat) -> int {
    vstd::arithmetic::power2::pow2((63 - i) as nat) as int
}

/// Number of bytes of the size header for `n` vertices.
pub open spec fn spec_size_len(n: int) -> int {
    if n <= SMALL_N {
        1
    } else if n <= SMALLISH_N {
        4
    } else {
        8
    }
}

/// Number of bytes of the body for `n` vertices: the `n(n-1)/2` bits of the
/// upper triangle, six per byte, rounded up.
pub open spec fn spec_g6_body_len(n: int) -> int {
    (n * (n - 1) + 11) / 12
}

/// The intermediate values of the body length computation fit in a `usize`.
pub open spec fn body_len_fits(n: int) -> bool {
    &&& (n / 12) * (n - 1) <= usize::MAX
    &&& (n % 12) * (n - 1) + 11 <= usize::MAX
    &&& (n / 12) * (n - 1) + ((n % 12) * (n - 1) + 11) / 12 <= usize::MAX
}

pub proof fn lemma_body_len(n: int)
    requires
        n >= 1,
    ensures
        (n / 12) * (n - 1) + ((n % 12) * (n - 1) + 11) / 12 == spec_g6_body_len(n),
{
    let q = n / 12;
    let r = n % 12;
    assert(n == 12 * q + r);
    assert(n * (n - 1) == 12 * (q * (n - 1)) + r * (n - 1)) by (nonlinear_arith)
        requires
            n == 12 * q + r,
    ;
    assert(q * (n - 1) >= 0) by (nonlinear_arith)
        requires
            q >= 0,
            n >= 1,
    ;
    assert(r * (n - 1) >= 0) by (nonlinear_arith)
        requires
            r >= 0,
            n >= 1,
    ;
    let a = q * (n - 1);
    let b = r * (n - 1) + 11;
    assert((12 * a + b) / 12 == a + b / 12) by (nonlinear_arith)
        requires
            a >= 0,
            b >= 0,
    ;
}

/// Total length of the graph6 encoding of a graph with `n` vertices, without
/// the final newline.
pub fn g6_len(n: usize) -> (r: usize)
    requires
        n >= 1,
        body_len_fits(n as int),
        spec_size_len(n as int) + spec_g6_body_len(n as int) <= usize::MAX,
    ensures
        r == spec_size_len(n as int) + spec_g6_body_len(n as int),
{
    let body = g6_body_len(n);
    size_len(n) + body
}

/// Number of bytes of the size header for `n` vertices.
pub fn size_len(n: usize) -> (r: usize)
    ensures
        r == spec_size_len(n as int),
{
    if n <= SMALL_N {
        1
    } else if n <= SMALLISH_N {
        4
    } else {
        8
    }
}

/// Number of bytes of the body for `n` vertices.
pub fn g6_body_len(n: usize) -> (r: usize)
    requires
        n >= 1,
        body_len_fits(n as int),
    ensures
        r == spec_g6_body_len(n as int),
{
    proof {
        lemma_body_len(n as int);
    }
    (n / 12) * (n - 1) + ((n % 12) * (n - 1) + 11) / 12
}

/// The size header may be written without overflowing a byte: true for every
/// size the format allows (below 2^36) and for some larger ones.
pub open spec fn size_encodable(n: int) -> bool {
    n <= SMALLISH_N || (n / 0x4000_0000) % 256 <= 192
}

/// The six-bit group of `n` that starts at bit `shift`.
pub open spec fn six_bits(n: int, shift: nat) -> int {
    (n / vstd::arithmetic::power2::pow2(shift) as int) % 64
}

/// The graph6 size header `N(n)`.
pub open spec fn spec_encode_graph_size(n: int) -> Seq<u8> {
    if n <= SMALL_N {
        seq![(BIAS6 + n) as u8]
    } else if n <= SMALLISH_N {
        seq![
            MAXBYTE,
            (BIAS6 + n / 4096) as u8,
            (BIAS6 + six_bits(n, 6)) as u8,
            (BIAS6 + six_bits(n, 0)) as u8,
        ]
    } else {
        seq![
            MAXBYTE,
            MAXBYTE,
            (BIAS6 + (n / 0x4000_0000) % 256) as u8,
            (BIAS6 + six_bits(n, 24)) as u8,
            (BIAS6 + six_bits(n, 18)) as u8,
            (BIAS6 + six_bits(n, 12)) as u8,
            (BIAS6 + six_bits(n, 6)) as u8,
            (BIAS6 + six_bits(n, 0)) as u8,
        ]
    }
}

pub proof fn lemma_shift_group(n: usize, s: usize)
    requires
        s < 32,
    ensures
        ((n >> s) & 63) as int == six_bits(n as int, s as nat),
        (n >> s) as int == n as int / vstd::arithmetic::power2::pow2(s as nat) as int,
{
    vstd::bits::lemma_usize_shr_is_div(n, s);
    vstd::bits::lemma_usize_low_bits_mask_is_mod(n >> s, 6);
    vstd::arithmetic::power2::lemma2_to64();
    assert(vstd::bits::low_bits_mask(6) == 63) by {
        vstd::bits::lemma_low_bits_mask_values();
    }
}

/// Encodes the vertex count `n` as the graph6 size header, function `N(n)` of
/// the format description.
pub fn encode_graph_size(n: usize) -> (r: Vec<u8>)
    requires
        size_encodable(n as int),
    ensures
        r@ == spec_encode_graph_size(n as int),
{
    if n <= SMALL_N {
        vec![BIAS6 + n as u8]
    } else if n <= SMALLISH_N {
        proof {
            lemma_shift_group(n, 12);
            lemma_shift_group(n, 6);
            lemma_shift_group(n, 0);
            vstd::arithmetic::power2::lemma2_to64();
            vstd::arithmetic::div_mod::lemma_div_is_ordered(n as int, SMALLISH_N as int, 4096);
        }
        vec![
            MAXBYTE,
            BIAS6 + ((n >> 12) as u8),
            BIAS6 + ((n >> 6) & C6MASK) as u8,
            BIAS6 + (n & C6MASK) as u8,
        ]
    } else {
        proof {
            lemma_shift_group(n, 30);
            lemma_shift_group(n, 24);
            lemma_shift_group(n, 18);
            lemma_shift_group(n, 12);
            lemma_shift_group(n, 6);
            lemma_shift_group(n, 0);
            vstd::arithmetic::power2::lemma2_to64();
            let h = n >> 30;
            assert((h as u8) as int == (h as int) % 256) by (bit_vector);
        }
        vec![
            MAXBYTE,
            MAXBYTE,
            BIAS6 + ((n >> 30) as u8),
            BIAS6 + ((n >> 24) & C6MASK) as u8,
            BIAS6 + ((n >> 18) & C6MASK) as u8,
            BIAS6 + ((n >> 12) & C6MASK) as u8,
            BIAS6 + ((n >> 6) & C6MASK) as u8,
            BIAS6 + (n & C6MASK) as u8,
        ]
    }
}

} // verus!
