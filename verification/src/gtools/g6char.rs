//! One character of a graph6 string, filled or emptied six bits at a time.
use crate::graph6::BIAS6;
use crate::gtools::g6error::G6Error;
use crate::gtools::g6string::bits_value;
use vstd::prelude::*;

verus! {

/// Mask of the highest of the six bits of a graph6 character.
pub const TOPBIT6: u8 = 32;

/// Number of bits that one graph6 character holds.
pub const CAPACITY: u8 = 6;

/// Shifting a byte left drops the bits that leave it: it multiplies by a power
/// of two modulo 256.
pub proof fn lemma_u8_shl(x: u8, s: u8)
    requires
        s < 8,
    ensures
        (x << s) as int == (x as int * vstd::arithmetic::power2::pow2(s as nat)) % 256,
    decreases s,
{
    vstd::arithmetic::power2::lemma2_to64();
    if s == 0 {
        assert(x << 0u8 == x) by (bit_vector);
    } else {
        lemma_u8_shl(x, (s - 1) as u8);
        let y = x << ((s - 1) as u8);
        assert(x << s == y << 1u8) by (bit_vector)
            requires
                0 < s < 8,
                y == x << ((s - 1) as u8),
        ;
        assert((y << 1u8) as int == (y as int * 2) % 256) by (bit_vector);
        let p = vstd::arithmetic::power2::pow2((s - 1) as nat) as int;
        vstd::arithmetic::power2::lemma_pow2_unfold(s as nat);
        vstd::arithmetic::div_mod::lemma_mul_mod_noop_left(x as int * p, 2, 256);
        assert(x as int * p * 2 == x as int * (2 * p)) by (nonlinear_arith);
    }
}

/// G6Char represents a char in a graph6 representation of a graph.
pub struct G6Char {
    value_so_far: u8,
    push_left_count: u8,
}

impl G6Char {
    /// The bits held so far, as a number.
    pub closed spec fn value(self) -> u8 {
        self.value_so_far
    }

    /// How many more bits may be pushed before the character is full.
    pub closed spec fn free(self) -> u8 {
        self.push_left_count
    }

    /// A copy of the character.
    pub fn duplicate(&self) -> (r: Self)
        ensures
            r == *self,
    {
        Self { value_so_far: self.value_so_far, push_left_count: self.push_left_count }
    }

    /// An empty character, with room for six bits.
    pub fn new() -> (r: Self)
        ensures
            r.value() == 0,
            r.free() == CAPACITY,
    {
        Self { value_so_far: 0, push_left_count: CAPACITY }
    }

    /// A character read from the byte `value` of a graph6 string: its six
    /// bits are `value - 63`, all of them still to be popped.
    pub fn try_from_byte(value: u8) -> (r: Result<Self, G6Error>)
        ensures
            value < BIAS6 <==> r is Err,
            r matches Ok(c) ==> c.value() == value - BIAS6 && c.free() == 0,
    {
        if value < BIAS6 {
            Err(G6Error())
        } else {
            Ok(Self { value_so_far: value - BIAS6, push_left_count: 0 })
        }
    }

    /// Appends the bit `x` after the bits held so far.
    pub fn push_back(&mut self, x: bool)
        requires
            old(self).free() >= 1,
        ensures
            final(self).value() == ((old(self).value() as int * 2 + if x { 1int } else { 0 })
                % 256) as u8,
            final(self).free() == old(self).free() - 1,
    {
        proof {
            let v = self.value_so_far;
            assert((v << 1u8) as int == (v as int * 2) % 256) by (bit_vector);
            assert(((v << 1u8) | 1u8) as int == (v as int * 2 + 1) % 256) by (bit_vector);
        }
        self.value_so_far = self.value_so_far << 1;
        if x {
            self.value_so_far = self.value_so_far | 1;
        }
        self.push_left_count = self.push_left_count - 1;
    }

    /// Removes the first of the six bits and returns it.
    pub fn pop_front(&mut self) -> (r: bool)
        requires
            old(self).free() < 255,
        ensures
            r == ((old(self).value() / 32) % 2 == 1),
            final(self).value() == ((old(self).value() as int * 2) % 256) as u8,
            final(self).free() == old(self).free() + 1,
    {
        proof {
            let v = self.value_so_far;
            assert((v & 32u8 != 0u8) == ((v / 32u8) % 2u8 == 1u8)) by (bit_vector);
            assert((v << 1u8) as int == (v as int * 2) % 256) by (bit_vector);
        }
        let top_bit = self.value_so_far & TOPBIT6 != 0;
        self.value_so_far = self.value_so_far << 1;
        self.push_left_count = self.push_left_count + 1;
        top_bit
    }

    /// Number of bits pushed and not yet popped.
    pub fn len(&self) -> (r: u8)
        requires
            self.free() <= CAPACITY,
        ensures
            r == CAPACITY - self.free(),
    {
        CAPACITY - self.push_left_count
    }

    /// Whether the character holds six bits.
    pub fn is_full(&self) -> (r: bool)
        requires
            self.free() <= CAPACITY,
        ensures
            r == (self.free() == 0),
    {
        self.len() == CAPACITY
    }

    /// Whether the character holds no bit.
    pub fn is_empty(&self) -> (r: bool)
        requires
            self.free() <= CAPACITY,
        ensures
            r == (self.free() == CAPACITY),
    {
        self.len() == 0
    }

    /// The printable byte of the character: its bits moved to the top of the
    /// six, the missing ones zero, plus 63.
    pub fn to_char(&self) -> (r: u8)
        requires
            self.free() < 8,
            BIAS6 + (self.value() as int * vstd::arithmetic::power2::pow2(self.free() as nat))
                % 256 <= 255,
        ensures
            r == BIAS6 + (self.value() as int * vstd::arithmetic::power2::pow2(
                self.free() as nat,
            )) % 256,
    {
        proof {
            lemma_u8_shl(self.value_so_far, self.push_left_count);
        }
        BIAS6 + (self.value_so_far << self.push_left_count)
    }
}

/// The value of a character after `bits` are pushed, one after the other,
/// from `v`, as `push_back` states each step.
pub open spec fn pushed_value(v: u8, bits: Seq<bool>) -> u8
    decreases bits.len(),
{
    if bits.len() == 0 {
        v
    } else {
        ((pushed_value(v, bits.drop_last()) as int * 2 + if bits.last() {
            1int
        } else {
            0
        }) % 256) as u8
    }
}

/// The bits that `k` calls of `pop_front` return from the value `v`, in
/// order, as `pop_front` states each step.
pub open spec fn popped_bits(v: u8, k: nat) -> Seq<bool>
    decreases k,
{
    if k == 0 {
        seq![]
    } else {
        seq![(v / 32) % 2 == 1] + popped_bits(((v as int * 2) % 256) as u8, (k - 1) as nat)
    }
}

/// Pushing at most six bits into an empty character gives the number they
/// spell.
pub proof fn lemma_pushed_value(bits: Seq<bool>)
    requires
        bits.len() <= 6,
    ensures
        pushed_value(0, bits) == bits_value(bits),
        bits_value(bits) < vstd::arithmetic::power2::pow2(bits.len()),
    decreases bits.len(),
{
    vstd::arithmetic::power2::lemma2_to64();
    if bits.len() > 0 {
        lemma_pushed_value(bits.drop_last());
        vstd::arithmetic::power2::lemma_pow2_unfold(bits.len());
        vstd::arithmetic::power2::lemma_pow2_strictly_increases((bits.len() - 1) as nat, 6);
    }
}

/// After `k <= 6` bits `b_0, ..., b_{k-1}` are pushed into an empty
/// character, `to_char` gives 63 plus the sum of `b_t * 2^(5 - t)`: the
/// bits at the top of the six, the missing ones zero; it lies in `63 ..=
/// 126`.
pub proof fn lemma_to_char_after_pushes(bits: Seq<bool>)
    requires
        bits.len() <= 6,
    ensures
        BIAS6 + (pushed_value(0, bits) as int * vstd::arithmetic::power2::pow2((CAPACITY - bits.len()) as nat))
            % 256 == BIAS6 + bits_value(bits) * vstd::arithmetic::power2::pow2((6 - bits.len()) as nat),
        BIAS6 <= BIAS6 + bits_value(bits) * vstd::arithmetic::power2::pow2((6 - bits.len()) as nat) <= 126,
{
    lemma_pushed_value(bits);
    let k = bits.len();
    let p = vstd::arithmetic::power2::pow2((6 - k) as nat);
    vstd::arithmetic::power2::lemma_pow2_adds(k, (6 - k) as nat);
    vstd::arithmetic::power2::lemma2_to64();
    let v = bits_value(bits);
    assert(v * p < 64) by (nonlinear_arith)
        requires
            v < vstd::arithmetic::power2::pow2(k),
            vstd::arithmetic::power2::pow2(k) * p == 64,
            p > 0,
    ;
    assert(v * p >= 0) by (nonlinear_arith)
        requires
            p > 0,
    ;
}

/// One bit as a number.
pub open spec fn bit_of(b: bool) -> u8 {
    if b {
        1
    } else {
        0
    }
}

/// Six bits spell `32 b_0 + 16 b_1 + 8 b_2 + 4 b_3 + 2 b_4 + b_5`.
proof fn lemma_bits_value_six(bits: Seq<bool>)
    requires
        bits.len() == 6,
    ensures
        bits_value(bits) == 32 * bit_of(bits[0]) + 16 * bit_of(bits[1]) + 8 * bit_of(bits[2]) + 4 * bit_of(bits[3])
            + 2 * bit_of(bits[4]) + bit_of(bits[5]),
{
    let b5 = bits.drop_last();
    let b4 = b5.drop_last();
    let b3 = b4.drop_last();
    let b2 = b3.drop_last();
    let b1 = b2.drop_last();
    let b0 = b1.drop_last();
    assert(b0.len() == 0);
    assert(bits_value(b0) == 0);
    assert(b1.last() == bits[0]);
    assert(b2.last() == bits[1]);
    assert(b3.last() == bits[2]);
    assert(b4.last() == bits[3]);
    assert(b5.last() == bits[4]);
    assert(bits.last() == bits[5]);
    assert(bits_value(b1) == bit_of(bits[0]));
    assert(bits_value(b2) == 2 * bit_of(bits[0]) + bit_of(bits[1]));
    assert(bits_value(b3) == 4 * bit_of(bits[0]) + 2 * bit_of(bits[1]) + bit_of(bits[2]));
    assert(bits_value(b4) == 8 * bit_of(bits[0]) + 4 * bit_of(bits[1]) + 2 * bit_of(bits[2]) + bit_of(bits[3]));
    assert(bits_value(b5) == 16 * bit_of(bits[0]) + 8 * bit_of(bits[1]) + 4 * bit_of(bits[2]) + 2 * bit_of(bits[3])
        + bit_of(bits[4]));
}

/// Six bits pushed into an empty character come back in the same order
/// from six calls of `pop_front`; the byte `to_char` gives for them, read
/// back by `try_from_byte`, holds the same value, so they come back from it
/// too.
#[verifier::spinoff_prover]
#[verifier::rlimit(60)]
pub proof fn lemma_six_bits_round_trip(bits: Seq<bool>)
    requires
        bits.len() == 6,
    ensures
        popped_bits(pushed_value(0, bits), 6) == bits,
        (BIAS6 + (pushed_value(0, bits) as int * vstd::arithmetic::power2::pow2(0)) % 256) - BIAS6 == pushed_value(
            0,
            bits,
        ),
{
    vstd::arithmetic::power2::lemma2_to64();
    lemma_pushed_value(bits);
    lemma_bits_value_six(bits);
    let v: u8 = pushed_value(0, bits);
    let x0 = bit_of(bits[0]);
    let x1 = bit_of(bits[1]);
    let x2 = bit_of(bits[2]);
    let x3 = bit_of(bits[3]);
    let x4 = bit_of(bits[4]);
    let x5 = bit_of(bits[5]);
    let v1: u8 = ((v as int * 2) % 256) as u8;
    let v2: u8 = ((v1 as int * 2) % 256) as u8;
    let v3: u8 = ((v2 as int * 2) % 256) as u8;
    let v4: u8 = ((v3 as int * 2) % 256) as u8;
    let v5: u8 = ((v4 as int * 2) % 256) as u8;
    let v6: u8 = ((v5 as int * 2) % 256) as u8;
    assert(v1 == v << 1u8) by (bit_vector)
        requires
            v1 == ((v as int * 2) % 256) as u8,
    ;
    assert(v2 == v1 << 1u8) by (bit_vector)
        requires
            v2 == ((v1 as int * 2) % 256) as u8,
    ;
    assert(v3 == v2 << 1u8) by (bit_vector)
        requires
            v3 == ((v2 as int * 2) % 256) as u8,
    ;
    assert(v4 == v3 << 1u8) by (bit_vector)
        requires
            v4 == ((v3 as int * 2) % 256) as u8,
    ;
    assert(v5 == v4 << 1u8) by (bit_vector)
        requires
            v5 == ((v4 as int * 2) % 256) as u8,
    ;
    assert({
        &&& (v / 32) % 2 == x0
        &&& (v1 / 32) % 2 == x1
        &&& (v2 / 32) % 2 == x2
        &&& (v3 / 32) % 2 == x3
        &&& (v4 / 32) % 2 == x4
        &&& (v5 / 32) % 2 == x5
    }) by (bit_vector)
        requires
            v == 32 * x0 + 16 * x1 + 8 * x2 + 4 * x3 + 2 * x4 + x5,
            x0 <= 1,
            x1 <= 1,
            x2 <= 1,
            x3 <= 1,
            x4 <= 1,
            x5 <= 1,
            v1 == v << 1u8,
            v2 == v1 << 1u8,
            v3 == v2 << 1u8,
            v4 == v3 << 1u8,
            v5 == v4 << 1u8,
    ;
    assert(popped_bits(v5, 1) == seq![(v5 / 32) % 2 == 1] + popped_bits(v6, 0));
    assert(popped_bits(v4, 2) == seq![(v4 / 32) % 2 == 1] + popped_bits(v5, 1));
    assert(popped_bits(v3, 3) == seq![(v3 / 32) % 2 == 1] + popped_bits(v4, 2));
    assert(popped_bits(v2, 4) == seq![(v2 / 32) % 2 == 1] + popped_bits(v3, 3));
    assert(popped_bits(v1, 5) == seq![(v1 / 32) % 2 == 1] + popped_bits(v2, 4));
    assert(popped_bits(v, 6) == seq![(v / 32) % 2 == 1] + popped_bits(v1, 5));
    assert(popped_bits(v, 6) =~= bits);
}

} // verus!
