//! Sets of vertices, held as bit vectors whose bit `i` (counted from the
//! most significant end of the first word) says whether vertex `i` is in.
use bitvec::order::Msb0;
use bitvec::vec::BitVec;
use vstd::prelude::*;

verus! {

/// A set of vertices: a bit vector of `bitvec`, most significant bit first.
#[verifier::external_body]
#[derive(PartialEq, Eq, Debug)]
pub struct BitSet {
    bits: BitVec<usize, Msb0>,
}

/// The bits that a [`BitSet`] holds, in order.
pub uninterp spec fn bitset_bits(s: BitSet) -> Seq<bool>;

impl View for BitSet {
    type V = Seq<bool>;

    open spec fn view(&self) -> Seq<bool> {
        bitset_bits(*self)
    }
}

/// Largest length of a `bitvec` bit vector (`BitSlice::MAX_BITS`).
pub open spec fn max_bits() -> int {
    usize::MAX as int / 8
}

/// Number of `true` entries of a sequence of bits.
pub open spec fn count_true(s: Seq<bool>) -> nat
    decreases s.len(),
{
    if s.len() == 0 {
        0
    } else {
        count_true(s.drop_last()) + if s.last() { 1nat } else { 0nat }
    }
}

/// Index of the first `true` entry, or the length when there is none.
pub open spec fn first_true(s: Seq<bool>) -> int {
    if exists|k: int| 0 <= k < s.len() && s[k] {
        choose|k: int| 0 <= k < s.len() && s[k] && forall|j: int| 0 <= j < k ==> !s[j]
    } else {
        s.len() as int
    }
}

/// The bit `k` of a word, bits counted from the most significant end.
pub open spec fn word_bit(w: usize, k: int) -> bool {
    (w >> ((usize::BITS - 1 - k) as usize)) & 1 == 1
}

/// `a & b` of `bitvec`: `b` is zero-extended, the length is that of `a`.
pub open spec fn seq_and(a: Seq<bool>, b: Seq<bool>) -> Seq<bool> {
    Seq::new(a.len(), |k: int| a[k] && k < b.len() && b[k])
}

/// `a | b` of `bitvec`: `b` is zero-extended, the length is that of `a`.
pub open spec fn seq_or(a: Seq<bool>, b: Seq<bool>) -> Seq<bool> {
    Seq::new(a.len(), |k: int| a[k] || (k < b.len() && b[k]))
}

/// `!a` of `bitvec`: every bit flipped.
pub open spec fn seq_not(a: Seq<bool>) -> Seq<bool> {
    Seq::new(a.len(), |k: int| !a[k])
}

pub proof fn lemma_first_true(s: Seq<bool>)
    ensures
        0 <= first_true(s) <= s.len(),
        forall|j: int| 0 <= j < first_true(s) ==> !s[j],
        first_true(s) < s.len() ==> s[first_true(s)],
        first_true(s) == s.len() <==> forall|j: int| 0 <= j < s.len() ==> !s[j],
{
    if exists|k: int| 0 <= k < s.len() && s[k] {
        let k0 = choose|k: int| 0 <= k < s.len() && s[k];
        lemma_least_true(s, k0);
    }
}

proof fn lemma_least_true(s: Seq<bool>, k0: int)
    requires
        0 <= k0 < s.len(),
        s[k0],
    ensures
        exists|k: int| 0 <= k < s.len() && s[k] && forall|j: int| 0 <= j < k ==> !s[j],
    decreases k0,
{
    if exists|j: int| 0 <= j < k0 && s[j] {
        let j0 = choose|j: int| 0 <= j < k0 && s[j];
        lemma_least_true(s, j0);
    } else {
        assert(forall|j: int| 0 <= j < k0 ==> !s[j]);
    }
}

pub proof fn lemma_count_true_bounds(s: Seq<bool>)
    ensures
        count_true(s) <= s.len(),
        count_true(s) == 0 <==> forall|j: int| 0 <= j < s.len() ==> !s[j],
    decreases s.len(),
{
    if s.len() > 0 {
        lemma_count_true_bounds(s.drop_last());
        if count_true(s) == 0 {
            assert forall|j: int| 0 <= j < s.len() implies !s[j] by {
                if j < s.len() - 1 {
                    assert(s.drop_last()[j] == s[j]);
                }
            }
        }
        if forall|j: int| 0 <= j < s.len() ==> !s[j] {
            assert forall|j: int| 0 <= j < s.drop_last().len() implies !s.drop_last()[j] by {
                assert(s.drop_last()[j] == s[j]);
            }
        }
    }
}

pub proof fn lemma_count_true_set(s: Seq<bool>, i: int)
    requires
        0 <= i < s.len(),
        !s[i],
    ensures
        count_true(s.update(i, true)) == count_true(s) + 1,
    decreases s.len(),
{
    let t = s.update(i, true);
    if i == s.len() - 1 {
        assert(t.drop_last() =~= s.drop_last());
    } else {
        lemma_count_true_set(s.drop_last(), i);
        assert(t.drop_last() =~= s.drop_last().update(i, true));
    }
}

impl BitSet {
    /// `BitVec::repeat`: `len` copies of `bit`.
    #[verifier::external_body]
    pub(crate) fn repeat_raw(bit: bool, len: usize) -> (r: BitSet)
        requires
            len <= max_bits(),
        ensures
            bitset_bits(r) == Seq::new(len as nat, |_k: int| bit),
    {
        BitSet { bits: BitVec::repeat(bit, len) }
    }

    /// `BitVec::from_element`: the bits of one word, most significant first.
    #[verifier::external_body]
    pub(crate) fn from_word(w: usize) -> (r: BitSet)
        ensures
            bitset_bits(r).len() == usize::BITS,
            forall|k: int| 0 <= k < usize::BITS ==> bitset_bits(r)[k] == word_bit(w, k),
    {
        BitSet { bits: BitVec::from_element(w) }
    }

    /// `BitSlice::len`: the number of bits.
    #[verifier::external_body]
    pub(crate) fn len(&self) -> (r: usize)
        ensures
            r == bitset_bits(*self).len(),
    {
        self.bits.len()
    }

    /// Indexing a `BitSlice`: the bit at `i`.
    #[verifier::external_body]
    pub(crate) fn get(&self, i: usize) -> (r: bool)
        requires
            i < bitset_bits(*self).len(),
        ensures
            r == bitset_bits(*self)[i as int],
    {
        self.bits[i]
    }

    /// `BitSlice::set`: writes `value` at `i`.
    #[verifier::external_body]
    pub(crate) fn set(&mut self, i: usize, value: bool)
        requires
            i < bitset_bits(*old(self)).len(),
        ensures
            bitset_bits(*final(self)) == bitset_bits(*old(self)).update(i as int, value),
    {
        self.bits.set(i, value)
    }

    /// `BitVec::clone`: a copy with the same bits.
    #[verifier::external_body]
    pub(crate) fn duplicate(&self) -> (r: BitSet)
        ensures
            bitset_bits(r) == bitset_bits(*self),
    {
        BitSet { bits: self.bits.clone() }
    }

    /// `BitVec & &BitVec` (`BitAndAssign`): bits of `other` past its end
    /// count as zero.
    #[verifier::external_body]
    pub(crate) fn and(self, other: &BitSet) -> (r: BitSet)
        ensures
            bitset_bits(r) == seq_and(bitset_bits(self), bitset_bits(*other)),
    {
        BitSet { bits: self.bits & &other.bits }
    }

    /// `BitVec | &BitVec` (`BitOrAssign`): bits of `other` past its end
    /// count as zero.
    #[verifier::external_body]
    pub(crate) fn or(self, other: &BitSet) -> (r: BitSet)
        ensures
            bitset_bits(r) == seq_or(bitset_bits(self), bitset_bits(*other)),
    {
        BitSet { bits: self.bits | &other.bits }
    }

    /// `!BitVec`: every bit flipped.
    #[verifier::external_body]
    pub(crate) fn not(self) -> (r: BitSet)
        ensures
            bitset_bits(r) == seq_not(bitset_bits(self)),
    {
        BitSet { bits: !self.bits }
    }

    /// `BitVec == BitVec`: same length and same bits.
    #[verifier::external_body]
    pub(crate) fn same_bits(&self, other: &BitSet) -> (r: bool)
        ensures
            r == (bitset_bits(*self) == bitset_bits(*other)),
    {
        self.bits == other.bits
    }

    /// `BitSlice[..n] == BitVec`: the first `n` bits are those of `other`.
    #[verifier::external_body]
    pub(crate) fn prefix_equals(&self, n: usize, other: &BitSet) -> (r: bool)
        requires
            n <= bitset_bits(*self).len(),
        ensures
            r == (bitset_bits(*self).subrange(0, n as int) == bitset_bits(*other)),
    {
        self.bits[..n] == other.bits
    }

    /// `BitSlice::leading_zeros`: the index of the first one, or the length.
    #[verifier::external_body]
    pub(crate) fn leading_zeros(&self) -> (r: usize)
        ensures
            r == first_true(bitset_bits(*self)),
    {
        self.bits.leading_zeros()
    }

    /// `BitSlice::first_one`: the index of the first one, if any.
    #[verifier::external_body]
    pub(crate) fn first_one(&self) -> (r: Option<usize>)
        ensures
            r is None <==> first_true(bitset_bits(*self)) == bitset_bits(*self).len(),
            r matches Some(i) ==> i == first_true(bitset_bits(*self)),
    {
        self.bits.first_one()
    }

    /// `BitSlice::any`: whether some bit is one.
    #[verifier::external_body]
    pub(crate) fn any(&self) -> (r: bool)
        ensures
            r == (exists|k: int| 0 <= k < bitset_bits(*self).len() && bitset_bits(*self)[k]),
    {
        self.bits.any()
    }

    /// `BitSlice::count_ones`: the number of ones.
    #[verifier::external_body]
    pub(crate) fn count_ones(&self) -> (r: usize)
        ensures
            r == count_true(bitset_bits(*self)),
    {
        self.bits.count_ones()
    }

    /// `BitVec::extend_from_bitslice` with `&src[..upto]`: appends the first
    /// `upto` bits of `src`.
    #[verifier::external_body]
    pub(crate) fn extend_from_prefix(&mut self, src: &BitSet, upto: usize)
        requires
            upto <= bitset_bits(*src).len(),
            bitset_bits(*old(self)).len() + upto <= max_bits(),
        ensures
            bitset_bits(*final(self)) == bitset_bits(*old(self)) + bitset_bits(*src).subrange(0, upto as int),
    {
        self.bits.extend_from_bitslice(&src.bits[..upto])
    }

    /// `u32::view_bits::<Msb0>().split_at(n).0` appended to an empty vector:
    /// the first `n` bits of `u`, most significant first.
    #[verifier::external_body]
    pub(crate) fn from_u32_prefix(u: u32, n: usize) -> (r: BitSet)
        requires
            n <= 32,
        ensures
            bitset_bits(r) == Seq::new(n as nat, |k: int| (u >> ((31 - k) as u32)) & 1 == 1),
    {
        let mut bits: BitVec<usize, Msb0> = BitVec::new();
        bits.extend_from_bitslice(bitvec::view::BitView::view_bits::<Msb0>(&u).split_at(n).0);
        BitSet { bits }
    }
}


/// The bit `i` alone, in a word: the entry `i` of nauty's table `BIT`.
pub open spec fn spec_bit(i: int) -> usize {
    (1usize << ((usize::BITS - 1 - i) as usize)) as usize
}

/// The bits of the singleton word of `i`.
pub open spec fn singleton_bits(i: int) -> Seq<bool> {
    Seq::new(usize::BITS as nat, |k: int| k == i)
}

pub proof fn lemma_bit_word(i: usize, k: usize)
    requires
        i < usize::BITS,
        k < usize::BITS,
    ensures
        word_bit(spec_bit(i as int), k as int) == (k == i),
{
    let si = (usize::BITS - 1 - i) as usize;
    let sk = (usize::BITS - 1 - k) as usize;
    assert(((1usize << si) >> sk) & 1 == 1 <==> si == sk) by (bit_vector)
        requires
            si < usize::BITS,
            sk < usize::BITS,
    ;
}

/// The word with bit `i` alone set, as in nauty's table `BIT`.
pub fn bit(i: usize) -> (r: usize)
    requires
        i < usize::BITS,
    ensures
        r == spec_bit(i as int),
{
    1usize << (usize::BITS as usize - 1 - i)
}

/// Operations of nauty on sets of vertices.
pub trait SetTrait: Sized + View<V = Seq<bool>> {
    /// The elements of `self` that are not in `other`; positions past the
    /// end of `other` are cleared, as its complement is read as zero there.
    fn difference(&self, other: &Self) -> (r: Self)
        ensures
            r@ == Seq::new(self@.len(), |k: int| self@[k] && k < other@.len() && !other@[k]),
    ;

    /// Position of the first element, or the length of the set if it is
    /// empty.
    fn first_bit_nz_index(&self) -> (r: usize)
        ensures
            r == first_true(self@),
    ;

    /// The set `{index}`, one word long.
    fn one(index: usize) -> (r: Self)
        requires
            index < usize::BITS,
        ensures
            r@ == singleton_bits(index as int),
    ;

    /// Puts `index` into the set, when it is below the length.
    fn add_one(&mut self, index: usize)
        requires
            index < usize::BITS,
        ensures
            final(self)@ == if index < old(self)@.len() {
                old(self)@.update(index as int, true)
            } else {
                old(self)@
            },
    ;

    /// Takes `index` out of the set; bits past the first word are cleared
    /// too, as the one-word mask is read as zero there.
    fn remove_one(&mut self, index: usize)
        requires
            index < usize::BITS,
        ensures
            final(self)@ == Seq::new(
                old(self)@.len(),
                |k: int| old(self)@[k] && k < usize::BITS && k != index,
            ),
    ;

    /// The set without `index`; bits past the first word are cleared too.
    fn except_one(&self, index: usize) -> (r: Self)
        requires
            index < usize::BITS,
        ensures
            r@ == Seq::new(self@.len(), |k: int| self@[k] && k < usize::BITS && k != index),
    ;

    /// The elements of `self` that are in `other`.
    fn filter(&self, other: &Self) -> (r: Self)
        ensures
            r@ == seq_and(self@, other@),
    ;

    /// An iterator over the elements, in increasing order.
    fn ones_iter(&self) -> (r: SetIterator)
        ensures
            r.remaining()@ == self@,
    ;

    /// `pos` zeros followed by the bits of `self` but its last `pos`: the
    /// set shifted by `pos` positions.
    fn bit_mask(&self, pos: usize) -> (r: Self)
        requires
            pos <= self@.len(),
            self@.len() <= max_bits(),
        ensures
            r@ == Seq::new(self@.len(), |k: int| k >= pos && self@[k - pos]),
    ;

    /// `self` filtered by its own shift by `pos`.
    fn masked(&self, pos: usize) -> (r: Self)
        requires
            pos <= self@.len(),
            self@.len() <= max_bits(),
        ensures
            r@ == Seq::new(self@.len(), |k: int| self@[k] && k >= pos && self@[k - pos]),
    ;
}

impl SetTrait for BitSet {
    fn difference(&self, other: &Self) -> (r: Self)
    {
        let r = self.duplicate().and(&other.duplicate().not());
        assert(r@ =~= Seq::new(self@.len(), |k: int| self@[k] && k < other@.len() && !other@[k]));
        r
    }

    fn first_bit_nz_index(&self) -> (r: usize)
    {
        self.leading_zeros()
    }

    fn one(index: usize) -> (r: Self)
    {
        let r = BitSet::from_word(bit(index));
        assert forall|k: int| 0 <= k < usize::BITS implies r@[k] == (k == index) by {
            lemma_bit_word(index, k as usize);
        }
        assert(r@ =~= singleton_bits(index as int));
        r
    }

    fn add_one(&mut self, index: usize)
    {
        let one = Self::one(index);
        let cur = self.duplicate();
        *self = cur.or(&one);
        assert(self@ =~= if index < old(self)@.len() {
            old(self)@.update(index as int, true)
        } else {
            old(self)@
        });
    }

    fn remove_one(&mut self, index: usize)
    {
        let one = Self::one(index);
        let cur = self.duplicate();
        *self = cur.and(&one.not());
        assert(self@ =~= Seq::new(
            old(self)@.len(),
            |k: int| old(self)@[k] && k < usize::BITS && k != index,
        ));
    }

    fn except_one(&self, index: usize) -> (r: Self)
    {
        let one = Self::one(index);
        self.difference(&one)
    }

    fn filter(&self, other: &Self) -> (r: Self)
    {
        self.duplicate().and(other)
    }

    fn ones_iter(&self) -> (r: SetIterator)
    {
        SetIterator { set: self.duplicate() }
    }

    fn bit_mask(&self, pos: usize) -> (r: Self)
    {
        let mut result = BitSet::repeat_raw(false, pos);
        let n = self.len();
        result.extend_from_prefix(self, n - pos);
        assert(result@ =~= Seq::new(self@.len(), |k: int| k >= pos && self@[k - pos]));
        result
    }

    fn masked(&self, pos: usize) -> (r: Self)
    {
        let m = self.bit_mask(pos);
        let r = self.filter(&m);
        assert(r@ =~= Seq::new(self@.len(), |k: int| self@[k] && k >= pos && self@[k - pos]));
        r
    }
}

/// The elements of a set, taken out one at a time from the lowest.
pub struct SetIterator {
    set: BitSet,
}

impl SetIterator {
    /// The elements not yet returned.
    pub closed spec fn remaining(self) -> BitSet {
        self.set
    }

    /// The lowest element not yet returned, which is then taken out.
    pub fn next(&mut self) -> (r: Option<usize>)
        requires
            old(self).remaining()@.len() <= usize::BITS,
        ensures
            r is None <==> forall|k: int|
                0 <= k < old(self).remaining()@.len() ==> !old(self).remaining()@[k],
            r matches Some(i) ==> {
                &&& i == first_true(old(self).remaining()@)
                &&& final(self).remaining()@ == old(self).remaining()@.update(i as int, false)
            },
            r is None ==> final(self).remaining() == old(self).remaining(),
    {
        let lz = self.set.leading_zeros();
        proof {
            lemma_first_true(self.set@);
        }
        if lz == self.set.len() {
            None
        } else {
            self.set.remove_one(lz);
            assert(self.set@ =~= old(self).remaining()@.update(lz as int, false));
            Some(lz)
        }
    }
}

impl BitSet {
    /// A set of length `n` with no element.
    pub fn zeros(n: usize) -> (r: BitSet)
        requires
            n <= max_bits(),
        ensures
            r@ == Seq::new(n as nat, |_k: int| false),
    {
        BitSet::repeat_raw(false, n)
    }

    /// The set whose bit `k` is `v[k]`.
    pub fn from_bools(v: &Vec<bool>) -> (r: BitSet)
        requires
            v@.len() <= max_bits(),
        ensures
            r@ == v@,
    {
        let mut r = BitSet::repeat_raw(false, v.len());
        let mut i: usize = 0;
        while i < v.len()
            invariant
                i <= v@.len(),
                r@.len() == v@.len(),
                forall|k: int| 0 <= k < i ==> r@[k] == v@[k],
            decreases v@.len() - i,
        {
            r.set(i, v[i]);
            i = i + 1;
        }
        assert(r@ =~= v@);
        r
    }

    /// Whether `i` is in the set.
    pub fn contains(&self, i: usize) -> (r: bool)
        requires
            i < self@.len(),
        ensures
            r == self@[i as int],
    {
        self.get(i)
    }

    /// The bits of the set, in order.
    pub fn to_bools(&self) -> (r: Vec<bool>)
        ensures
            r@ == self@,
    {
        let n = self.len();
        let mut r: Vec<bool> = Vec::new();
        let mut i: usize = 0;
        while i < n
            invariant
                n == self@.len(),
                i <= n,
                r@ == self@.subrange(0, i as int),
            decreases n - i,
        {
            r.push(self.get(i));
            i = i + 1;
            assert(r@ =~= self@.subrange(0, i as int));
        }
        r
    }
}

} // verus!
