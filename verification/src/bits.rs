//! Bit strings: availability bitfields and validator masks.

use bitvec::order::Lsb0;
use bitvec::vec::BitVec;
use vstd::prelude::*;

verus! {

/// A string of bits, kept packed in a `BitVec<u8, Lsb0>`.
///
/// The contents are known through [`bits_of`], of which the functions marked as
/// trusted below state what the `bitvec` crate does.
#[verifier::external_body]
#[derive(Debug, Default, PartialEq, Eq)]
pub struct BitString {
    inner: BitVec<u8, Lsb0>,
}

/// The bits that a bit string holds, first bit first.
pub uninterp spec fn bits_of(b: BitString) -> Seq<bool>;

impl View for BitString {
    type V = Seq<bool>;

    open spec fn view(&self) -> Seq<bool> {
        bits_of(*self)
    }
}

/// The longest bit string that `bitvec` can hold, in bits.
pub open spec fn max_bits() -> int {
    usize::MAX as int / 8
}

/// The bit at position `i`, clear past the end.
pub open spec fn bit_at(s: Seq<bool>, i: int) -> bool {
    0 <= i < s.len() && s[i]
}

/// Bitwise conjunction, as long as its left side; a shorter right side counts
/// as if clear bits followed it.
pub open spec fn masked(s: Seq<bool>, mask: Seq<bool>) -> Seq<bool> {
    Seq::new(s.len(), |i: int| s[i] && bit_at(mask, i))
}

/// Every bit flipped.
pub open spec fn flipped(s: Seq<bool>) -> Seq<bool> {
    s.map_values(|b: bool| !b)
}

/// A string of `n` clear bits.
pub open spec fn clear_bits(n: nat) -> Seq<bool> {
    Seq::new(n, |i: int| false)
}

/// How many bits are set.
pub open spec fn ones(s: Seq<bool>) -> nat
    decreases s.len(),
{
    if s.len() == 0 {
        0
    } else {
        ones(s.drop_last()) + if s.last() {
            1nat
        } else {
            0
        }
    }
}

impl BitString {
    /// Trusted: `BitVec::repeat` makes a vector of `n` copies of one bit. It
    /// panics where `n` is over the crate's length limit, so such an `n` is ruled
    /// out.
    #[verifier::external_body]
    pub(crate) fn repeat(bit: bool, n: usize) -> (r: BitString)
        requires
            n <= max_bits(),
        ensures
            bits_of(r) == Seq::new(n as nat, |i: int| bit),
    {
        BitString { inner: BitVec::repeat(bit, n) }
    }

    /// Trusted: `BitVec::len` is the number of bits, and the crate never holds
    /// more than its length limit.
    #[verifier::external_body]
    pub(crate) fn len(&self) -> (n: usize)
        ensures
            n == bits_of(*self).len(),
            n <= max_bits(),
    {
        self.inner.len()
    }

    /// Trusted: indexing a `BitVec` reads one bit; an index past the end panics
    /// and is ruled out.
    #[verifier::external_body]
    pub(crate) fn get(&self, i: usize) -> (bit: bool)
        requires
            i < bits_of(*self).len(),
        ensures
            bit == bits_of(*self)[i as int],
    {
        self.inner[i]
    }

    /// Trusted: `BitSlice::set` writes one bit and leaves the others; an index
    /// past the end panics and is ruled out.
    #[verifier::external_body]
    pub(crate) fn set(&mut self, i: usize, bit: bool)
        requires
            i < bits_of(*old(self)).len(),
        ensures
            bits_of(*final(self)) == bits_of(*old(self)).update(i as int, bit),
    {
        self.inner.set(i, bit);
    }

    /// Trusted: `BitVec::push` appends one bit; at the length limit it panics,
    /// which is ruled out.
    #[verifier::external_body]
    pub(crate) fn push(&mut self, bit: bool)
        requires
            bits_of(*old(self)).len() < max_bits(),
        ensures
            bits_of(*final(self)) == bits_of(*old(self)).push(bit),
    {
        self.inner.push(bit);
    }

    /// Trusted: `&` on a `BitVec` and a reference to another keeps the length of
    /// the left side and treats a shorter right side as followed by clear bits.
    #[verifier::external_body]
    pub(crate) fn and(self, mask: &BitString) -> (r: BitString)
        ensures
            bits_of(r) == masked(bits_of(self), bits_of(*mask)),
    {
        BitString { inner: self.inner & &mask.inner }
    }

    /// Trusted: `!` on a `BitVec` flips every bit.
    #[verifier::external_body]
    pub(crate) fn not(self) -> (r: BitString)
        ensures
            bits_of(r) == flipped(bits_of(self)),
    {
        BitString { inner: !self.inner }
    }

    /// Trusted: `==` on two `BitVec`s compares their lengths and their bits.
    #[verifier::external_body]
    pub(crate) fn same_bits(&self, other: &BitString) -> (r: bool)
        ensures
            r == (bits_of(*self) == bits_of(*other)),
    {
        self.inner == other.inner
    }

    /// Trusted: `BitSlice::count_ones` counts the set bits.
    #[verifier::external_body]
    pub(crate) fn count_ones(&self) -> (n: usize)
        ensures
            n == ones(bits_of(*self)),
    {
        self.inner.count_ones()
    }

    /// Trusted: `BitVec::from_bitslice` on a range from the start copies the bits
    /// of that range; a range past the end panics and is ruled out.
    #[verifier::external_body]
    pub(crate) fn prefix(&self, n: usize) -> (r: BitString)
        requires
            n <= bits_of(*self).len(),
        ensures
            bits_of(r) == bits_of(*self).take(n as int),
    {
        BitString { inner: BitVec::from_bitslice(&self.inner[..n]) }
    }
}

impl Clone for BitString {
    /// Trusted: cloning a `BitVec` copies its bits.
    #[verifier::external_body]
    fn clone(&self) -> (r: Self)
        ensures
            bits_of(r) == bits_of(*self),
    {
        BitString { inner: self.inner.clone() }
    }
}

impl BitString {
    /// The bit string that holds the given bits.
    pub fn from_bits(bits: &[bool]) -> (r: BitString)
        requires
            bits@.len() <= max_bits(),
        ensures
            r@ == bits@,
    {
        let mut r = BitString::repeat(false, 0);
        let mut i: usize = 0;
        while i < bits.len()
            invariant
                i <= bits@.len() <= max_bits(),
                r@ =~= bits@.take(i as int),
            decreases bits@.len() - i,
        {
            r.push(bits[i]);
            i = i + 1;
        }
        assert(bits@.take(i as int) =~= bits@);
        r
    }

    /// The bits, one by one.
    pub fn to_bits(&self) -> (r: Vec<bool>)
        ensures
            r@ == self@,
    {
        let n = self.len();
        let mut r: Vec<bool> = Vec::new();
        let mut i: usize = 0;
        while i < n
            invariant
                i <= n == self@.len(),
                r@ =~= self@.take(i as int),
            decreases n - i,
        {
            r.push(self.get(i));
            i = i + 1;
        }
        assert(self@.take(i as int) =~= self@);
        r
    }
}

/// A bit string counts no set bit exactly when all its bits are clear.
pub proof fn ones_zero_iff_clear(s: Seq<bool>)
    ensures
        ones(s) == 0 <==> (forall|i: int| 0 <= i < s.len() ==> !s[i]),
    decreases s.len(),
{
    if s.len() > 0 {
        let t = s.drop_last();
        ones_zero_iff_clear(t);
        if ones(s) == 0 {
            assert forall|i: int| 0 <= i < s.len() implies !s[i] by {
                if i < t.len() {
                    assert(!t[i]);
                }
            }
        }
        if forall|i: int| 0 <= i < s.len() ==> !s[i] {
            assert forall|i: int| 0 <= i < t.len() implies !t[i] by {
                assert(!s[i]);
            }
            assert(!s[s.len() - 1]);
        }
    }
}

/// What the operations on bit strings give, bit by bit, and what counting set bits counts.
pub proof fn bits_one_by_one(s: Seq<bool>, mask: Seq<bool>, n: nat, i: int)
    ensures
        bit_at(s, i) <==> 0 <= i < s.len() && s[i],
        masked(s, mask).len() == s.len(),
        0 <= i < s.len() ==> (masked(s, mask)[i] <==> s[i] && i < mask.len() && mask[i]),
        flipped(s).len() == s.len(),
        0 <= i < s.len() ==> flipped(s)[i] == !s[i],
        clear_bits(n).len() == n,
        0 <= i < n ==> !clear_bits(n)[i],
        ones(s) == s.filter(|b: bool| b).len(),
    decreases s.len(),
{
    reveal(Seq::filter);
    if s.len() > 0 {
        bits_one_by_one(s.drop_last(), mask, n, i);
    }
}

} // verus!
