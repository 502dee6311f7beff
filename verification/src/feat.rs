//! Bit vectors stored in a `bitvec::BitVec`, and their Hamming distance.
use vstd::prelude::*;

use bitvec::vec::BitVec;

use crate::descriptors::mismatch_count;

verus! {

/// A sequence of bits held in a `bitvec::BitVec` (least significant bit
/// first in each word).
#[verifier::external_body]
pub struct PackedBits {
    bits: BitVec,
}

/// The bits held by a `PackedBits`, in index order.
pub uninterp spec fn packed_bits(v: PackedBits) -> Seq<bool>;

impl PackedBits {
    /// `BitVec::new`: an empty vector.
    #[verifier::external_body]
    fn empty() -> (r: PackedBits)
        ensures
            packed_bits(r) == Seq::<bool>::empty(),
    {
        PackedBits { bits: BitVec::new() }
    }

    /// `BitVec::push`: appends one bit at the end. It panics when the new
    /// length would exceed `BitSlice::MAX_BITS` (`usize::MAX >> 3`), which
    /// `requires` rules out.
    #[verifier::external_body]
    fn push_bit(&mut self, b: bool)
        requires
            packed_bits(*old(self)).len() < usize::MAX / 8,
        ensures
            packed_bits(*final(self)) == packed_bits(*old(self)).push(b),
    {
        self.bits.push(b)
    }

    /// `BitSlice::len` (through `Deref`): the number of bits held.
    #[verifier::external_body]
    fn bit_count(&self) -> (r: usize)
        ensures
            r == packed_bits(*self).len(),
    {
        self.bits.len()
    }

    /// `BitSlice`'s `Index<usize>` (through `Deref`): the bit at `i`; it
    /// panics past the end, which `requires` rules out.
    #[verifier::external_body]
    fn bit(&self, i: usize) -> (r: bool)
        requires
            i < packed_bits(*self).len(),
        ensures
            r == packed_bits(*self)[i as int],
    {
        self.bits[i]
    }

    /// A bit vector holding `values` in order.
    pub fn from_bools(values: &Vec<bool>) -> (r: PackedBits)
        requires
            values@.len() <= usize::MAX / 8,
        ensures
            packed_bits(r) == values@,
    {
        let mut r = PackedBits::empty();
        let mut i: usize = 0;
        while i < values.len()
            invariant
                i <= values@.len(),
                values@.len() <= usize::MAX / 8,
                packed_bits(r) == values@.take(i as int),
            decreases values@.len() - i,
        {
            r.push_bit(values[i]);
            assert(values@.take(i as int).push(values@[i as int]) =~= values@.take(i + 1));
            i = i + 1;
        }
        assert(values@.take(values@.len() as int) =~= values@);
        r
    }

    /// Number of bits held.
    pub fn len(&self) -> (r: usize)
        ensures
            r == packed_bits(*self).len(),
    {
        self.bit_count()
    }
}

/// Number of positions, among those both vectors have, at which `lhs` and
/// `rhs` hold different bits.
pub fn bitvec_distance(lhs: &PackedBits, rhs: &PackedBits) -> (r: usize)
    ensures
        r == mismatch_count(
            packed_bits(*lhs),
            packed_bits(*rhs),
            if packed_bits(*lhs).len() <= packed_bits(*rhs).len() {
                packed_bits(*lhs).len() as int
            } else {
                packed_bits(*rhs).len() as int
            },
        ),
{
    let nl = lhs.bit_count();
    let nr = rhs.bit_count();
    let n = if nl <= nr {
        nl
    } else {
        nr
    };
    let mut dist: usize = 0;
    let mut i: usize = 0;
    while i < n
        invariant
            nl == packed_bits(*lhs).len(),
            nr == packed_bits(*rhs).len(),
            n <= nl,
            n <= nr,
            i <= n,
            dist <= i,
            dist == mismatch_count(packed_bits(*lhs), packed_bits(*rhs), i as int),
        decreases n - i,
    {
        let l = lhs.bit(i);
        let r = rhs.bit(i);
        if l != r {
            dist = dist + 1;
        }
        i = i + 1;
    }
    dist
}

} // verus!
