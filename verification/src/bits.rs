//! Bit-level facts about 64-bit words and a verified population count.
use vstd::prelude::*;

verus! {

/// Bit `j` (0 is the least significant) of the word `w`.
pub open spec fn word_bit(w: u64, j: u64) -> bool {
    (w >> j) & 1u64 == 1u64
}

/// Number of set bits among the lowest `n` bits of `w`.
pub open spec fn ones_below(w: u64, n: int) -> nat
    decreases n,
{
    if n <= 0 {
        0
    } else {
        ones_below(w, n - 1) + (if word_bit(w, (n - 1) as u64) { 1nat } else { 0nat })
    }
}

pub proof fn lemma_ones_below_bound(w: u64, n: int)
    ensures
        n >= 0 ==> ones_below(w, n) <= n,
    decreases n,
{
    if n > 0 {
        lemma_ones_below_bound(w, n - 1);
    }
}

pub proof fn lemma_xor_bit(x: u64, y: u64, j: u64)
    requires
        j < 64,
    ensures
        word_bit(x ^ y, j) == (word_bit(x, j) != word_bit(y, j)),
{
    assert(((x ^ y) >> j) & 1u64 == 1u64 <==> (((x >> j) & 1u64 == 1u64) != ((y >> j) & 1u64
        == 1u64))) by (bit_vector)
        requires
            j < 64,
    ;
}

pub proof fn lemma_set_bit(x: u64, off: u64, j: u64)
    requires
        off < 64,
        j < 64,
    ensures
        word_bit(x | (1u64 << off), j) == (j == off || word_bit(x, j)),
{
    assert(((x | (1u64 << off)) >> j) & 1u64 == 1u64 <==> (j == off || (x >> j) & 1u64 == 1u64))
        by (bit_vector)
        requires
            off < 64,
            j < 64,
    ;
}

pub proof fn lemma_clear_bit(x: u64, off: u64, j: u64)
    requires
        off < 64,
        j < 64,
    ensures
        word_bit(x & !(1u64 << off), j) == (j != off && word_bit(x, j)),
{
    assert(((x & !(1u64 << off)) >> j) & 1u64 == 1u64 <==> (j != off && (x >> j) & 1u64 == 1u64))
        by (bit_vector)
        requires
            off < 64,
            j < 64,
    ;
}

pub proof fn lemma_zero_bits(j: u64)
    requires
        j < 64,
    ensures
        !word_bit(0u64, j),
{
    assert((0u64 >> j) & 1u64 != 1u64) by (bit_vector);
}

/// Number of ones in the binary representation of `w`.
pub fn popcount(w: u64) -> (r: u32)
    ensures
        r == ones_below(w, 64),
{
    let mut r: u32 = 0;
    let mut j: u64 = 0;
    while j < 64
        invariant
            j <= 64,
            r == ones_below(w, j as int),
        decreases 64 - j,
    {
        proof {
            lemma_ones_below_bound(w, j as int);
        }
        if (w >> j) & 1u64 == 1u64 {
            r = r + 1;
        }
        j = j + 1;
    }
    r
}

} // verus!
