//! Single-bit reasoning on 32-bit masks.

use vstd::prelude::*;

verus! {

/// Whether bit `i` of `mask` is set.
pub open spec fn bit(mask: u32, i: u32) -> bool {
    (mask >> i) & 1 == 1
}

/// The number of set bits among the lowest `n` bits of `mask`.
pub open spec fn count_bits(mask: u32, n: nat) -> nat
    decreases n,
{
    if n == 0 {
        0
    } else {
        count_bits(mask, (n - 1) as nat) + if bit(mask, (n - 1) as u32) {
            1nat
        } else {
            0nat
        }
    }
}

/// `u32::count_ones`: the number of ones in the binary representation of
/// `mask`, that is the number of set bits among all 32 positions.
#[verifier::external_body]
pub(crate) fn count_ones(mask: u32) -> (n: u32)
    ensures
        n == count_bits(mask, 32),
{
    mask.count_ones()
}

/// No bit of 0 is set.
pub proof fn lemma_bit_zero(j: u32)
    requires
        j < 32,
    ensures
        !bit(0, j),
{
    assert(!bit(0, j)) by (bit_vector)
        requires
            j < 32,
    ;
}

/// Setting bit `i` sets that bit and leaves the others.
pub proof fn lemma_bit_set(mask: u32, i: u32, j: u32)
    requires
        i < 32,
        j < 32,
    ensures
        bit(mask | (1u32 << i), j) == (j == i || bit(mask, j)),
{
    assert(bit(mask | (1u32 << i), j) == (j == i || bit(mask, j))) by (bit_vector)
        requires
            i < 32,
            j < 32,
    ;
}

/// Clearing bit `i` clears that bit and leaves the others.
pub proof fn lemma_bit_clear(mask: u32, i: u32, j: u32)
    requires
        i < 32,
        j < 32,
    ensures
        bit(mask & !(1u32 << i), j) == (j != i && bit(mask, j)),
{
    assert(bit(mask & !(1u32 << i), j) == (j != i && bit(mask, j))) by (bit_vector)
        requires
            i < 32,
            j < 32,
    ;
}

/// A bit of `a & b` is set where it is set in both.
pub proof fn lemma_bit_and(a: u32, b: u32, j: u32)
    requires
        j < 32,
    ensures
        bit(a & b, j) == (bit(a, j) && bit(b, j)),
{
    assert(bit(a & b, j) == (bit(a, j) && bit(b, j))) by (bit_vector)
        requires
            j < 32,
    ;
}

/// A bit of `!a` is set where it is not set in `a`.
pub proof fn lemma_bit_not(a: u32, j: u32)
    requires
        j < 32,
    ensures
        bit(!a, j) == !bit(a, j),
{
    assert(bit(!a, j) == !bit(a, j)) by (bit_vector)
        requires
            j < 32,
    ;
}

/// The value read by shifting a mask and keeping the lowest bit is 0 or 1.
pub proof fn lemma_bit_read(mask: u32, j: u32)
    requires
        j < 32,
    ensures
        (mask >> j) & 1 == 0 || (mask >> j) & 1 == 1,
{
    assert((mask >> j) & 1 == 0 || (mask >> j) & 1 == 1) by (bit_vector)
        requires
            j < 32,
    ;
}

} // verus!
