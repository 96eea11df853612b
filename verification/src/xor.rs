//! The identities of exclusive-or on addresses that link bookkeeping rests on.

use vstd::prelude::*;

verus! {

/// Zero is the neutral address, and every address is its own inverse.
pub proof fn lemma_xor_zero(a: usize)
    ensures
        0usize ^ a == a,
        a ^ 0usize == a,
        a ^ a == 0usize,
{
    assert(0usize ^ a == a) by (bit_vector);
    assert(a ^ 0usize == a) by (bit_vector);
    assert(a ^ a == 0usize) by (bit_vector);
}

/// The order of the two neighbours does not matter.
pub proof fn lemma_xor_commutes(a: usize, b: usize)
    ensures
        a ^ b == b ^ a,
{
    assert(a ^ b == b ^ a) by (bit_vector);
}

/// Folding one neighbour into a link of two leaves the other neighbour.
pub proof fn lemma_xor_cancels(a: usize, b: usize)
    ensures
        (a ^ b) ^ b == a,
        (a ^ b) ^ a == b,
{
    assert((a ^ b) ^ b == a) by (bit_vector);
    assert((a ^ b) ^ a == b) by (bit_vector);
}

/// Folding `gone ^ new` into a link replaces the neighbour `gone` by `new`,
/// whichever side it stood on.
pub proof fn lemma_xor_replaces(kept: usize, gone: usize, new: usize)
    ensures
        (kept ^ gone) ^ (gone ^ new) == kept ^ new,
        (gone ^ kept) ^ (gone ^ new) == new ^ kept,
        gone ^ (gone ^ new) == new,
{
    assert((kept ^ gone) ^ (gone ^ new) == kept ^ new) by (bit_vector);
    assert((gone ^ kept) ^ (gone ^ new) == new ^ kept) by (bit_vector);
    assert(gone ^ (gone ^ new) == new) by (bit_vector);
}

} // verus!
