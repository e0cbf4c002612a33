//! The tuple model shared by the host and accelerator sides, and the radix
//! fanout helper used by the sibling partitioning operators.

use vstd::prelude::*;

use vstd::arithmetic::power2::pow2;

verus! {

/// A key-value tuple.
///
/// A materialized (partitioned) relation is stored as a collection of
/// `Tuple<K, V>`; the layout is stable across the host and accelerator
/// representations.
#[derive(Copy, Clone, Debug, Eq, PartialEq, Structural)]
pub struct Tuple<Key: Sized, Value: Sized> {
    pub key: Key,
    pub value: Value,
}

/// Compute the fanout (i.e., the number of partitions) from the number of
/// radix bits.
pub fn fanout(radix_bits: u32) -> (r: usize)
    requires
        radix_bits < usize::BITS,
    ensures
        r == pow2(radix_bits as nat),
{
    proof {
        vstd::bits::lemma_usize_pow2_no_overflow(radix_bits as nat);
        vstd::bits::lemma_usize_shl_is_mul(1usize, radix_bits as usize);
    }
    1usize << (radix_bits as usize)
}

} // verus!
