//! A deterministic hash of 64-bit patterns, for repeatable noise.

use vstd::prelude::*;

verus! {

/// The first multiplier of the hash.
pub const MIX_FIRST: u32 = 0x9e37_79b9;

/// The second multiplier of the hash.
pub const MIX_SECOND: u32 = 0x85eb_ca6b;

/// The third multiplier of the hash.
pub const MIX_THIRD: u32 = 0xc2b2_ae35;

/// The product of `h` and `multiplier` modulo `2^32`.
pub open spec fn scrambled(h: u32, multiplier: u32) -> u32 {
    ((h as nat * multiplier as nat) % 0x1_0000_0000) as u32
}

/// `h` with its upper bits folded onto its lower ones: `h` xor `h`
/// shifted right by `shift`.
pub open spec fn folded(h: u32, shift: u32) -> u32 {
    h ^ (h >> shift)
}

/// The two halves of `bits`, xored into 32 bits.
pub open spec fn halves_combined(bits: u64) -> u32 {
    ((bits & 0xFFFF_FFFF) as u32) ^ ((bits >> 32) as u32)
}

/// The hash of `bits`: the combined halves, then three rounds of a
/// multiplication modulo `2^32` followed by a fold, with the shifts 16, 13
/// and 16.
pub open spec fn hash_of(bits: u64) -> u32 {
    let first = folded(scrambled(halves_combined(bits), MIX_FIRST), 16);
    let second = folded(scrambled(first, MIX_SECOND), 13);
    folded(scrambled(second, MIX_THIRD), 16)
}

/// The hash of a 64-bit pattern, such as the bits of a floating-point
/// number. Equal patterns give equal hashes.
pub fn simple_hash(bits: u64) -> (hash: u32)
    ensures
        hash == hash_of(bits),
{
    assert(bits & 0xFFFF_FFFF <= 0xFFFF_FFFF) by (bit_vector);
    assert(bits >> 32 <= 0xFFFF_FFFF) by (bit_vector);
    let low: u32 = (bits & 0xFFFF_FFFF) as u32;
    let high: u32 = (bits >> 32) as u32;
    let mut hash: u32 = low ^ high;
    hash = hash.wrapping_mul(MIX_FIRST);
    hash ^= hash >> 16;
    hash = hash.wrapping_mul(MIX_SECOND);
    hash ^= hash >> 13;
    hash = hash.wrapping_mul(MIX_THIRD);
    hash ^= hash >> 16;
    hash
}

} // verus!
