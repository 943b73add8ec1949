use rmath::noise::simple_hash;
use std::collections::HashSet;

#[test]
fn test_simple_hash_deterministic() {
    assert_eq!(simple_hash(1.0f64.to_bits()), simple_hash(1.0f64.to_bits()));
    assert_eq!(simple_hash(0.0f64.to_bits()), simple_hash(0.0f64.to_bits()));
    assert_eq!(simple_hash((-5.5f64).to_bits()), simple_hash((-5.5f64).to_bits()));
}

#[test]
fn test_simple_hash_avalanche() {
    let h1 = simple_hash(1.0f64.to_bits());
    let h2 = simple_hash(1.0000000000000002f64.to_bits());

    assert_ne!(h1, h2);

    let diff_bits = (h1 ^ h2).count_ones();
    assert!(diff_bits > 10, "Should have good avalanche effect, got {} differing bits", diff_bits);
}

#[test]
fn test_simple_hash_distribution() {
    let mut hashes = HashSet::new();
    let mut collisions = 0;

    for i in 0..1000 {
        let hash = simple_hash((i as f64 * 0.1).to_bits());
        if !hashes.insert(hash) {
            collisions += 1;
        }
    }

    assert!(collisions < 50, "Too many hash collisions: {}", collisions);
    assert!(hashes.len() > 950, "Should have mostly unique hashes, got {}", hashes.len());
}

#[test]
fn test_simple_hash_negative_values() {
    let h_pos = simple_hash(5.0f64.to_bits());
    let h_neg = simple_hash((-5.0f64).to_bits());
    assert_ne!(h_pos, h_neg);

    assert_eq!(simple_hash((-1.0f64).to_bits()), simple_hash((-1.0f64).to_bits()));
}

#[test]
fn test_simple_hash_special_values() {
    let _h_zero = simple_hash(0.0f64.to_bits());
    let _h_neg_zero = simple_hash((-0.0f64).to_bits());

    let _h_inf = simple_hash(f64::INFINITY.to_bits());
    let _h_neg_inf = simple_hash(f64::NEG_INFINITY.to_bits());

    assert_eq!(simple_hash(f64::INFINITY.to_bits()), simple_hash(f64::INFINITY.to_bits()));
    assert_eq!(
        simple_hash(f64::NEG_INFINITY.to_bits()),
        simple_hash(f64::NEG_INFINITY.to_bits())
    );
}

/// The hash, written out once more step by step.
fn reference_hash(bits: u64) -> u32 {
    let mut hash = (bits as u32) ^ ((bits >> 32) as u32);
    for (multiplier, shift) in [(0x9e3779b9u32, 16), (0x85ebca6bu32, 13), (0xc2b2ae35u32, 16)] {
        hash = ((hash as u64 * multiplier as u64) % (1u64 << 32)) as u32;
        hash ^= hash >> shift;
    }
    hash
}

#[test]
fn simple_hash_of_known_patterns() {
    assert_eq!(simple_hash(0), 0);
    assert_eq!(simple_hash(0x0000_0001_0000_0001), 0);
    assert_eq!(simple_hash(1), reference_hash(1));
    assert_eq!(simple_hash(1), 0x92ca_2f0e);
    assert_eq!(simple_hash(u64::MAX), 0);
    assert_eq!(simple_hash(1 << 32), simple_hash(1));
}

#[test]
fn simple_hash_follows_its_definition() {
    let mut bits: u64 = 0x0123_4567_89ab_cdef;
    for _ in 0..2000 {
        assert_eq!(simple_hash(bits), reference_hash(bits));
        bits = bits.wrapping_mul(6364136223846793005).wrapping_add(1442695040888963407);
    }
}
