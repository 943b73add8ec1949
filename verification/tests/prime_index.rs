use rmath::number_theory::is_prime;
use rmath::prime_index::{
    PrimeError, PrimeIndexEngine, SieveCache, MIN_SIEVE_BOUND, SMALL_INDEX_BOUND,
    SMALL_INDEX_LIMIT,
};

#[test]
fn a_new_engine_covers_nothing() {
    let engine = PrimeIndexEngine::new();
    assert_eq!(engine.cache().bound(), 0);
    assert!(engine.cache().primes().is_empty());
    let cache = SieveCache::new();
    assert_eq!(cache.bound(), 0);
    assert!(cache.primes().is_empty());
}

#[test]
fn a_built_cache_holds_the_primes_up_to_its_bound() {
    let cache = SieveCache::build(30);
    assert_eq!(cache.bound(), 30);
    assert_eq!(*cache.primes(), vec![2, 3, 5, 7, 11, 13, 17, 19, 23, 29]);
    assert_eq!(*SieveCache::build(29).primes(), vec![2, 3, 5, 7, 11, 13, 17, 19, 23, 29]);
    assert_eq!(*SieveCache::build(28).primes(), vec![2, 3, 5, 7, 11, 13, 17, 19, 23]);
    assert_eq!(*SieveCache::build(2).primes(), vec![2]);
    assert!(SieveCache::build(1).primes().is_empty());
    assert!(SieveCache::build(0).primes().is_empty());
    assert_eq!(SieveCache::build(1).bound(), 1);
}

#[test]
fn ensure_cache_grows_and_never_shrinks() {
    let mut engine = PrimeIndexEngine::new();
    engine.ensure_cache(100);
    assert_eq!(engine.cache().bound(), 100);
    assert_eq!(engine.cache().primes().len(), 25);
    let first = engine.cache().primes().clone();

    engine.ensure_cache(100);
    assert_eq!(engine.cache().bound(), 100);
    assert_eq!(*engine.cache().primes(), first);

    engine.ensure_cache(50);
    assert_eq!(engine.cache().bound(), 100);
    assert_eq!(*engine.cache().primes(), first);

    engine.ensure_cache(0);
    assert_eq!(engine.cache().bound(), 100);

    engine.ensure_cache(101);
    assert_eq!(engine.cache().bound(), 101);
    assert_eq!(engine.cache().primes().len(), 26);
    assert_eq!(engine.cache().primes()[..25], first[..]);
}

#[test]
fn the_first_twenty_primes() {
    let expected: [i64; 20] = [
        2, 3, 5, 7, 11, 13, 17, 19, 23, 29, 31, 37, 41, 43, 47, 53, 59, 61, 67, 71,
    ];
    let mut engine = PrimeIndexEngine::new();
    for n in 1..=20i64 {
        assert_eq!(engine.nth_prime(n, 0), Ok(expected[n as usize - 1]));
    }
    assert_eq!(engine.cache().bound(), MIN_SIEVE_BOUND);
}

#[test]
fn the_small_indices_need_no_estimate() {
    assert_eq!(SMALL_INDEX_LIMIT, 6);
    assert_eq!(SMALL_INDEX_BOUND, 15);
    assert_eq!(MIN_SIEVE_BOUND, 1_000_000);
    for n in 1..SMALL_INDEX_LIMIT {
        let mut engine = PrimeIndexEngine::new();
        let p = engine.nth_prime(n, 0).unwrap();
        assert!(p as usize <= SMALL_INDEX_BOUND);
        assert_eq!(engine.cache().bound(), MIN_SIEVE_BOUND);
        let mut other = PrimeIndexEngine::new();
        assert_eq!(other.nth_prime(n, 5_000_000), Ok(p));
        assert_eq!(other.cache().bound(), MIN_SIEVE_BOUND);
    }
}

#[test]
fn an_estimate_above_the_minimum_sets_the_bound() {
    let mut engine = PrimeIndexEngine::new();
    assert_eq!(engine.nth_prime(6, 1_500_000), Ok(13));
    assert_eq!(engine.cache().bound(), 1_500_000);
    assert_eq!(engine.nth_prime(6, 1_200_000), Ok(13));
    assert_eq!(engine.cache().bound(), 1_500_000);
    assert_eq!(engine.nth_prime(7, 1_500_001), Ok(17));
    assert_eq!(engine.cache().bound(), 1_500_001);
}

#[test]
fn a_non_positive_index_is_reported_and_changes_nothing() {
    let mut engine = PrimeIndexEngine::new();
    assert_eq!(engine.nth_prime(0, 2_000_000), Err(PrimeError::NonPositiveIndex));
    assert_eq!(engine.nth_prime(-1, 2_000_000), Err(PrimeError::NonPositiveIndex));
    assert_eq!(engine.nth_prime(i64::MIN, 0), Err(PrimeError::NonPositiveIndex));
    assert_eq!(engine.cache().bound(), 0);
    assert!(engine.cache().primes().is_empty());
}

#[test]
fn a_table_that_is_too_short_is_reported() {
    let mut engine = PrimeIndexEngine::new();
    assert_eq!(engine.nth_prime(78_498, 0), Ok(999_983));
    assert_eq!(engine.nth_prime(78_499, 0), Err(PrimeError::InsufficientCache));
    assert_eq!(engine.cache().bound(), MIN_SIEVE_BOUND);
    assert_eq!(engine.nth_prime(i64::MAX, 0), Err(PrimeError::InsufficientCache));
    assert_eq!(engine.nth_prime(78_499, 1_000_003), Ok(1_000_003));
    assert_eq!(engine.cache().bound(), 1_000_003);
    assert_eq!(engine.nth_prime(78_499, 0), Ok(1_000_003));
    assert_eq!(engine.nth_prime(78_500, 0), Err(PrimeError::InsufficientCache));
}

#[test]
fn a_grown_table_answers_what_the_estimate_alone_would_not() {
    let mut engine = PrimeIndexEngine::new();
    assert_eq!(engine.prime_count_leq(10_000_000), 664_579);
    assert_eq!(engine.cache().bound(), 10_000_000);
    assert_eq!(engine.nth_prime(664_579, 0), Ok(9_999_991));
    assert_eq!(engine.nth_prime(664_580, 0), Err(PrimeError::InsufficientCache));
    assert_eq!(engine.cache().bound(), 10_000_000);
}

#[test]
fn nth_prime_is_prime_and_ascends() {
    let mut engine = PrimeIndexEngine::new();
    let mut last = engine.nth_prime(1, 0).unwrap();
    assert!(is_prime(last));
    for n in 2..=3000i64 {
        let p = engine.nth_prime(n, 0).unwrap();
        assert!(is_prime(p));
        assert!(last < p);
        assert_eq!(engine.prime_count_leq(p), n);
        assert_eq!(engine.prime_count_leq(p - 1), n - 1);
        last = p;
    }
}

#[test]
fn queries_repeat_their_answers() {
    let mut engine = PrimeIndexEngine::new();
    let first = engine.nth_prime(1000, 7000);
    let bound = engine.cache().bound();
    let table = engine.cache().primes().clone();
    assert_eq!(first, Ok(7919));
    assert_eq!(engine.nth_prime(1000, 7000), first);
    assert_eq!(engine.nth_prime(1000, 10), first);
    assert_eq!(engine.cache().bound(), bound);
    assert_eq!(*engine.cache().primes(), table);

    let count = engine.prime_count_leq(7919);
    assert_eq!(count, 1000);
    assert_eq!(engine.prime_count_leq(7919), count);
    assert_eq!(engine.cache().bound(), bound);
    assert_eq!(*engine.cache().primes(), table);

    let mut fresh = PrimeIndexEngine::new();
    assert_eq!(fresh.prime_count_leq(7919), count);
    assert_eq!(fresh.cache().bound(), 7919);
    assert_eq!(fresh.nth_prime(1000, 0), first);
}

#[test]
fn prime_count_below_two_is_zero_and_changes_nothing() {
    let mut engine = PrimeIndexEngine::new();
    assert_eq!(engine.prime_count_leq(1), 0);
    assert_eq!(engine.prime_count_leq(0), 0);
    assert_eq!(engine.prime_count_leq(-10), 0);
    assert_eq!(engine.prime_count_leq(i64::MIN), 0);
    assert_eq!(engine.cache().bound(), 0);
    assert_eq!(engine.prime_count_leq(2), 1);
    assert_eq!(engine.cache().bound(), 2);
    assert_eq!(engine.prime_count_leq(1), 0);
    assert_eq!(engine.cache().bound(), 2);
}

#[test]
fn prime_count_on_a_larger_table_counts_only_up_to_the_bound_asked() {
    let mut engine = PrimeIndexEngine::new();
    engine.ensure_cache(1000);
    assert_eq!(engine.prime_count_leq(10), 4);
    assert_eq!(engine.prime_count_leq(11), 5);
    assert_eq!(engine.prime_count_leq(12), 5);
    assert_eq!(engine.prime_count_leq(997), 168);
    assert_eq!(engine.prime_count_leq(996), 167);
    assert_eq!(engine.prime_count_leq(1000), 168);
    assert_eq!(engine.cache().bound(), 1000);
}

#[test]
fn queries_in_any_order_agree_with_fresh_engines() {
    let mut shared = PrimeIndexEngine::new();
    let mut last_bound = 0;
    for step in 0..120usize {
        let k = ((step * 37) % 40) as i64 + 1;
        let n = k * 500;
        let estimate = 1_000_000 + ((step * 7919) % 400_000);

        let mut fresh = PrimeIndexEngine::new();
        assert_eq!(shared.nth_prime(n, estimate), fresh.nth_prime(n, 0));
        assert!(shared.cache().bound() >= last_bound);
        last_bound = shared.cache().bound();

        let mut fresh = PrimeIndexEngine::new();
        assert_eq!(shared.prime_count_leq(n * 90), fresh.prime_count_leq(n * 90));
        assert!(shared.cache().bound() >= last_bound);
        last_bound = shared.cache().bound();

        let table = shared.cache().primes();
        assert!(table.windows(2).all(|w| w[0] < w[1]));
        assert!(*table.last().unwrap() as usize <= shared.cache().bound());
    }
}
