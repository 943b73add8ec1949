//! A table of primes that grows on demand, and the queries it answers:
//! the n-th prime and the number of primes up to a bound.

use vstd::prelude::*;
use crate::number_theory::sieve_of_eratosthenes;
use crate::primality::{
    is_nth_prime,
    is_prime_number,
    lemma_nth_prime_in_table,
    lemma_nth_prime_unique,
    lemma_prime_count_monotonic,
    lemma_primes_up_to_prefix,
    lemma_primes_up_to_sorted,
    prime_count,
    primes_up_to,
};

verus! {

/// Why a query for the n-th prime gave no prime.
#[derive(Debug, Clone, Copy, PartialEq, Eq, Structural)]
pub enum PrimeError {
    /// The index was zero or negative; primes are counted from one.
    NonPositiveIndex,
    /// The table, grown as far as the query asked, still holds fewer primes
    /// than the index: the bound it was given was too low.
    InsufficientCache,
}

/// The least bound that any query for the n-th prime covers.
pub const MIN_SIEVE_BOUND: usize = 1_000_000;

/// A bound that is known to reach the n-th prime for every index below
/// `SMALL_INDEX_LIMIT`.
pub const SMALL_INDEX_BOUND: usize = 15;

/// The indices below this one need no estimate of their own.
pub const SMALL_INDEX_LIMIT: i64 = 6;

/// The primes up to some bound, all of them, in ascending order.
pub struct SieveCache {
    primes: Vec<i64>,
    bound: usize,
}

impl SieveCache {
    /// The table is exactly the primes up to the bound.
    #[verifier::type_invariant]
    spec fn consistent(&self) -> bool {
        self.primes@.map_values(|p: i64| p as int) == primes_up_to(self.bound as int)
    }

    /// The bound up to which this table is complete.
    pub closed spec fn spec_bound(&self) -> int {
        self.bound as int
    }

    /// The primes of this table.
    pub closed spec fn spec_primes(&self) -> Seq<int> {
        self.primes@.map_values(|p: i64| p as int)
    }

    /// The primes of `table` as mathematical integers.
    pub open spec fn as_integers(table: Seq<i64>) -> Seq<int> {
        table.map_values(|p: i64| p as int)
    }

    /// An empty table: it covers nothing and holds no prime.
    pub fn new() -> (cache: Self)
        ensures
            cache.spec_bound() == 0,
            cache@ == primes_up_to(0),
            cache@.len() == 0,
    {
        let primes: Vec<i64> = Vec::new();
        assert(primes@.map_values(|p: i64| p as int) =~= primes_up_to(0));
        SieveCache { primes, bound: 0 }
    }

    /// A table of the primes up to `up_to`, sieved from scratch.
    pub fn build(up_to: usize) -> (cache: Self)
        requires
            up_to < usize::MAX,
            up_to <= i64::MAX,
        ensures
            cache.spec_bound() == up_to,
            cache@ == primes_up_to(up_to as int),
    {
        let sieve = sieve_of_eratosthenes(up_to);
        let mut primes: Vec<i64> = Vec::new();
        let mut i: usize = 2;
        assert(primes@.map_values(|p: i64| p as int) =~= primes_up_to(1));
        if up_to < 2 {
            assert(primes_up_to(up_to as int) =~= primes_up_to(1));
            return SieveCache { primes, bound: up_to };
        }
        while i <= up_to
            invariant
                2 <= i <= up_to + 1,
                up_to < usize::MAX,
                up_to <= i64::MAX,
                sieve@.len() == up_to + 1,
                forall|k: int| 0 <= k <= up_to ==> #[trigger] sieve@[k] == is_prime_number(k),
                primes@.map_values(|p: i64| p as int) == primes_up_to(i - 1),
            decreases up_to + 1 - i,
        {
            if sieve[i] {
                let ghost before = primes@;
                primes.push(i as i64);
                assert(primes@.map_values(|p: i64| p as int) =~= before.map_values(
                    |p: i64| p as int,
                ).push(i as int));
            }
            i += 1;
        }
        SieveCache { primes, bound: up_to }
    }

    /// The bound up to which this table is complete.
    pub fn bound(&self) -> (r: usize)
        ensures
            r == self.spec_bound(),
    {
        self.bound
    }

    /// The primes up to the bound, ascending.
    pub fn primes(&self) -> (r: &Vec<i64>)
        ensures
            Self::as_integers(r@) == self@,
            self@ == primes_up_to(self.spec_bound()),
    {
        proof {
            use_type_invariant(self);
        }
        &self.primes
    }
}

impl View for SieveCache {
    type V = Seq<int>;

    /// The primes of the table, ascending.
    open spec fn view(&self) -> Seq<int> {
        self.spec_primes()
    }
}

/// The bound that a query for the `n`-th prime asks the table to cover,
/// given the caller's estimate `asymptotic_bound` of an upper bound for that
/// prime: the estimate, or the fixed small bound for the first few indices,
/// and never less than the minimum.
pub open spec fn nth_prime_target(n: int, asymptotic_bound: int) -> int {
    let estimate = if n < SMALL_INDEX_LIMIT {
        SMALL_INDEX_BOUND as int
    } else {
        asymptotic_bound
    };
    if estimate < MIN_SIEVE_BOUND {
        MIN_SIEVE_BOUND as int
    } else {
        estimate
    }
}

/// The bound of a table after it was asked to cover `up_to`: tables grow
/// and never shrink.
pub open spec fn bound_after_ensure(bound: int, up_to: int) -> int {
    if bound < up_to {
        up_to
    } else {
        bound
    }
}

/// The bound of a table after a query for the `n`-th prime.
pub open spec fn bound_after_nth_prime(bound: int, n: int, asymptotic_bound: int) -> int {
    if n <= 0 {
        bound
    } else {
        bound_after_ensure(bound, nth_prime_target(n, asymptotic_bound))
    }
}

/// The bound of a table after a query for the number of primes up to `x`.
pub open spec fn bound_after_prime_count(bound: int, x: int) -> int {
    if x < 2 {
        bound
    } else {
        bound_after_ensure(bound, x)
    }
}

/// What a query for the `n`-th prime returns on a table with the given
/// bound.
pub open spec fn nth_prime_outcome(bound: int, n: int, asymptotic_bound: int) -> Result<
    int,
    PrimeError,
> {
    let covered = bound_after_nth_prime(bound, n, asymptotic_bound);
    if n <= 0 {
        Err(PrimeError::NonPositiveIndex)
    } else if n <= prime_count(covered) {
        Ok(primes_up_to(covered)[n - 1])
    } else {
        Err(PrimeError::InsufficientCache)
    }
}

/// The first five primes are below the fixed small bound.
proof fn lemma_five_primes_below_small_bound()
    ensures
        prime_count(SMALL_INDEX_BOUND as int) >= 5,
{
    reveal_with_fuel(primes_up_to, 16);
    assert(is_prime_number(2));
    assert(is_prime_number(3));
    assert(is_prime_number(5)) by {
        assert forall|d: int| 2 <= d < 5 implies !#[trigger] crate::divisibility::is_divisor(
            d,
            5,
        ) by {
            assert(d == 2 || d == 3 || d == 4);
        }
    }
    assert(is_prime_number(7)) by {
        assert forall|d: int| 2 <= d < 7 implies !#[trigger] crate::divisibility::is_divisor(
            d,
            7,
        ) by {
            assert(d == 2 || d == 3 || d == 4 || d == 5 || d == 6);
        }
    }
    assert(is_prime_number(11)) by {
        assert forall|d: int| 2 <= d < 11 implies !#[trigger] crate::divisibility::is_divisor(
            d,
            11,
        ) by {
            assert(d == 2 || d == 3 || d == 4 || d == 5 || d == 6 || d == 7 || d == 8 || d == 9
                || d == 10);
        }
    }
    lemma_prime_count_monotonic(11, SMALL_INDEX_BOUND as int);
    assert(primes_up_to(11).len() >= 5);
}

/// Answers queries about primes from a table that it owns and grows.
pub struct PrimeIndexEngine {
    cache: SieveCache,
}

impl PrimeIndexEngine {
    /// The bound up to which the engine's table is complete.
    pub closed spec fn spec_bound(&self) -> int {
        self.cache.spec_bound()
    }

    /// An engine with an empty table.
    pub fn new() -> (engine: Self)
        ensures
            engine.spec_bound() == 0,
    {
        PrimeIndexEngine { cache: SieveCache::new() }
    }

    /// The engine's table.
    pub fn cache(&self) -> (r: &SieveCache)
        ensures
            r.spec_bound() == self.spec_bound(),
            r@ == primes_up_to(self.spec_bound()),
    {
        proof {
            use_type_invariant(&self.cache);
        }
        &self.cache
    }

    /// Makes the table cover at least `up_to`. A table that already does is
    /// left as it is; otherwise it is replaced by one sieved from scratch up
    /// to `up_to`.
    pub fn ensure_cache(&mut self, up_to: usize)
        requires
            up_to < usize::MAX,
            up_to <= i64::MAX,
        ensures
            final(self).spec_bound() == bound_after_ensure(old(self).spec_bound(), up_to as int),
            old(self).spec_bound() >= up_to ==> *final(self) == *old(self),
    {
        if self.cache.bound() < up_to {
            self.cache = SieveCache::build(up_to);
        }
    }

    /// The `n`-th prime, counting from one.
    ///
    /// `asymptotic_bound` is the caller's estimate of an upper bound for
    /// that prime; for `n` below `SMALL_INDEX_LIMIT` it is not looked at.
    /// The table is grown to cover `nth_prime_target(n, asymptotic_bound)`
    /// and the prime is read from it. The prime returned never depends on
    /// the estimate; a too low estimate shows as
    /// `PrimeError::InsufficientCache`.
    pub fn nth_prime(&mut self, n: i64, asymptotic_bound: usize) -> (r: Result<i64, PrimeError>)
        requires
            asymptotic_bound < usize::MAX,
            asymptotic_bound <= i64::MAX,
        ensures
            final(self).spec_bound() == bound_after_nth_prime(
                old(self).spec_bound(),
                n as int,
                asymptotic_bound as int,
            ),
            n <= 0 ==> *final(self) == *old(self),
            match r {
                Ok(p) => nth_prime_outcome(
                    old(self).spec_bound(),
                    n as int,
                    asymptotic_bound as int,
                ) == Ok::<int, PrimeError>(p as int) && is_nth_prime(p as int, n as int),
                Err(e) => nth_prime_outcome(
                    old(self).spec_bound(),
                    n as int,
                    asymptotic_bound as int,
                ) == Err::<int, PrimeError>(e),
            },
            n <= 0 <==> r == Err::<i64, PrimeError>(PrimeError::NonPositiveIndex),
            1 <= n <= prime_count(final(self).spec_bound()) <==> r.is_ok(),
            1 <= n < SMALL_INDEX_LIMIT ==> r.is_ok(),
    {
        if n <= 0 {
            return Err(PrimeError::NonPositiveIndex);
        }
        let estimate: usize = if n < SMALL_INDEX_LIMIT {
            SMALL_INDEX_BOUND
        } else {
            asymptotic_bound
        };
        let target: usize = if estimate < MIN_SIEVE_BOUND {
            MIN_SIEVE_BOUND
        } else {
            estimate
        };
        self.ensure_cache(target);
        let primes = self.cache.primes();
        proof {
            lemma_five_primes_below_small_bound();
            lemma_prime_count_monotonic(SMALL_INDEX_BOUND as int, self.spec_bound());
        }
        if n as u64 <= primes.len() as u64 {
            let p: i64 = primes[(n - 1) as usize];
            proof {
                lemma_nth_prime_in_table(self.spec_bound(), n as int);
                assert(primes@.map_values(|p: i64| p as int)[n - 1] == p as int);
            }
            Ok(p)
        } else {
            Err(PrimeError::InsufficientCache)
        }
    }

    /// The number of primes up to and including `x`; zero below two. The
    /// table is grown to cover `x`.
    pub fn prime_count_leq(&mut self, x: i64) -> (r: i64)
        requires
            x < usize::MAX,
        ensures
            r == prime_count(x as int),
            final(self).spec_bound() == bound_after_prime_count(old(self).spec_bound(), x as int),
            x < 2 ==> *final(self) == *old(self),
    {
        if x < 2 {
            return 0;
        }
        self.ensure_cache(x as usize);
        let primes = self.cache.primes();
        let mut count: usize = 0;
        proof {
            lemma_primes_up_to_prefix(x as int, self.spec_bound());
            lemma_primes_up_to_sorted(self.spec_bound());
            lemma_primes_up_to_sorted(x as int);
            crate::primality::lemma_prime_count_at_most(x as int);
        }
        while count < primes.len() && primes[count] <= x
            invariant
                0 <= count <= primes@.len(),
                x >= 2,
                primes@.map_values(|p: i64| p as int) == primes_up_to(self.spec_bound()),
                x <= self.spec_bound(),
                count <= prime_count(x as int),
                prime_count(x as int) <= primes@.len(),
                primes_up_to(self.spec_bound()).take(prime_count(x as int)) == primes_up_to(
                    x as int,
                ),
                forall|i: int|
                    prime_count(x as int) <= i < primes@.len() ==> x < #[trigger] primes_up_to(
                        self.spec_bound(),
                    )[i],
                forall|i: int|
                    0 <= i < prime_count(x as int) ==> #[trigger] primes_up_to(x as int)[i] <= x,
            decreases primes@.len() - count,
        {
            proof {
                let table = primes_up_to(self.spec_bound());
                assert(primes@.map_values(|p: i64| p as int)[count as int] == primes@[count as int]);
                assert(table[count as int] <= x);
            }
            count += 1;
        }
        proof {
            let table = primes_up_to(self.spec_bound());
            if count < prime_count(x as int) {
                assert(primes@.map_values(|p: i64| p as int)[count as int] == primes@[count as int]);
                assert(table.take(prime_count(x as int))[count as int] == table[count as int]);
                assert(primes_up_to(x as int)[count as int] <= x);
            }
        }
        count as i64
    }
}

/// Growth is monotone, and asking again for the same or a smaller bound
/// changes nothing.
pub proof fn lemma_ensure_cache_idempotent(bound: int, first: int, second: int)
    requires
        second <= first,
    ensures
        bound_after_ensure(bound, first) >= bound,
        bound_after_ensure(bound, first) >= first,
        bound_after_ensure(bound_after_ensure(bound, first), second) == bound_after_ensure(
            bound,
            first,
        ),
{
}

/// A query for the `n`-th prime, repeated with the same or a smaller
/// estimate on the table that the first query left, leaves that table as it
/// is and returns what the first query returned.
pub proof fn lemma_nth_prime_repeatable(bound: int, n: int, first: int, second: int)
    requires
        second <= first,
    ensures
        bound_after_nth_prime(bound_after_nth_prime(bound, n, first), n, second)
            == bound_after_nth_prime(bound, n, first),
        nth_prime_outcome(bound_after_nth_prime(bound, n, first), n, second) == nth_prime_outcome(
            bound,
            n,
            first,
        ),
{
}

/// Whatever the table and the estimate, two successful queries for the
/// `n`-th prime return the same prime, and it is the `n`-th prime.
pub proof fn lemma_nth_prime_independent_of_cache(
    n: int,
    bound1: int,
    estimate1: int,
    bound2: int,
    estimate2: int,
)
    requires
        nth_prime_outcome(bound1, n, estimate1).is_ok(),
        nth_prime_outcome(bound2, n, estimate2).is_ok(),
    ensures
        nth_prime_outcome(bound1, n, estimate1) == nth_prime_outcome(bound2, n, estimate2),
        is_nth_prime(nth_prime_outcome(bound1, n, estimate1).unwrap(), n),
{
    let covered1 = bound_after_nth_prime(bound1, n, estimate1);
    let covered2 = bound_after_nth_prime(bound2, n, estimate2);
    lemma_nth_prime_in_table(covered1, n);
    lemma_nth_prime_in_table(covered2, n);
    lemma_nth_prime_unique(primes_up_to(covered1)[n - 1], primes_up_to(covered2)[n - 1], n);
}

/// A query that succeeded succeeds on every larger table and with every
/// larger estimate.
pub proof fn lemma_nth_prime_growth_keeps_success(
    n: int,
    bound1: int,
    estimate1: int,
    bound2: int,
    estimate2: int,
)
    requires
        nth_prime_outcome(bound1, n, estimate1).is_ok(),
        bound1 <= bound2,
        estimate1 <= estimate2,
    ensures
        nth_prime_outcome(bound2, n, estimate2).is_ok(),
{
    lemma_prime_count_monotonic(
        bound_after_nth_prime(bound1, n, estimate1),
        bound_after_nth_prime(bound2, n, estimate2),
    );
}

/// A count of primes, repeated for the same or a smaller bound on the table
/// that the first count left, leaves that table as it is.
pub proof fn lemma_prime_count_repeatable(bound: int, first: int, second: int)
    requires
        second <= first,
    ensures
        bound_after_prime_count(bound_after_prime_count(bound, first), second)
            == bound_after_prime_count(bound, first),
{
}

/// A query for the `n`-th prime succeeds exactly if the table, grown as the
/// query asks, covers that prime.
pub proof fn lemma_nth_prime_succeeds_when_covered(
    bound: int,
    n: int,
    asymptotic_bound: int,
    p: int,
)
    requires
        is_nth_prime(p, n),
    ensures
        p <= bound_after_nth_prime(bound, n, asymptotic_bound) <==> nth_prime_outcome(
            bound,
            n,
            asymptotic_bound,
        ) == Ok::<int, PrimeError>(p),
        p > bound_after_nth_prime(bound, n, asymptotic_bound) <==> nth_prime_outcome(
            bound,
            n,
            asymptotic_bound,
        ) == Err::<int, PrimeError>(PrimeError::InsufficientCache),
{
    let covered = bound_after_nth_prime(bound, n, asymptotic_bound);
    crate::primality::lemma_prime_count_at_most(p);
    if p <= covered {
        lemma_prime_count_monotonic(p, covered);
        lemma_nth_prime_in_table(covered, n);
        lemma_nth_prime_unique(p, primes_up_to(covered)[n - 1], n);
    } else {
        lemma_prime_count_monotonic(covered, p);
    }
}

} // verus!
