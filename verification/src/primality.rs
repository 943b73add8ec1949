//! Prime numbers on the mathematical integers: what a prime is, how many
//! there are up to a bound, and which one is the n-th.

use vstd::prelude::*;
use vstd::arithmetic::div_mod::lemma_fundamental_div_mod;
use crate::divisibility::{
    gcd_of,
    is_divisor,
    lemma_coprime_divisor_of_product,
    lemma_divisor_at_most,
    lemma_divisor_of_product,
    lemma_divisor_quotient,
    lemma_divisor_transitive,
    lemma_gcd_is_greatest,
};

verus! {

/// `n` is prime: at least two, with no divisor strictly between one and
/// itself.
pub open spec fn is_prime_number(n: int) -> bool {
    n >= 2 && forall|d: int| 2 <= d < n ==> !#[trigger] is_divisor(d, n)
}

/// `k` is at least two and has no divisor from two up to, and excluding,
/// the smaller of `bound` and `k`.
pub open spec fn lacks_divisors_below(k: int, bound: int) -> bool {
    k >= 2 && forall|d: int| 2 <= d < bound && d < k ==> !#[trigger] is_divisor(d, k)
}

/// The primes up to and including `x`, in ascending order.
pub open spec fn primes_up_to(x: int) -> Seq<int>
    decreases x,
{
    if x < 2 {
        Seq::empty()
    } else if is_prime_number(x) {
        primes_up_to(x - 1).push(x)
    } else {
        primes_up_to(x - 1)
    }
}

/// The number of primes up to and including `x`.
pub open spec fn prime_count(x: int) -> int {
    primes_up_to(x).len() as int
}

/// `p` is the `n`-th prime, counting from one: it is prime, and `n` primes
/// are at most `p`.
pub open spec fn is_nth_prime(p: int, n: int) -> bool {
    is_prime_number(p) && prime_count(p) == n
}

/// The divisor that pairs with `d` to give `n`.
pub proof fn lemma_cofactor(d: int, n: int)
    requires
        n >= 2,
        2 <= d < n,
        is_divisor(d, n),
    ensures
        2 <= n / d < n,
        is_divisor(n / d, n),
        d * (n / d) == n,
{
    lemma_divisor_quotient(d, n);
    let e = n / d;
    assert(2 <= e < n) by (nonlinear_arith)
        requires
            n == d * e,
            2 <= d < n,
    ;
    lemma_divisor_of_product(e, d);
}

/// A number without a divisor below some `bound` whose square exceeds it is
/// prime.
pub proof fn lemma_prime_by_square_bound(n: int, bound: int)
    requires
        lacks_divisors_below(n, bound),
        bound >= 0,
        bound * bound > n,
    ensures
        is_prime_number(n),
{
    assert forall|d: int| 2 <= d < n implies !#[trigger] is_divisor(d, n) by {
        if is_divisor(d, n) {
            lemma_cofactor(d, n);
            let e = n / d;
            if d >= bound {
                assert(e < bound) by (nonlinear_arith)
                    requires
                        d * e == n,
                        d >= bound,
                        bound >= 0,
                        bound * bound > n,
                        e >= 0,
                ;
                assert(!is_divisor(e, n));
            }
        }
    }
}

/// If the quotient of `n` by a positive `i` is below `i`, the square of `i`
/// exceeds `n`; otherwise it does not.
pub proof fn lemma_square_against_quotient(n: int, i: int)
    requires
        n >= 0,
        i > 0,
    ensures
        i > n / i <==> i * i > n,
{
    lemma_fundamental_div_mod(n, i);
    let q = n / i;
    let r = n % i;
    assert(0 <= r < i);
    assert(i > q <==> i * i > n) by (nonlinear_arith)
        requires
            n == i * q + r,
            0 <= r < i,
            i > 0,
            n >= 0,
    ;
}

/// An odd number has no even divisor.
pub proof fn lemma_odd_has_no_even_divisor(d: int, n: int)
    requires
        n % 2 != 0,
        d > 0,
        d % 2 == 0,
    ensures
        !is_divisor(d, n),
{
    if is_divisor(d, n) {
        lemma_divisor_transitive(2, d, n);
    }
}

/// A number that lacks divisors below `i` lacks them below `i + 1` too,
/// unless `i` itself divides it properly.
pub proof fn lemma_lacks_divisors_step(k: int, i: int)
    requires
        i >= 2,
    ensures
        lacks_divisors_below(k, i + 1) <==> lacks_divisors_below(k, i) && !(i < k && is_divisor(
            i,
            k,
        )),
{
    if lacks_divisors_below(k, i) && !(i < k && is_divisor(i, k)) {
        assert forall|d: int| 2 <= d < i + 1 && d < k implies !#[trigger] is_divisor(d, k) by {}
    }
    if lacks_divisors_below(k, i + 1) {
        assert forall|d: int| 2 <= d < i && d < k implies !#[trigger] is_divisor(d, k) by {}
    }
}

/// A proper multiple of `i` below its square has a divisor below `i`.
pub proof fn lemma_small_multiple_struck_before(k: int, i: int)
    requires
        i >= 2,
        i < k < i * i,
        is_divisor(i, k),
    ensures
        !lacks_divisors_below(k, i),
{
    lemma_cofactor(i, k);
    let m = k / i;
    assert(m < i) by (nonlinear_arith)
        requires
            i * m == k,
            k < i * i,
            i >= 2,
    ;
    assert(is_divisor(m, k));
}

/// A proper multiple of a number with a divisor below it has that divisor.
pub proof fn lemma_multiple_of_composite_struck_before(k: int, i: int)
    requires
        i >= 2,
        !lacks_divisors_below(i, i),
        i < k,
        is_divisor(i, k),
    ensures
        !lacks_divisors_below(k, i),
{
    let d = choose|d: int| 2 <= d < i && d < i && #[trigger] is_divisor(d, i);
    lemma_divisor_transitive(d, i, k);
}

/// A prime is coprime to every number that it does not divide.
pub proof fn lemma_prime_is_coprime(p: int, x: int)
    requires
        is_prime_number(p),
        !is_divisor(p, x),
    ensures
        gcd_of(x, p) == 1,
        gcd_of(p, x) == 1,
{
    lemma_gcd_is_greatest(x, p);
    lemma_gcd_is_greatest(p, x);
    lemma_divisor_at_most(gcd_of(x, p), p);
    lemma_divisor_at_most(gcd_of(p, x), p);
}

/// Euclid's lemma: a prime that divides a product divides a factor.
pub proof fn lemma_prime_divides_factor(p: int, a: int, b: int)
    requires
        is_prime_number(p),
        is_divisor(p, a * b),
    ensures
        is_divisor(p, a) || is_divisor(p, b),
{
    if !is_divisor(p, b) {
        lemma_prime_is_coprime(p, b);
        lemma_coprime_divisor_of_product(p, a, b);
    }
}

/// A prime that divides a prime is that prime.
pub proof fn lemma_prime_divides_prime(p: int, q: int)
    requires
        is_prime_number(p),
        is_prime_number(q),
        is_divisor(p, q),
    ensures
        p == q,
{
    lemma_divisor_at_most(p, q);
}

/// The primes up to `x` are prime, at most `x`, and ascend strictly.
pub proof fn lemma_primes_up_to_sorted(x: int)
    ensures
        forall|i: int|
            0 <= i < primes_up_to(x).len() ==> is_prime_number(#[trigger] primes_up_to(x)[i])
                && primes_up_to(x)[i] <= x,
        forall|i: int, j: int|
            0 <= i < j < primes_up_to(x).len() ==> primes_up_to(x)[i] < primes_up_to(x)[j],
    decreases x,
{
    if x >= 2 {
        lemma_primes_up_to_sorted(x - 1);
        let before = primes_up_to(x - 1);
        let now = primes_up_to(x);
        assert forall|i: int| 0 <= i < now.len() implies is_prime_number(#[trigger] now[i])
            && now[i] <= x by {
            if i < before.len() {
                assert(now[i] == before[i]);
            }
        }
        assert forall|i: int, j: int| 0 <= i < j < now.len() implies now[i] < now[j] by {
            assert(now[i] == before[i]);
            if j < before.len() {
                assert(now[j] == before[j]);
            }
        }
    }
}

/// Every prime up to `x` occurs among the primes up to `x`.
pub proof fn lemma_primes_up_to_complete(x: int, p: int)
    requires
        is_prime_number(p),
        p <= x,
    ensures
        primes_up_to(x).contains(p),
    decreases x,
{
    if p == x {
        let s = primes_up_to(x - 1).push(x);
        assert(s[s.len() - 1] == p);
    } else {
        lemma_primes_up_to_complete(x - 1, p);
        let before = primes_up_to(x - 1);
        let i = choose|i: int| 0 <= i < before.len() && before[i] == p;
        assert(primes_up_to(x)[i] == p);
    }
}

/// The primes up to a smaller bound are the first of those up to a larger
/// one, and all the later ones exceed the smaller bound.
pub proof fn lemma_primes_up_to_prefix(x: int, y: int)
    requires
        x <= y,
    ensures
        primes_up_to(x).len() <= primes_up_to(y).len(),
        primes_up_to(y).take(primes_up_to(x).len() as int) == primes_up_to(x),
        forall|i: int|
            primes_up_to(x).len() <= i < primes_up_to(y).len() ==> x < #[trigger] primes_up_to(
                y,
            )[i],
    decreases y - x,
{
    if x == y {
        assert(primes_up_to(y).take(primes_up_to(x).len() as int) =~= primes_up_to(x));
    } else {
        lemma_primes_up_to_prefix(x, y - 1);
        if y >= 2 {
            assert(primes_up_to(y).take(primes_up_to(x).len() as int) =~= primes_up_to(y - 1).take(
                primes_up_to(x).len() as int,
            ));
        } else {
            assert(primes_up_to(y).take(primes_up_to(x).len() as int) =~= primes_up_to(x));
        }
    }
}

/// The count of primes never decreases, and increases at every prime.
pub proof fn lemma_prime_count_monotonic(x: int, y: int)
    requires
        x <= y,
    ensures
        prime_count(x) <= prime_count(y),
        x < y && is_prime_number(y) ==> prime_count(x) < prime_count(y),
{
    lemma_primes_up_to_prefix(x, y);
    if x < y && is_prime_number(y) {
        lemma_primes_up_to_prefix(x, y - 1);
    }
}

/// There are at most `x` primes up to a non-negative `x`.
pub proof fn lemma_prime_count_at_most(x: int)
    requires
        x >= 0,
    ensures
        prime_count(x) <= x,
    decreases x,
{
    if x >= 2 {
        lemma_prime_count_at_most(x - 1);
    }
}

/// The `n`-th prime is the `n`-th entry of any table of primes that
/// reaches that far.
pub proof fn lemma_nth_prime_in_table(x: int, n: int)
    requires
        1 <= n <= prime_count(x),
    ensures
        is_nth_prime(primes_up_to(x)[n - 1], n),
{
    lemma_primes_up_to_sorted(x);
    let p = primes_up_to(x)[n - 1];
    lemma_primes_up_to_prefix(p, x);
    lemma_primes_up_to_complete(p, p);
    lemma_primes_up_to_sorted(p);
    let k = primes_up_to(p).len() as int;
    let own = primes_up_to(p);
    let i = choose|i: int| 0 <= i < own.len() && own[i] == p;
    assert(primes_up_to(x).take(k)[i] == primes_up_to(p)[i]);
    assert(primes_up_to(x)[i] == p);
    assert(i == n - 1);
    if n < k {
        assert(primes_up_to(x).take(k)[n] == primes_up_to(p)[n]);
        assert(primes_up_to(p)[n] <= p);
        assert(primes_up_to(x)[n - 1] < primes_up_to(x)[n]);
    }
}

/// There is at most one `n`-th prime.
pub proof fn lemma_nth_prime_unique(p: int, q: int, n: int)
    requires
        is_nth_prime(p, n),
        is_nth_prime(q, n),
    ensures
        p == q,
{
    if p < q {
        lemma_prime_count_monotonic(p, q);
    }
    if q < p {
        lemma_prime_count_monotonic(q, p);
    }
}

/// Later primes are greater: the sequence of primes ascends strictly.
pub proof fn lemma_nth_prime_increasing(p: int, n: int, q: int, m: int)
    requires
        is_nth_prime(p, n),
        is_nth_prime(q, m),
        n < m,
    ensures
        p < q,
{
    if q <= p {
        lemma_prime_count_monotonic(q, p);
    }
}

} // verus!
