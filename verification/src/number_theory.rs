//! Number theory on machine integers: greatest common divisors, least
//! common multiples, primality, factorizations, divisors and prime tables.

use vstd::prelude::*;
use vstd::arithmetic::power2::{lemma2_to64, lemma2_to64_rest, lemma_pow2_unfold, pow2};
use crate::divisibility::{
    divides_all,
    gcd_of,
    gcd_of_all,
    has_common_multiples,
    is_divisor,
    is_gcd,
    is_gcd_of_all,
    is_lcm,
    is_lcm_of_all,
    is_multiple,
    lcm_of,
    lcm_of_all,
    lemma_bezout,
    lemma_common_divisors_step,
    lemma_common_multiples_step,
    lemma_divisor_at_most,
    lemma_divisor_of_combination,
    lemma_divisor_of_magnitude,
    lemma_divisor_of_product,
    lemma_divisor_quotient,
    lemma_gcd_is,
    lemma_gcd_is_greatest,
    lemma_gcd_of_all_exists,
    lemma_gcd_of_all_is,
    lemma_gcd_of_all_is_greatest,
    lemma_gcd_of_magnitudes,
    lemma_gcd_of_zeros,
    lemma_lcm_exists,
    lemma_lcm_of_all_exists,
    lemma_lcm_of_all_is,
    lemma_lcm_of_positive,
    lemma_multiple_of_itself,
    lemma_no_multiple_between,
    lemma_remainder_keeps_common_divisors,
    magnitude,
    multiple_of_all,
};
use crate::divisor_lists::{
    as_ints,
    expanded,
    holds_divisors_of,
    lemma_expanded_holds_divisors,
    lemma_one_holds_divisors_of_one,
    lemma_sorted_holds_lists,
    lists_divisors,
    scaled,
};
use crate::factorization::{
    is_partial_factorization,
    is_prime_factorization,
    lemma_partial_factorization_end,
    lemma_partial_factorization_skip_even,
    lemma_partial_factorization_start,
    lemma_partial_factorization_step,
    lemma_power_monotonic,
    lemma_power_positive,
    lemma_prefix_of_prime_power_list,
    lemma_prime_outside_product,
    power,
    product_of_powers,
};
use crate::primality::{
    is_nth_prime,
    is_prime_number,
    lacks_divisors_below,
    lemma_lacks_divisors_step,
    lemma_multiple_of_composite_struck_before,
    lemma_odd_has_no_even_divisor,
    lemma_prime_by_square_bound,
    lemma_small_multiple_struck_before,
    lemma_square_against_quotient,
    prime_count,
};
use crate::prime_index::{nth_prime_outcome, PrimeError, PrimeIndexEngine, SMALL_INDEX_LIMIT};

verus! {

/// The absolute value of `a`, which always fits in a `u64`.
fn unsigned_magnitude(a: i64) -> (r: u64)
    ensures
        r == magnitude(a as int),
{
    let wide: i128 = a as i128;
    if wide < 0 {
        (-wide) as u64
    } else {
        wide as u64
    }
}

/// `d` is a positive divisor of both `a` and `b`.
spec fn is_common_divisor(d: int, a: int, b: int) -> bool {
    is_divisor(d, a) && is_divisor(d, b)
}

/// Euclid's algorithm on unsigned numbers.
fn gcd_u64(x: u64, y: u64) -> (g: u64)
    ensures
        is_gcd(g as int, x as int, y as int),
{
    let mut a: u64 = x;
    let mut b: u64 = y;
    while b != 0
        invariant
            forall|d: int| #[trigger]
                is_common_divisor(d, a as int, b as int) <==> is_common_divisor(
                    d,
                    x as int,
                    y as int,
                ),
        decreases b,
    {
        let r: u64 = a % b;
        proof {
            assert forall|d: int| #[trigger]
                is_common_divisor(d, b as int, r as int) <==> is_common_divisor(
                    d,
                    x as int,
                    y as int,
                ) by {
                lemma_remainder_keeps_common_divisors(d, a as int, b as int);
                assert(is_common_divisor(d, a as int, b as int) <==> is_common_divisor(
                    d,
                    x as int,
                    y as int,
                ));
            }
        }
        a = b;
        b = r;
    }
    proof {
        assert forall|d: int| #[trigger]
            is_divisor(d, a as int) <==> is_divisor(d, x as int) && is_divisor(d, y as int) by {
            if d > 0 {
                lemma_divisor_of_product(d, 0);
            }
            assert(is_common_divisor(d, a as int, b as int) <==> is_common_divisor(
                d,
                x as int,
                y as int,
            ));
        }
    }
    a
}

/// The greatest common divisor of `a` and `b` fits in an `i64`: beside
/// `i64::MIN` stands a number that is neither zero nor `i64::MIN`.
pub open spec fn gcd_fits(a: i64, b: i64) -> bool {
    &&& a == i64::MIN ==> b != 0 && b != i64::MIN
    &&& b == i64::MIN ==> a != 0 && a != i64::MIN
}

/// The greatest common divisor of the elements of `s` fits in an `i64`: if
/// `i64::MIN` is among them, so is a number that is neither zero nor
/// `i64::MIN`.
pub open spec fn gcd_of_all_fits(s: Seq<i64>) -> bool {
    (exists|i: int| 0 <= i < s.len() && #[trigger] s[i] == i64::MIN) ==> (exists|j: int|
        0 <= j < s.len() && #[trigger] s[j] != 0 && s[j] != i64::MIN)
}

/// `gcd_fits` holds exactly where the greatest common divisor is at most
/// `i64::MAX`.
pub proof fn lemma_gcd_fits(a: i64, b: i64)
    ensures
        gcd_fits(a, b) <==> gcd_of(a as int, b as int) <= i64::MAX,
{
    let top: int = 0x8000_0000_0000_0000;
    lemma_bezout(a as int, b as int);
    if a == 0 && b == 0 {
        lemma_gcd_of_zeros();
    } else if gcd_fits(a, b) {
        lemma_gcd_is_greatest(a as int, b as int);
    } else {
        assert forall|d: int| #[trigger]
            is_divisor(d, top) <==> is_divisor(d, a as int) && is_divisor(d, b as int) by {
            lemma_divisor_of_magnitude(d, a as int);
            lemma_divisor_of_magnitude(d, b as int);
            if d > 0 {
                lemma_divisor_of_product(d, 0);
            }
        }
        lemma_gcd_is(top, a as int, b as int);
    }
}

/// `gcd_of_all_fits` holds exactly where the greatest common divisor is at
/// most `i64::MAX`.
pub proof fn lemma_gcd_of_all_fits(s: Seq<i64>)
    ensures
        gcd_of_all_fits(s) <==> gcd_of_all(s) <= i64::MAX,
{
    let top: int = 0x8000_0000_0000_0000;
    lemma_gcd_of_all_exists(s);
    if exists|j: int| 0 <= j < s.len() && #[trigger] s[j] != 0 && s[j] != i64::MIN {
        let j = choose|j: int| 0 <= j < s.len() && #[trigger] s[j] != 0 && s[j] != i64::MIN;
        lemma_gcd_of_all_is_greatest(s, j);
    } else if exists|i: int| 0 <= i < s.len() && #[trigger] s[i] == i64::MIN {
        let i = choose|i: int| 0 <= i < s.len() && #[trigger] s[i] == i64::MIN;
        assert forall|d: int| #[trigger] is_divisor(d, top) <==> divides_all(d, s) by {
            lemma_divisor_of_magnitude(d, s[i] as int);
            if is_divisor(d, top) {
                assert forall|k: int| 0 <= k < s.len() implies is_divisor(
                    d,
                    #[trigger] s[k] as int,
                ) by {
                    lemma_divisor_of_magnitude(d, s[k] as int);
                    lemma_divisor_of_product(d, 0);
                }
            }
            if divides_all(d, s) {
                assert(is_divisor(d, s[i] as int));
            }
        }
        lemma_gcd_of_all_is(top, s);
    } else {
        assert forall|d: int| #[trigger] is_divisor(d, 0) <==> divides_all(d, s) by {
            if d > 0 {
                lemma_divisor_of_product(d, 0);
                assert forall|k: int| 0 <= k < s.len() implies is_divisor(
                    d,
                    #[trigger] s[k] as int,
                ) by {
                    assert(s[k] == 0);
                }
            }
        }
        lemma_gcd_of_all_is(0, s);
    }
}

/// The greatest common divisor of `a` and `b`, signs disregarded;
/// `gcd(0, 0)` is zero.
///
/// Defined whenever the result fits in an `i64`, that is, unless the only
/// values present are `i64::MIN` and zero, with `i64::MIN` among them.
pub fn gcd(a: i64, b: i64) -> (r: i64)
    requires
        gcd_fits(a, b),
    ensures
        r == gcd_of(a as int, b as int),
        is_gcd(r as int, a as int, b as int),
{
    proof {
        lemma_gcd_fits(a, b);
    }
    let x: u64 = unsigned_magnitude(a);
    let y: u64 = unsigned_magnitude(b);
    if x == 0 && y == 0 {
        proof {
            lemma_gcd_of_zeros();
            lemma_bezout(0, 0);
        }
        return 0;
    }
    let g: u64 = gcd_u64(x, y);
    proof {
        lemma_gcd_is(g as int, magnitude(a as int), magnitude(b as int));
        lemma_gcd_of_magnitudes(a as int, b as int);
        lemma_bezout(a as int, b as int);
    }
    g as i64
}

/// The greatest common divisor of all the numbers, signs disregarded; zero
/// for an empty slice and for one of zeros only.
///
/// Defined whenever the result fits in an `i64`.
pub fn gcd_multiple(numbers: &[i64]) -> (r: i64)
    requires
        gcd_of_all_fits(numbers@),
    ensures
        r == gcd_of_all(numbers@),
        is_gcd_of_all(r as int, numbers@),
{
    proof {
        lemma_gcd_of_all_fits(numbers@);
    }
    let mut acc: u64 = 0;
    let mut i: usize = 0;
    proof {
        assert forall|d: int| #[trigger] is_divisor(d, 0) <==> divides_all(d, numbers@.take(0)) by {
            if d > 0 {
                lemma_divisor_of_product(d, 0);
            }
        }
    }
    while i < numbers.len()
        invariant
            0 <= i <= numbers.len(),
            is_gcd_of_all(acc as int, numbers@.take(i as int)),
        decreases numbers.len() - i,
    {
        let x: u64 = unsigned_magnitude(numbers[i]);
        let g: u64 = gcd_u64(acc, x);
        proof {
            assert forall|d: int| #[trigger]
                is_divisor(d, g as int) <==> is_divisor(d, acc as int) && is_divisor(
                    d,
                    numbers@[i as int] as int,
                ) by {
                lemma_divisor_of_magnitude(d, numbers@[i as int] as int);
            }
            lemma_common_divisors_step(acc as int, numbers@, i as int, g as int);
        }
        acc = g;
        i += 1;
    }
    proof {
        assert(numbers@.take(i as int) =~= numbers@);
        lemma_gcd_of_all_is(acc as int, numbers@);
    }
    acc as i64
}

/// The least common multiple of `a` and `b`, signs disregarded; zero if
/// either is zero.
///
/// Defined whenever the result fits in an `i64`.
pub fn lcm(a: i64, b: i64) -> (r: i64)
    requires
        lcm_of(a as int, b as int) <= i64::MAX,
    ensures
        r == lcm_of(a as int, b as int),
        is_lcm(r as int, a as int, b as int),
{
    proof {
        lemma_lcm_exists(a as int, b as int);
    }
    if a == 0 || b == 0 {
        return 0;
    }
    let x: u64 = unsigned_magnitude(a);
    let y: u64 = unsigned_magnitude(b);
    let g: u64 = gcd_u64(x, y);
    proof {
        lemma_gcd_is(g as int, x as int, y as int);
        lemma_gcd_of_magnitudes(a as int, b as int);
        lemma_gcd_is_greatest(x as int, y as int);
    }
    let m: u64 = (x / g) * y;
    m as i64
}

/// The least common multiple of all the numbers, signs disregarded; zero
/// for an empty slice and for one that holds a zero.
///
/// Defined whenever the result fits in an `i64`.
pub fn lcm_multiple(numbers: &[i64]) -> (r: i64)
    requires
        lcm_of_all(numbers@) <= i64::MAX,
    ensures
        r == lcm_of_all(numbers@),
        is_lcm_of_all(r as int, numbers@),
{
    proof {
        lemma_lcm_of_all_exists(numbers@);
    }
    if numbers.len() == 0 {
        return 0;
    }
    let mut z: usize = 0;
    while z < numbers.len()
        invariant
            0 <= z <= numbers.len(),
            forall|j: int| 0 <= j < z ==> numbers@[j] != 0,
        decreases numbers.len() - z,
    {
        if numbers[z] == 0 {
            proof {
                assert forall|k: int| #[trigger]
                    is_multiple(k, 0) <==> multiple_of_all(k, numbers@) by {
                    if k == 0 {
                        assert forall|j: int| 0 <= j < numbers@.len() implies is_multiple(
                            k,
                            #[trigger] numbers@[j] as int,
                        ) by {
                            if numbers@[j] != 0 {
                                lemma_divisor_of_product(magnitude(numbers@[j] as int), 0);
                            }
                        }
                    }
                    if multiple_of_all(k, numbers@) {
                        assert(is_multiple(k, numbers@[z as int] as int));
                    }
                }
                lemma_lcm_of_all_is(0, numbers@);
            }
            return 0;
        }
        z += 1;
    }
    let mut acc: u64 = 1;
    let mut i: usize = 0;
    proof {
        assert forall|k: int| #[trigger]
            is_multiple(k, 1) <==> multiple_of_all(k, numbers@.take(0)) by {}
    }
    while i < numbers.len()
        invariant
            0 <= i <= numbers.len(),
            numbers.len() > 0,
            forall|j: int| 0 <= j < numbers.len() ==> numbers@[j] != 0,
            0 < lcm_of_all(numbers@) <= i64::MAX,
            is_lcm_of_all(lcm_of_all(numbers@), numbers@),
            acc > 0,
            has_common_multiples(acc as int, numbers@.take(i as int)),
        decreases numbers.len() - i,
    {
        let x: u64 = unsigned_magnitude(numbers[i]);
        let g: u64 = gcd_u64(acc, x);
        proof {
            let whole = lcm_of_all(numbers@);
            let next = (acc as int / g as int) * x as int;
            lemma_gcd_is(g as int, acc as int, x as int);
            lemma_gcd_is_greatest(acc as int, x as int);
            lemma_lcm_of_positive(acc as int, x as int);
            assert forall|k: int| #[trigger]
                is_multiple(k, next) <==> is_multiple(k, acc as int) && is_multiple(
                    k,
                    numbers@[i as int] as int,
                ) by {
                assert(is_multiple(k, x as int) == is_multiple(k, numbers@[i as int] as int));
            }
            assert(is_lcm(next, acc as int, numbers@[i as int] as int));
            lemma_common_multiples_step(acc as int, numbers@, i as int, next);
            assert(multiple_of_all(whole, numbers@)) by {
                lemma_multiple_of_itself(whole);
            }
            assert(multiple_of_all(whole, numbers@.take(i + 1)));
            assert(is_multiple(whole, next));
            lemma_divisor_at_most(next, whole);
        }
        acc = (acc / g) * x;
        i += 1;
    }
    proof {
        assert(numbers@.take(i as int) =~= numbers@);
        lemma_lcm_of_all_is(acc as int, numbers@);
    }
    acc as i64
}

/// Trial division by two and by the odd numbers up to the square root.
fn is_prime_small(n: u64) -> (r: bool)
    ensures
        r == is_prime_number(n as int),
{
    if n < 2 {
        return false;
    }
    if n == 2 {
        return true;
    }
    if n % 2 == 0 {
        assert(is_divisor(2, n as int));
        return false;
    }
    let mut i: u64 = 3;
    while i <= n / i
        invariant
            3 <= i <= n,
            n % 2 != 0,
            i % 2 == 1,
            lacks_divisors_below(n as int, i as int),
        decreases n - i,
    {
        proof {
            lemma_square_against_quotient(n as int, i as int);
            assert(i < i * i) by (nonlinear_arith)
                requires
                    i >= 3,
            ;
        }
        if n % i == 0 {
            assert(is_divisor(i as int, n as int));
            return false;
        }
        proof {
            lemma_odd_has_no_even_divisor(i + 1, n as int);
        }
        i += 2;
    }
    proof {
        lemma_square_against_quotient(n as int, i as int);
        lemma_prime_by_square_bound(n as int, i as int);
    }
    true
}

/// Whether `n` is a prime number. Nothing below two is.
pub fn is_prime(n: i64) -> (r: bool)
    ensures
        r == is_prime_number(n as int),
{
    if n <= 1 {
        return false;
    }
    is_prime_small(n as u64)
}

/// Divides `num` by `p` as often as it goes. Returns what is left and how
/// often it went.
fn strip_factor(num: u64, p: u64) -> (r: (u64, i32))
    requires
        num >= 1,
        p >= 2,
    ensures
        r.0 >= 1,
        0 <= r.1 <= 63,
        r.0 * power(p as int, r.1 as nat) == num,
        !is_divisor(p as int, r.0 as int),
        r.1 == 0 ==> r.0 == num,
        r.1 > 0 ==> 2 * r.0 <= num,
{
    let mut rest: u64 = num;
    let mut count: i32 = 0;
    proof {
        lemma2_to64();
        assert(rest * power(p as int, 0) == num) by (nonlinear_arith)
            requires
                rest == num,
                power(p as int, 0) == 1,
        ;
        assert(pow2(0) * rest <= num) by (nonlinear_arith)
            requires
                rest == num,
                pow2(0) == 1,
        ;
    }
    while rest % p == 0
        invariant
            rest >= 1,
            p >= 2,
            0 <= count <= 63,
            rest * power(p as int, count as nat) == num,
            pow2(count as nat) * rest <= num,
            count == 0 ==> rest == num,
            count > 0 ==> 2 * rest <= num,
        decreases rest,
    {
        let next: u64 = rest / p;
        proof {
            let c = count as nat;
            let pc = power(p as int, c);
            lemma_divisor_quotient(p as int, rest as int);
            assert(next >= 1 && next < rest && 2 * next <= rest) by (nonlinear_arith)
                requires
                    rest == p * next,
                    rest >= 1,
                    p >= 2,
                    next >= 0,
            ;
            assert(next * power(p as int, c + 1) == num) by (nonlinear_arith)
                requires
                    power(p as int, c + 1) == p * pc,
                    rest == p * next,
                    rest * pc == num,
            ;
            lemma_pow2_unfold(c + 1);
            assert(pow2(c + 1) * next <= num) by (nonlinear_arith)
                requires
                    pow2(c + 1) == 2 * pow2(c),
                    2 * next <= rest,
                    pow2(c) * rest <= num,
                    pow2(c) >= 0,
            ;
            if count >= 63 {
                lemma2_to64_rest();
                assert(pow2(64) * next >= pow2(64)) by (nonlinear_arith)
                    requires
                        next >= 1,
                        pow2(64) >= 0,
                ;
            }
        }
        rest = next;
        count += 1;
    }
    (rest, count)
}

/// The prime factorization of the absolute value of `n`: each prime with
/// its exponent, primes ascending. Empty for zero; the single pair `(1, 1)`
/// for one and minus one.
pub fn factor_integer(n: i64) -> (factors: Vec<(i64, i32)>)
    ensures
        n == 0 ==> factors@.len() == 0,
        magnitude(n as int) == 1 ==> factors@ == seq![(1i64, 1i32)],
        magnitude(n as int) >= 2 ==> is_prime_factorization(factors@, magnitude(n as int)),
{
    let mut factors: Vec<(i64, i32)> = Vec::new();
    if n == 0 {
        return factors;
    }
    let whole: u64 = unsigned_magnitude(n);
    if whole == 1 {
        factors.push((1, 1));
        assert(factors@ =~= seq![(1i64, 1i32)]);
        return factors;
    }
    proof {
        lemma_partial_factorization_start(whole as int);
    }
    let (odd_part, twos) = strip_factor(whole, 2);
    proof {
        lemma_partial_factorization_step(
            factors@,
            whole as int,
            2,
            odd_part as int,
            twos,
            whole as int,
        );
    }
    if twos > 0 {
        factors.push((2, twos));
    }
    let mut num: u64 = odd_part;
    let mut factor: u64 = 3;
    while factor <= num / factor
        invariant
            3 <= factor,
            factor % 2 == 1,
            1 <= num <= i64::MAX,
            is_partial_factorization(factors@, num as int, factor as int, whole as int),
        decreases u64::MAX - factor,
    {
        let (rest, count) = strip_factor(num, factor);
        proof {
            lemma_square_against_quotient(num as int, factor as int);
            assert(factor <= factor * factor) by (nonlinear_arith)
                requires
                    factor >= 3,
            ;
            lemma_power_positive(factor as int, count as nat);
            lemma_partial_factorization_step(
                factors@,
                num as int,
                factor as i64,
                rest as int,
                count,
                whole as int,
            );
        }
        if count > 0 {
            factors.push((factor as i64, count));
        }
        proof {
            lemma_partial_factorization_skip_even(
                factors@,
                rest as int,
                factor + 1,
                whole as int,
            );
        }
        num = rest;
        factor += 2;
    }
    proof {
        lemma_square_against_quotient(num as int, factor as int);
        lemma_partial_factorization_end(factors@, num as i64, factor as int, whole as int);
    }
    if num > 1 {
        factors.push((num as i64, 1));
    }
    factors
}

/// Sorts the numbers into ascending order, by `sort_unstable` of the
/// standard library's slices. Taken on trust from its documentation: the
/// vector then holds the same numbers, each as often as before, and none is
/// followed by a smaller one.
#[verifier::external_body]
fn sort_ascending(values: &mut Vec<i64>)
    ensures
        final(values)@.to_multiset() == old(values)@.to_multiset(),
        forall|i: int, j: int|
            0 <= i <= j < final(values)@.len() ==> final(values)@[i] <= final(values)@[j],
{
    values.sort_unstable();
}

/// The positive divisors of `n`, all of them, in ascending order; none for
/// zero.
///
/// Built from the prime factorization: the list for the primes taken so
/// far is multiplied by each power of the next prime.
pub fn divisors(n: i64) -> (r: Vec<i64>)
    requires
        n > i64::MIN,
    ensures
        n == 0 ==> r@.len() == 0,
        n != 0 ==> lists_divisors(r@, n as int),
{
    if n == 0 {
        return Vec::new();
    }
    let num: i64 = if n < 0 {
        -n
    } else {
        n
    };
    let mut divs: Vec<i64> = vec![1];
    proof {
        lemma_one_holds_divisors_of_one();
        assert(as_ints(divs@) =~= seq![1int]);
    }
    if num == 1 {
        proof {
            lemma_sorted_holds_lists(divs@, divs@, 1);
            assert forall|d: int| is_divisor(d, 1) <==> is_divisor(d, n as int) by {
                lemma_divisor_of_magnitude(d, n as int);
            }
            assert(lists_divisors(divs@, n as int));
        }
        return divs;
    }
    let factors = factor_integer(num);
    let mut idx: usize = 0;
    proof {
        assert(product_of_powers(factors@.take(0)) == 1);
    }
    while idx < factors.len()
        invariant
            0 <= idx <= factors.len(),
            2 <= num <= i64::MAX,
            is_prime_factorization(factors@, num as int),
            holds_divisors_of(as_ints(divs@), product_of_powers(factors@.take(idx as int))),
        decreases factors.len() - idx,
    {
        let prime: i64 = factors[idx].0;
        let exponent: i32 = factors[idx].1;
        let ghost known = as_ints(divs@);
        let ghost m = product_of_powers(factors@.take(idx as int));
        let ghost top = power(prime as int, exponent as nat);
        proof {
            let earlier = factors@.take(idx as int);
            lemma_prefix_of_prime_power_list(factors@, idx as int);
            lemma_prefix_of_prime_power_list(factors@, idx + 1);
            assert forall|i: int| 0 <= i < earlier.len() implies (#[trigger] earlier[i]).0
                != prime by {
                assert(earlier[i] == factors@[i]);
            }
            lemma_prime_outside_product(prime as int, earlier);
        }
        let mut new_divs: Vec<i64> = Vec::new();
        let mut prime_power: i64 = 1;
        let mut k: i64 = 0;
        proof {
            assert(as_ints(new_divs@) =~= expanded(known, prime as int, 0));
        }
        while k <= exponent as i64
            invariant
                0 <= k <= exponent + 1,
                exponent >= 1,
                prime >= 2,
                m >= 1,
                m * top <= i64::MAX,
                top == power(prime as int, exponent as nat),
                known == as_ints(divs@),
                holds_divisors_of(known, m),
                as_ints(new_divs@) == expanded(known, prime as int, k as nat),
                k <= exponent ==> prime_power == power(prime as int, k as nat),
            decreases exponent + 1 - k,
        {
            let ghost done = expanded(known, prime as int, k as nat);
            let ghost round = scaled(known, prime_power as int);
            let mut j: usize = 0;
            proof {
                lemma_power_monotonic(prime as int, k as nat, exponent as nat);
                assert(as_ints(new_divs@) =~= done + round.take(0));
            }
            while j < divs.len()
                invariant
                    0 <= j <= divs.len(),
                    m >= 1,
                    m * top <= i64::MAX,
                    1 <= prime_power <= top,
                    known == as_ints(divs@),
                    holds_divisors_of(known, m),
                    round == scaled(known, prime_power as int),
                    as_ints(new_divs@) == done + round.take(j as int),
                decreases divs.len() - j,
            {
                let d: i64 = divs[j];
                proof {
                    assert(known[j as int] == d);
                    assert(known.contains(d as int));
                    assert(is_divisor(d as int, m));
                    lemma_divisor_at_most(d as int, m);
                    assert(0 < d * prime_power <= m * top) by (nonlinear_arith)
                        requires
                            0 < d <= m,
                            1 <= prime_power <= top,
                    ;
                }
                let ghost before = new_divs@;
                new_divs.push(d * prime_power);
                proof {
                    assert(round.take(j + 1) =~= round.take(j as int).push(d * prime_power));
                    assert(as_ints(new_divs@) =~= as_ints(before).push(d * prime_power));
                    assert(as_ints(new_divs@) =~= done + round.take(j + 1));
                }
                j += 1;
            }
            proof {
                assert(round.take(j as int) =~= round);
                assert(expanded(known, prime as int, (k + 1) as nat) == done + round);
            }
            if k < exponent as i64 {
                proof {
                    lemma_power_monotonic(prime as int, (k + 1) as nat, exponent as nat);
                    assert(top <= m * top) by (nonlinear_arith)
                        requires
                            m >= 1,
                            top >= 1,
                    ;
                    assert(power(prime as int, (k + 1) as nat) == prime * power(
                        prime as int,
                        k as nat,
                    ));
                    assert(prime_power * prime == prime * prime_power) by (nonlinear_arith);
                }
                prime_power = prime_power * prime;
            }
            k += 1;
        }
        proof {
            lemma_expanded_holds_divisors(known, m, prime as int, exponent as nat);
        }
        divs = new_divs;
        idx += 1;
    }
    let ghost unsorted = divs@;
    proof {
        assert(factors@.take(idx as int) =~= factors@);
    }
    sort_ascending(&mut divs);
    proof {
        lemma_sorted_holds_lists(unsorted, divs@, num as int);
        assert forall|d: int| is_divisor(d, num as int) <==> is_divisor(d, n as int) by {
            lemma_divisor_of_magnitude(d, n as int);
        }
        assert(lists_divisors(divs@, n as int));
    }
    divs
}

/// The entries of `sieve` from `from` on, up to `limit`, tell which numbers
/// lack divisors below `i`, except that the multiples of `i` from its
/// square up to, and excluding, `struck` are already marked composite.
spec fn sieve_state(sieve: Seq<bool>, limit: int, i: int, struck: int) -> bool {
    sieve.len() == limit + 1 && forall|k: int|
        0 <= k <= limit ==> #[trigger] sieve[k] == (lacks_divisors_below(k, i) && !(i * i <= k
            < struck && is_divisor(i, k)))
}

/// The sieve of Eratosthenes: a table that tells of every number from zero
/// to `limit` whether it is prime.
pub fn sieve_of_eratosthenes(limit: usize) -> (sieve: Vec<bool>)
    requires
        limit < usize::MAX,
    ensures
        sieve@.len() == limit + 1,
        forall|k: int| 0 <= k <= limit ==> #[trigger] sieve@[k] == is_prime_number(k),
{
    let mut sieve: Vec<bool> = vec![true; limit + 1];
    sieve.set(0, false);
    if limit >= 1 {
        sieve.set(1, false);
    }
    let mut i: usize = 2;
    proof {
        assert(sieve_state(sieve@, limit as int, 2, 0)) by {
            assert forall|k: int| 0 <= k <= limit implies #[trigger] sieve@[k]
                == lacks_divisors_below(k, 2) by {}
        }
    }
    while i <= limit / i
        invariant
            2 <= i,
            limit < usize::MAX,
            sieve_state(sieve@, limit as int, i as int, 0),
        decreases limit - i,
    {
        proof {
            lemma_square_against_quotient(limit as int, i as int);
            assert(i < i * i) by (nonlinear_arith)
                requires
                    i >= 2,
            ;
        }
        if sieve[i] {
            let mut j: usize = i * i;
            proof {
                lemma_divisor_of_product(i as int, i as int);
            }
            loop
                invariant_except_break
                    2 <= i,
                    i * i <= j <= limit,
                    limit < usize::MAX,
                    is_divisor(i as int, j as int),
                    sieve_state(sieve@, limit as int, i as int, j as int),
                ensures
                    sieve_state(sieve@, limit as int, i as int, limit + 1),
                decreases limit - j,
            {
                sieve.set(j, false);
                if limit - j < i {
                    proof {
                        assert forall|k: int| 0 <= k <= limit implies #[trigger] sieve@[k] == (
                        lacks_divisors_below(k, i as int) && !(i * i <= k < limit + 1
                            && is_divisor(i as int, k))) by {
                            if j < k {
                                lemma_no_multiple_between(i as int, j as int, k);
                            }
                        }
                    }
                    break;
                }
                proof {
                    assert forall|k: int| 0 <= k <= limit implies #[trigger] sieve@[k] == (
                    lacks_divisors_below(k, i as int) && !(i * i <= k < j + i && is_divisor(
                        i as int,
                        k,
                    ))) by {
                        if j < k < j + i {
                            lemma_no_multiple_between(i as int, j as int, k);
                        }
                    }
                    lemma_divisor_of_combination(
                        i as int,
                        j as int,
                        i as int,
                        1,
                        1,
                    );
                    lemma_divisor_of_product(i as int, 1);
                }
                j += i;
            }
            proof {
                assert forall|k: int| 0 <= k <= limit implies #[trigger] sieve@[k]
                    == lacks_divisors_below(k, i + 1) by {
                    lemma_lacks_divisors_step(k, i as int);
                    if i < k < i * i && is_divisor(i as int, k) {
                        lemma_small_multiple_struck_before(k, i as int);
                    }
                }
            }
        } else {
            proof {
                assert forall|k: int| 0 <= k <= limit implies #[trigger] sieve@[k]
                    == lacks_divisors_below(k, i + 1) by {
                    lemma_lacks_divisors_step(k, i as int);
                    if i < k && is_divisor(i as int, k) {
                        lemma_multiple_of_composite_struck_before(k, i as int);
                    }
                }
            }
        }
        i += 1;
    }
    proof {
        lemma_square_against_quotient(limit as int, i as int);
        assert forall|k: int| 0 <= k <= limit implies #[trigger] sieve@[k] == is_prime_number(
            k,
        ) by {
            if lacks_divisors_below(k, i as int) {
                assert(i * i > k);
                lemma_prime_by_square_bound(k, i as int);
            }
        }
    }
    sieve
}

/// The `n`-th prime, counting from one, read from a table made for this
/// one query. `asymptotic_bound` is the caller's estimate of an upper bound
/// for that prime, as for `PrimeIndexEngine::nth_prime`.
pub fn prime(n: i32, asymptotic_bound: usize) -> (r: Result<i64, PrimeError>)
    requires
        asymptotic_bound < usize::MAX,
        asymptotic_bound <= i64::MAX,
    ensures
        match r {
            Ok(p) => nth_prime_outcome(0, n as int, asymptotic_bound as int) == Ok::<
                int,
                PrimeError,
            >(p as int) && is_nth_prime(p as int, n as int),
            Err(e) => nth_prime_outcome(0, n as int, asymptotic_bound as int) == Err::<
                int,
                PrimeError,
            >(e),
        },
        n <= 0 <==> r == Err::<i64, PrimeError>(PrimeError::NonPositiveIndex),
        1 <= n < SMALL_INDEX_LIMIT ==> r.is_ok(),
{
    let mut engine = PrimeIndexEngine::new();
    engine.nth_prime(n as i64, asymptotic_bound)
}

/// The number of primes up to and including `x`, counted in a table made
/// for this one query.
pub fn prime_pi(x: i32) -> (r: i64)
    ensures
        r == prime_count(x as int),
{
    let mut engine = PrimeIndexEngine::new();
    engine.prime_count_leq(x as i64)
}

} // verus!
