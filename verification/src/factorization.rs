//! Prime factorizations on the mathematical integers: what one is, and the
//! steps by which trial division arrives at it.

use vstd::prelude::*;
use crate::divisibility::{
    is_divisor,
    lemma_divisor_at_most,
    lemma_divisor_of_product,
    lemma_divisor_transitive,
};
use crate::primality::{
    is_prime_number,
    lacks_divisors_below,
    lemma_odd_has_no_even_divisor,
    lemma_prime_by_square_bound,
    lemma_prime_divides_factor,
    lemma_prime_divides_prime,
};

verus! {

/// `base` raised to `exponent`.
pub open spec fn power(base: int, exponent: nat) -> int
    decreases exponent,
{
    if exponent == 0 {
        1
    } else {
        base * power(base, (exponent - 1) as nat)
    }
}

/// The product of the powers `base ^ exponent` over the pairs of `f`.
pub open spec fn product_of_powers(f: Seq<(i64, i32)>) -> int
    decreases f.len(),
{
    if f.len() == 0 {
        1
    } else {
        product_of_powers(f.drop_last()) * power(f.last().0 as int, f.last().1 as nat)
    }
}

/// The bases of `f` are primes in strictly ascending order, and the
/// exponents are positive.
pub open spec fn is_prime_power_list(f: Seq<(i64, i32)>) -> bool {
    &&& forall|i: int| 0 <= i < f.len() ==> is_prime_number((#[trigger] f[i]).0 as int) && f[i].1 >= 1
    &&& forall|i: int, j: int| 0 <= i < j < f.len() ==> (#[trigger] f[i]).0 < (#[trigger] f[j]).0
}

/// `f` is the prime factorization of `n`: a list of prime powers, primes
/// ascending, whose product is `n`.
pub open spec fn is_prime_factorization(f: Seq<(i64, i32)>, n: int) -> bool {
    is_prime_power_list(f) && product_of_powers(f) == n
}

/// Trial division has come as far as `candidate`: the prime powers found so
/// far, times what `rest` is left, give `n`; every prime found is below
/// `candidate`, and `rest` has no divisor from two up to `candidate`,
/// excluding it.
pub open spec fn is_partial_factorization(
    f: Seq<(i64, i32)>,
    rest: int,
    candidate: int,
    n: int,
) -> bool {
    &&& rest >= 1
    &&& is_prime_power_list(f)
    &&& product_of_powers(f) * rest == n
    &&& forall|i: int| 0 <= i < f.len() ==> (#[trigger] f[i]).0 < candidate
    &&& forall|d: int| 2 <= d < candidate ==> !#[trigger] is_divisor(d, rest)
}

/// A power of a positive base is positive.
pub proof fn lemma_power_positive(base: int, exponent: nat)
    requires
        base > 0,
    ensures
        power(base, exponent) > 0,
    decreases exponent,
{
    if exponent > 0 {
        lemma_power_positive(base, (exponent - 1) as nat);
        assert(base * power(base, (exponent - 1) as nat) > 0) by (nonlinear_arith)
            requires
                base > 0,
                power(base, (exponent - 1) as nat) > 0,
        ;
    }
}

/// Powers of a base of at least one never decrease with the exponent.
pub proof fn lemma_power_monotonic(base: int, low: nat, high: nat)
    requires
        base >= 1,
        low <= high,
    ensures
        1 <= power(base, low) <= power(base, high),
    decreases high,
{
    lemma_power_positive(base, low);
    if low < high {
        lemma_power_monotonic(base, low, (high - 1) as nat);
        assert(base * power(base, (high - 1) as nat) >= power(base, (high - 1) as nat))
            by (nonlinear_arith)
            requires
                base >= 1,
                power(base, (high - 1) as nat) >= 1,
        ;
    }
}

/// The power of a sum of exponents is the product of the powers.
pub proof fn lemma_power_adds(base: int, x: nat, y: nat)
    ensures
        power(base, x + y) == power(base, x) * power(base, y),
    decreases x,
{
    if x == 0 {
        assert(1 * power(base, y) == power(base, y)) by (nonlinear_arith);
        assert(power(base, 0) == 1);
    } else {
        lemma_power_adds(base, (x - 1) as nat, y);
        let a = power(base, (x - 1) as nat);
        let b = power(base, y);
        assert(power(base, x + y) == base * power(base, (x - 1 + y) as nat));
        assert(base * (a * b) == (base * a) * b) by (nonlinear_arith);
    }
}

/// A positive power of a positive base has the base as a divisor.
pub proof fn lemma_base_divides_power(base: int, exponent: nat)
    requires
        base > 0,
        exponent > 0,
    ensures
        is_divisor(base, power(base, exponent)),
{
    lemma_divisor_of_product(base, power(base, (exponent - 1) as nat));
}

/// A prime that divides a power divides the base.
pub proof fn lemma_prime_divides_base(p: int, base: int, exponent: nat)
    requires
        is_prime_number(p),
        is_divisor(p, power(base, exponent)),
    ensures
        is_divisor(p, base),
    decreases exponent,
{
    if exponent == 0 {
        lemma_divisor_at_most(p, 1);
    } else {
        lemma_prime_divides_factor(p, base, power(base, (exponent - 1) as nat));
        if !is_divisor(p, base) {
            lemma_prime_divides_base(p, base, (exponent - 1) as nat);
        }
    }
}

/// Appending a prime power multiplies the product by it.
pub proof fn lemma_product_of_powers_push(f: Seq<(i64, i32)>, base: i64, exponent: i32)
    ensures
        product_of_powers(f.push((base, exponent))) == product_of_powers(f) * power(
            base as int,
            exponent as nat,
        ),
{
    let g = f.push((base, exponent));
    assert(g.drop_last() =~= f);
}

/// The product of a list of prime powers is positive.
pub proof fn lemma_product_of_powers_positive(f: Seq<(i64, i32)>)
    requires
        forall|i: int| 0 <= i < f.len() ==> (#[trigger] f[i]).0 >= 1,
    ensures
        product_of_powers(f) >= 1,
    decreases f.len(),
{
    if f.len() > 0 {
        let g = f.drop_last();
        assert forall|i: int| 0 <= i < g.len() implies (#[trigger] g[i]).0 >= 1 by {
            assert(g[i] == f[i]);
        }
        lemma_product_of_powers_positive(g);
        assert(f[f.len() - 1] == f.last());
        lemma_power_positive(f.last().0 as int, f.last().1 as nat);
        assert(product_of_powers(g) * power(f.last().0 as int, f.last().1 as nat) >= 1)
            by (nonlinear_arith)
            requires
                product_of_powers(g) >= 1,
                power(f.last().0 as int, f.last().1 as nat) >= 1,
        ;
    }
}

/// A prefix of a list of prime powers is one too, and its product is
/// positive and at most the product of the whole list.
pub proof fn lemma_prefix_of_prime_power_list(f: Seq<(i64, i32)>, n: int)
    requires
        is_prime_power_list(f),
        0 <= n <= f.len(),
    ensures
        is_prime_power_list(f.take(n)),
        1 <= product_of_powers(f.take(n)) <= product_of_powers(f),
        n < f.len() ==> product_of_powers(f.take(n + 1)) == product_of_powers(f.take(n)) * power(
            f[n].0 as int,
            f[n].1 as nat,
        ),
    decreases f.len() - n,
{
    let g = f.take(n);
    assert forall|i: int| 0 <= i < g.len() implies is_prime_number((#[trigger] g[i]).0 as int)
        && g[i].1 >= 1 by {
        assert(g[i] == f[i]);
    }
    assert forall|i: int, j: int| 0 <= i < j < g.len() implies (#[trigger] g[i]).0 < (
    #[trigger] g[j]).0 by {
        assert(g[i] == f[i]);
        assert(g[j] == f[j]);
    }
    if n == f.len() {
        assert(g =~= f);
        lemma_product_of_powers_positive(f);
    } else {
        lemma_prefix_of_prime_power_list(f, n + 1);
        let h = f.take(n + 1);
        assert(h.drop_last() =~= g);
        assert(h.last() == f[n]);
        let pk = power(f[n].0 as int, f[n].1 as nat);
        lemma_power_monotonic(f[n].0 as int, 0, f[n].1 as nat);
        lemma_product_of_powers_positive(g);
        assert(product_of_powers(g) <= product_of_powers(g) * pk) by (nonlinear_arith)
            requires
                pk >= 1,
                product_of_powers(g) >= 1,
        ;
    }
}

/// A prime that is none of the primes of a list of prime powers does not
/// divide their product.
pub proof fn lemma_prime_outside_product(p: int, f: Seq<(i64, i32)>)
    requires
        is_prime_number(p),
        is_prime_power_list(f),
        forall|i: int| 0 <= i < f.len() ==> (#[trigger] f[i]).0 != p,
    ensures
        !is_divisor(p, product_of_powers(f)),
    decreases f.len(),
{
    if f.len() == 0 {
        if is_divisor(p, 1) {
            lemma_divisor_at_most(p, 1);
        }
    } else {
        let g = f.drop_last();
        let last = f.last();
        assert forall|i: int| 0 <= i < g.len() implies is_prime_number((#[trigger] g[i]).0 as int)
            && g[i].1 >= 1 && g[i].0 != p by {
            assert(g[i] == f[i]);
        }
        assert forall|i: int, j: int| 0 <= i < j < g.len() implies (#[trigger] g[i]).0 < (
        #[trigger] g[j]).0 by {
            assert(g[i] == f[i]);
            assert(g[j] == f[j]);
        }
        lemma_prime_outside_product(p, g);
        if is_divisor(p, product_of_powers(f)) {
            lemma_prime_divides_factor(
                p,
                product_of_powers(g),
                power(last.0 as int, last.1 as nat),
            );
            lemma_prime_divides_base(p, last.0 as int, last.1 as nat);
            assert(f[f.len() - 1] == last);
            lemma_prime_divides_prime(p, last.0 as int);
        }
    }
}

/// A prime that divides the product of a list of prime powers is one of
/// the list's primes.
pub proof fn lemma_prime_within_product(p: int, f: Seq<(i64, i32)>) -> (i: int)
    requires
        is_prime_number(p),
        is_prime_power_list(f),
        is_divisor(p, product_of_powers(f)),
    ensures
        0 <= i < f.len(),
        f[i].0 == p,
{
    if forall|i: int| 0 <= i < f.len() ==> (#[trigger] f[i]).0 != p {
        lemma_prime_outside_product(p, f);
    }
    choose|i: int| 0 <= i < f.len() && (#[trigger] f[i]).0 == p
}

/// Nothing has been divided out yet.
pub proof fn lemma_partial_factorization_start(n: int)
    requires
        n >= 1,
    ensures
        is_partial_factorization(Seq::empty(), n, 2, n),
{
    assert(product_of_powers(Seq::<(i64, i32)>::empty()) * n == n) by (nonlinear_arith)
        requires
            product_of_powers(Seq::<(i64, i32)>::empty()) == 1,
    ;
}

/// After `candidate` was divided out of `num` as often as it goes, `count`
/// times, trial division has come as far as the next number; if it went at
/// least once, `candidate` is prime and its power joins the list.
pub proof fn lemma_partial_factorization_step(
    f: Seq<(i64, i32)>,
    num: int,
    candidate: i64,
    rest: int,
    count: i32,
    n: int,
)
    requires
        is_partial_factorization(f, num, candidate as int, n),
        candidate >= 2,
        rest >= 1,
        count >= 0,
        rest * power(candidate as int, count as nat) == num,
        !is_divisor(candidate as int, rest),
    ensures
        count == 0 ==> rest == num && is_partial_factorization(f, rest, candidate + 1, n),
        count > 0 ==> is_partial_factorization(f.push((candidate, count)), rest, candidate + 1, n),
{
    let p = candidate as int;
    let pk = power(p, count as nat);
    lemma_power_positive(p, count as nat);
    assert(is_divisor(rest, num)) by {
        lemma_divisor_of_product(rest, pk);
    }
    assert forall|d: int| 2 <= d < p + 1 implies !#[trigger] is_divisor(d, rest) by {
        if d < p && is_divisor(d, rest) {
            lemma_divisor_transitive(d, rest, num);
        }
    }
    if count == 0 {
        assert(rest * 1 == rest) by (nonlinear_arith);
    } else {
        let g = f.push((candidate, count));
        assert(is_divisor(p, num)) by {
            lemma_base_divides_power(p, count as nat);
            assert(num == pk * rest) by (nonlinear_arith)
                requires
                    rest * pk == num,
            ;
            lemma_divisor_of_product(pk, rest);
            lemma_divisor_transitive(p, pk, num);
        }
        assert(is_prime_number(p)) by {
            assert forall|d: int| 2 <= d < p implies !#[trigger] is_divisor(d, p) by {
                if is_divisor(d, p) {
                    lemma_divisor_transitive(d, p, num);
                }
            }
        }
        lemma_product_of_powers_push(f, candidate, count);
        assert(product_of_powers(g) * rest == n) by (nonlinear_arith)
            requires
                product_of_powers(g) == product_of_powers(f) * pk,
                rest * pk == num,
                product_of_powers(f) * num == n,
        ;
        assert forall|i: int| 0 <= i < g.len() implies is_prime_number((#[trigger] g[i]).0 as int)
            && g[i].1 >= 1 && g[i].0 < p + 1 by {
            if i < f.len() {
                assert(g[i] == f[i]);
            }
        }
        assert forall|i: int, j: int| 0 <= i < j < g.len() implies (#[trigger] g[i]).0 < (
        #[trigger] g[j]).0 by {
            assert(g[i] == f[i]);
            if j < f.len() {
                assert(g[j] == f[j]);
            }
        }
    }
}

/// An odd rest has no even divisor, so trial division may pass over an
/// even candidate.
pub proof fn lemma_partial_factorization_skip_even(
    f: Seq<(i64, i32)>,
    rest: int,
    candidate: int,
    n: int,
)
    requires
        is_partial_factorization(f, rest, candidate, n),
        candidate >= 3,
        candidate % 2 == 0,
    ensures
        is_partial_factorization(f, rest, candidate + 1, n),
{
    assert(!is_divisor(2, rest));
    assert forall|d: int| 2 <= d < candidate + 1 implies !#[trigger] is_divisor(d, rest) by {
        if d == candidate {
            lemma_odd_has_no_even_divisor(d, rest);
        }
    }
}

/// Once the square of the candidate exceeds the rest, the rest is one or a
/// prime above all the primes found, and the factorization is complete with
/// it.
pub proof fn lemma_partial_factorization_end(
    f: Seq<(i64, i32)>,
    rest: i64,
    candidate: int,
    n: int,
)
    requires
        is_partial_factorization(f, rest as int, candidate, n),
        candidate >= 2,
        candidate * candidate > rest,
    ensures
        rest == 1 ==> is_prime_factorization(f, n),
        rest > 1 ==> is_prime_factorization(f.push((rest, 1i32)), n),
{
    if rest == 1 {
        assert(product_of_powers(f) * 1 == product_of_powers(f)) by (nonlinear_arith);
    } else {
        let r = rest as int;
        let g = f.push((rest, 1i32));
        assert(lacks_divisors_below(r, candidate));
        lemma_prime_by_square_bound(r, candidate);
        assert(r >= candidate) by {
            if r < candidate {
                lemma_divisor_of_product(r, 1);
                assert(is_divisor(r, r));
            }
        }
        lemma_product_of_powers_push(f, rest, 1i32);
        assert(power(r, 1) == r) by {
            assert(power(r, 0) == 1);
            assert(r * 1 == r) by (nonlinear_arith);
        }
        assert forall|i: int| 0 <= i < g.len() implies is_prime_number((#[trigger] g[i]).0 as int)
            && g[i].1 >= 1 by {
            if i < f.len() {
                assert(g[i] == f[i]);
            }
        }
        assert forall|i: int, j: int| 0 <= i < j < g.len() implies (#[trigger] g[i]).0 < (
        #[trigger] g[j]).0 by {
            assert(g[i] == f[i]);
            if j < f.len() {
                assert(g[j] == f[j]);
            }
        }
    }
}

/// The last prime power of a list divides the list's product, and the
/// prime does not divide the product of the others.
proof fn lemma_last_prime_power(f: Seq<(i64, i32)>)
    requires
        is_prime_power_list(f),
        f.len() > 0,
    ensures
        is_prime_power_list(f.drop_last()),
        product_of_powers(f.drop_last()) >= 1,
        is_divisor(f.last().0 as int, product_of_powers(f)),
        !is_divisor(f.last().0 as int, product_of_powers(f.drop_last())),
{
    let g = f.drop_last();
    let last = f.last();
    let p = last.0 as int;
    assert(f[f.len() - 1] == last);
    assert(g =~= f.take(f.len() - 1));
    lemma_prefix_of_prime_power_list(f, f.len() - 1);
    assert forall|i: int| 0 <= i < g.len() implies (#[trigger] g[i]).0 != p by {
        assert(g[i] == f[i]);
    }
    lemma_prime_outside_product(p, g);
    lemma_base_divides_power(p, last.1 as nat);
    lemma_power_positive(p, last.1 as nat);
    lemma_divisor_of_product(power(p, last.1 as nat), product_of_powers(g));
    lemma_divisor_transitive(p, power(p, last.1 as nat), product_of_powers(f));
}

/// If `a * p^x == b * p^y` with `x < y`, the prime `p` divides `a`.
proof fn lemma_unequal_exponents(a: int, b: int, p: int, x: nat, y: nat)
    requires
        p >= 2,
        x < y,
        a * power(p, x) == b * power(p, y),
    ensures
        is_divisor(p, a),
{
    let d = (y - x) as nat;
    lemma_power_adds(p, x, d);
    lemma_power_positive(p, x);
    lemma_base_divides_power(p, d);
    assert(a == b * power(p, d)) by (nonlinear_arith)
        requires
            a * power(p, x) == b * (power(p, x) * power(p, d)),
            power(p, x) > 0,
    ;
    lemma_power_positive(p, d);
    lemma_divisor_of_product(power(p, d), b);
    lemma_divisor_transitive(p, power(p, d), a);
}

/// The fundamental theorem of arithmetic, uniqueness: a number has at most
/// one prime factorization.
pub proof fn lemma_prime_factorization_unique(f: Seq<(i64, i32)>, g: Seq<(i64, i32)>, n: int)
    requires
        is_prime_factorization(f, n),
        is_prime_factorization(g, n),
    ensures
        f == g,
    decreases f.len(),
{
    if f.len() == 0 || g.len() == 0 {
        if f.len() > 0 {
            lemma_last_prime_power(f);
            lemma_divisor_at_most(f.last().0 as int, 1);
        }
        if g.len() > 0 {
            lemma_last_prime_power(g);
            lemma_divisor_at_most(g.last().0 as int, 1);
        }
        assert(f =~= g);
    } else {
        let f0 = f.drop_last();
        let g0 = g.drop_last();
        let p = f.last().0 as int;
        let q = g.last().0 as int;
        let x = f.last().1 as nat;
        let y = g.last().1 as nat;
        let a = product_of_powers(f0);
        let b = product_of_powers(g0);
        lemma_last_prime_power(f);
        lemma_last_prime_power(g);
        assert(f[f.len() - 1] == f.last());
        assert(g[g.len() - 1] == g.last());
        let i = lemma_prime_within_product(p, g);
        let j = lemma_prime_within_product(q, f);
        assert(p == q);
        lemma_power_positive(p, x);
        lemma_power_positive(p, y);
        if x < y {
            lemma_unequal_exponents(a, b, p, x, y);
        } else if y < x {
            lemma_unequal_exponents(b, a, p, y, x);
        }
        assert(a == b) by (nonlinear_arith)
            requires
                a * power(p, x) == b * power(p, x),
                power(p, x) > 0,
        ;
        lemma_prime_factorization_unique(f0, g0, a);
        assert(f.last() == g.last());
        assert(f =~= f0.push(f.last()));
        assert(g =~= g0.push(g.last()));
    }
}

} // verus!
