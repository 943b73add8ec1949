//! Divisibility on the mathematical integers: divisors, greatest common
//! divisors, least common multiples, and the facts that connect them.

use vstd::prelude::*;
use vstd::arithmetic::div_mod::{
    lemma_fundamental_div_mod,
    lemma_mod_multiples_basic,
    lemma_small_mod,
};

verus! {

/// The absolute value of `x`.
pub open spec fn magnitude(x: int) -> int {
    if x < 0 {
        -x
    } else {
        x
    }
}

/// `d` is a positive divisor of `n`.
pub open spec fn is_divisor(d: int, n: int) -> bool {
    d > 0 && n % d == 0
}

/// `k` is a multiple of `a`. Zero has no multiple but zero.
pub open spec fn is_multiple(k: int, a: int) -> bool {
    if a == 0 {
        k == 0
    } else {
        k % magnitude(a) == 0
    }
}

/// `g` is the greatest common divisor of `a` and `b`: the non-negative
/// integer whose positive divisors are exactly the common positive divisors
/// of `a` and `b`. For `a == b == 0` that integer is zero.
pub open spec fn is_gcd(g: int, a: int, b: int) -> bool {
    g >= 0 && forall|d: int| #[trigger]
        is_divisor(d, g) <==> is_divisor(d, a) && is_divisor(d, b)
}

/// The greatest common divisor of `a` and `b`.
pub open spec fn gcd_of(a: int, b: int) -> int {
    choose|g: int| is_gcd(g, a, b)
}

/// `m` is the least common multiple of `a` and `b`: the non-negative integer
/// whose multiples are exactly the common multiples of `a` and `b`. If
/// either is zero, that integer is zero.
pub open spec fn is_lcm(m: int, a: int, b: int) -> bool {
    m >= 0 && forall|k: int| #[trigger]
        is_multiple(k, m) <==> is_multiple(k, a) && is_multiple(k, b)
}

/// The least common multiple of `a` and `b`.
pub open spec fn lcm_of(a: int, b: int) -> int {
    choose|m: int| is_lcm(m, a, b)
}

/// `d` is a positive divisor of every element of `s`.
pub open spec fn divides_all(d: int, s: Seq<i64>) -> bool {
    d > 0 && forall|i: int| 0 <= i < s.len() ==> is_divisor(d, #[trigger] s[i] as int)
}

/// `k` is a multiple of every element of `s`.
pub open spec fn multiple_of_all(k: int, s: Seq<i64>) -> bool {
    forall|i: int| 0 <= i < s.len() ==> is_multiple(k, #[trigger] s[i] as int)
}

/// `g` is the greatest common divisor of the elements of `s`: the
/// non-negative integer whose positive divisors are exactly the positive
/// divisors common to all elements. Without a non-zero element (so also for
/// the empty sequence) that integer is zero.
pub open spec fn is_gcd_of_all(g: int, s: Seq<i64>) -> bool {
    g >= 0 && forall|d: int| #[trigger] is_divisor(d, g) <==> divides_all(d, s)
}

/// The greatest common divisor of the elements of `s`.
pub open spec fn gcd_of_all(s: Seq<i64>) -> int {
    choose|g: int| is_gcd_of_all(g, s)
}

/// `m` is non-negative and its multiples are exactly the common multiples
/// of the elements of `s`.
pub open spec fn has_common_multiples(m: int, s: Seq<i64>) -> bool {
    m >= 0 && forall|k: int| #[trigger] is_multiple(k, m) <==> multiple_of_all(k, s)
}

/// `m` is the least common multiple of the elements of `s`: the
/// non-negative integer whose multiples are exactly the multiples common to
/// all elements, and zero, by convention, for the empty sequence. A zero
/// among the elements makes it zero.
pub open spec fn is_lcm_of_all(m: int, s: Seq<i64>) -> bool {
    if s.len() == 0 {
        m == 0
    } else {
        has_common_multiples(m, s)
    }
}

/// The least common multiple of the elements of `s`.
pub open spec fn lcm_of_all(s: Seq<i64>) -> int {
    choose|m: int| is_lcm_of_all(m, s)
}

/// Every product with a positive factor `d` has `d` as a divisor.
pub proof fn lemma_divisor_of_product(d: int, k: int)
    requires
        d > 0,
    ensures
        is_divisor(d, d * k),
        is_divisor(d, k * d),
{
    lemma_mod_multiples_basic(k, d);
    assert(d * k == k * d) by (nonlinear_arith);
}

/// A number is its divisor times the quotient.
pub proof fn lemma_divisor_quotient(d: int, n: int)
    requires
        is_divisor(d, n),
    ensures
        n == d * (n / d),
        n == (n / d) * d,
{
    lemma_fundamental_div_mod(n, d);
    assert(d * (n / d) == (n / d) * d) by (nonlinear_arith);
}

/// A common divisor of `x` and `y` divides every integer combination of them.
pub proof fn lemma_divisor_of_combination(d: int, x: int, y: int, s: int, t: int)
    requires
        is_divisor(d, x),
        is_divisor(d, y),
    ensures
        is_divisor(d, x * s + y * t),
{
    lemma_divisor_quotient(d, x);
    lemma_divisor_quotient(d, y);
    let qx = x / d;
    let qy = y / d;
    assert(x * s + y * t == d * (qx * s + qy * t)) by (nonlinear_arith)
        requires
            x == d * qx,
            y == d * qy,
    ;
    lemma_divisor_of_product(d, qx * s + qy * t);
}

/// A divisor of a positive number is at most that number.
pub proof fn lemma_divisor_at_most(d: int, n: int)
    requires
        is_divisor(d, n),
        n > 0,
    ensures
        d <= n,
{
    if d > n {
        lemma_small_mod(n as nat, d as nat);
    }
}

/// A number and its negation have the same divisors.
pub proof fn lemma_divisor_of_negation(d: int, n: int)
    ensures
        is_divisor(d, n) <==> is_divisor(d, -n),
{
    if is_divisor(d, n) {
        lemma_divisor_of_combination(d, n, n, -1, 0);
    }
    if is_divisor(d, -n) {
        lemma_divisor_of_combination(d, -n, -n, -1, 0);
    }
}

/// A number and its absolute value have the same divisors.
pub proof fn lemma_divisor_of_magnitude(d: int, n: int)
    ensures
        is_divisor(d, n) <==> is_divisor(d, magnitude(n)),
{
    lemma_divisor_of_negation(d, n);
}

/// Divisibility is transitive.
pub proof fn lemma_divisor_transitive(a: int, b: int, c: int)
    requires
        is_divisor(a, b),
        is_divisor(b, c),
    ensures
        is_divisor(a, c),
{
    lemma_divisor_quotient(b, c);
    lemma_divisor_of_combination(a, b, b, c / b, 0);
}

/// Multiplying both numbers by a positive factor keeps divisibility.
pub proof fn lemma_divisor_scaled(a: int, b: int, c: int)
    requires
        is_divisor(a, b),
        c > 0,
    ensures
        is_divisor(a * c, b * c),
{
    lemma_divisor_quotient(a, b);
    let q = b / a;
    assert(a * c > 0) by (nonlinear_arith)
        requires
            a > 0,
            c > 0,
    ;
    assert(b * c == (a * c) * q) by (nonlinear_arith)
        requires
            b == a * q,
    ;
    lemma_divisor_of_product(a * c, q);
}

/// A positive factor common to both numbers can be cancelled.
pub proof fn lemma_divisor_cancelled(a: int, b: int, c: int)
    requires
        a > 0,
        c > 0,
        is_divisor(a * c, b * c),
    ensures
        is_divisor(a, b),
{
    lemma_divisor_quotient(a * c, b * c);
    let q = (b * c) / (a * c);
    assert(b == a * q) by (nonlinear_arith)
        requires
            b * c == (a * c) * q,
            c > 0,
    ;
    lemma_divisor_of_product(a, q);
}

/// Between a multiple of `i` and the next one there is none.
pub proof fn lemma_no_multiple_between(i: int, j: int, k: int)
    requires
        is_divisor(i, j),
        j < k < j + i,
    ensures
        !is_divisor(i, k),
{
    if is_divisor(i, k) {
        lemma_divisor_of_combination(i, k, j, 1, -1);
        assert(k * 1 + j * (-1) == k - j) by (nonlinear_arith);
        lemma_divisor_at_most(i, k - j);
    }
}

/// Every number is a multiple of itself.
pub proof fn lemma_multiple_of_itself(m: int)
    ensures
        is_multiple(m, m),
{
    if m != 0 {
        lemma_divisor_of_product(magnitude(m), 1);
        lemma_divisor_of_negation(magnitude(m), m);
    }
}

/// Two non-negative integers with the same positive divisors are equal.
pub proof fn lemma_same_divisors(g1: int, g2: int)
    requires
        g1 >= 0,
        g2 >= 0,
        forall|d: int| #[trigger] is_divisor(d, g1) <==> is_divisor(d, g2),
    ensures
        g1 == g2,
{
    if g1 > 0 {
        assert(is_divisor(g1, g1)) by {
            lemma_divisor_of_product(g1, 1);
        }
        assert(is_divisor(g1, g2));
        if g2 == 0 {
            lemma_divisor_of_product(g1 + 1, 0);
            assert(is_divisor(g1 + 1, g2));
            assert(is_divisor(g1 + 1, g1));
            lemma_divisor_at_most(g1 + 1, g1);
        } else {
            assert(is_divisor(g2, g2)) by {
                lemma_divisor_of_product(g2, 1);
            }
            assert(is_divisor(g2, g1));
            lemma_divisor_at_most(g1, g2);
            lemma_divisor_at_most(g2, g1);
        }
    } else if g2 > 0 {
        lemma_divisor_of_product(g2 + 1, 0);
        assert(is_divisor(g2 + 1, g1));
        assert(is_divisor(g2 + 1, g2));
        lemma_divisor_at_most(g2 + 1, g2);
    }
}

/// Two non-negative integers with the same multiples are equal.
pub proof fn lemma_same_multiples(m1: int, m2: int)
    requires
        m1 >= 0,
        m2 >= 0,
        forall|k: int| #[trigger] is_multiple(k, m1) <==> is_multiple(k, m2),
    ensures
        m1 == m2,
{
    lemma_multiple_of_itself(m1);
    lemma_multiple_of_itself(m2);
    assert(is_multiple(m1, m2));
    assert(is_multiple(m2, m1));
    if m1 != 0 && m2 != 0 {
        lemma_divisor_at_most(m1, m2);
        lemma_divisor_at_most(m2, m1);
    }
}

/// One step of Euclid's algorithm keeps the set of common divisors.
pub proof fn lemma_remainder_keeps_common_divisors(d: int, a: int, b: int)
    requires
        b > 0,
    ensures
        is_divisor(d, a) && is_divisor(d, b) <==> is_divisor(d, b) && is_divisor(d, a % b),
{
    lemma_fundamental_div_mod(a, b);
    let q = a / b;
    if is_divisor(d, a) && is_divisor(d, b) {
        lemma_divisor_of_combination(d, a, b, 1, -q);
        assert(a * 1 + b * (-q) == a % b) by (nonlinear_arith)
            requires
                a == b * q + a % b,
        ;
    }
    if is_divisor(d, b) && is_divisor(d, a % b) {
        lemma_divisor_of_combination(d, b, a % b, q, 1);
        assert(b * q + (a % b) * 1 == a) by (nonlinear_arith)
            requires
                a == b * q + a % b,
        ;
    }
}

/// The greatest common divisor is unique.
pub proof fn lemma_gcd_unique(g1: int, g2: int, a: int, b: int)
    requires
        is_gcd(g1, a, b),
        is_gcd(g2, a, b),
    ensures
        g1 == g2,
{
    lemma_same_divisors(g1, g2);
}

/// Bezout's identity for non-negative numbers: the greatest common divisor
/// exists and is an integer combination of the two numbers. Returns the
/// divisor and the two coefficients.
pub proof fn lemma_bezout_nonnegative(a: int, b: int) -> (r: (int, int, int))
    requires
        a >= 0,
        b >= 0,
    ensures
        is_gcd(r.0, a, b),
        r.0 == a * r.1 + b * r.2,
    decreases b,
{
    if b == 0 {
        assert forall|d: int| #[trigger] is_divisor(d, a) <==> is_divisor(d, a) && is_divisor(d, b) by {
            if d > 0 {
                lemma_divisor_of_product(d, 0);
            }
        }
        assert(a == a * 1 + b * 0) by (nonlinear_arith);
        (a, 1, 0)
    } else {
        let (g, s, t) = lemma_bezout_nonnegative(b, a % b);
        let q = a / b;
        lemma_fundamental_div_mod(a, b);
        assert forall|d: int| #[trigger] is_divisor(d, g) <==> is_divisor(d, a) && is_divisor(d, b) by {
            lemma_remainder_keeps_common_divisors(d, a, b);
        }
        assert(g == a * t + b * (s - q * t)) by (nonlinear_arith)
            requires
                g == b * s + (a % b) * t,
                a == b * q + a % b,
        ;
        (g, t, s - q * t)
    }
}

/// Bezout's identity: the greatest common divisor of any two integers
/// exists, is `gcd_of`, and is an integer combination of them. Returns the
/// two coefficients.
pub proof fn lemma_bezout(a: int, b: int) -> (r: (int, int))
    ensures
        is_gcd(gcd_of(a, b), a, b),
        gcd_of(a, b) == a * r.0 + b * r.1,
{
    let (g, s, t) = lemma_bezout_nonnegative(magnitude(a), magnitude(b));
    assert forall|d: int| #[trigger] is_divisor(d, g) <==> is_divisor(d, a) && is_divisor(d, b) by {
        lemma_divisor_of_magnitude(d, a);
        lemma_divisor_of_magnitude(d, b);
    }
    assert(is_gcd(g, a, b));
    lemma_gcd_unique(g, gcd_of(a, b), a, b);
    let s1 = if a < 0 { -s } else { s };
    let t1 = if b < 0 { -t } else { t };
    assert(a * s1 == magnitude(a) * s) by (nonlinear_arith)
        requires
            s1 == if a < 0 { -s } else { s },
    ;
    assert(b * t1 == magnitude(b) * t) by (nonlinear_arith)
        requires
            t1 == if b < 0 { -t } else { t },
    ;
    (s1, t1)
}

/// The greatest common divisor is what a number with the defining
/// property of one is.
pub proof fn lemma_gcd_is(g: int, a: int, b: int)
    requires
        is_gcd(g, a, b),
    ensures
        g == gcd_of(a, b),
{
    lemma_bezout(a, b);
    lemma_gcd_unique(g, gcd_of(a, b), a, b);
}

/// Unless both numbers are zero, their greatest common divisor is positive,
/// divides both, and no common divisor is greater.
pub proof fn lemma_gcd_is_greatest(a: int, b: int)
    requires
        a != 0 || b != 0,
    ensures
        gcd_of(a, b) > 0,
        is_divisor(gcd_of(a, b), a),
        is_divisor(gcd_of(a, b), b),
        forall|d: int| is_divisor(d, a) && is_divisor(d, b) ==> d <= gcd_of(a, b),
        a != 0 ==> gcd_of(a, b) <= magnitude(a),
        b != 0 ==> gcd_of(a, b) <= magnitude(b),
{
    lemma_bezout(a, b);
    lemma_divisor_of_magnitude(gcd_of(a, b), a);
    lemma_divisor_of_magnitude(gcd_of(a, b), b);
    if a != 0 && is_divisor(gcd_of(a, b), a) {
        lemma_divisor_at_most(gcd_of(a, b), magnitude(a));
    }
    if b != 0 && is_divisor(gcd_of(a, b), b) {
        lemma_divisor_at_most(gcd_of(a, b), magnitude(b));
    }
    let g = gcd_of(a, b);
    if g == 0 {
        let n = magnitude(a) + magnitude(b) + 1;
        lemma_divisor_of_product(n, 0);
        assert(is_divisor(n, g));
        lemma_divisor_of_magnitude(n, a);
        lemma_divisor_of_magnitude(n, b);
        if a != 0 {
            lemma_divisor_at_most(n, magnitude(a));
        } else {
            lemma_divisor_at_most(n, magnitude(b));
        }
    }
    lemma_divisor_of_product(g, 1);
    assert(is_divisor(g, g));
    assert forall|d: int| is_divisor(d, a) && is_divisor(d, b) implies d <= g by {
        assert(is_divisor(d, g));
        lemma_divisor_at_most(d, g);
    }
}

/// The greatest common divisor of zero and zero is zero.
pub proof fn lemma_gcd_of_zeros()
    ensures
        gcd_of(0, 0) == 0,
{
    assert forall|d: int| #[trigger] is_divisor(d, 0) <==> is_divisor(d, 0) && is_divisor(d, 0) by {}
    assert(is_gcd(0, 0, 0));
    lemma_gcd_is(0, 0, 0);
}

/// The greatest common divisor does not depend on the signs.
pub proof fn lemma_gcd_of_magnitudes(a: int, b: int)
    ensures
        gcd_of(magnitude(a), magnitude(b)) == gcd_of(a, b),
{
    lemma_bezout(a, b);
    let g = gcd_of(a, b);
    assert forall|d: int| #[trigger] is_divisor(d, g) <==> is_divisor(d, magnitude(a)) && is_divisor(d, magnitude(b)) by {
        lemma_divisor_of_magnitude(d, a);
        lemma_divisor_of_magnitude(d, b);
    }
    lemma_gcd_is(g, magnitude(a), magnitude(b));
}

/// Gauss's lemma: a divisor of a product that is coprime to one factor
/// divides the other.
pub proof fn lemma_coprime_divisor_of_product(x: int, b: int, c: int)
    requires
        gcd_of(x, c) == 1,
        is_divisor(x, b * c),
    ensures
        is_divisor(x, b),
{
    let (s, t) = lemma_bezout(x, c);
    lemma_divisor_of_product(x, 1);
    assert(is_divisor(x, x)) by {
        assert(x * 1 == x) by (nonlinear_arith);
    }
    lemma_divisor_of_combination(x, x, b * c, b * s, t);
    assert(x * (b * s) + (b * c) * t == b) by (nonlinear_arith)
        requires
            1 == x * s + c * t,
    ;
}

/// The least common multiple is unique.
pub proof fn lemma_lcm_unique(m1: int, m2: int, a: int, b: int)
    requires
        is_lcm(m1, a, b),
        is_lcm(m2, a, b),
    ensures
        m1 == m2,
{
    lemma_same_multiples(m1, m2);
}

/// For positive `x` and `y` with greatest common divisor `g`, the least
/// common multiple is `(x / g) * y`, and its product with `g` is `x * y`.
pub proof fn lemma_lcm_of_positive(x: int, y: int)
    requires
        x > 0,
        y > 0,
    ensures
        is_lcm((x / gcd_of(x, y)) * y, x, y),
        (x / gcd_of(x, y)) * y > 0,
        (x / gcd_of(x, y)) * y * gcd_of(x, y) == x * y,
{
    let g = gcd_of(x, y);
    let (s, t) = lemma_bezout(x, y);
    lemma_gcd_is_greatest(x, y);
    lemma_divisor_quotient(g, x);
    lemma_divisor_quotient(g, y);
    let xg = x / g;
    let yg = y / g;
    let m = xg * y;
    assert(xg > 0 && yg > 0) by (nonlinear_arith)
        requires
            x == g * xg,
            y == g * yg,
            x > 0,
            y > 0,
            g > 0,
    ;
    assert(m > 0) by (nonlinear_arith)
        requires
            m == xg * y,
            xg > 0,
            y > 0,
    ;
    assert(m == x * yg) by (nonlinear_arith)
        requires
            m == xg * y,
            x == g * xg,
            y == g * yg,
    ;
    assert(m * g == x * y) by (nonlinear_arith)
        requires
            m == xg * y,
            x == g * xg,
    ;
    lemma_divisor_of_product(x, yg);
    lemma_divisor_of_product(y, xg);
    assert(is_divisor(x, m));
    assert(is_divisor(y, m));
    assert forall|k: int| #[trigger] is_multiple(k, m) <==> is_multiple(k, x) && is_multiple(k, y) by {
        if is_multiple(k, m) {
            lemma_divisor_transitive(x, m, k);
            lemma_divisor_transitive(y, m, k);
        }
        if is_multiple(k, x) && is_multiple(k, y) {
            lemma_divisor_quotient(x, k);
            lemma_divisor_quotient(y, k);
            let kx = k / x;
            let ky = k / y;
            let c = ky * s + kx * t;
            let xy = x * y;
            assert(k * (x * s) == xy * (ky * s)) by (nonlinear_arith)
                requires
                    k == y * ky,
                    xy == x * y,
            ;
            assert(k * (y * t) == xy * (kx * t)) by (nonlinear_arith)
                requires
                    k == x * kx,
                    xy == x * y,
            ;
            assert(k * g == k * (x * s) + k * (y * t)) by (nonlinear_arith)
                requires
                    g == x * s + y * t,
            ;
            assert(xy * (ky * s) + xy * (kx * t) == xy * c) by (nonlinear_arith)
                requires
                    c == ky * s + kx * t,
            ;
            assert(k * g == m * g * c);
            assert(k == m * c) by (nonlinear_arith)
                requires
                    k * g == m * g * c,
                    g > 0,
            ;
            lemma_divisor_of_product(m, c);
        }
    }
}

/// The least common multiple of any two integers exists and is `lcm_of`;
/// its product with the greatest common divisor is the product of the
/// absolute values.
pub proof fn lemma_lcm_exists(a: int, b: int)
    ensures
        is_lcm(lcm_of(a, b), a, b),
        lcm_of(a, b) * gcd_of(a, b) == magnitude(a) * magnitude(b),
        a != 0 && b != 0 ==> lcm_of(a, b) == magnitude(a) / gcd_of(a, b) * magnitude(b),
        a == 0 || b == 0 ==> lcm_of(a, b) == 0,
{
    if a == 0 || b == 0 {
        assert forall|k: int| #[trigger] is_multiple(k, 0) <==> is_multiple(k, a) && is_multiple(k, b) by {
            if k == 0 {
                if a != 0 {
                    lemma_divisor_of_product(magnitude(a), 0);
                }
                if b != 0 {
                    lemma_divisor_of_product(magnitude(b), 0);
                }
            }
        }
        assert(is_lcm(0, a, b));
        lemma_lcm_unique(0, lcm_of(a, b), a, b);
        assert(magnitude(a) * magnitude(b) == 0) by (nonlinear_arith)
            requires
                magnitude(a) == 0 || magnitude(b) == 0,
        ;
        assert(lcm_of(a, b) * gcd_of(a, b) == 0) by (nonlinear_arith)
            requires
                lcm_of(a, b) == 0,
        ;
    } else {
        let x = magnitude(a);
        let y = magnitude(b);
        lemma_lcm_of_positive(x, y);
        lemma_gcd_of_magnitudes(a, b);
        let m = (x / gcd_of(x, y)) * y;
        assert forall|k: int| #[trigger] is_multiple(k, m) <==> is_multiple(k, a) && is_multiple(k, b) by {
            assert(is_multiple(k, x) == is_multiple(k, a));
            assert(is_multiple(k, y) == is_multiple(k, b));
        }
        assert(is_lcm(m, a, b));
        lemma_lcm_unique(m, lcm_of(a, b), a, b);
    }
}

/// The least common multiple is what a number with the defining property
/// of one is.
pub proof fn lemma_lcm_is(m: int, a: int, b: int)
    requires
        is_lcm(m, a, b),
    ensures
        m == lcm_of(a, b),
{
    lemma_lcm_exists(a, b);
    lemma_lcm_unique(m, lcm_of(a, b), a, b);
}

/// If neither number is zero, their least common multiple is positive, is a
/// multiple of both, and no positive common multiple is smaller.
pub proof fn lemma_lcm_is_least(a: int, b: int)
    requires
        a != 0,
        b != 0,
    ensures
        lcm_of(a, b) > 0,
        is_multiple(lcm_of(a, b), a),
        is_multiple(lcm_of(a, b), b),
        forall|k: int| k > 0 && is_multiple(k, a) && is_multiple(k, b) ==> lcm_of(a, b) <= k,
{
    lemma_lcm_exists(a, b);
    let m = lcm_of(a, b);
    lemma_lcm_of_positive(magnitude(a), magnitude(b));
    lemma_gcd_of_magnitudes(a, b);
    lemma_multiple_of_itself(m);
    assert forall|k: int| k > 0 && is_multiple(k, a) && is_multiple(k, b) implies m <= k by {
        assert(is_multiple(k, m));
        lemma_divisor_at_most(m, k);
    }
}

/// Appending an element intersects the common divisors with its divisors.
pub proof fn lemma_common_divisors_step(g: int, s: Seq<i64>, n: int, next: int)
    requires
        0 <= n < s.len(),
        is_gcd_of_all(g, s.take(n)),
        is_gcd(next, g, s[n] as int),
    ensures
        is_gcd_of_all(next, s.take(n + 1)),
{
    let before = s.take(n);
    let after = s.take(n + 1);
    assert forall|d: int| #[trigger] is_divisor(d, next) <==> divides_all(d, after) by {
        assert(is_divisor(d, g) <==> divides_all(d, before));
        assert(after[n] == s[n]);
        if divides_all(d, after) {
            assert forall|j: int| 0 <= j < before.len() implies is_divisor(
                d,
                #[trigger] before[j] as int,
            ) by {
                assert(before[j] == after[j]);
            }
        }
        if is_divisor(d, next) {
            assert forall|j: int| 0 <= j < after.len() implies is_divisor(
                d,
                #[trigger] after[j] as int,
            ) by {
                if j < n {
                    assert(after[j] == before[j]);
                }
            }
        }
    }
}

/// Every prefix of a sequence has a greatest common divisor.
pub proof fn lemma_common_divisors_exist(s: Seq<i64>, n: int) -> (g: int)
    requires
        0 <= n <= s.len(),
    ensures
        is_gcd_of_all(g, s.take(n)),
    decreases n,
{
    if n == 0 {
        assert forall|d: int| #[trigger] is_divisor(d, 0) <==> divides_all(d, s.take(0)) by {
            if d > 0 {
                lemma_divisor_of_product(d, 0);
            }
        }
        0
    } else {
        let before = lemma_common_divisors_exist(s, n - 1);
        let g = gcd_of(before, s[n - 1] as int);
        lemma_bezout(before, s[n - 1] as int);
        lemma_common_divisors_step(before, s, n - 1, g);
        g
    }
}

/// The greatest common divisor of a sequence exists and is `gcd_of_all`.
pub proof fn lemma_gcd_of_all_exists(s: Seq<i64>)
    ensures
        is_gcd_of_all(gcd_of_all(s), s),
{
    let g = lemma_common_divisors_exist(s, s.len() as int);
    assert(s.take(s.len() as int) =~= s);
}

/// The greatest common divisor of a sequence is what a number with the
/// defining property of one is.
pub proof fn lemma_gcd_of_all_is(g: int, s: Seq<i64>)
    requires
        is_gcd_of_all(g, s),
    ensures
        g == gcd_of_all(s),
{
    let h = gcd_of_all(s);
    assert(is_gcd_of_all(h, s));
    assert forall|d: int| #[trigger] is_divisor(d, g) <==> is_divisor(d, h) by {
        assert(is_divisor(d, g) <==> divides_all(d, s));
        assert(is_divisor(d, h) <==> divides_all(d, s));
    }
    lemma_same_divisors(g, h);
}

/// With a non-zero element in the sequence, the greatest common divisor is
/// positive, at most the absolute value of that element, divides every
/// element, and no common divisor is greater.
pub proof fn lemma_gcd_of_all_is_greatest(s: Seq<i64>, k: int)
    requires
        0 <= k < s.len(),
        s[k] != 0,
    ensures
        0 < gcd_of_all(s) <= magnitude(s[k] as int),
        divides_all(gcd_of_all(s), s),
        forall|d: int| divides_all(d, s) ==> d <= gcd_of_all(s),
{
    lemma_gcd_of_all_exists(s);
    let g = gcd_of_all(s);
    let big = magnitude(s[k] as int) + 1;
    if g == 0 {
        lemma_divisor_of_product(big, 0);
        assert(is_divisor(big, g));
        assert(divides_all(big, s));
        assert(is_divisor(big, s[k] as int));
        lemma_divisor_of_magnitude(big, s[k] as int);
        lemma_divisor_at_most(big, magnitude(s[k] as int));
    }
    lemma_divisor_of_product(g, 1);
    assert(is_divisor(g, g));
    assert(divides_all(g, s));
    assert(is_divisor(g, s[k] as int));
    lemma_divisor_of_magnitude(g, s[k] as int);
    lemma_divisor_at_most(g, magnitude(s[k] as int));
    assert forall|d: int| divides_all(d, s) implies d <= g by {
        assert(is_divisor(d, g));
        lemma_divisor_at_most(d, g);
    }
}

/// Appending an element intersects the common multiples with its multiples.
pub proof fn lemma_common_multiples_step(m: int, s: Seq<i64>, n: int, next: int)
    requires
        0 <= n < s.len(),
        has_common_multiples(m, s.take(n)),
        is_lcm(next, m, s[n] as int),
    ensures
        has_common_multiples(next, s.take(n + 1)),
{
    let before = s.take(n);
    let after = s.take(n + 1);
    assert forall|k: int| #[trigger] is_multiple(k, next) <==> multiple_of_all(k, after) by {
        assert(is_multiple(k, m) <==> multiple_of_all(k, before));
        assert(after[n] == s[n]);
        if multiple_of_all(k, after) {
            assert forall|j: int| 0 <= j < before.len() implies is_multiple(
                k,
                #[trigger] before[j] as int,
            ) by {
                assert(before[j] == after[j]);
            }
        }
        if is_multiple(k, next) {
            assert forall|j: int| 0 <= j < after.len() implies is_multiple(
                k,
                #[trigger] after[j] as int,
            ) by {
                if j < n {
                    assert(after[j] == before[j]);
                }
            }
        }
    }
}

/// Every prefix of a sequence has a least common multiple in the lattice
/// sense (one, for the empty prefix), positive if no element is zero.
pub proof fn lemma_common_multiples_exist(s: Seq<i64>, n: int) -> (m: int)
    requires
        0 <= n <= s.len(),
    ensures
        has_common_multiples(m, s.take(n)),
        (forall|j: int| 0 <= j < n ==> s[j] != 0) ==> m > 0,
    decreases n,
{
    if n == 0 {
        assert forall|k: int| #[trigger] is_multiple(k, 1) <==> multiple_of_all(k, s.take(0)) by {}
        1
    } else {
        let before = lemma_common_multiples_exist(s, n - 1);
        let m = lcm_of(before, s[n - 1] as int);
        lemma_lcm_exists(before, s[n - 1] as int);
        lemma_common_multiples_step(before, s, n - 1, m);
        if before != 0 && s[n - 1] != 0 {
            lemma_lcm_is_least(before, s[n - 1] as int);
        }
        m
    }
}

/// The least common multiple of a sequence exists and is `lcm_of_all`; it is
/// positive if the sequence is not empty and holds no zero.
pub proof fn lemma_lcm_of_all_exists(s: Seq<i64>)
    ensures
        is_lcm_of_all(lcm_of_all(s), s),
        s.len() > 0 && (forall|j: int| 0 <= j < s.len() ==> s[j] != 0) ==> lcm_of_all(s) > 0,
{
    if s.len() == 0 {
        assert(is_lcm_of_all(0, s));
    } else {
        let m = lemma_common_multiples_exist(s, s.len() as int);
        assert(s.take(s.len() as int) =~= s);
        assert(is_lcm_of_all(m, s));
        lemma_lcm_of_all_is(m, s);
    }
}

/// The least common multiple of a sequence is what a number with the
/// defining property of one is.
pub proof fn lemma_lcm_of_all_is(m: int, s: Seq<i64>)
    requires
        is_lcm_of_all(m, s),
    ensures
        m == lcm_of_all(s),
{
    let h = lcm_of_all(s);
    assert(is_lcm_of_all(h, s));
    if s.len() > 0 {
        assert forall|k: int| #[trigger] is_multiple(k, m) <==> is_multiple(k, h) by {
            assert(is_multiple(k, m) <==> multiple_of_all(k, s));
            assert(is_multiple(k, h) <==> multiple_of_all(k, s));
        }
        lemma_same_multiples(m, h);
    }
}

/// In a sequence that is not empty and holds no zero, the least common
/// multiple is positive, is a multiple of every element, and no positive
/// common multiple is smaller.
pub proof fn lemma_lcm_of_all_is_least(s: Seq<i64>)
    requires
        s.len() > 0,
        forall|j: int| 0 <= j < s.len() ==> s[j] != 0,
    ensures
        lcm_of_all(s) > 0,
        multiple_of_all(lcm_of_all(s), s),
        forall|k: int| k > 0 && multiple_of_all(k, s) ==> lcm_of_all(s) <= k,
{
    lemma_lcm_of_all_exists(s);
    let m = lcm_of_all(s);
    lemma_multiple_of_itself(m);
    assert(multiple_of_all(m, s));
    assert forall|k: int| k > 0 && multiple_of_all(k, s) implies m <= k by {
        assert(is_multiple(k, m));
        lemma_divisor_at_most(m, k);
    }
}

} // verus!
