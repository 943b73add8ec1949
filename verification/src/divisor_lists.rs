//! Lists of all the divisors of a number, and how the list for a number
//! grows into the list for its product with a prime power.

use vstd::prelude::*;
use vstd::seq_lib::lemma_no_dup_in_concat;
use crate::divisibility::{
    is_divisor,
    lemma_coprime_divisor_of_product,
    lemma_divisor_cancelled,
    lemma_divisor_of_product,
    lemma_divisor_quotient,
    lemma_divisor_scaled,
    lemma_divisor_transitive,
};
use crate::factorization::{lemma_power_positive, power};
use crate::primality::{is_prime_number, lemma_prime_is_coprime};

verus! {

/// The numbers of `s` as mathematical integers.
pub open spec fn as_ints(s: Seq<i64>) -> Seq<int> {
    Seq::new(s.len(), |i: int| s[i] as int)
}

/// Each number of `s`, multiplied by `c`.
pub open spec fn scaled(s: Seq<int>, c: int) -> Seq<int> {
    Seq::new(s.len(), |i: int| s[i] * c)
}

/// The numbers of `s` multiplied by each of the first `rounds` powers of
/// `p`, from the power zero on, one power after the other.
pub open spec fn expanded(s: Seq<int>, p: int, rounds: nat) -> Seq<int>
    decreases rounds,
{
    if rounds == 0 {
        Seq::empty()
    } else {
        expanded(s, p, (rounds - 1) as nat) + scaled(s, power(p, (rounds - 1) as nat))
    }
}

/// `s` holds every positive divisor of `m`, each once, and nothing else.
pub open spec fn holds_divisors_of(s: Seq<int>, m: int) -> bool {
    s.no_duplicates() && forall|x: int| s.contains(x) <==> #[trigger] is_divisor(x, m)
}

/// `s` lists the positive divisors of `n`: all of them, in strictly
/// ascending order.
pub open spec fn lists_divisors(s: Seq<i64>, n: int) -> bool {
    &&& forall|i: int, j: int| 0 <= i < j < s.len() ==> s[i] < s[j]
    &&& forall|i: int| 0 <= i < s.len() ==> is_divisor(#[trigger] s[i] as int, n)
    &&& forall|d: int| #[trigger]
        is_divisor(d, n) ==> exists|i: int| 0 <= i < s.len() && #[trigger] s[i] == d
}

/// A divisor of `a * p^k` that the `k`-th power of the prime `p` does not
/// divide is a divisor of `a * p^(k - 1)` already.
pub proof fn lemma_divisor_lacking_power(x: int, a: int, p: int, k: nat)
    requires
        is_prime_number(p),
        k >= 1,
        is_divisor(x, a * power(p, k)),
        !is_divisor(power(p, k), x),
    ensures
        is_divisor(x, a * power(p, (k - 1) as nat)),
    decreases k,
{
    let lower = power(p, (k - 1) as nat);
    lemma_power_positive(p, (k - 1) as nat);
    assert(a * power(p, k) == (a * lower) * p) by (nonlinear_arith)
        requires
            power(p, k) == p * lower,
    ;
    if !is_divisor(p, x) {
        lemma_prime_is_coprime(p, x);
        lemma_coprime_divisor_of_product(x, a * lower, p);
    } else {
        lemma_divisor_quotient(p, x);
        let x1 = x / p;
        assert(x1 > 0) by (nonlinear_arith)
            requires
                x == p * x1,
                x > 0,
                p > 0,
        ;
        if k == 1 {
            assert(power(p, 1) == p) by {
                assert(power(p, 0) == 1);
                assert(p * 1 == p) by (nonlinear_arith);
            }
        } else {
            let lowest = power(p, (k - 2) as nat);
            lemma_power_positive(p, (k - 2) as nat);
            assert(x == x1 * p && (a * lower) * p == a * power(p, k)) by (nonlinear_arith)
                requires
                    x == p * x1,
                    a * power(p, k) == (a * lower) * p,
            ;
            lemma_divisor_cancelled(x1, a * lower, p);
            if is_divisor(lower, x1) {
                lemma_divisor_scaled(lower, x1, p);
                assert(lower * p == power(p, k)) by (nonlinear_arith)
                    requires
                        power(p, k) == p * lower,
                ;
            }
            lemma_divisor_lacking_power(x1, a, p, (k - 1) as nat);
            lemma_divisor_scaled(x1, a * lowest, p);
            assert((a * lowest) * p == a * lower) by (nonlinear_arith)
                requires
                    lower == p * lowest,
            ;
        }
    }
}

/// If `s` holds the divisors of `m` and the prime `p` does not divide `m`,
/// then `s`, expanded by the powers of `p` up to the exponent `e`, holds
/// the divisors of `m * p^e`.
pub proof fn lemma_expanded_holds_divisors(s: Seq<int>, m: int, p: int, e: nat)
    requires
        holds_divisors_of(s, m),
        m > 0,
        is_prime_number(p),
        !is_divisor(p, m),
    ensures
        holds_divisors_of(expanded(s, p, e + 1), m * power(p, e)),
    decreases e,
{
    let c = power(p, e);
    let target = m * c;
    let round = scaled(s, c);
    let all = expanded(s, p, e + 1);
    lemma_power_positive(p, e);
    if e == 0 {
        assert(expanded(s, p, 0) =~= Seq::<int>::empty());
        assert forall|i: int| 0 <= i < s.len() implies round[i] == s[i] by {
            assert(s[i] * 1 == s[i]) by (nonlinear_arith);
        }
        assert(all =~= s);
        assert(m * 1 == m) by (nonlinear_arith);
    } else {
        let lower = power(p, (e - 1) as nat);
        let before = expanded(s, p, e);
        let reached = m * lower;
        lemma_power_positive(p, (e - 1) as nat);
        lemma_expanded_holds_divisors(s, m, p, (e - 1) as nat);
        assert(target == reached * p && c == lower * p) by (nonlinear_arith)
            requires
                target == m * c,
                reached == m * lower,
                c == p * lower,
        ;
        assert(reached > 0) by (nonlinear_arith)
            requires
                reached == m * lower,
                m > 0,
                lower > 0,
        ;
        assert(all == before + round);
        assert forall|i: int| 0 <= i < round.len() implies is_divisor(
            s[i],
            m,
        ) && #[trigger] round[i] == s[i] * c && is_divisor(round[i], target) && !is_divisor(
            round[i],
            reached,
        ) by {
            assert(s.contains(s[i]));
            assert(is_divisor(s[i], m));
            lemma_divisor_scaled(s[i], m, c);
            if is_divisor(round[i], reached) {
                assert(s[i] * c == (s[i] * p) * lower) by (nonlinear_arith)
                    requires
                        c == lower * p,
                ;
                assert(s[i] * p > 0) by (nonlinear_arith)
                    requires
                        s[i] > 0,
                        p > 0,
                ;
                lemma_divisor_cancelled(s[i] * p, m, lower);
                lemma_divisor_of_product(p, s[i]);
                lemma_divisor_transitive(p, s[i] * p, m);
            }
        }
        assert(round.no_duplicates()) by {
            assert forall|i: int, j: int|
                0 <= i < round.len() && 0 <= j < round.len() && i != j implies round[i]
                != round[j] by {
                assert(s[i] != s[j]);
                assert(s[i] * c != s[j] * c) by (nonlinear_arith)
                    requires
                        s[i] != s[j],
                        c > 0,
                ;
            }
        }
        assert forall|i: int, j: int| 0 <= i < before.len() && 0 <= j < round.len() implies before[i]
            != round[j] by {
            assert(before.contains(before[i]));
        }
        lemma_no_dup_in_concat(before, round);
        assert forall|x: int| all.contains(x) <==> #[trigger] is_divisor(x, target) by {
            if all.contains(x) {
                let i = choose|i: int| 0 <= i < all.len() && all[i] == x;
                if i < before.len() {
                    assert(before.contains(x));
                    lemma_divisor_of_product(reached, p);
                    lemma_divisor_transitive(x, reached, target);
                } else {
                    assert(round[i - before.len()] == x);
                }
            }
            if is_divisor(x, target) {
                if is_divisor(c, x) {
                    lemma_divisor_quotient(c, x);
                    let y = x / c;
                    assert(y > 0) by (nonlinear_arith)
                        requires
                            x == c * y,
                            x > 0,
                            c > 0,
                    ;
                    assert(x == y * c) by (nonlinear_arith)
                        requires
                            x == c * y,
                    ;
                    lemma_divisor_cancelled(y, m, c);
                    assert(s.contains(y));
                    let j = choose|j: int| 0 <= j < s.len() && s[j] == y;
                    assert(round[j] == x);
                    assert(all[before.len() + j] == x);
                } else {
                    lemma_divisor_lacking_power(x, m, p, e);
                    assert(before.contains(x));
                    let i = choose|i: int| 0 <= i < before.len() && before[i] == x;
                    assert(all[i] == x);
                }
            }
        }
    }
}

/// The list of one alone holds the divisors of one.
pub proof fn lemma_one_holds_divisors_of_one()
    ensures
        holds_divisors_of(seq![1int], 1),
{
    let s = seq![1int];
    assert forall|x: int| s.contains(x) <==> #[trigger] is_divisor(x, 1) by {
        if is_divisor(x, 1) {
            crate::divisibility::lemma_divisor_at_most(x, 1);
            assert(s[0] == x);
        }
        if s.contains(x) {
            lemma_divisor_of_product(1, 1);
        }
    }
}

/// A rearrangement into non-descending order of a list that holds the
/// divisors of `n` lists the divisors of `n`.
pub proof fn lemma_sorted_holds_lists(before: Seq<i64>, after: Seq<i64>, n: int)
    requires
        holds_divisors_of(as_ints(before), n),
        after.to_multiset() == before.to_multiset(),
        forall|i: int, j: int| 0 <= i <= j < after.len() ==> after[i] <= after[j],
    ensures
        lists_divisors(after, n),
{
    broadcast use vstd::seq_lib::to_multiset_contains;

    let ints = as_ints(before);
    assert(before.no_duplicates()) by {
        assert forall|i: int, j: int|
            0 <= i < before.len() && 0 <= j < before.len() && i != j implies before[i]
            != before[j] by {
            assert(ints[i] != ints[j]);
        }
    }
    before.lemma_multiset_has_no_duplicates();
    after.lemma_multiset_has_no_duplicates_conv();
    assert forall|i: int| 0 <= i < after.len() implies is_divisor(#[trigger] after[i] as int, n) by {
        assert(after.contains(after[i]));
        assert(after.to_multiset().count(after[i]) > 0);
        assert(before.contains(after[i]));
        let j = choose|j: int| 0 <= j < before.len() && before[j] == after[i];
        assert(ints[j] == after[i] as int);
        assert(ints.contains(after[i] as int));
    }
    assert forall|d: int| #[trigger] is_divisor(d, n) implies exists|i: int|
        0 <= i < after.len() && #[trigger] after[i] == d by {
        assert(ints.contains(d));
        let j = choose|j: int| 0 <= j < ints.len() && ints[j] == d;
        assert(before.contains(before[j]));
        assert(before.to_multiset().count(before[j]) > 0);
        assert(after.contains(before[j]));
        let i = choose|i: int| 0 <= i < after.len() && after[i] == before[j];
        assert(after[i] == d);
    }
}

/// Two strictly ascending lists with the same elements are the same list.
pub proof fn lemma_ascending_lists_equal(s: Seq<i64>, t: Seq<i64>)
    requires
        forall|i: int, j: int| 0 <= i < j < s.len() ==> s[i] < s[j],
        forall|i: int, j: int| 0 <= i < j < t.len() ==> t[i] < t[j],
        forall|x: i64| s.contains(x) <==> t.contains(x),
    ensures
        s == t,
    decreases s.len(),
{
    if s.len() == 0 || t.len() == 0 {
        if s.len() > 0 {
            assert(s.contains(s[0]));
        }
        if t.len() > 0 {
            assert(t.contains(t[0]));
        }
        assert(s =~= t);
    } else {
        let a = s.last();
        let b = t.last();
        assert(s.contains(a)) by {
            assert(s[s.len() - 1] == a);
        }
        assert(t.contains(b)) by {
            assert(t[t.len() - 1] == b);
        }
        let ia = choose|i: int| 0 <= i < t.len() && t[i] == a;
        let ib = choose|i: int| 0 <= i < s.len() && s[i] == b;
        assert(a == b);
        let s0 = s.drop_last();
        let t0 = t.drop_last();
        assert forall|x: i64| s0.contains(x) <==> t0.contains(x) by {
            if s0.contains(x) {
                let i = choose|i: int| 0 <= i < s0.len() && s0[i] == x;
                assert(s[i] == x);
                assert(s.contains(x));
                let k = choose|k: int| 0 <= k < t.len() && t[k] == x;
                assert(t0[k] == x);
            }
            if t0.contains(x) {
                let i = choose|i: int| 0 <= i < t0.len() && t0[i] == x;
                assert(t[i] == x);
                assert(t.contains(x));
                let k = choose|k: int| 0 <= k < s.len() && s[k] == x;
                assert(s0[k] == x);
            }
        }
        lemma_ascending_lists_equal(s0, t0);
        assert(s =~= s0.push(a));
        assert(t =~= t0.push(b));
    }
}

/// A number has at most one list of divisors.
pub proof fn lemma_divisor_list_unique(s: Seq<i64>, t: Seq<i64>, n: int)
    requires
        lists_divisors(s, n),
        lists_divisors(t, n),
    ensures
        s == t,
{
    assert forall|x: i64| s.contains(x) <==> t.contains(x) by {
        if s.contains(x) {
            let i = choose|i: int| 0 <= i < s.len() && s[i] == x;
            assert(is_divisor(s[i] as int, n));
            let k = choose|k: int| 0 <= k < t.len() && t[k] == x as int;
            assert(t[k] == x);
        }
        if t.contains(x) {
            let i = choose|i: int| 0 <= i < t.len() && t[i] == x;
            assert(is_divisor(t[i] as int, n));
            let k = choose|k: int| 0 <= k < s.len() && s[k] == x as int;
            assert(s[k] == x);
        }
    }
    lemma_ascending_lists_equal(s, t);
}

} // verus!
