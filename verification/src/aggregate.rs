//! Aggregates over slices of 64-bit integers.

use vstd::prelude::*;

verus! {

/// The sum of all elements of `s`, as a mathematical integer.
pub open spec fn sum_of(s: Seq<i64>) -> int
    decreases s.len(),
{
    if s.len() == 0 {
        0
    } else {
        sum_of(s.drop_last()) + s.last()
    }
}

/// The product of all elements of `s`, as a mathematical integer.
pub open spec fn product_of(s: Seq<i64>) -> int
    decreases s.len(),
{
    if s.len() == 0 {
        1
    } else {
        product_of(s.drop_last()) * s.last()
    }
}

/// `m` occurs in `s` and no element of `s` is greater.
pub open spec fn is_max_of(s: Seq<i64>, m: i64) -> bool {
    s.contains(m) && forall|i: int| 0 <= i < s.len() ==> s[i] <= m
}

/// `m` occurs in `s` and no element of `s` is smaller.
pub open spec fn is_min_of(s: Seq<i64>, m: i64) -> bool {
    s.contains(m) && forall|i: int| 0 <= i < s.len() ==> s[i] >= m
}

/// The magnitude of a sum never exceeds the count of its terms times `2^63`.
proof fn lemma_sum_bounded(s: Seq<i64>)
    ensures
        -(s.len() * 0x8000_0000_0000_0000) <= sum_of(s) <= s.len() * 0x8000_0000_0000_0000,
    decreases s.len(),
{
    if s.len() > 0 {
        lemma_sum_bounded(s.drop_last());
    }
}

/// A sequence with a zero among its elements has product zero.
proof fn lemma_product_with_zero(s: Seq<i64>, k: int)
    requires
        0 <= k < s.len(),
        s[k] == 0,
    ensures
        product_of(s) == 0,
    decreases s.len(),
{
    if k < s.len() - 1 {
        lemma_product_with_zero(s.drop_last(), k);
        assert(product_of(s.drop_last()) * s.last() == 0) by (nonlinear_arith)
            requires
                product_of(s.drop_last()) == 0,
        ;
    } else {
        assert(product_of(s.drop_last()) * s.last() == 0) by (nonlinear_arith)
            requires
                s.last() == 0,
        ;
    }
}

/// Without a zero among the elements, the magnitude of the product of a
/// prefix never exceeds the magnitude of the whole product.
proof fn lemma_product_prefix_bounded(s: Seq<i64>, n: int)
    requires
        0 <= n <= s.len(),
        forall|j: int| 0 <= j < s.len() ==> s[j] != 0,
    ensures
        product_of(s.take(n)) != 0,
        product_of(s) >= 0 ==> -product_of(s) <= product_of(s.take(n)) <= product_of(s),
        product_of(s) <= 0 ==> product_of(s) <= product_of(s.take(n)) <= -product_of(s),
    decreases s.len() - n,
{
    if n == s.len() {
        assert(s.take(n) =~= s);
        lemma_product_nonzero(s);
    } else {
        lemma_product_prefix_bounded(s, n + 1);
        let t = s.take(n + 1);
        assert(t.drop_last() =~= s.take(n));
        assert(t.last() == s[n]);
        let p = product_of(s.take(n));
        let v = s[n] as int;
        assert(product_of(t) == p * v);
        assert(p != 0 && -(p * v) <= p <= p * v || p != 0 && p * v <= p <= -(p * v))
            by (nonlinear_arith)
            requires
                p * v != 0,
                v != 0,
        ;
    }
}

/// Without a zero among the elements, the product is not zero.
proof fn lemma_product_nonzero(s: Seq<i64>)
    requires
        forall|j: int| 0 <= j < s.len() ==> s[j] != 0,
    ensures
        product_of(s) != 0,
    decreases s.len(),
{
    if s.len() > 0 {
        lemma_product_nonzero(s.drop_last());
        let p = product_of(s.drop_last());
        let v = s.last() as int;
        assert(p * v != 0) by (nonlinear_arith)
            requires
                p != 0,
                v != 0,
        ;
    }
}

/// The sum of the elements; zero for an empty slice.
///
/// Defined whenever the sum itself fits in an `i64`, whatever the partial
/// sums do on the way.
pub fn sum_i64(values: &[i64]) -> (r: i64)
    requires
        i64::MIN <= sum_of(values@) <= i64::MAX,
    ensures
        r == sum_of(values@),
{
    let mut acc: i128 = 0;
    let mut i: usize = 0;
    while i < values.len()
        invariant
            0 <= i <= values.len(),
            acc == sum_of(values@.take(i as int)),
        decreases values.len() - i,
    {
        proof {
            lemma_sum_bounded(values@.take(i as int));
            let t = values@.take(i + 1);
            assert(t.drop_last() =~= values@.take(i as int));
            assert(t.last() == values@[i as int]);
        }
        acc = acc + values[i] as i128;
        i += 1;
    }
    assert(values@.take(i as int) =~= values@);
    acc as i64
}

/// The product of the elements; one for an empty slice.
///
/// Defined whenever the product itself fits in an `i64`, whatever the
/// partial products do on the way.
pub fn product_i64(values: &[i64]) -> (r: i64)
    requires
        i64::MIN <= product_of(values@) <= i64::MAX,
    ensures
        r == product_of(values@),
{
    let mut k: usize = 0;
    while k < values.len()
        invariant
            0 <= k <= values.len(),
            forall|j: int| 0 <= j < k ==> values@[j] != 0,
        decreases values.len() - k,
    {
        if values[k] == 0 {
            proof {
                lemma_product_with_zero(values@, k as int);
            }
            return 0;
        }
        k += 1;
    }
    let mut acc: i128 = 1;
    let mut i: usize = 0;
    while i < values.len()
        invariant
            0 <= i <= values.len(),
            forall|j: int| 0 <= j < values.len() ==> values@[j] != 0,
            i64::MIN <= product_of(values@) <= i64::MAX,
            acc == product_of(values@.take(i as int)),
        decreases values.len() - i,
    {
        let v: i128 = values[i] as i128;
        proof {
            lemma_product_prefix_bounded(values@, i as int);
            lemma_product_prefix_bounded(values@, i + 1);
            let t = values@.take(i + 1);
            assert(t.drop_last() =~= values@.take(i as int));
            assert(t.last() == values@[i as int]);
            assert(-0x4000_0000_0000_0000_0000_0000_0000_0000 <= acc * v
                <= 0x4000_0000_0000_0000_0000_0000_0000_0000) by (nonlinear_arith)
                requires
                    -0x8000_0000_0000_0000 <= acc <= 0x8000_0000_0000_0000,
                    -0x8000_0000_0000_0000 <= v <= 0x8000_0000_0000_0000,
            ;
        }
        acc = acc * v;
        i += 1;
    }
    assert(values@.take(i as int) =~= values@);
    acc as i64
}

/// The largest element, or `None` for an empty slice.
pub fn max_i64(values: &[i64]) -> (r: Option<i64>)
    ensures
        values@.len() == 0 <==> r.is_none(),
        r.is_some() ==> is_max_of(values@, r.unwrap()),
{
    if values.len() == 0 {
        return None;
    }
    let mut best: i64 = values[0];
    let mut i: usize = 1;
    while i < values.len()
        invariant
            1 <= i <= values.len(),
            values@.contains(best),
            forall|j: int| 0 <= j < i ==> values@[j] <= best,
        decreases values.len() - i,
    {
        if values[i] > best {
            best = values[i];
        }
        i += 1;
    }
    Some(best)
}

/// The smallest element, or `None` for an empty slice.
pub fn min_i64(values: &[i64]) -> (r: Option<i64>)
    ensures
        values@.len() == 0 <==> r.is_none(),
        r.is_some() ==> is_min_of(values@, r.unwrap()),
{
    if values.len() == 0 {
        return None;
    }
    let mut best: i64 = values[0];
    let mut i: usize = 1;
    while i < values.len()
        invariant
            1 <= i <= values.len(),
            values@.contains(best),
            forall|j: int| 0 <= j < i ==> values@[j] >= best,
        decreases values.len() - i,
    {
        if values[i] < best {
            best = values[i];
        }
        i += 1;
    }
    Some(best)
}

} // verus!
