use rmath::aggregate::{max_i64, min_i64, product_i64, sum_i64};

#[test]
fn test_integer_functions() {
    assert_eq!(sum_i64(&[1, 2, 3, 4]), 10);
    assert_eq!(product_i64(&[2, 3, 4]), 24);
    assert_eq!(product_i64(&[]), 1);

    assert_eq!(max_i64(&[1, 5, 3, 2]), Some(5));
    assert_eq!(min_i64(&[1, 5, 3, 2]), Some(1));
    assert_eq!(max_i64(&[]), None);
    assert_eq!(min_i64(&[]), None);
}

#[test]
fn sum_of_nothing_is_zero() {
    assert_eq!(sum_i64(&[]), 0);
    assert_eq!(sum_i64(&[-7]), -7);
}

#[test]
fn sum_passes_through_values_that_do_not_fit() {
    assert_eq!(sum_i64(&[i64::MAX, i64::MAX, i64::MIN, i64::MIN]), -2);
    assert_eq!(sum_i64(&[i64::MAX, 1, -1]), i64::MAX);
    assert_eq!(sum_i64(&[i64::MIN, -1, 1]), i64::MIN);
}

#[test]
fn product_with_a_zero_is_zero() {
    assert_eq!(product_i64(&[i64::MAX, i64::MAX, 0]), 0);
    assert_eq!(product_i64(&[0]), 0);
    assert_eq!(product_i64(&[0, i64::MIN, i64::MIN]), 0);
}

#[test]
fn product_reaches_both_ends_of_the_range() {
    assert_eq!(product_i64(&[i64::MIN, -1, -1]), i64::MIN);
    assert_eq!(product_i64(&[-1, i64::MAX]), -i64::MAX);
    assert_eq!(product_i64(&[1 << 31, 1 << 31, -2]), i64::MIN);
    assert_eq!(product_i64(&[-3, -5, 7]), 105);
}

#[test]
fn extremes_of_one_and_of_equal_elements() {
    assert_eq!(max_i64(&[-4]), Some(-4));
    assert_eq!(min_i64(&[-4]), Some(-4));
    assert_eq!(max_i64(&[3, 3, 3]), Some(3));
    assert_eq!(min_i64(&[3, 3, 3]), Some(3));
    assert_eq!(max_i64(&[i64::MIN, i64::MAX, 0]), Some(i64::MAX));
    assert_eq!(min_i64(&[i64::MIN, i64::MAX, 0]), Some(i64::MIN));
}
