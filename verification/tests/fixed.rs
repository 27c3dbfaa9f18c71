use particle_life::fixed::{
    difference, root_above_of, saturate, sum, times, widen_product, LIMIT, UNIT,
};

#[test]
fn unit_is_a_million_and_limit_a_million_units() {
    assert_eq!(UNIT, 1_000_000);
    assert_eq!(LIMIT, 1_000_000 * UNIT);
}

#[test]
fn saturate_holds_within_the_limit() {
    assert_eq!(saturate(0), 0);
    assert_eq!(saturate(LIMIT as i128), LIMIT);
    assert_eq!(saturate(LIMIT as i128 + 1), LIMIT);
    assert_eq!(saturate(-(LIMIT as i128) - 1), -LIMIT);
    assert_eq!(saturate(i128::MAX), LIMIT);
    assert_eq!(saturate(i128::MIN), -LIMIT);
    assert_eq!(saturate(-123), -123);
}

#[test]
fn sum_and_difference_saturate() {
    assert_eq!(sum(1_500_000, 2_250_000), 3_750_000);
    assert_eq!(sum(LIMIT, 1), LIMIT);
    assert_eq!(sum(i64::MAX, i64::MAX), LIMIT);
    assert_eq!(difference(1_000_000, 3_000_000), -2_000_000);
    assert_eq!(difference(-LIMIT, 1), -LIMIT);
    assert_eq!(difference(i64::MIN, i64::MAX), -LIMIT);
}

#[test]
fn times_cuts_toward_zero() {
    assert_eq!(times(2 * UNIT, 3 * UNIT), 6 * UNIT);
    assert_eq!(times(1_500_000, 500_000), 750_000);
    assert_eq!(times(1, 1), 0);
    assert_eq!(times(-1, 1), 0);
    assert_eq!(times(-1_500_000, 1), -1);
    assert_eq!(times(1_500_000, -1), -1);
    assert_eq!(times(LIMIT, LIMIT), LIMIT);
    assert_eq!(times(-LIMIT, LIMIT), -LIMIT);
    assert_eq!(times(i64::MIN, i64::MIN), LIMIT);
}

#[test]
fn widen_product_is_exact() {
    assert_eq!(widen_product(i64::MAX as i128, i64::MAX as i128), (i64::MAX as i128) * (i64::MAX as i128));
    assert_eq!(widen_product(-3, 7), -21);
}

#[test]
fn root_above_rounds_up() {
    assert_eq!(root_above_of(0), 0);
    assert_eq!(root_above_of(1), 1);
    assert_eq!(root_above_of(2), 2);
    assert_eq!(root_above_of(4), 2);
    assert_eq!(root_above_of(5), 3);
    assert_eq!(root_above_of(9), 3);
    assert_eq!(root_above_of(10), 4);
    assert_eq!(root_above_of(250_000_000_000_000_000_000_000), 500_000_000_000);
    assert_eq!(root_above_of(1_000_000_000_000_000_000_000_000), 1_000_000_000_000);
    assert_eq!(root_above_of(999_999_999_999_999_999_999_999), 1_000_000_000_000);
}
