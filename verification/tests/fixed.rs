//! Fixed-point arithmetic.

use publet::eval::Fixed6;

#[test]
fn mul_div_keeps_the_scale() {
    let two = Fixed6::from_integer(2);
    let three = Fixed6::from_integer(3);
    assert_eq!(two.mul_div(two, three).to_string(), "1.333333");
    let small = Fixed6::from_scaled(3);
    assert_eq!(
        small.mul_div(Fixed6::from_integer(1000), Fixed6::from_integer(3)),
        Fixed6::from_scaled(1000)
    );
}

#[test]
fn truncates_toward_zero_rather_than_rounding() {
    let one = Fixed6::one();
    let three = Fixed6::from_integer(3);
    assert_eq!(one.ratio(three).to_string(), "0.333333");
    let two = Fixed6::from_integer(2);
    assert_eq!(two.ratio(three).to_string(), "0.666666");
}

#[test]
fn division_by_zero_yields_zero() {
    assert_eq!(Fixed6::one().ratio(Fixed6::zero()), Fixed6::zero());
    assert_eq!(Fixed6::one().mul_div(Fixed6::one(), Fixed6::zero()), Fixed6::zero());
}

#[test]
fn display_is_stable_to_six_places() {
    assert_eq!(Fixed6::zero().to_string(), "0.000000");
    assert_eq!(Fixed6::one().to_string(), "1.000000");
    assert_eq!(Fixed6::from_scaled(1).to_string(), "0.000001");
    assert_eq!(Fixed6::from_scaled(-1).to_string(), "-0.000001");
}

#[test]
fn halving_is_exact_on_whole_periods() {
    let one = Fixed6::one();
    assert_eq!(one.halve_fractional(0, 10), one);
    assert_eq!(one.halve_fractional(10, 10).to_string(), "0.500000");
    assert_eq!(one.halve_fractional(20, 10).to_string(), "0.250000");
    assert_eq!(one.halve_fractional(1000, 10), Fixed6::zero());
}

#[test]
fn addition_saturates_rather_than_wrapping() {
    let big = Fixed6::from_scaled(i128::MAX);
    assert_eq!(big + big, Fixed6::from_scaled(i128::MAX));
}

#[test]
fn subtraction_saturates_at_the_lower_end() {
    let low = Fixed6::from_scaled(i128::MIN);
    assert_eq!(low - Fixed6::one(), Fixed6::from_scaled(i128::MIN));
}

#[test]
fn halving_interpolates_within_a_period() {
    // Half a period: 1 - 0.5 * 0.5 = 0.75 by linear interpolation.
    assert_eq!(Fixed6::one().halve_fractional(5, 10).to_string(), "0.750000");
}

#[test]
fn the_smaller_value_is_kept() {
    let a = Fixed6::from_integer(2);
    let b = Fixed6::from_scaled(-5);
    assert_eq!(a.min(b), b);
    assert!(Fixed6::zero().is_zero());
    assert_eq!(Fixed6::from_integer(3).times(Fixed6::from_scaled(500_000)).to_string(), "1.500000");
}

#[test]
fn an_older_weight_decays_to_no_more() {
    let v = Fixed6::from_integer(800);
    let mut previous = v;
    for age in 0..40u64 {
        let now = v.halve_fractional(age, 7);
        assert!(now.to_scaled() <= previous.to_scaled(), "age {age}");
        previous = now;
    }
    assert_eq!(v.halve_fractional(7, 7), Fixed6::from_integer(400));
}
