use hyperiondb::number::normalize;

#[test]
fn whole_numbers_are_scaled_by_a_thousand() {
    assert_eq!(normalize("30"), Some(30_000));
    assert_eq!(normalize("0"), Some(0));
    assert_eq!(normalize("-7"), Some(-7_000));
    assert_eq!(normalize("+5"), Some(5_000));
    assert_eq!(normalize("007"), Some(7_000));
}

#[test]
fn fractions_keep_three_digits() {
    assert_eq!(normalize("2.5"), Some(2_500));
    assert_eq!(normalize("-2.5"), Some(-2_500));
    assert_eq!(normalize("1.001"), Some(1_001));
    assert_eq!(normalize("0.29"), Some(290));
    assert_eq!(normalize(".5"), Some(500));
    assert_eq!(normalize("5."), Some(5_000));
}

#[test]
fn further_digits_round_to_the_nearest() {
    assert_eq!(normalize("2.9999"), Some(3_000));
    assert_eq!(normalize("2.9994"), Some(2_999));
    assert_eq!(normalize("1.2345"), Some(1_235));
    assert_eq!(normalize("1.2344"), Some(1_234));
    assert_eq!(normalize("1.23449999999999999999999"), Some(1_234));
    assert_eq!(normalize("-1.2349"), Some(-1_235));
    assert_eq!(normalize("-1.2341"), Some(-1_234));
    assert_eq!(normalize("0.0009"), Some(1));
    assert_eq!(normalize("-0.0009"), Some(-1));
    assert_eq!(normalize("0.0004"), Some(0));
    assert_eq!(normalize("-0.0004"), Some(0));
    assert_eq!(normalize("0.9995"), Some(1_000));
    assert_eq!(normalize("99.9995"), Some(100_000));
}

#[test]
fn a_half_rounds_away_from_zero() {
    assert_eq!(normalize("0.0005"), Some(1));
    assert_eq!(normalize("-0.0005"), Some(-1));
    assert_eq!(normalize("0.0015"), Some(2));
    assert_eq!(normalize("0.0025"), Some(3));
    assert_eq!(normalize("-0.0025"), Some(-3));
    assert_eq!(normalize("0.00049999"), Some(0));
    assert_eq!(normalize("5e-4"), Some(1));
    assert_eq!(normalize("5e-5"), Some(0));
    assert_eq!(normalize("49e-5"), Some(0));
    assert_eq!(normalize("50e-5"), Some(1));
}

#[test]
fn exponents_move_the_point() {
    assert_eq!(normalize("1e3"), Some(1_000_000));
    assert_eq!(normalize("1.5E2"), Some(150_000));
    assert_eq!(normalize("1.5e+02"), Some(150_000));
    assert_eq!(normalize("1e-5"), Some(0));
    assert_eq!(normalize("12345e-2"), Some(123_450));
    assert_eq!(normalize("12345e-4"), Some(1_235));
    assert_eq!(normalize("12345e-7"), Some(1));
    assert_eq!(normalize("12345e-8"), Some(0));
    assert_eq!(normalize("99999e-8"), Some(1));
    assert_eq!(normalize("-5e0"), Some(-5_000));
}

#[test]
fn the_limits_of_the_range() {
    assert_eq!(normalize("9223372036854775.807"), Some(i64::MAX));
    assert_eq!(normalize("9223372036854775.808"), None);
    assert_eq!(normalize("-9223372036854775.808"), Some(i64::MIN));
    assert_eq!(normalize("-9223372036854775.809"), None);
    assert_eq!(normalize("9223372036854775.8074"), Some(i64::MAX));
    assert_eq!(normalize("9223372036854775.8075"), None);
    assert_eq!(normalize("-9223372036854775.8084"), Some(i64::MIN));
    assert_eq!(normalize("-9223372036854775.8085"), None);
    assert_eq!(normalize("1e16"), None);
    assert_eq!(normalize("9e15"), Some(9_000_000_000_000_000_000));
    assert_eq!(normalize("100000000000000000000000000000000000000"), None);
    assert_eq!(normalize("0.000000000000000000000000000000000000001"), Some(0));
}

#[test]
fn exponents_beyond_all_bounds() {
    assert_eq!(normalize("1e99999999999999999999999999999999999999"), None);
    assert_eq!(normalize("0e99999999999999999999999999999999999999"), Some(0));
    assert_eq!(normalize("0.000e99999999999999999999999999999999999999"), Some(0));
    assert_eq!(normalize("7e-99999999999999999999999999999999999999"), Some(0));
    assert_eq!(normalize("-7e-99999999999999999999999999999999999999"), Some(0));
}

#[test]
fn what_is_no_literal() {
    assert_eq!(normalize(""), None);
    assert_eq!(normalize("abc"), None);
    assert_eq!(normalize("."), None);
    assert_eq!(normalize("-"), None);
    assert_eq!(normalize("1e"), None);
    assert_eq!(normalize("1e+"), None);
    assert_eq!(normalize("e5"), None);
    assert_eq!(normalize("1.2.3"), None);
    assert_eq!(normalize("1 "), None);
    assert_eq!(normalize(" 1"), None);
    assert_eq!(normalize("1x"), None);
    assert_eq!(normalize("--1"), None);
    assert_eq!(normalize("inf"), None);
    assert_eq!(normalize("NaN"), None);
    assert_eq!(normalize("1e5x"), None);
    assert_eq!(normalize("0x10"), None);
}
