use t3d::number::{parse_coordinate, parse_index};

fn chars(s: &str) -> Vec<char> {
    s.chars().collect()
}

fn coordinate(s: &str) -> Option<i64> {
    parse_coordinate(&chars(s))
}

#[test]
fn whole_numbers_are_scaled_to_millionths() {
    assert_eq!(coordinate("0"), Some(0));
    assert_eq!(coordinate("1"), Some(1_000_000));
    assert_eq!(coordinate("-17"), Some(-17_000_000));
    assert_eq!(coordinate("+3"), Some(3_000_000));
    assert_eq!(coordinate("007"), Some(7_000_000));
}

#[test]
fn fractions_keep_six_places() {
    assert_eq!(coordinate("1.5"), Some(1_500_000));
    assert_eq!(coordinate("-0.25"), Some(-250_000));
    assert_eq!(coordinate(".5"), Some(500_000));
    assert_eq!(coordinate("2."), Some(2_000_000));
    assert_eq!(coordinate("0.000001"), Some(1));
    assert_eq!(coordinate("3.1415926535"), Some(3_141_592));
}

#[test]
fn further_places_are_cut_off_towards_zero() {
    assert_eq!(coordinate("0.9999999"), Some(999_999));
    assert_eq!(coordinate("-0.9999999"), Some(-999_999));
    assert_eq!(coordinate("0.0000009"), Some(0));
    assert_eq!(coordinate("-0.0000009"), Some(0));
}

#[test]
fn exponent_moves_the_point() {
    assert_eq!(coordinate("1e3"), Some(1_000_000_000));
    assert_eq!(coordinate("1.5E+2"), Some(150_000_000));
    assert_eq!(coordinate("25e-1"), Some(2_500_000));
    assert_eq!(coordinate("-4.371139e-08"), Some(0));
    assert_eq!(coordinate("1234567e-9"), Some(1_234));
    assert_eq!(coordinate("0.5e1"), Some(5_000_000));
    assert_eq!(coordinate("1e-6"), Some(1));
    assert_eq!(coordinate("1e-7"), Some(0));
}

#[test]
fn zero_stays_zero_under_any_exponent() {
    assert_eq!(coordinate("0e99999999999999999999999999999999999999999"), Some(0));
    assert_eq!(coordinate("0.000e-99999999999999999999999999999999999999"), Some(0));
    assert_eq!(coordinate("1e-99999999999999999999999999999999999999999"), Some(0));
}

#[test]
fn coordinate_beyond_the_range_is_refused() {
    assert_eq!(coordinate("9223372036854.775807"), Some(i64::MAX));
    assert_eq!(coordinate("-9223372036854.775807"), Some(-i64::MAX));
    assert_eq!(coordinate("9223372036854.775808"), None);
    assert_eq!(coordinate("1e13"), None);
    assert_eq!(coordinate("1e99999999999999999999999999999999999999999"), None);
    assert_eq!(coordinate("100000000000000000000000000000"), None);
}

#[test]
fn what_is_no_decimal_number_is_refused() {
    for s in ["", "+", "-", ".", "e5", "1e", "1e+", "1e-", "1.2.3", "1,5", "0x10", "1 ", " 1", "inf",
        "nan", "infinity", "1f", "--1", "1e5.0", "1_000"]
    {
        assert_eq!(coordinate(s), None, "{:?}", s);
    }
}

#[test]
fn index_is_digits_with_an_optional_plus() {
    assert_eq!(parse_index(&chars("0")), Some(0));
    assert_eq!(parse_index(&chars("42")), Some(42));
    assert_eq!(parse_index(&chars("+42")), Some(42));
    assert_eq!(parse_index(&chars("0042")), Some(42));
    assert_eq!(parse_index(&chars(&usize::MAX.to_string())), Some(usize::MAX));
}

#[test]
fn what_is_no_index_is_refused() {
    for s in ["", "+", "-1", "1.0", "1e3", "a", "1a", " 1", "++1"] {
        assert_eq!(parse_index(&chars(s)), None, "{:?}", s);
    }
    let beyond = format!("{}0", usize::MAX);
    assert_eq!(parse_index(&chars(&beyond)), None);
    let next = (usize::MAX as u128 + 1).to_string();
    assert_eq!(parse_index(&chars(&next)), None);
}
