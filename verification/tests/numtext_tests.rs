use asch::numtext::{format_milli, read_angle, u64_to_string, AngleReading};

fn finite(s: &str) -> i64 {
    match read_angle(s) {
        Some(AngleReading::Finite(v)) => v,
        Some(AngleReading::OutOfRange) => panic!("out of range: {}", s),
        None => panic!("not a numeral: {}", s),
    }
}

#[test]
fn renders_decimal_numbers() {
    assert_eq!(u64_to_string(0).as_str(), "0");
    assert_eq!(u64_to_string(7).as_str(), "7");
    assert_eq!(u64_to_string(12345).as_str(), "12345");
}

#[test]
fn formats_three_decimals() {
    assert_eq!(format_milli(0).as_str(), "0.000");
    assert_eq!(format_milli(10_000).as_str(), "10.000");
    assert_eq!(format_milli(-105_000).as_str(), "-105.000");
    assert_eq!(format_milli(-250).as_str(), "-0.250");
    assert_eq!(format_milli(165_250).as_str(), "165.250");
}

#[test]
fn reads_plain_decimal_numerals() {
    assert_eq!(finite("10.020"), 100_200);
    assert_eq!(finite("-0.25"), -2_500);
    assert_eq!(finite("+3"), 30_000);
    assert_eq!(finite("3."), 30_000);
    assert_eq!(finite(".5"), 5_000);
    assert_eq!(finite("180"), 1_800_000);
    assert_eq!(finite("0"), 0);
    assert_eq!(finite("-0.0"), 0);
}

#[test]
fn rounds_past_the_fourth_decimal() {
    assert_eq!(finite("1.00005"), 10_001);
    assert_eq!(finite("1.000049"), 10_000);
    assert_eq!(finite("10.0495"), 100_495);
    assert_eq!(finite("9.9501"), 99_501);
}

#[test]
fn reads_exponent_forms() {
    assert_eq!(finite("1e5"), 1_000_000_000);
    assert_eq!(finite("1E2"), 1_000_000);
    assert_eq!(finite("1.5e-3"), 15);
    assert_eq!(finite("5e-3"), 50);
    assert_eq!(finite("12.34e1"), 1_234_000);
    assert_eq!(finite("5e-300"), 0);
    assert_eq!(finite("0e999999999999999999999999"), 0);
}

#[test]
fn large_and_nonfinite_values_read_as_out_of_range() {
    assert_eq!(read_angle("1e300"), Some(AngleReading::OutOfRange));
    assert_eq!(read_angle("12345678901234567890"), Some(AngleReading::OutOfRange));
    assert_eq!(read_angle("inf"), Some(AngleReading::OutOfRange));
    assert_eq!(read_angle("-inf"), Some(AngleReading::OutOfRange));
    assert_eq!(read_angle("Infinity"), Some(AngleReading::OutOfRange));
    assert_eq!(read_angle("NaN"), Some(AngleReading::OutOfRange));
}

#[test]
fn rejects_non_numerals() {
    assert_eq!(read_angle(""), None);
    assert_eq!(read_angle("."), None);
    assert_eq!(read_angle("-"), None);
    assert_eq!(read_angle("abc"), None);
    assert_eq!(read_angle("1.2.3"), None);
    assert_eq!(read_angle("5e"), None);
    assert_eq!(read_angle("5e+"), None);
    assert_eq!(read_angle("e5"), None);
    assert_eq!(read_angle("1.5 "), None);
}

#[test]
fn milli_round_trip_is_exact() {
    for m in [0i64, 1, -1, 250, -250, 10_020, -179_999, 165_000] {
        assert_eq!(read_angle(format_milli(m).as_str()), Some(AngleReading::Finite(m * 10)));
    }
}

#[test]
fn float_round_trip_within_half_milli() {
    for x in [0.0f64, 10.02, -0.2494, 123.4567, -179.9996, 165.0] {
        let written = format!("{:.3}", x);
        let read = finite(&written) as f64 / 10_000.0;
        assert!((read - x).abs() < 0.0005);
    }
}
