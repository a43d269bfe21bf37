use bench_average::decimal::{format_number, measure, parse_number, Magnitude};

/// The reading in millionths.
fn micro(text: &str) -> Option<i64> {
    parse_number(text, -6)
}

/// The text of a number of millionths.
fn text_of(millionths: i64) -> String {
    format_number(millionths, -6)
}

#[test]
fn whole_numbers_are_millions_of_millionths() {
    assert_eq!(micro("0"), Some(0));
    assert_eq!(micro("7"), Some(7_000_000));
    assert_eq!(micro("1600"), Some(1_600_000_000));
    assert_eq!(micro("007"), Some(7_000_000));
}

#[test]
fn fractions_weigh_by_their_place() {
    assert_eq!(micro("12.5"), Some(12_500_000));
    assert_eq!(micro("0.000001"), Some(1));
    assert_eq!(micro("2417.523438"), Some(2_417_523_438));
    assert_eq!(micro("3.14"), Some(3_140_000));
}

#[test]
fn point_may_stand_first_or_last() {
    assert_eq!(micro(".5"), Some(500_000));
    assert_eq!(micro("5."), Some(5_000_000));
    assert_eq!(micro("-.25"), Some(-250_000));
}

#[test]
fn signs_are_read() {
    assert_eq!(micro("-3.5"), Some(-3_500_000));
    assert_eq!(micro("+3.5"), Some(3_500_000));
    assert_eq!(micro("-0"), Some(0));
}

#[test]
fn the_unit_is_the_callers() {
    assert_eq!(parse_number("1.5", -17), Some(150_000_000_000_000_000));
    assert_eq!(parse_number("1.5", -1), Some(15));
    assert_eq!(parse_number("1.5", 0), Some(1));
    assert_eq!(parse_number("-1.5", 0), Some(-1));
    assert_eq!(parse_number("1.5", 1), Some(0));
    assert_eq!(parse_number("15e3", 3), Some(15));
    assert_eq!(parse_number("1e13", -4), Some(100_000_000_000_000_000));
    assert_eq!(parse_number("3.4028235e38", 21), Some(340_282_350_000_000_000));
    assert_eq!(parse_number("1e-40", -57), Some(100_000_000_000_000_000));
    assert_eq!(parse_number("1e300", 283), Some(100_000_000_000_000_000));
    assert_eq!(parse_number("12345", i64::MAX), Some(0));
    assert_eq!(parse_number("0", i64::MIN), Some(0));
}

#[test]
fn what_lies_below_the_unit_is_cut_off() {
    assert_eq!(micro("1.2345678"), Some(1_234_567));
    assert_eq!(micro("0.9999999"), Some(999_999));
    assert_eq!(micro("-0.0000009"), Some(0));
    assert_eq!(micro("1e-7"), Some(0));
    assert_eq!(micro("123456789e-9"), Some(123_456));
    assert_eq!(parse_number("1e-7", -7), Some(1));
    assert_eq!(parse_number("123456789e-9", -9), Some(123_456_789));
}

#[test]
fn text_that_is_no_number_is_refused() {
    for text in ["", ".", "+", "-", "+.", "N/A", "abc", "1.2.3", "1,5", " 1", "1 ", "--1", "+-1",
        "0x10", "1_000", "1.5x", "x1.5", "\u{ff11}", "1\u{660}", "1\u{e9}3"]
    {
        assert_eq!(micro(text), None, "{text:?}");
        assert_eq!(measure(text), None, "{text:?}");
    }
}

#[test]
fn values_that_are_no_finite_number_are_refused() {
    for text in ["NaN", "nan", "inf", "+inf", "-inf", "infinity", "Infinity", "-INF"] {
        assert_eq!(micro(text), None, "{text:?}");
        assert_eq!(measure(text), None, "{text:?}");
    }
}

#[test]
fn malformed_exponents_are_refused() {
    for text in ["e3", "E3", "1e", "1E", "1e+", "1e-", ".e3", "+e1", "1e3.5", "1e 3", "1ee3",
        "1e3e3", "e", "1.e", "1e++3", "1e+-3", "1e3 ", "1e3x", "1e\u{663}"]
    {
        assert_eq!(micro(text), None, "{text:?}");
        assert_eq!(measure(text), None, "{text:?}");
    }
}

#[test]
fn too_many_units_do_not_fit() {
    assert_eq!(micro("9223372036854.775807"), Some(i64::MAX));
    assert_eq!(micro("-9223372036854.775807"), Some(-i64::MAX));
    assert_eq!(micro("9223372036854.775808"), None);
    assert_eq!(micro("-9223372036854.775808"), None);
    assert_eq!(micro("1e13"), None);
    assert_eq!(parse_number("1e13", -5), Some(1_000_000_000_000_000_000));
    assert_eq!(micro("99999999999999999999999999999999999999999999"), None);
    assert_eq!(micro("00000000000000000000000000000000000000000001"), Some(1_000_000));
    assert_eq!(micro("9223372036854775807e-6"), Some(i64::MAX));
    assert_eq!(micro("9223372036854775808e-6"), None);
    assert_eq!(micro("0.0000009223372036854775807e19"), Some(i64::MAX));
}

#[test]
fn exponents_move_the_point() {
    assert_eq!(micro("1e3"), Some(1_000_000_000));
    assert_eq!(micro("1E3"), Some(1_000_000_000));
    assert_eq!(micro("1e+3"), Some(1_000_000_000));
    assert_eq!(micro("1.5e3"), Some(1_500_000_000));
    assert_eq!(micro("-1.5e3"), Some(-1_500_000_000));
    assert_eq!(micro("15e-1"), Some(1_500_000));
    assert_eq!(micro("1e0"), Some(1_000_000));
    assert_eq!(micro("1e-0"), Some(1_000_000));
    assert_eq!(micro("1e-6"), Some(1));
    assert_eq!(micro(".5e1"), Some(5_000_000));
    assert_eq!(micro("5.e1"), Some(50_000_000));
    assert_eq!(micro("2.5e-01"), Some(250_000));
    assert_eq!(micro("1e000000000000000000000000000000003"), Some(1_000_000_000));
    assert_eq!(micro("1000000000000000000000000000000e-30"), Some(1_000_000));
    assert_eq!(micro("0.000000000000000000000000000001e30"), Some(1_000_000));
}

#[test]
fn readings_are_measured_by_their_first_digit() {
    assert_eq!(measure("0"), Some(Magnitude::Zero));
    assert_eq!(measure("-0.000"), Some(Magnitude::Zero));
    assert_eq!(measure("0e5"), Some(Magnitude::Zero));
    assert_eq!(measure("1"), Some(Magnitude::Order(0)));
    assert_eq!(measure("9.99"), Some(Magnitude::Order(0)));
    assert_eq!(measure("10"), Some(Magnitude::Order(1)));
    assert_eq!(measure("007"), Some(Magnitude::Order(0)));
    assert_eq!(measure("-2417.52"), Some(Magnitude::Order(3)));
    assert_eq!(measure("0.001"), Some(Magnitude::Order(-3)));
    assert_eq!(measure(".5"), Some(Magnitude::Order(-1)));
    assert_eq!(measure("1e13"), Some(Magnitude::Order(13)));
    assert_eq!(measure("12.5e-7"), Some(Magnitude::Order(-6)));
    assert_eq!(measure("3.4028235e38"), Some(Magnitude::Order(38)));
    assert_eq!(measure("1.7976931348623157e308"), Some(Magnitude::Order(308)));
    assert_eq!(measure("5e-324"), Some(Magnitude::Order(-324)));
}

#[test]
fn readings_keep_within_the_order_bound() {
    assert_eq!(measure("1e1000000000000000000"), Some(Magnitude::Order(1_000_000_000_000_000_000)));
    assert_eq!(measure("1e1000000000000000001"), None);
    assert_eq!(measure("10e1000000000000000000"), None);
    assert_eq!(measure("1e-1000000000000000000"), Some(Magnitude::Order(-1_000_000_000_000_000_000)));
    assert_eq!(measure("1e-1000000000000000001"), None);
    assert_eq!(measure("0.1e-1000000000000000000"), None);
    assert_eq!(measure("1e99999999999999999999999999999999"), None);
    assert_eq!(measure("1e-99999999999999999999999999999999"), None);
    assert_eq!(micro("1e99999999999999999999999999999999"), None);
    assert_eq!(micro("1e-99999999999999999999999999999999"), None);
    assert_eq!(measure("0e99999999999999999999999999999999"), Some(Magnitude::Zero));
    assert_eq!(micro("0e99999999999999999999999999999999"), Some(0));
    assert_eq!(micro("0.000e-99999999999999999999999999999999"), Some(0));
}

#[test]
fn numbers_are_written_without_padding() {
    assert_eq!(text_of(0), "0");
    assert_eq!(text_of(1_000_000), "1");
    assert_eq!(text_of(70_000_000), "70");
    assert_eq!(text_of(1_500_000), "1.5");
    assert_eq!(text_of(1_050_000), "1.05");
    assert_eq!(text_of(1), "0.000001");
    assert_eq!(text_of(100_000), "0.1");
    assert_eq!(text_of(123_456_789), "123.456789");
    assert_eq!(text_of(10_000_010), "10.00001");
}

#[test]
fn negative_numbers_are_written_with_a_minus() {
    assert_eq!(text_of(-1), "-0.000001");
    assert_eq!(text_of(-1_500_000), "-1.5");
    assert_eq!(text_of(-70_000_000), "-70");
}

#[test]
fn extremes_are_written() {
    assert_eq!(text_of(i64::MAX), "9223372036854.775807");
    assert_eq!(text_of(-i64::MAX), "-9223372036854.775807");
    assert_eq!(text_of(i64::MIN), "-9223372036854.775808");
    assert_eq!(format_number(i64::MIN, i64::MIN), "-9223372036854775808e-9223372036854775808");
    assert_eq!(format_number(i64::MAX, i64::MAX), "9223372036854775807e9223372036854775807");
}

#[test]
fn units_of_one_and_of_fractions_are_written_plainly() {
    assert_eq!(format_number(15, 0), "15");
    assert_eq!(format_number(-15, 0), "-15");
    assert_eq!(format_number(15, -1), "1.5");
    assert_eq!(format_number(700_000_000_000_000_000, -16), "70");
    assert_eq!(format_number(133_333_333_333_333_333, -17), "1.33333333333333333");
    assert_eq!(format_number(123, -30), "0.000000000000000000000000000123");
    assert_eq!(format_number(1_000, -30), "0.000000000000000000000000001");
    assert_eq!(format_number(0, -30), "0");
}

#[test]
fn other_units_are_written_as_a_power_of_ten() {
    assert_eq!(format_number(15, 3), "15e3");
    assert_eq!(format_number(5, 1), "5e1");
    assert_eq!(format_number(-15, -31), "-15e-31");
    assert_eq!(format_number(200_000_000_000_000_000, 13), "200000000000000000e13");
    assert_eq!(format_number(0, 500), "0");
    assert_eq!(format_number(0, -500), "0");
}

#[test]
fn written_numbers_read_back() {
    let mut samples = vec![0, 1, -1, 9, 10, 999_999, 1_000_000, 1_000_001, i64::MAX, -i64::MAX];
    let mut x: i64 = 1;
    for _ in 0..60 {
        x = x.wrapping_mul(6_364_136_223_846_793_005).wrapping_add(1_442_695_040_888_963_407);
        if x != i64::MIN {
            samples.push(x);
            samples.push(x % 1_000_000_000);
        }
    }
    for unit in [-1_000_000_000_000_000_000, -400, -31, -30, -29, -17, -6, -1, 0, 1, 2, 30, 400,
        999_999_999_999_999_000]
    {
        for &units in &samples {
            let text = format_number(units, unit);
            assert_eq!(parse_number(&text, unit), Some(units), "{units} {unit} {text}");
        }
    }
}

#[test]
fn written_numbers_read_as_floating_point() {
    for (units, unit, expected) in [
        (70_000_000, -6, 70.0),
        (1_500_000, -6, 1.5),
        (-250_000, -6, -0.25),
        (1, -6, 0.000001),
        (200_000_000_000_000_000, 13, 2e30),
        (200_000_000_000_000_000, -37, 2e-20),
        (-15, -31, -1.5e-30),
        (100_000_000_000_000_000, 283, 1e300),
    ] {
        let read: f64 = format_number(units, unit).parse().unwrap();
        assert!((read - expected).abs() <= 1e-15 * expected.abs(), "{units} {unit}");
    }
}

#[test]
fn readings_agree_with_floating_point_where_both_are_exact() {
    for text in ["0", "1", "61", "1935", "0.5", "2.25", "-7.125", "1e3", "2.5e-1", "+.5", "4.", "1024"] {
        let units = micro(text).unwrap();
        let float: f64 = text.parse().unwrap();
        assert_eq!(units as f64 / 1_000_000.0, float, "{text:?}");
    }
}
