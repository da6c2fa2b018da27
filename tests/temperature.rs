use onebrc::temperature::{format_tempreture, parse_tempreture};

#[test]
fn parses_two_digit_reading() {
    assert_eq!(parse_tempreture(b"23.4"), Some(234));
}

#[test]
fn parses_negative_one_digit_reading() {
    assert_eq!(parse_tempreture(b"-5.0"), Some(-50));
}

#[test]
fn parses_zero() {
    assert_eq!(parse_tempreture(b"0.0"), Some(0));
}

#[test]
fn parses_extremes() {
    assert_eq!(parse_tempreture(b"99.9"), Some(999));
    assert_eq!(parse_tempreture(b"-99.9"), Some(-999));
    assert_eq!(parse_tempreture(b"-0.1"), Some(-1));
}

#[test]
fn rejects_three_integer_digits() {
    assert_eq!(parse_tempreture(b"100.0"), None);
}

#[test]
fn rejects_other_shapes() {
    assert_eq!(parse_tempreture(b""), None);
    assert_eq!(parse_tempreture(b"-"), None);
    assert_eq!(parse_tempreture(b"5"), None);
    assert_eq!(parse_tempreture(b"5.25"), None);
    assert_eq!(parse_tempreture(b"--5.0"), None);
    assert_eq!(parse_tempreture(b"+5.0"), None);
    assert_eq!(parse_tempreture(b"a.0"), None);
    assert_eq!(parse_tempreture(b"12,3"), None);
}

#[test]
fn formats_tenths_with_one_digit() {
    assert_eq!(format_tempreture(123), "12.3");
    assert_eq!(format_tempreture(-25), "-2.5");
    assert_eq!(format_tempreture(0), "0.0");
    assert_eq!(format_tempreture(-5), "-0.5");
    assert_eq!(format_tempreture(7), "0.7");
    assert_eq!(format_tempreture(999), "99.9");
    assert_eq!(format_tempreture(-1000), "-100.0");
}
