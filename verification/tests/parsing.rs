use sdfconv::parse::parse_i16;

#[test]
fn plain_digits() {
    assert_eq!(parse_i16(b"0"), Some(0));
    assert_eq!(parse_i16(b"123"), Some(123));
    assert_eq!(parse_i16(b"32767"), Some(32767));
}

#[test]
fn signed_values() {
    assert_eq!(parse_i16(b"-1"), Some(-1));
    assert_eq!(parse_i16(b"-32768"), Some(-32768));
    assert_eq!(parse_i16(b"+17"), Some(17));
    assert_eq!(parse_i16(b"+32767"), Some(32767));
}

#[test]
fn leading_zeros_are_accepted() {
    assert_eq!(parse_i16(b"007"), Some(7));
    assert_eq!(parse_i16(b"-0001"), Some(-1));
    assert_eq!(parse_i16(b"00000"), Some(0));
}

#[test]
fn out_of_range_is_rejected() {
    assert_eq!(parse_i16(b"32768"), None);
    assert_eq!(parse_i16(b"+32768"), None);
    assert_eq!(parse_i16(b"-32769"), None);
    assert_eq!(parse_i16(b"99999999999999999999"), None);
    assert_eq!(parse_i16(b"-99999999999999999999"), None);
}

#[test]
fn malformed_is_rejected() {
    assert_eq!(parse_i16(b""), None);
    assert_eq!(parse_i16(b"+"), None);
    assert_eq!(parse_i16(b"-"), None);
    assert_eq!(parse_i16(b"abc"), None);
    assert_eq!(parse_i16(b"1 2"), None);
    assert_eq!(parse_i16(b" 1"), None);
    assert_eq!(parse_i16(b"1 "), None);
    assert_eq!(parse_i16(b"--1"), None);
    assert_eq!(parse_i16(b"+-1"), None);
    assert_eq!(parse_i16(b"12.5"), None);
    assert_eq!(parse_i16(b"0x10"), None);
}
