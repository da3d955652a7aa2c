use proto_tools::decimal::{decimal_digits, parse_decimal};

#[test]
fn decimal_digits_renders_without_leading_zeros() {
    assert_eq!(decimal_digits(0), b"0".to_vec());
    assert_eq!(decimal_digits(4), b"4".to_vec());
    assert_eq!(decimal_digits(9), b"9".to_vec());
    assert_eq!(decimal_digits(10), b"10".to_vec());
    assert_eq!(decimal_digits(1203), b"1203".to_vec());
    assert_eq!(decimal_digits(u32::MAX as u64), b"4294967295".to_vec());
    assert_eq!(decimal_digits(u64::MAX), b"18446744073709551615".to_vec());
}

#[test]
fn decimal_digits_agree_with_the_standard_rendering() {
    for value in [0u64, 7, 42, 99, 100, 65535, 1 << 40, u64::MAX - 1] {
        assert_eq!(decimal_digits(value), value.to_string().into_bytes());
    }
}

#[test]
fn parse_decimal_reads_digits() {
    assert_eq!(parse_decimal(b"0", u64::MAX), Some(0));
    assert_eq!(parse_decimal(b"4", u64::MAX), Some(4));
    assert_eq!(parse_decimal(b"1203", u64::MAX), Some(1203));
    assert_eq!(parse_decimal(b"18446744073709551615", u64::MAX), Some(u64::MAX));
    assert_eq!(parse_decimal(b"4294967295", u32::MAX as u64), Some(4294967295));
}

#[test]
fn parse_decimal_takes_one_plus_sign_and_leading_zeros() {
    assert_eq!(parse_decimal(b"+5", u64::MAX), Some(5));
    assert_eq!(parse_decimal(b"007", u64::MAX), Some(7));
    assert_eq!(parse_decimal(b"+000", u64::MAX), Some(0));
    assert_eq!(
        parse_decimal(b"0000000000000000000000000000018446744073709551615", u64::MAX),
        Some(u64::MAX)
    );
}

#[test]
fn parse_decimal_rejects_what_is_no_number() {
    assert_eq!(parse_decimal(b"", u64::MAX), None);
    assert_eq!(parse_decimal(b"+", u64::MAX), None);
    assert_eq!(parse_decimal(b"-", u64::MAX), None);
    assert_eq!(parse_decimal(b"-5", u64::MAX), None);
    assert_eq!(parse_decimal(b"++5", u64::MAX), None);
    assert_eq!(parse_decimal(b"5+", u64::MAX), None);
    assert_eq!(parse_decimal(b" 5", u64::MAX), None);
    assert_eq!(parse_decimal(b"5 ", u64::MAX), None);
    assert_eq!(parse_decimal(b"1_000", u64::MAX), None);
    assert_eq!(parse_decimal(b"0x10", u64::MAX), None);
    assert_eq!(parse_decimal(b"12a", u64::MAX), None);
    assert_eq!(parse_decimal("٣".as_bytes(), u64::MAX), None);
    assert_eq!(parse_decimal(&[0x31, 0xff], u64::MAX), None);
}

#[test]
fn parse_decimal_rejects_what_does_not_fit() {
    assert_eq!(parse_decimal(b"4294967296", u32::MAX as u64), None);
    assert_eq!(parse_decimal(b"18446744073709551616", u64::MAX), None);
    assert_eq!(parse_decimal(b"99999999999999999999999999", u64::MAX), None);
    assert_eq!(parse_decimal(b"184467440737095516150", u64::MAX), None);
    assert_eq!(parse_decimal(b"8", 7), None);
    assert_eq!(parse_decimal(b"7", 7), Some(7));
    assert_eq!(parse_decimal(b"10", 9), None);
    assert_eq!(parse_decimal(b"1", 0), None);
    assert_eq!(parse_decimal(b"0", 0), Some(0));
}

#[test]
fn parse_decimal_agrees_with_the_standard_parser() {
    let texts: [&str; 12] = [
        "", "+", "-1", "+1", "0", "00", "42", "4294967295", "4294967296", "1e3", "١", "12 ",
    ];
    for text in texts {
        assert_eq!(
            parse_decimal(text.as_bytes(), u32::MAX as u64),
            text.parse::<u32>().ok().map(|number| number as u64)
        );
        assert_eq!(parse_decimal(text.as_bytes(), u64::MAX), text.parse::<u64>().ok());
    }
}

#[test]
fn decimal_round_trip() {
    for value in [0u64, 1, 9, 10, 127, 128, 16384, u32::MAX as u64, u64::MAX] {
        assert_eq!(parse_decimal(&decimal_digits(value), u64::MAX), Some(value));
    }
}
