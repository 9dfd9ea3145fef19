use ap::integral::parse::ParseError;
use ap::integral::ApInt;

fn value(r: Result<ApInt, ParseError>) -> u128 {
    r.unwrap().to_u128_lossy()
}

#[test]
fn from_str_radix_decimal() {
    assert_eq!(value(ApInt::from_str_radix(8, "255", 10)), 255);
}

#[test]
fn from_str_radix_hexadecimal() {
    assert_eq!(value(ApInt::from_str_radix(8, "ff", 16)), 255);
}

#[test]
fn from_str_radix_binary() {
    assert_eq!(value(ApInt::from_str_radix(8, "11111111", 2)), 255);
}

#[test]
fn from_str_radix_octal() {
    assert_eq!(value(ApInt::from_str_radix(8, "377", 8)), 255);
}

#[test]
fn from_str_radix_negative() {
    assert_eq!(value(ApInt::from_str_radix(8, "-1", 10)), 0xff);
}

#[test]
fn from_str_radix_prefix_overrides_radix() {
    assert_eq!(value(ApInt::from_str_radix(16, "0xff", 10)), 255);
}

#[test]
fn parse_doc_examples() {
    assert_eq!(ApInt::parse(8, "255").unwrap().to_u8_lossy(), 255);
    assert_eq!(ApInt::parse(8, "0xff").unwrap().to_u8_lossy(), 255);
    assert_eq!(ApInt::parse(8, "0b11111111").unwrap().to_u8_lossy(), 255);
    assert_eq!(ApInt::parse(8, "0o377").unwrap().to_u8_lossy(), 255);
    assert_eq!(ApInt::parse(8, "260").unwrap().to_u8_lossy(), 4);
}

#[test]
fn hex_digits_are_positional() {
    assert_eq!(value(ApInt::from_str_radix(16, "0x1234", 10)), 0x1234);
    assert_eq!(value(ApInt::from_str_radix(64, "DeadBeef", 16)), 0xdead_beef);
    assert_eq!(value(ApInt::parse(128, "0x0123456789abcdef0123456789ABCDEF")), 0x0123456789abcdef0123456789abcdef);
}

#[test]
fn hex_leading_zero_digits_above_width() {
    assert_eq!(value(ApInt::from_str_radix(8, "000ff", 16)), 0xff);
    assert_eq!(ApInt::from_str_radix(8, "100", 16).unwrap_err(), ParseError::TooLarge);
}

#[test]
fn hex_value_above_width_is_refused() {
    // The top digit of a 6-bit number spans bits 4 to 7.
    assert_eq!(ApInt::from_str_radix(6, "ff", 16).unwrap_err(), ParseError::TooLarge);
    assert_eq!(value(ApInt::from_str_radix(6, "3f", 16)), 63);
    assert_eq!(ApInt::parse(6, "0x40").unwrap_err(), ParseError::TooLarge);
    assert_eq!(ApInt::from_str_radix(64, "1ffffffffffffffff", 16).unwrap_err(), ParseError::TooLarge);
    assert_eq!(value(ApInt::from_str_radix(64, "0ffffffffffffffff", 16)), u64::MAX as u128);
}

#[test]
fn binary_too_large() {
    assert_eq!(ApInt::from_str_radix(8, "100000000", 2).unwrap_err(), ParseError::TooLarge);
    assert_eq!(value(ApInt::from_str_radix(8, "011111111", 2)), 255);
}

#[test]
fn binary_error_order() {
    // Scanning from the left, the high `1` is met before the bad digit.
    assert_eq!(ApInt::from_str_radix(2, "1002", 2).unwrap_err(), ParseError::TooLarge);
    assert_eq!(ApInt::from_str_radix(8, "1002", 2).unwrap_err(), ParseError::InvalidBinaryDigit(b'2'));
}

#[test]
fn decimal_limb_overflow() {
    assert_eq!(
        ApInt::from_str_radix(8, "18446744073709551616", 10).unwrap_err(),
        ParseError::TooLarge
    );
    assert_eq!(value(ApInt::from_str_radix(8, "18446744073709551615", 10)), 255);
    assert_eq!(
        value(ApInt::from_str_radix(128, "340282366920938463463374607431768211455", 10)),
        u128::MAX
    );
}

#[test]
fn octal_errors() {
    assert_eq!(ApInt::from_str_radix(8, "78", 8).unwrap_err(), ParseError::InvalidOctalDigit(b'8'));
    assert_eq!(
        ApInt::from_str_radix(8, "2000000000000000000000", 8).unwrap_err(),
        ParseError::TooLarge
    );
    assert_eq!(value(ApInt::from_str_radix(64, "1777777777777777777777", 8)), u64::MAX as u128);
}

#[test]
fn digit_errors() {
    assert_eq!(ApInt::from_str_radix(8, "12a", 10).unwrap_err(), ParseError::DigitOutOfRange(b'a', 10));
    assert_eq!(ApInt::from_str_radix(8, "1$", 10).unwrap_err(), ParseError::InvalidDigit(b'$'));
    assert_eq!(ApInt::from_str_radix(8, "fg", 16).unwrap_err(), ParseError::InvalidHexDigit(b'g'));
    assert_eq!(value(ApInt::from_str_radix(16, "zz", 36)), 35 * 36 + 35);
    assert_eq!(value(ApInt::from_str_radix(16, "ZZ", 36)), 35 * 36 + 35);
}

#[test]
fn empty_and_missing_digits() {
    assert_eq!(ApInt::from_str_radix(8, "", 10).unwrap_err(), ParseError::Empty);
    assert_eq!(ApInt::from_str_radix(8, " \t\n", 10).unwrap_err(), ParseError::Empty);
    assert_eq!(ApInt::from_str_radix(8, "-", 10).unwrap_err(), ParseError::MissingDigitsAfterSign);
    assert_eq!(ApInt::from_str_radix(8, "0x", 10).unwrap_err(), ParseError::MissingDigitsAfterPrefix);
    assert_eq!(ApInt::parse(8, "+").unwrap_err(), ParseError::MissingDigitsAfterSign);
    assert_eq!(ApInt::parse(8, "-0b").unwrap_err(), ParseError::MissingDigitsAfterPrefix);
    assert_eq!(ApInt::parse(8, "").unwrap_err(), ParseError::Empty);
}

#[test]
fn parse_with_zero_width_reports_front_errors() {
    assert_eq!(ApInt::parse(0, "  ").unwrap_err(), ParseError::Empty);
    assert_eq!(ApInt::parse(0, "0o").unwrap_err(), ParseError::MissingDigitsAfterPrefix);
}

#[test]
fn underscores_and_white_space() {
    assert_eq!(value(ApInt::from_str_radix(32, "1_000_000", 10)), 1_000_000);
    assert_eq!(value(ApInt::from_str_radix(32, " \t42\n", 10)), 42);
    assert_eq!(value(ApInt::from_str_radix(32, "\u{3000}7\u{a0}", 10)), 7);
    assert_eq!(value(ApInt::from_str_radix(16, "0x_ff_", 10)), 0xff);
    assert_eq!(value(ApInt::from_str_radix(16, "0x_", 10)), 0);
}

#[test]
fn signs_and_negation() {
    assert_eq!(value(ApInt::from_str_radix(8, "+5", 10)), 5);
    assert_eq!(value(ApInt::from_str_radix(8, "-0x1", 10)), 0xff);
    assert_eq!(value(ApInt::from_str_radix(8, "-0", 10)), 0);
    assert_eq!(value(ApInt::from_str_radix(130, "-1", 10)), u128::MAX);
    assert_eq!(value(ApInt::parse(8, "-128")), 128);
    assert_eq!(value(ApInt::parse(8, "-129")), 127);
}

#[test]
fn parse_reads_digits_after_the_prefix() {
    // After the sign and the prefix only digits of the radix follow.
    assert_eq!(value(ApInt::parse(16, "0x0b1")), 0xb1);
    assert_eq!(ApInt::parse(8, "--5").unwrap_err(), ParseError::InvalidDigit(b'-'));
    assert_eq!(ApInt::parse(8, "-+5").unwrap_err(), ParseError::InvalidDigit(b'+'));
    assert_eq!(ApInt::parse(8, "0x-1").unwrap_err(), ParseError::InvalidHexDigit(b'-'));
    assert_eq!(value(ApInt::parse(8, "0b0101")), 5);
    assert_eq!(value(ApInt::parse(8, "-0o7")), 0xf9);
}

#[test]
fn non_ascii_digit_is_invalid() {
    assert_eq!(ApInt::from_str_radix(8, "1\u{e9}", 10).unwrap_err(), ParseError::InvalidDigit(0xc3));
    assert_eq!(ApInt::from_str_radix(4, "a\u{e9}", 16).unwrap_err(), ParseError::TooLarge);
}

#[test]
fn display_text_reads_back_through_parse() {
    let a = ApInt::new(128, 0xb000_0000_0000_0000);
    let text = a.display_string();
    assert_eq!(text, "0x0b000000000000000");
    assert_eq!(ApInt::parse(128, &text).unwrap(), a);
    assert_eq!(ApInt::from_str_radix(128, &text, 10).unwrap(), a);
}
