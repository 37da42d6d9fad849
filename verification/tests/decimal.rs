use hosp::decimal::read_decimal;
use hosp::to_milliunits;
use hosp::HospError;

#[test]
fn decodes_whole_volts() {
    assert_eq!(to_milliunits(b"5.000"), Ok(Some(5000)));
}

#[test]
fn decodes_exact_thousandths() {
    assert_eq!(to_milliunits(b"0.125"), Ok(Some(125)));
    assert_eq!(to_milliunits(b"0.001"), Ok(Some(1)));
    assert_eq!(to_milliunits(b"4.999"), Ok(Some(4999)));
    assert_eq!(to_milliunits(b"8.193"), Ok(Some(8193)));
}

#[test]
fn truncates_after_third_decimal() {
    assert_eq!(to_milliunits(b"1.2345"), Ok(Some(1234)));
    assert_eq!(to_milliunits(b"1.2349"), Ok(Some(1234)));
    assert_eq!(to_milliunits(b"0.0009"), Ok(Some(0)));
    assert_eq!(to_milliunits(b"2.99999"), Ok(Some(2999)));
}

#[test]
fn pads_missing_decimals() {
    assert_eq!(to_milliunits(b"7"), Ok(Some(7000)));
    assert_eq!(to_milliunits(b"7."), Ok(Some(7000)));
    assert_eq!(to_milliunits(b"7.5"), Ok(Some(7500)));
    assert_eq!(to_milliunits(b".5"), Ok(Some(500)));
    assert_eq!(to_milliunits(b"12.34"), Ok(Some(12340)));
    assert_eq!(to_milliunits(b"0"), Ok(Some(0)));
    assert_eq!(to_milliunits(b"000.000"), Ok(Some(0)));
    assert_eq!(to_milliunits(b"0012.5"), Ok(Some(12500)));
}

#[test]
fn leading_dash_is_absent() {
    assert_eq!(to_milliunits(b"-.---"), Ok(None));
    assert_eq!(to_milliunits(b"-"), Ok(None));
    assert_eq!(to_milliunits(b"-1.5"), Ok(None));
    assert_eq!(to_milliunits(b"--"), Ok(None));
}

#[test]
fn dash_after_whitespace_is_absent() {
    assert_eq!(to_milliunits(b" -.---"), Ok(None));
    assert_eq!(to_milliunits(b"  -.---"), Ok(None));
    assert_eq!(to_milliunits(b"\t\n\x0b\x0c\r -"), Ok(None));
}

#[test]
fn absent_whatever_follows_the_dash() {
    assert_eq!(to_milliunits(b"-5.000"), Ok(None));
    assert_eq!(to_milliunits(b"-abc"), Ok(None));
    assert_eq!(to_milliunits(b"- \xff\x00"), Ok(None));
    assert_eq!(to_milliunits(b" -e+.."), Ok(None));
}

#[test]
fn skips_leading_whitespace() {
    assert_eq!(to_milliunits(b" 2.334"), Ok(Some(2334)));
    assert_eq!(to_milliunits(b"  0.012"), Ok(Some(12)));
    assert_eq!(to_milliunits(b"\t 1.5"), Ok(Some(1500)));
}

#[test]
fn rejects_trailing_bytes() {
    assert_eq!(to_milliunits(b"5.000 "), Err(HospError::Parse));
    assert_eq!(to_milliunits(b"5.000V"), Err(HospError::Parse));
    assert_eq!(to_milliunits(b"5.0.0"), Err(HospError::Parse));
    assert_eq!(to_milliunits(b"5 0"), Err(HospError::Parse));
}

#[test]
fn rejects_text_without_digits() {
    assert_eq!(to_milliunits(b""), Err(HospError::Parse));
    assert_eq!(to_milliunits(b"   "), Err(HospError::Parse));
    assert_eq!(to_milliunits(b"."), Err(HospError::Parse));
    assert_eq!(to_milliunits(b"+"), Err(HospError::Parse));
    assert_eq!(to_milliunits(b"+."), Err(HospError::Parse));
    assert_eq!(to_milliunits(b"abc"), Err(HospError::Parse));
    assert_eq!(to_milliunits(b"e5"), Err(HospError::Parse));
    assert_eq!(to_milliunits(b".e5"), Err(HospError::Parse));
    assert_eq!(to_milliunits(b"\xff\xfe"), Err(HospError::Parse));
}

#[test]
fn rejects_words_that_are_no_numbers() {
    assert_eq!(to_milliunits(b"nan"), Err(HospError::Parse));
    assert_eq!(to_milliunits(b"inf"), Err(HospError::Parse));
    assert_eq!(to_milliunits(b"infinity"), Err(HospError::Parse));
    assert_eq!(to_milliunits(b"+inf"), Err(HospError::Parse));
}

#[test]
fn accepts_plus_sign() {
    assert_eq!(to_milliunits(b"+5.000"), Ok(Some(5000)));
    assert_eq!(to_milliunits(b" +.25"), Ok(Some(250)));
    assert_eq!(to_milliunits(b"++5"), Err(HospError::Parse));
    assert_eq!(to_milliunits(b"+-5"), Err(HospError::Parse));
}

#[test]
fn applies_exponent() {
    assert_eq!(to_milliunits(b"1e3"), Ok(Some(1_000_000)));
    assert_eq!(to_milliunits(b"1E3"), Ok(Some(1_000_000)));
    assert_eq!(to_milliunits(b"1e+3"), Ok(Some(1_000_000)));
    assert_eq!(to_milliunits(b"1.5e-3"), Ok(Some(1)));
    assert_eq!(to_milliunits(b"15e-4"), Ok(Some(1)));
    assert_eq!(to_milliunits(b"1e-4"), Ok(Some(0)));
    assert_eq!(to_milliunits(b"12345e-2"), Ok(Some(123450)));
    assert_eq!(to_milliunits(b"1.2345e1"), Ok(Some(12345)));
    assert_eq!(to_milliunits(b"1.2345e2"), Ok(Some(123450)));
    assert_eq!(to_milliunits(b".5e0"), Ok(Some(500)));
    assert_eq!(to_milliunits(b"5.e0"), Ok(Some(5000)));
    assert_eq!(to_milliunits(b"1e-0"), Ok(Some(1000)));
    assert_eq!(to_milliunits(b"1e007"), Ok(Some(u32::MAX)));
    assert_eq!(to_milliunits(b"1e006"), Ok(Some(1_000_000_000)));
}

#[test]
fn rejects_broken_exponent() {
    assert_eq!(to_milliunits(b"1e"), Err(HospError::Parse));
    assert_eq!(to_milliunits(b"1e+"), Err(HospError::Parse));
    assert_eq!(to_milliunits(b"1e-"), Err(HospError::Parse));
    assert_eq!(to_milliunits(b"1e+-2"), Err(HospError::Parse));
    assert_eq!(to_milliunits(b"1e2.5"), Err(HospError::Parse));
    assert_eq!(to_milliunits(b"1e2 "), Err(HospError::Parse));
    assert_eq!(to_milliunits(b"1f2"), Err(HospError::Parse));
}

#[test]
fn saturates_at_u32_max() {
    assert_eq!(to_milliunits(b"4294967.294"), Ok(Some(4_294_967_294)));
    assert_eq!(to_milliunits(b"4294967.295"), Ok(Some(u32::MAX)));
    assert_eq!(to_milliunits(b"4294967.296"), Ok(Some(u32::MAX)));
    assert_eq!(to_milliunits(b"9999999"), Ok(Some(u32::MAX)));
    assert_eq!(to_milliunits(b"99999999999999999999999999999999"), Ok(Some(u32::MAX)));
    assert_eq!(to_milliunits(b"4294967.2949"), Ok(Some(4_294_967_294)));
}

#[test]
fn survives_huge_exponents() {
    assert_eq!(to_milliunits(b"1e99999999999999999999999999999999999999999999"), Ok(Some(u32::MAX)));
    assert_eq!(to_milliunits(b"0e99999999999999999999999999999999999999999999"), Ok(Some(0)));
    assert_eq!(to_milliunits(b"0.000e99999999999999999999999999999999999999999"), Ok(Some(0)));
    assert_eq!(to_milliunits(b"9e-99999999999999999999999999999999999999999999"), Ok(Some(0)));
    assert_eq!(to_milliunits(b"0.0000000001e13"), Ok(Some(1_000_000)));
    assert_eq!(to_milliunits(b"10000000000000000000000000e-25"), Ok(Some(1000)));
    assert_eq!(to_milliunits(b"0.00000000000000000000000012345e25"), Ok(Some(1234)));
}

#[test]
fn read_decimal_takes_no_whitespace_and_no_dash() {
    assert_eq!(read_decimal(b"5.000"), Some(5000));
    assert_eq!(read_decimal(b" 5.000"), None);
    assert_eq!(read_decimal(b"-5.000"), None);
    assert_eq!(read_decimal(b"-.---"), None);
    assert_eq!(read_decimal(b""), None);
}
