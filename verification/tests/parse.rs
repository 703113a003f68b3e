use confee::parse::{parse_unsigned, FromText};

#[test]
fn unsigned_numbers() {
    assert_eq!(parse_unsigned("0", 255), Some(0));
    assert_eq!(parse_unsigned("8080", 65535), Some(8080));
    assert_eq!(parse_unsigned("+5", 255), Some(5));
    assert_eq!(parse_unsigned("007", 255), Some(7));
    assert_eq!(parse_unsigned("255", 255), Some(255));
    assert_eq!(parse_unsigned("256", 255), None);
    assert_eq!(parse_unsigned("18446744073709551615", u64::MAX), Some(u64::MAX));
    assert_eq!(parse_unsigned("18446744073709551616", u64::MAX), None);
    assert_eq!(parse_unsigned("99999999999999999999999", u64::MAX), None);
}

#[test]
fn what_is_no_unsigned_number() {
    assert_eq!(parse_unsigned("", 255), None);
    assert_eq!(parse_unsigned("+", 255), None);
    assert_eq!(parse_unsigned("-", 255), None);
    assert_eq!(parse_unsigned("-1", 255), None);
    assert_eq!(parse_unsigned("++1", 255), None);
    assert_eq!(parse_unsigned("1+", 255), None);
    assert_eq!(parse_unsigned(" 1", 255), None);
    assert_eq!(parse_unsigned("1 ", 255), None);
    assert_eq!(parse_unsigned("12a", 255), None);
    assert_eq!(parse_unsigned("not-a-number", 65535), None);
    assert_eq!(parse_unsigned("١٢", 255), None);
}

#[test]
fn unsigned_types_parse_within_their_range() {
    assert_eq!(u8::from_text("255"), Some(255));
    assert_eq!(u8::from_text("256"), None);
    assert_eq!(u16::from_text("8080"), Some(8080));
    assert_eq!(u16::from_text("65535"), Some(65535));
    assert_eq!(u16::from_text("65536"), None);
    assert_eq!(u32::from_text("4294967295"), Some(4294967295));
    assert_eq!(u32::from_text("4294967296"), None);
    assert_eq!(u64::from_text("4294967296"), Some(4294967296));
}

#[test]
fn unsigned_parsing_agrees_with_std() {
    let samples = [
        "", "+", "-", "0", "+0", "-0", "00", "1", "+1", "65535", "65536", "0065535", "999999",
        "12x", "x12", "1_000", "1.0", "٣", " 7", "7\n", "+-7", "4294967296",
        "18446744073709551615", "18446744073709551616", "184467440737095516150",
    ];
    for s in samples {
        assert_eq!(u8::from_text(s), s.parse::<u8>().ok());
        assert_eq!(u16::from_text(s), s.parse::<u16>().ok());
        assert_eq!(u32::from_text(s), s.parse::<u32>().ok());
        assert_eq!(u64::from_text(s), s.parse::<u64>().ok());
    }
}

#[test]
fn truth_values() {
    assert_eq!(bool::from_text("true"), Some(true));
    assert_eq!(bool::from_text("false"), Some(false));
    for s in ["", "True", "TRUE", "1", "0", "yes", " true", "true ", "fals", "falsee", "truf"] {
        assert_eq!(bool::from_text(s), None);
        assert_eq!(bool::from_text(s), s.parse::<bool>().ok());
    }
}
