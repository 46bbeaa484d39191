use sharpdx::bcd::{decode, encode, BcdError};

#[test]
fn zero_round_trips() {
    assert_eq!(decode(&[0, 0, 0, 0, 0, 0, 0, 0]).unwrap(), "0");
    assert_eq!(encode("0").unwrap(), [0u8; 8]);
}

#[test]
fn positive_integer() {
    let bytes = [0x03, 0x00, 0x15, 0x00, 0x00, 0x00, 0x00, 0x00];
    assert_eq!(decode(&bytes).unwrap(), "1500");
    assert_eq!(encode("1500").unwrap(), bytes);
}

#[test]
fn negative_integer() {
    let bytes = [0x08, 0x80, 0x12, 0x34, 0x00, 0x00, 0x00, 0x00];
    assert_eq!(decode(&bytes).unwrap(), "-123400000");
    assert_eq!(encode("-123400000").unwrap(), bytes);
}

#[test]
fn small_decimal_strips_trailing_zero_on_decode() {
    let bytes = [0xFD, 0x00, 0x12, 0x34, 0x56, 0x78, 0x90, 0x00];
    assert_eq!(decode(&bytes).unwrap(), "0.00123456789");
    assert_eq!(encode("0.001234567890").unwrap(), bytes);
}

#[test]
fn ten_digit_mantissa() {
    let bytes = [0x00, 0x00, 0x31, 0x41, 0x59, 0x26, 0x54, 0x00];
    assert_eq!(decode(&bytes).unwrap(), "3.141592654");
    assert_eq!(encode("3.141592654").unwrap(), bytes);
}

#[test]
fn alt_int_variant_decodes() {
    assert_eq!(decode(&[0x00, 0x00, 0x00, 0x00, 0xB2, 0x05, 0xDC, 0x00]).unwrap(), "1500");
    assert_eq!(decode(&[0x00, 0x00, 0x00, 0x00, 0xB2, 0xFF, 0xFB, 0x00]).unwrap(), "-5");
}

#[test]
fn encode_rejects_out_of_range_exponent() {
    assert!(encode("1e100").is_err());
}

#[test]
fn decode_rejects_wrong_length() {
    assert!(decode(&[0u8; 7]).is_err());
    assert!(decode(&[0u8; 9]).is_err());
}

#[test]
fn encode_rejects_garbage() {
    assert!(encode("not a number").is_err());
    assert!(encode("").is_err());
}

#[test]
fn round_trip_value_identical() {
    for v in ["1500", "-123400000", "3.141592654", "1", "0.5", "-0.5"] {
        let bytes = encode(v).unwrap();
        let back = decode(&bytes).unwrap();
        assert_eq!(encode(&back).unwrap(), bytes, "round-trip mismatch for {v}");
    }
}

#[test]
fn rounds_half_up_beyond_ten_significant_digits() {
    let bytes = encode("1.2345678915").unwrap();
    assert_eq!(decode(&bytes).unwrap(), "1.234567892");
}

#[test]
fn rounding_carry_overflows_all_nines() {
    let bytes = encode("9.9999999995").unwrap();
    assert_eq!(decode(&bytes).unwrap(), "10");
}

#[test]
fn scientific_notation_round_trips() {
    let bytes = encode("1.23e50").unwrap();
    let text = decode(&bytes).unwrap();
    assert_eq!(text, "1.23E+50");
    assert_eq!(encode(&text).unwrap(), bytes);

    let bytes = encode("1.23e-50").unwrap();
    let text = decode(&bytes).unwrap();
    assert_eq!(text, "1.23E-50");
    assert_eq!(encode(&text).unwrap(), bytes);
}

#[test]
fn decode_reports_error_kinds() {
    assert_eq!(decode(&[0u8; 3]), Err(BcdError::WrongLength(3)));
    assert_eq!(encode("1.5.5"), Err(BcdError::InvalidDecimal));
    assert_eq!(encode("1e-100"), Err(BcdError::ExponentOutOfRange));
}
