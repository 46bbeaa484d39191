use sharpdx::registry::{Device, Keyword, Registry};
use sharpdx::reserve::{
    decode_payload, encode_payload, from_ascii, to_ascii, tokenize_content, ReserveError, ReserveLayout,
    LABEL_SIZE, NUM_KEYS, NUM_LAYERS, PAYLOAD_SIZE,
};

/// The keywords these layouts use, with their token codes.
fn reg() -> Registry {
    Registry::new(
        Device::Pc1500,
        vec![Keyword::new("ABS", 0xF170), Keyword::new("PRINT", 0xF097), Keyword::new("GOTO", 0xF192)],
    )
}

#[test]
fn empty_layout_round_trips() {
    let layout = ReserveLayout::default();
    let payload = encode_payload(&layout, &reg()).unwrap();
    assert_eq!(payload.len(), PAYLOAD_SIZE);
    assert_eq!(payload[NUM_LAYERS * LABEL_SIZE], 0x00);
    let decoded = decode_payload(&payload, &reg()).unwrap();
    assert_eq!(decoded.labels, layout.labels);
    assert_eq!(decoded.keys, layout.keys);
}

#[test]
fn tokenize_keyword_then_literal() {
    let out = tokenize_content("ABS(", &reg());
    let abs_code = reg().lookup("ABS").unwrap().code;
    assert_eq!(&out[..2], &abs_code.to_be_bytes());
    assert_eq!(out.last(), Some(&b'('));
}

#[test]
fn tokenize_digits_stay_literal() {
    assert_eq!(tokenize_content("123", &reg()), vec![b'1', b'2', b'3']);
}

#[test]
fn pool_overflow_errors() {
    let mut layout = ReserveLayout::default();
    for key in 0..NUM_KEYS {
        layout.keys[0][key] = "ABCDEFGHIJKLMNOPQRST".to_string();
    }
    assert!(encode_payload(&layout, &reg()).is_err());
}

#[test]
fn decode_rejects_unknown_key_code() {
    let mut payload = [0u8; PAYLOAD_SIZE];
    payload[NUM_LAYERS * LABEL_SIZE] = 0x7F;
    assert!(decode_payload(&payload, &reg()).is_err());
}

#[test]
fn decode_rejects_wrong_size() {
    assert!(decode_payload(&[0u8; 100], &reg()).is_err());
}

#[test]
fn ascii_round_trip() {
    let mut layout = ReserveLayout { filename: Some("MYAPP".to_string()), ..Default::default() };
    layout.labels[0] = "MENU".to_string();
    layout.keys[0][0] = "PRINT".to_string();
    layout.keys[1][3] = "ABC".to_string();
    let text = to_ascii(&layout);
    let parsed = from_ascii(&text).unwrap();
    assert_eq!(parsed, layout);
}

#[test]
fn to_ascii_omits_filename_line_when_none() {
    let layout = ReserveLayout::default();
    assert!(!to_ascii(&layout).contains("Filename"));
}

#[test]
fn to_ascii_includes_filename_when_present() {
    let layout = ReserveLayout { filename: Some("MYAPP".to_string()), ..Default::default() };
    assert!(to_ascii(&layout).contains("; Filename: MYAPP"));
}

#[test]
fn binary_round_trip_with_tokens_and_labels() {
    let mut layout = ReserveLayout::default();
    layout.labels[2] = "TOOLS".to_string();
    layout.keys[0][0] = "PRINT A".to_string();
    layout.keys[2][5] = "GOTO 10".to_string();
    let payload = encode_payload(&layout, &reg()).unwrap();
    // pool: 01 F0 97 ' ' 'A' 0E F1 92 ' ' '1' '0' 00
    assert_eq!(&payload[78..90], &[0x01, 0xF0, 0x97, b' ', b'A', 0x0E, 0xF1, 0x92, b' ', b'1', b'0', 0x00]);
    assert_eq!(&payload[52..57], b"TOOLS");
    let back = decode_payload(&payload, &reg()).unwrap();
    assert_eq!(back.labels, layout.labels);
    assert_eq!(back.keys, layout.keys);
}

#[test]
fn reserve_decode_errors_name_their_cause() {
    let mut payload = [0u8; PAYLOAD_SIZE];
    payload[78] = 0x7F;
    assert_eq!(decode_payload(&payload, &reg()), Err(ReserveError::UnknownKeyCode { code: 0x7F, offset: 78 }));
    let payload = [0x41u8; PAYLOAD_SIZE];
    assert!(decode_payload(&payload, &reg()).is_err());
    assert_eq!(decode_payload(&[0u8; 3], &reg()), Err(ReserveError::WrongSize { len: 3 }));
}

#[test]
fn ascii_errors() {
    assert!(from_ascii("key 1: X\n").is_err());
    assert!(from_ascii("[layer 4]\n").is_err());
    assert!(from_ascii("[layer 1]\nkey 7: X\n").is_err());
    assert!(from_ascii("[layer 1]\nbogus\n").is_err());
    let l = from_ascii("[layer 2]\nkey 3:  two\n").unwrap();
    assert_eq!(l.keys[1][2], " two");
}
