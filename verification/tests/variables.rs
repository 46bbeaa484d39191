use sharpdx::variables::{
    decode_payload, encode_payload, escape_string, from_ascii, to_ascii, unescape_string, VarError, VarFile,
    VarValue,
};

#[test]
fn numeric_scalar_round_trips() {
    let values = vec![VarValue::NumericScalar("1500".to_string())];
    let payload = encode_payload(&values).unwrap();
    let decoded = decode_payload(&payload).unwrap();
    assert_eq!(decoded.values, values);
}

#[test]
fn string_scalar_round_trips() {
    let values = vec![VarValue::StringScalar(b"Hi there!".to_vec())];
    let payload = encode_payload(&values).unwrap();
    let decoded = decode_payload(&payload).unwrap();
    assert_eq!(decoded.values, values);
}

#[test]
fn mixed_scalars_round_trip() {
    let values = vec![
        VarValue::NumericScalar("3.14159265".to_string()),
        VarValue::StringScalar(b"ABC".to_vec()),
        VarValue::NumericScalar("0".to_string()),
    ];
    let payload = encode_payload(&values).unwrap();
    let decoded = decode_payload(&payload).unwrap();
    assert_eq!(decoded.values, values);
    assert_eq!(to_ascii(&VarFile { filename: None, values: decoded.values }).lines().nth(1).unwrap(), "; Count: 3");
}

#[test]
fn numeric_array_round_trips() {
    let values = vec![VarValue::NumericArray(vec!["1".to_string(), "2".to_string(), "3".to_string()])];
    let payload = encode_payload(&values).unwrap();
    let decoded = decode_payload(&payload).unwrap();
    assert_eq!(decoded.values, values);
}

#[test]
fn string_arrays_with_different_widths_round_trip() {
    let values = vec![
        VarValue::StringArray { max_len: 80, elements: vec![b"a".to_vec(), b"b".to_vec()] },
        VarValue::StringArray { max_len: 40, elements: vec![b"x".to_vec(), b"y".to_vec(), b"z".to_vec()] },
    ];
    let payload = encode_payload(&values).unwrap();
    let decoded = decode_payload(&payload).unwrap();
    assert_eq!(decoded.values, values);
}

#[test]
fn mixed_arrays_round_trip() {
    let values = vec![
        VarValue::NumericArray((0..=5).map(|n| n.to_string()).collect()),
        VarValue::StringArray { max_len: 16, elements: vec![b"one".to_vec(), b"two".to_vec()] },
    ];
    let payload = encode_payload(&values).unwrap();
    let decoded = decode_payload(&payload).unwrap();
    assert_eq!(decoded.values, values);
}

#[test]
fn ascii_round_trip_all_shapes() {
    let file = VarFile {
        filename: Some("VARS".to_string()),
        values: vec![
            VarValue::NumericScalar("42".to_string()),
            VarValue::StringScalar(b"Hi".to_vec()),
            VarValue::NumericArray(vec!["1".to_string(), "2".to_string()]),
            VarValue::StringArray { max_len: 16, elements: vec![b"a".to_vec(), b"b".to_vec()] },
        ],
    };
    let text = to_ascii(&file);
    let parsed = from_ascii(&text).unwrap();
    assert_eq!(parsed, file);
}

#[test]
fn count_mismatch_errors() {
    let text = "; sde-variables:1.0 pc1500\n; Count: 2\n1\n2\n3\n";
    assert!(from_ascii(text).is_err());
}

#[test]
fn string_escaping_round_trips() {
    let bytes = vec![b'a', b'\\', b'"', 0x01, b'z'];
    let escaped = escape_string(&bytes);
    assert!(escaped.contains("\\\\"));
    assert!(escaped.contains("\\\""));
    assert!(escaped.contains("\\x01"));
    assert_eq!(unescape_string(&escaped).unwrap(), bytes);
}

#[test]
fn decode_rejects_bad_separator() {
    assert!(decode_payload(&[0x01, 0x0B, 0x00, 0x00, 0x88, 0, 0, 0, 0, 0, 0, 0, 0]).is_err());
}

#[test]
fn decode_rejects_truncated_prefix() {
    assert!(decode_payload(&[0x00, 0x0B, 0x00]).is_err());
}

#[test]
fn decode_rejects_record_running_past_buffer() {
    assert!(decode_payload(&[0x00, 0x0B, 0x00, 0x00, 0x88, 1, 2, 3]).is_err());
}

#[test]
fn encoded_records_have_the_documented_layout() {
    let p = encode_payload(&[VarValue::StringScalar(b"AB".to_vec())]).unwrap();
    assert_eq!(&p[..5], &[0x00, 0x13, 0x00, 0x00, 16]);
    assert_eq!(p.len(), 21);
    assert_eq!(&p[5..8], &[b'A', b'B', 0]);
    let p = encode_payload(&[VarValue::NumericArray(vec!["1".to_string(), "2".to_string()])]).unwrap();
    assert_eq!(&p[..5], &[0x00, 19, 1, 0x00, 0x88]);
}

#[test]
fn encode_errors_name_their_cause() {
    assert_eq!(encode_payload(&[VarValue::NumericArray(vec![])]), Err(VarError::EmptyArray));
    assert_eq!(
        encode_payload(&[VarValue::StringArray { max_len: 300, elements: vec![vec![]] }]),
        Err(VarError::ElementTooLong { max_len: 300 })
    );
    assert_eq!(
        encode_payload(&[VarValue::StringArray { max_len: 100, elements: vec![vec![], vec![], vec![]] }]),
        Err(VarError::RecordTooLong { data_len: 300 })
    );
    assert!(matches!(encode_payload(&[VarValue::NumericScalar("x".to_string())]), Err(VarError::Number(_))));
}

#[test]
fn decode_errors_name_their_cause() {
    assert_eq!(decode_payload(&[0x00, 0x01, 0, 0, 0x88]), Err(VarError::ImpossibleLength { pos: 0, len: 2 }));
    assert_eq!(decode_payload(&[0x05]), Err(VarError::BadSeparator { pos: 0 }));
    assert_eq!(
        decode_payload(&[0x00, 0x0B, 0x00, 0x00, 0x10, 1, 2, 3, 4, 5, 6, 7, 8]),
        Err(VarError::BadShape { pos: 0, len: 8, expected: 16 })
    );
}

#[test]
fn single_element_array_comes_back_as_a_scalar() {
    let p = encode_payload(&[VarValue::NumericArray(vec!["7".to_string()])]).unwrap();
    assert_eq!(decode_payload(&p).unwrap().values, vec![VarValue::NumericScalar("7".to_string())]);
}

#[test]
fn ascii_text_layout_and_plus_sign_hex() {
    let file = VarFile {
        filename: None,
        values: vec![VarValue::StringArray { max_len: 4, elements: vec![vec![0xFF], b"q\"".to_vec()] }],
    };
    assert_eq!(to_ascii(&file), "; sde-variables:1.0 pc1500\n; Count: 1\nDIM $(1)*4\n\"\\xFF\"\n\"q\\\"\"\n");
    assert_eq!(unescape_string("\\x+F").unwrap(), vec![0x0F]);
    assert!(unescape_string("\\q").is_err());
    assert_eq!(unescape_string("ab\\").unwrap(), b"ab\\".to_vec());
}
