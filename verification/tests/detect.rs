use sharpdx::detect::{detect, looks_like_text, Content};
use sharpdx::header::{self, BuildHeader, FileType};
use sharpdx::registry::Device;

#[test]
fn ascii_listing() {
    assert_eq!(detect(b"10 PRINT \"HI\"\n20 END\n"), Content::AsciiBasic);
    assert_eq!(detect(b"10 PRINT \"HI\"\r\n20 END\r\n\x1A"), Content::AsciiBasic);
    assert_eq!(detect(b"   10 \"A\":CLEAR\n  20 GOTO 10\n"), Content::AsciiBasic);
}

#[test]
fn not_basic() {
    assert_eq!(detect(b"hello world\nthis is prose\n"), Content::Text);
    assert_eq!(detect(&[0x00, 0x01, 0x02, 0x03]), Content::Unknown);
}

#[test]
fn number_columns_are_text_not_basic() {
    let pun = b"                 50                     1 MARTIN\r\n\x1A";
    assert_eq!(detect(pun), Content::Text);
    assert_eq!(detect(b"10  PRINT\n"), Content::Text);
    assert_eq!(detect(b"     10 PRINT\n"), Content::Text);
    assert_eq!(detect(b"65279 END\n"), Content::AsciiBasic);
    assert_eq!(detect(b"    10 PRINT\n"), Content::AsciiBasic);
    assert_eq!(detect(b"10\tPRINT\n"), Content::AsciiBasic);
    assert_eq!(detect(b"10 GOSUB \"A\"\n20 END\n#SEGMENT\n10 \"A\" RETURN\n"), Content::AsciiBasic);
}

#[test]
fn text_detection() {
    assert_eq!(detect("; Z80 source\n\tLD A,0 ; Grüße\r\n".as_bytes()), Content::Text);
    assert_eq!(detect("\u{FEFF}KEY=VALUE\n".as_bytes()), Content::Text);
    assert_eq!(detect("snow \u{2603}\n".as_bytes()), Content::Unknown);
    assert_eq!(detect(&[b'A', 0x81, b'\n']), Content::Unknown);
    assert_eq!(detect(b"  \n"), Content::Unknown);
}

#[test]
fn tokenized_with_headers() {
    let mut ce = header::build(Device::Pc1500, Some("x"), 4);
    ce.extend_from_slice(&[0x00, 0x0A, 0x01, 0x0D]);
    assert_eq!(detect(&ce), Content::Ce158Basic);

    let mut p16 = header::build(Device::Pc1600, None, 4);
    p16.extend_from_slice(&[0x00, 0x0A, 0x01, 0x0D]);
    assert_eq!(detect(&p16), Content::Pc1600Basic);
}

#[test]
fn headerless_tokenized_is_unknown() {
    assert_eq!(detect(&[0x00, 0x0A, 0x07, 0x22, 0x41, 0x22, 0xF1, 0xB3, 0x30, 0x0D]), Content::Unknown);
}

#[test]
fn headered_reserve_and_variables() {
    let h = header::build_header(BuildHeader {
        device: Device::Pc1500,
        file_type: FileType::Reserve,
        name: Some("x"),
        payload_len: 188,
        start_addr: 0,
        run_addr: 0,
    });
    assert_eq!(detect(&h), Content::Ce158Reserve);

    let h = header::build_header(BuildHeader {
        device: Device::Pc1500,
        file_type: FileType::Variables,
        name: Some("x"),
        payload_len: 12,
        start_addr: 0,
        run_addr: 0,
    });
    assert_eq!(detect(&h), Content::Ce158Variables);
}

#[test]
fn headerless_marker_wins_over_ascii_basic_heuristic() {
    let text = "; sde-reserve:1.0 pc1500\n\n[layer 1]\nlabel: 10 PRINT\nkey 1: 20 GOTO 10\n";
    assert_eq!(detect(text.as_bytes()), Content::Ce158Reserve);

    let text = "; sde-variables:1.0 pc1500\n; Count: 1\n10\n";
    assert_eq!(detect(text.as_bytes()), Content::Ce158Variables);
}

#[test]
fn describe_and_tokenized_device() {
    assert_eq!(Content::Ce158Basic.describe(), "tokenized BASIC (CE-158 header)");
    assert_eq!(Content::Unknown.describe(), "unrecognized content");
    assert_eq!(Content::Pc1600Basic.tokenized_device(), Some(Device::Pc1600));
    assert_eq!(Content::Ce158Basic.tokenized_device(), Some(Device::Pc1500));
    assert_eq!(Content::Text.tokenized_device(), None);
    assert!(looks_like_text(b"plain\n"));
    assert!(!looks_like_text(b"\x01"));
}
