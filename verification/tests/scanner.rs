use sharpdx::registry::{Device, Keyword, Registry};
use sharpdx::scanner::{tokenize, SegmentMarker, TokenizeError};

/// The keywords these listings use, with their token codes.
fn keywords(device: Device) -> Vec<Keyword> {
    let mut k = vec![
        Keyword::new("CLEAR", 0xF187),
        Keyword::new("WAIT", 0xF1B3),
        Keyword::new("FOR", 0xF1A5),
        Keyword::new("TO", 0xF1B1),
        Keyword::new("REM", 0xF1AB),
        Keyword::new("INPUT", 0xF091),
        Keyword::new("RUN", 0xF1A4),
        Keyword::new("RESTORE", 0xF1A7),
        Keyword::new("ON", 0xF19C),
        Keyword::new("GOSUB", 0xF194),
        Keyword::new("GOTO", 0xF192),
        Keyword::new("THEN", 0xF1AE),
        Keyword::new("IF", 0xF196),
        Keyword::new("END", 0xF18E),
        Keyword::new("PRINT", 0xF097),
    ];
    if device == Device::Pc1600 {
        k.push(Keyword::new("RESUME", 0xF28D));
    } else {
        k.push(Keyword::new("RESUME", 0xF1A3));
    }
    k
}

fn pc1500() -> Registry {
    Registry::new(Device::Pc1500, keywords(Device::Pc1500))
}

fn pc1600() -> Registry {
    Registry::new(Device::Pc1600, keywords(Device::Pc1600))
}

fn tok(src: &str) -> Vec<u8> {
    tokenize(src, &pc1500(), SegmentMarker::Wire).unwrap()
}

fn tok1600(src: &str) -> Vec<u8> {
    tokenize(src, &pc1600(), SegmentMarker::Wire).unwrap()
}

#[test]
fn simple_line() {
    assert_eq!(
        tok("   10 \"A\":CLEAR :WAIT \n"),
        vec![0x00, 0x0A, 0x0A, 0x22, 0x41, 0x22, 0x3A, 0xF1, 0x87, 0x3A, 0xF1, 0xB3, 0x0D]
    );
}

#[test]
fn glued_keyword_after_digit() {
    assert_eq!(
        tok("90 FOR I=1TO B\n"),
        vec![0x00, 0x5A, 0x09, 0xF1, 0xA5, 0x49, 0x3D, 0x31, 0xF1, 0xB1, 0x42, 0x0D]
    );
}

#[test]
fn empty_line_is_empty_body_not_an_error() {
    assert_eq!(tok("10\n"), vec![0x00, 0x0A, 0x01, 0x0D]);
}

#[test]
fn quote_is_rem_shorthand_and_copies_rest_verbatim() {
    let got = tok("10 'X1 = 1.POSITION ON STACK\n");
    assert_eq!(got[..3], [0x00, 0x0A, 0x1A]);
    assert_eq!(&got[3..], b"'X1 = 1.POSITION ON STACK\r");
    assert_eq!(tok("10 '\n"), vec![0x00, 0x0A, 0x02, b'\'', 0x0D]);
}

#[test]
fn rem_copies_rest_verbatim() {
    let got = tok("10 REM FOR I\n");
    assert_eq!(&got[..3], &[0x00, 0x0A, 0x09]);
    assert_eq!(&got[3..], &[0xF1, 0xAB, b' ', b'F', b'O', b'R', b' ', b'I', 0x0D]);
}

#[test]
fn keyword_inside_string_is_literal() {
    let got = tok("40 INPUT \"REM. RATE (%)?\";O\n");
    assert_eq!(&got[..5], &[0x00, 0x28, 0x15, 0xF0, 0x91]);
    assert!(got.windows(4).any(|w| w == b"REM."));
}

#[test]
fn doc_comments_dropped() {
    assert!(tok("// hello\n# also\n").is_empty());
}

#[test]
fn unnumbered_lines_dropped() {
    assert_eq!(tok("PRINT 1\n20 END\n"), tok("20 END\n"));
}

#[test]
fn pc1600_binary_line_number_targets() {
    assert_eq!(tok1600("10 RESUME 100\n"), vec![0x00, 0x0A, 0x07, 0xF2, 0x8D, 0x1F, 0x00, 0x64, 0x00, 0x0D]);
    assert_eq!(tok1600("10 RUN 100\n"), vec![0x00, 0x0A, 0x07, 0xF1, 0xA4, 0x1F, 0x00, 0x64, 0x00, 0x0D]);
    assert_eq!(tok1600("10 RESTORE 100\n"), vec![0x00, 0x0A, 0x07, 0xF1, 0xA7, 0x1F, 0x00, 0x64, 0x00, 0x0D]);
    assert_eq!(
        tok1600("10 ON A GOSUB 100\n"),
        vec![0x00, 0x0A, 0x0A, 0xF1, 0x9C, 0x41, 0xF1, 0x94, 0x1F, 0x00, 0x64, 0x00, 0x0D]
    );
    let has_binary_target = |bytes: &[u8]| bytes.windows(4).any(|w| w == [0x1F, 0x00, 0x64, 0x00]);
    assert!(has_binary_target(&tok1600("10 GOTO 100\n")));
    assert!(has_binary_target(&tok1600("10 GOSUB 100\n")));
    assert!(has_binary_target(&tok1600("10 IF 1 THEN 100\n")));
}

#[test]
fn pc1500_never_uses_binary_line_number_targets() {
    assert!(!tok("10 RESUME 100\n").contains(&0x1F));
    assert!(!tok("10 GOTO 100\n").contains(&0x1F));
}

#[test]
fn line_too_long_errors() {
    let long = format!("10 {}\n", "\"x\";:".repeat(60));
    assert!(tokenize(&long, &pc1500(), SegmentMarker::Wire).is_err());
}

#[test]
fn segment_marker_wire_vs_memory() {
    assert_eq!(tokenize("#SEGMENT\n", &pc1500(), SegmentMarker::Wire).unwrap(), vec![0xFF, 0x00, 0x00]);
    assert_eq!(tokenize("#SEGMENT\n", &pc1500(), SegmentMarker::Memory).unwrap(), vec![0xFF]);
}

#[test]
fn bare_99999_line_is_a_segment_marker_alias() {
    assert_eq!(
        tokenize("99999\n", &pc1500(), SegmentMarker::Wire).unwrap(),
        tokenize("#SEGMENT\n", &pc1500(), SegmentMarker::Wire).unwrap(),
    );
    assert_eq!(tokenize("99999\n", &pc1500(), SegmentMarker::Memory).unwrap(), vec![0xFF]);
}

#[test]
fn too_long_line_reports_its_number_and_length() {
    let long = format!("70 {}\n", "\"x\";:".repeat(60));
    let err = tokenize(&long, &pc1500(), SegmentMarker::Wire).unwrap_err();
    assert_eq!(err, TokenizeError::LineTooLong { line_no: 70, len: 300 });
    assert_eq!(err.message(), "line 70 is too long: 300 tokenized bytes (max 254)");
}

#[test]
fn oversized_target_stays_digits_and_line_numbers_wrap() {
    // 70000 does not fit 16 bits: the digits stay as they are.
    assert_eq!(tok1600("10 GOTO 70000\n"), vec![0x00, 0x0A, 0x08, 0xF1, 0x92, b'7', b'0', b'0', b'0', b'0', 0x0D]);
    // Line numbers are cut to 16 bits.
    assert_eq!(&tok("65546 END\n")[..2], &[0x00, 0x0A]);
}

#[test]
fn registry_lookups() {
    let reg = pc1500();
    assert_eq!(reg.lookup("GOTO").unwrap().code, 0xF192);
    assert!(reg.lookup("GOT").is_none());
    assert_eq!(reg.lookup_code(0xF1AB).unwrap().name, b"REM".to_vec());
    assert_eq!(reg.longest_keyword_prefix(b"GOSUB10").unwrap().code, 0xF194);
    assert!(reg.longest_keyword_prefix(b"XYZ").is_none());
    assert!(reg.is_two_byte_token_high_byte(0xF1) && !reg.is_two_byte_token_high_byte(0x41));
    assert_eq!(reg.device(), Device::Pc1500);
}
