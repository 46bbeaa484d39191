use sharpdx::convert::{convert, convert_with, tokenized_outcome, ConvertStep};
use sharpdx::detect::Content;
use sharpdx::header;
use sharpdx::registry::Device;
use sharpdx::scanner::SegmentMarker;
use sharpdx::transfer::LineEnding;

#[test]
fn unknown_rejected() {
    assert!(convert(b"just some prose here\n", Device::Pc1500, None, true).is_err());
}

#[test]
fn listing_goes_to_the_tokenizer_and_tokenized_basic_to_the_lister() {
    match convert_with(b"10 PRINT\n", Device::Pc1600, Some("t"), false, LineEnding::Lf, SegmentMarker::Memory) {
        Ok(ConvertStep::Tokenize { device, name, with_header, marker }) => {
            assert_eq!(device, Device::Pc1600);
            assert_eq!(name.as_deref(), Some("t"));
            assert!(!with_header);
            assert_eq!(marker, SegmentMarker::Memory);
        },
        _ => panic!("expected tokenizing"),
    }
    let mut p = header::build(Device::Pc1500, Some("x"), 4);
    p.extend_from_slice(&[0x00, 0x0A, 0x01, 0x0D]);
    match convert(&p, Device::Pc1600, None, true) {
        Ok(ConvertStep::Detokenize { payload_start, device, eol }) => {
            assert_eq!(payload_start, 27);
            assert_eq!(device, Device::Pc1500);
            assert_eq!(eol, LineEnding::Platform);
        },
        _ => panic!("expected listing"),
    }
    let e = convert(&[0x00, 0x01, 0x02], Device::Pc1500, None, true).unwrap_err();
    assert_eq!(
        e.message(),
        "convert only handles BASIC; got unrecognized content. A tokenized file must include a CE-158 or PC-1600 header."
    );
}

#[test]
fn tokenized_payload_behind_its_header() {
    let out = tokenized_outcome(Device::Pc1500, Some("t"), true, vec![0x00, 0x0A, 0x01, 0x0D]);
    assert_eq!(out.content, Content::AsciiBasic);
    assert_eq!(&out.bytes[0..5], &[0x01, 0x40, b'C', b'O', b'M']);
    assert_eq!(out.bytes.len(), 27 + 4);
    let bare = tokenized_outcome(Device::Pc1600, None, false, vec![0x00, 0x0A, 0x01, 0x0D]);
    assert_eq!(bare.bytes, vec![0x00, 0x0A, 0x01, 0x0D]);
}
