use sharpdx::header::{build, build_header, expected_total_bytes, find, BuildHeader, FileType, CE158_LEN};
use sharpdx::registry::Device;

#[test]
fn ce158_roundtrip_shape() {
    let h = build(Device::Pc1500, Some("depreciation"), 586);
    assert_eq!(h.len(), 27);
    assert_eq!(&h[0..5], &[0x01, 0x40, b'C', b'O', b'M']);
    assert_eq!(&h[5..17], b"DEPRECIATION");
    assert_eq!(&h[0x17..0x19], &[0x02, 0x49]);
    let p = find(&h).unwrap();
    assert_eq!(p.device, Device::Pc1500);
    assert_eq!(p.file_type, FileType::Basic);
    assert_eq!(p.length, 586);
    assert_eq!(p.start_addr, 0);
    assert_eq!(p.run_addr, 0);
    assert_eq!(p.filename.as_deref(), Some("DEPRECIATION"));
    assert_eq!(p.payload_start(), 27);
}

#[test]
fn pc1600_roundtrip_shape() {
    let h = build(Device::Pc1600, None, 586);
    assert_eq!(h.len(), 16);
    assert_eq!(&h[0..5], &[0xFF, 0x10, 0x00, 0x00, 0x21]);
    assert_eq!(&h[5..8], &[0x4A, 0x02, 0x00]);
    assert_eq!(&h[14..16], &[0x00, 0x0F]);
    let p = find(&h).unwrap();
    assert_eq!(p.device, Device::Pc1600);
    assert_eq!(p.file_type, FileType::Basic);
    assert_eq!(p.length, 586);
    assert_eq!(p.filename, None);
    assert_eq!(p.payload_start(), 16);
}

#[test]
fn ce158_machine_roundtrip() {
    let h = build_header(BuildHeader {
        device: Device::Pc1500,
        file_type: FileType::Machine,
        name: Some("prog"),
        payload_len: 100,
        start_addr: 0x38C5,
        run_addr: 0xFFFF,
    });
    let p = find(&h).unwrap();
    assert_eq!(p.file_type, FileType::Machine);
    assert_eq!(p.length, 100);
    assert_eq!(p.start_addr, 0x38C5);
    assert_eq!(p.run_addr, 0xFFFF);
    assert_eq!(p.filename.as_deref(), Some("PROG"));
}

#[test]
fn pc1600_machine_roundtrip() {
    let h = build_header(BuildHeader {
        device: Device::Pc1600,
        file_type: FileType::Machine,
        name: None,
        payload_len: 4096,
        start_addr: 0x123456,
        run_addr: 0xABCDEF & 0xFFFFFF,
    });
    let p = find(&h).unwrap();
    assert_eq!(p.file_type, FileType::Machine);
    assert_eq!(p.length, 4096);
    assert_eq!(p.start_addr, 0x123456);
    assert_eq!(p.run_addr, 0xABCDEF);
}

#[test]
fn find_tolerates_leading_noise() {
    let mut buf = vec![0x00, 0x00, 0x00];
    buf.extend(build(Device::Pc1500, Some("x"), 10));
    assert_eq!(find(&buf).unwrap().offset, 3);
}

#[test]
fn ce158_reserve_roundtrip_shape() {
    let h = build_header(BuildHeader {
        device: Device::Pc1500,
        file_type: FileType::Reserve,
        name: Some("x"),
        payload_len: 188,
        start_addr: 0,
        run_addr: 0,
    });
    assert_eq!(h[1], b'A');
    let p = find(&h).unwrap();
    assert_eq!(p.file_type, FileType::Reserve);
    assert_eq!(p.length, 188);
    assert_eq!(p.start_addr, 0);
    assert_eq!(p.run_addr, 0);
}

#[test]
fn ce158_variables_roundtrip_shape() {
    let h = build_header(BuildHeader {
        device: Device::Pc1500,
        file_type: FileType::Variables,
        name: Some("x"),
        payload_len: 999,
        start_addr: 0,
        run_addr: 0,
    });
    assert_eq!(h[1], b'H');
    assert_eq!(&h[0x17..0x19], &[0x00, 0x00]);
    let p = find(&h).unwrap();
    assert_eq!(p.file_type, FileType::Variables);
    assert_eq!(p.length, 1);
}

#[test]
fn expected_total_bytes_stages() {
    assert_eq!(expected_total_bytes(b"not a header"), None);
    let full = build(Device::Pc1500, Some("x"), 10);
    assert_eq!(expected_total_bytes(&full[..10]), None);
    assert_eq!(expected_total_bytes(&full), Some(27 + 10));
    let mut with_payload = full.clone();
    with_payload.extend(std::iter::repeat_n(0u8, 10));
    assert_eq!(expected_total_bytes(&with_payload), Some(27 + 10));
}

#[test]
fn expected_total_bytes_undercounts_for_variables() {
    let h = build_header(BuildHeader {
        device: Device::Pc1500,
        file_type: FileType::Variables,
        name: Some("x"),
        payload_len: 999,
        start_addr: 0,
        run_addr: 0,
    });
    assert_eq!(expected_total_bytes(&h), Some(CE158_LEN + 1));
}

#[test]
fn built_header_is_found_again_after_payload() {
    let mut h = build(Device::Pc1600, None, 3);
    h.extend_from_slice(&[1, 2, 3]);
    let p = find(&h).unwrap();
    assert_eq!((p.offset, p.header_len, p.length), (0, 16, 3));
    assert_eq!(p.payload_start() + p.length, h.len());
}
