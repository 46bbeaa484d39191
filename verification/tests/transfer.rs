use sharpdx::detect::{detect_from_header, Content};
use sharpdx::header;
use sharpdx::registry::{Device, Registry};
use sharpdx::transfer::{
    build_put, classify_disk_file, decode_device_text, decode_host_text, disk_ext_for, encode_text, extract,
    looks_like_device_text, DiskFileKind, Endpoint, ExtractStep, Extracted, GetSpec, LineEnding, PutBytes, PutError,
    PutKind, PutSpec, PutStep,
};

fn no_keywords() -> Registry {
    Registry::new(Device::Pc1500, Vec::new())
}

fn ready(r: Result<PutStep, PutError>) -> Result<PutBytes, PutError> {
    match r {
        Ok(PutStep::Ready(b)) => Ok(b),
        Ok(_) => panic!("listing work left to do"),
        Err(e) => Err(e),
    }
}

fn file(r: Result<ExtractStep, sharpdx::transfer::ExtractError>) -> Extracted {
    match r {
        Ok(ExtractStep::Ready(x)) => x,
        Ok(_) => panic!("listing work left to do"),
        Err(e) => panic!("{}", e.message()),
    }
}

#[test]
fn encode_text_converts_charset_and_line_endings() {
    assert_eq!(encode_text("A\u{e4}\nB\r\nC\rD").unwrap(), b"A\x84\r\nB\r\nC\r\nD\x1A");
    assert_eq!(encode_text("\u{fc}").unwrap(), vec![0x81, 0x1A]);
    // An existing EOF byte is not doubled.
    assert_eq!(encode_text("X\r\n\u{1A}").unwrap(), b"X\r\n\x1A");
}

#[test]
fn encode_text_rejects_unmappable() {
    let err = encode_text("ok\nsnow \u{2603}").unwrap_err().message();
    assert!(err.contains("line 2, column 6"), "{err}");
}

#[test]
fn host_text_bom_and_invalid_utf8() {
    assert_eq!(decode_host_text(b"\xEF\xBB\xBFhi").unwrap(), "hi");
    assert_eq!(decode_host_text(b"ok\xFFno").unwrap_err().valid_up_to, 2);
    assert!(decode_host_text(b"ok\xFFno").unwrap_err().message().contains("byte offset 2"));
}

#[test]
fn device_text_detection() {
    assert!(looks_like_device_text(b"hello\r\n\x1A\x00\x01"));
    assert!(!looks_like_device_text(b"  \r\n\x1A"));
    assert!(!looks_like_device_text(b"\xFFabc"));
    assert!(!looks_like_device_text(b"ab\x01c"));
    assert!(looks_like_device_text(b"caf\x82"));
}

#[test]
fn floppy_file_kinds_and_extensions() {
    let mut basic = header::build(Device::Pc1600, None, 4);
    basic.extend_from_slice(&[0x00, 0x0A, 0x01, 0x0D]);
    assert_eq!(classify_disk_file(&basic), DiskFileKind::Basic { len: 4 });
    assert_eq!(classify_disk_file(b"10 PRINT\r\n\x1A"), DiskFileKind::AsciiBasic);
    assert_eq!(classify_disk_file(b"hello\r\n\x1A"), DiskFileKind::Text);
    assert_eq!(classify_disk_file(&[0u8, 1, 2]), DiskFileKind::Unknown);
    assert_eq!(disk_ext_for(PutKind::AsIs, &basic, Some("bin")), "BAS");
    assert_eq!(disk_ext_for(PutKind::TokenizedBasic, b"", None), "BAS");
    assert_eq!(disk_ext_for(PutKind::MachineWrapped, b"", Some("cfg")), "CFG");
    assert_eq!(disk_ext_for(PutKind::MachineWrapped, b"", Some("toolong")), "BIN");
    assert_eq!(disk_ext_for(PutKind::Text, b"", None), "");
    assert_eq!(disk_ext_for(PutKind::Raw, b"", Some("")), "");
}

#[test]
fn decode_device_text_cuts_at_eof() {
    let bytes = b"A\x84\r\nB\r\n\x1Agarbage";
    assert_eq!(decode_device_text(bytes, LineEnding::Lf), "A\u{e4}\nB\n");
    assert_eq!(decode_device_text(bytes, LineEnding::CrLf), "A\u{e4}\r\nB\r\n");
    assert!(looks_like_device_text(bytes));
    assert!(!looks_like_device_text(&[0x00, 0x0A, 0x01, 0x0D]));
    assert!(!looks_like_device_text(b"\x1A"));
}

#[test]
fn text_roundtrip() {
    let host = "; Z80\n\tLD A,\u{e9}\n";
    let dev = encode_text(host).unwrap();
    assert_eq!(decode_device_text(&dev, LineEnding::Lf), host);
}

fn put_spec(device: Device) -> PutSpec<'static> {
    PutSpec {
        source_name: "x.asm",
        device,
        format: None,
        start_address: None,
        run_address: None,
        raw: false,
        endpoint: Endpoint::Serial,
    }
}

#[test]
fn put_text_pc1600_and_pc1500() {
    let reg = no_keywords();
    let out = ready(build_put(b"LD A,0\n", None, Content::Text, &put_spec(Device::Pc1600), &reg)).unwrap();
    assert_eq!(out.kind, PutKind::Text);
    assert_eq!(out.bytes, b"LD A,0\r\n\x1A");
    assert!(build_put(b"LD A,0\n", None, Content::Text, &put_spec(Device::Pc1500), &reg).is_err());
    let mut raw = put_spec(Device::Pc1500);
    raw.raw = true;
    assert_eq!(ready(build_put(b"LD\n", None, Content::Text, &raw, &reg)).unwrap().kind, PutKind::Raw);
}

#[test]
fn extract_device_text() {
    let spec = GetSpec { format: Some(sharpdx::transfer::Format::Ascii), skip_header: false, eol: LineEnding::Lf };
    let out = file(extract(b"ORG 0\r\n\x81\r\n\x1A", &spec, &no_keywords()));
    assert_eq!(out.content, Content::Text);
    assert_eq!(out.ext, "txt");
    assert_eq!(out.bytes, "ORG 0\n\u{fc}\n".as_bytes());
}

fn disk_spec(source: &'static str) -> PutSpec<'static> {
    PutSpec { endpoint: Endpoint::Disk, source_name: source, ..put_spec(Device::Pc1600) }
}

fn disk_put(raw: &[u8], spec: &PutSpec) -> Result<PutBytes, PutError> {
    let h = header::find(raw);
    ready(build_put(raw, h.as_ref(), detect_from_header(h.as_ref(), raw), spec, &no_keywords()))
}

#[test]
fn disk_put_headers_and_binaries() {
    let mut p16 = header::build(Device::Pc1600, None, 4);
    p16.extend_from_slice(&[0x00, 0x0A, 0x01, 0x0D]);
    assert_eq!(disk_put(&p16, &disk_spec("x.bbin")).unwrap().bytes, p16);

    let mut with_start = disk_spec("x.bbin");
    with_start.start_address = Some(0x1000);
    assert!(disk_put(&p16, &with_start).unwrap_err().message().contains("already has a PC-1600 header"));

    let mut ce = header::build(Device::Pc1500, Some("x"), 4);
    ce.extend_from_slice(&[0x00, 0x0A, 0x01, 0x0D]);
    assert!(disk_put(&ce, &disk_spec("x.bin")).unwrap_err().message().contains("sde convert"));
    let mut raw = disk_spec("x.bin");
    raw.raw = true;
    assert_eq!(disk_put(&ce, &raw).unwrap().kind, PutKind::Raw);

    let blob = [0xC3u8, 0x00, 0x00, 0x01];
    assert!(disk_put(&blob, &disk_spec("mc.bin")).unwrap_err().message().contains("--start-address"));
    let mut mc = disk_spec("mc.bin");
    mc.start_address = Some(0x01_C000);
    let out = disk_put(&blob, &mc).unwrap();
    assert_eq!(out.kind, PutKind::MachineWrapped);
    assert_eq!(
        &out.bytes[..16],
        &[0xFF, 0x10, 0x00, 0x00, 0x10, 4, 0, 0, 0x00, 0xC0, 0x01, 0xFF, 0xFF, 0x01, 0x00, 0x0F]
    );
    assert_eq!(classify_disk_file(&out.bytes), DiskFileKind::Machine { load: 0x01_C000, run: 0x01_FFFF, len: 4 });
    assert_eq!(disk_ext_for(out.kind, &out.bytes, Some("bin")), "BIN");
    assert_eq!(disk_ext_for(out.kind, &out.bytes, Some("toolong")), "BIN");
    mc.start_address = Some(0x100_0000);
    assert!(disk_put(&blob, &mc).is_err());

    let sdav = format!("{}1.0 pc1500\n; Count: 1\n42\n", "; sde-variables:");
    assert!(disk_put(sdav.as_bytes(), &disk_spec("v.sdav")).unwrap_err().message().contains("PC-1500 only"));
}

#[test]
fn disk_put_text() {
    let out = disk_put("ORG 0\n; \u{e4}\n".as_bytes(), &disk_spec("p.asm")).unwrap();
    assert_eq!(out.kind, PutKind::Text);
    assert_eq!(out.bytes, b"ORG 0\r\n; \x84\r\n\x1A");
    assert_eq!(disk_ext_for(out.kind, &out.bytes, Some("asm")), "ASM");
    assert_eq!(disk_ext_for(out.kind, &out.bytes, None), "");
}

#[test]
fn floppy_machine_put_then_get_gives_the_code_back() {
    let mut mc = disk_spec("mc.bin");
    mc.start_address = Some(0x2_C000);
    let stored = disk_put(&[0x3E, 0x01, 0xC9], &mc).unwrap().bytes;
    let spec = GetSpec { format: None, skip_header: true, eol: LineEnding::Lf };
    let out = file(extract(&stored, &spec, &no_keywords()));
    assert_eq!(out.bytes, vec![0x3E, 0x01, 0xC9]);
    assert_eq!(out.ext, "bin");
    assert_eq!(out.notes.len(), 1);
    let kept = file(extract(&stored, &GetSpec { format: None, skip_header: false, eol: LineEnding::Lf }, &no_keywords()));
    assert_eq!(kept.bytes, stored);
}

#[test]
fn floppy_as_is_put_then_binary_get_is_identical() {
    let mut p16 = header::build(Device::Pc1600, None, 4);
    p16.extend_from_slice(&[0x00, 0x0A, 0x01, 0x0D]);
    let stored = disk_put(&p16, &disk_spec("dep.bin")).unwrap();
    assert_eq!(stored.kind, PutKind::AsIs);
    assert_eq!(stored.header_len, 16);
    let spec = GetSpec { format: Some(sharpdx::transfer::Format::Binary), skip_header: false, eol: LineEnding::Lf };
    assert_eq!(file(extract(&stored.bytes, &spec, &no_keywords())).bytes, p16);
}

#[test]
fn extract_unknown_and_listing_defaults() {
    let auto = GetSpec { format: None, skip_header: false, eol: LineEnding::Lf };
    let blob = [0x00u8, 0x01, 0x02];
    let out = file(extract(&blob, &auto, &no_keywords()));
    assert_eq!(out.bytes, blob);
    assert_eq!(out.ext, "bin");
    assert_eq!(out.notes, vec!["unrecognized content, saved unchanged".to_string()]);
    let out = file(extract(b"10 PRINT\r\n20 END\r\n\x1A", &auto, &no_keywords()));
    assert_eq!(out.bytes, b"10 PRINT\n20 END\n");
    assert_eq!(out.ext, "bas");
    let machine = ready(build_put(&[1, 2, 3], None, Content::Unknown, &PutSpec { start_address: Some(0x2000), ..disk_spec("m") }, &no_keywords()))
        .unwrap()
        .bytes;
    assert!(extract(&machine, &GetSpec { format: Some(sharpdx::transfer::Format::Ascii), ..auto }, &no_keywords()).is_err());
}

#[test]
fn extract_disk_defaults() {
    let auto = |eol| GetSpec { format: None, skip_header: false, eol };
    let mut p16 = header::build(Device::Pc1600, None, 4);
    p16.extend_from_slice(&[0x00, 0x0A, 0x01, 0x0D]);
    // BASIC -> listing: handed back as the payload to list.
    match extract(&p16, &auto(LineEnding::CrLf), &no_keywords()) {
        Ok(ExtractStep::Detokenize { payload_start, .. }) => assert_eq!(payload_start, 16),
        _ => panic!("tokenized BASIC is listed"),
    }
    // BASIC, binary, header kept / skipped
    let bin = file(extract(&p16, &GetSpec { format: Some(sharpdx::transfer::Format::Binary), ..auto(LineEnding::Lf) }, &no_keywords()));
    assert_eq!(bin.bytes, p16);
    let bare = file(extract(
        &p16,
        &GetSpec { format: Some(sharpdx::transfer::Format::Binary), skip_header: true, eol: LineEnding::Lf },
        &no_keywords(),
    ));
    assert_eq!(bare.bytes, &p16[16..]);
    // Machine: header kept by default; explicit ascii is an error.
    let mc = ready(build_put(&[1, 2, 3], None, Content::Unknown, &PutSpec { start_address: Some(0x2000), ..disk_spec("m") }, &no_keywords()))
        .unwrap()
        .bytes;
    assert_eq!(file(extract(&mc, &auto(LineEnding::Lf), &no_keywords())).bytes, mc);
    assert!(extract(&mc, &GetSpec { format: Some(sharpdx::transfer::Format::Ascii), ..auto(LineEnding::Lf) }, &no_keywords()).is_err());
    // Unknown -> unchanged, with a note.
    let blob = [0x00u8, 0x01, 0x02];
    let out = file(extract(&blob, &auto(LineEnding::Lf), &no_keywords()));
    assert_eq!(out.bytes, blob);
    assert_eq!(out.ext, "bin");
    assert_eq!(out.notes, vec!["unrecognized content, saved unchanged".to_string()]);
    // ASCII-saved BASIC listing -> listing with host line endings, 1A stripped.
    let out = file(extract(b"10 PRINT\r\n20 END\r\n\x1A", &auto(LineEnding::Lf), &no_keywords()));
    assert_eq!(out.bytes, b"10 PRINT\n20 END\n");
}
