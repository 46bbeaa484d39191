use sharpdx::detect::Content;
use sharpdx::header::{self, BuildHeader, FileType, ParsedHeader};
use sharpdx::pocket_device::PocketDevice;
use sharpdx::put_cmd::{build_put_bytes, resolve_effective_device, PutOptions};
use sharpdx::registry::{Device as RegDevice, Keyword, Registry};
use sharpdx::transfer::{PutError, PutStep};

fn opts(input_file: &str) -> PutOptions {
    PutOptions {
        device: None,
        port: None,
        format: None,
        start_address: None,
        run_address: None,
        raw: false,
        dry_run: false,
        flow_control: false,
        verbose: false,
        input_file: input_file.to_string(),
    }
}

/// The PC-1500 keyword table, as far as these sources need it.
fn pc1500_keywords() -> Registry {
    Registry::new(RegDevice::Pc1500, vec![Keyword::new("PRINT", 0xF097), Keyword::new("GOTO", 0xF192)])
}

fn sent(r: Result<PutStep, PutError>) -> Result<(Vec<u8>, usize), PutError> {
    match r {
        Ok(PutStep::Ready(b)) => Ok((b.bytes, b.header_len)),
        Ok(_) => panic!("listing work left to do"),
        Err(e) => Err(e),
    }
}

fn pc1600_basic_header(header_len: usize, device: RegDevice) -> ParsedHeader {
    ParsedHeader {
        device,
        file_type: FileType::Basic,
        offset: 0,
        header_len,
        length: 10,
        start_addr: 0,
        run_addr: 0,
        filename: None,
    }
}

#[test]
fn resolve_device_defaults_to_pc1500_without_header_or_flag() {
    assert_eq!(resolve_effective_device(None, None).unwrap(), PocketDevice::Pc1500);
}

#[test]
fn resolve_device_keeps_explicit_choice_without_header() {
    assert_eq!(resolve_effective_device(Some(PocketDevice::Pc1500a), None).unwrap(), PocketDevice::Pc1500a);
}

#[test]
fn resolve_device_pc1600_header_ambiguous_without_flag_errors() {
    let h = pc1600_basic_header(16, RegDevice::Pc1600);
    let err = resolve_effective_device(None, Some(&h)).unwrap_err();
    assert!(err.message().contains("pc1600emul"));
}

#[test]
fn resolve_device_pc1600_header_keeps_explicit_emulator_choice() {
    let h = pc1600_basic_header(16, RegDevice::Pc1600);
    assert_eq!(resolve_effective_device(Some(PocketDevice::Pc1600Emul), Some(&h)).unwrap(), PocketDevice::Pc1600Emul);
}

#[test]
fn resolve_device_family_mismatch_errors() {
    let h = pc1600_basic_header(27, RegDevice::Pc1500);
    assert!(resolve_effective_device(Some(PocketDevice::Pc1600), Some(&h)).is_err());
}

#[test]
fn resolve_device_messages_name_the_conflict() {
    let ce = pc1600_basic_header(27, RegDevice::Pc1500);
    assert_eq!(
        resolve_effective_device(Some(PocketDevice::Pc1600), Some(&ce)).unwrap_err().message(),
        "file has a PC-1500/CE-158 header, but --device pc1600 is PC-1600 family"
    );
    let p16 = pc1600_basic_header(16, RegDevice::Pc1600);
    assert_eq!(
        resolve_effective_device(Some(PocketDevice::Pc1500a), Some(&p16)).unwrap_err().message(),
        "file has a PC-1600 header, but --device pc1500a is PC-1500 family"
    );
    assert_eq!(resolve_effective_device(Some(PocketDevice::Pc1500a), Some(&ce)).unwrap(), PocketDevice::Pc1500a);
}

#[test]
fn build_put_bytes_sends_existing_header_as_is() {
    let raw = header::build(RegDevice::Pc1500, Some("x"), 4);
    let h = header::find(&raw).unwrap();
    let (bytes, header_len) = sent(build_put_bytes(
        &raw,
        Some(&h),
        Content::Ce158Basic,
        &opts("x.bbin"),
        PocketDevice::Pc1500,
        &pc1500_keywords(),
    ))
    .unwrap();
    assert_eq!(bytes, raw);
    assert_eq!(header_len, 27);
}

#[test]
fn build_put_bytes_tokenizes_reserve_ascii() {
    let raw = format!("{}1.0 pc1500\n\n[layer 1]\nlabel: MENU\nkey 1: PRINT\n", "; sde-reserve:");
    let reg = pc1500_keywords();
    let (bytes, header_len) = sent(build_put_bytes(
        raw.as_bytes(),
        None,
        Content::Ce158Reserve,
        &opts("prog.sdar"),
        PocketDevice::Pc1500,
        &reg,
    ))
    .unwrap();
    let h = header::find(&bytes).unwrap();
    assert_eq!(h.file_type, FileType::Reserve);
    assert_eq!(header_len, h.header_len);
    let layout = sharpdx::reserve::decode_payload(&bytes[h.payload_start()..], &reg).unwrap();
    assert_eq!(layout.labels[0], "MENU");
    assert_eq!(layout.keys[0][0], "PRINT");
}

#[test]
fn build_put_bytes_tokenizes_variables_ascii() {
    let raw = format!("{}1.0 pc1500\n; Count: 1\n42\n", "; sde-variables:");
    let (bytes, header_len) = sent(build_put_bytes(
        raw.as_bytes(),
        None,
        Content::Ce158Variables,
        &opts("prog.sdav"),
        PocketDevice::Pc1500,
        &pc1500_keywords(),
    ))
    .unwrap();
    let h = header::find(&bytes).unwrap();
    assert_eq!(h.file_type, FileType::Variables);
    assert_eq!(header_len, h.header_len);
    let file = sharpdx::variables::decode_payload(&bytes[h.payload_start()..]).unwrap();
    assert_eq!(file.values, vec![sharpdx::variables::VarValue::NumericScalar("42".to_string())]);
}

#[test]
fn build_put_bytes_sends_existing_reserve_header_as_is() {
    let reg = pc1500_keywords();
    let layout = sharpdx::reserve::ReserveLayout::default();
    let payload = sharpdx::reserve::encode_payload(&layout, &reg).unwrap();
    let header_bytes = header::build_header(BuildHeader {
        device: RegDevice::Pc1500,
        file_type: FileType::Reserve,
        name: Some("x"),
        payload_len: payload.len(),
        start_addr: 0,
        run_addr: 0,
    });
    let mut raw = header_bytes;
    raw.extend_from_slice(&payload);
    let h = header::find(&raw).unwrap();
    let (bytes, header_len) =
        sent(build_put_bytes(&raw, Some(&h), Content::Ce158Reserve, &opts("x.sdar"), PocketDevice::Pc1500, &reg))
            .unwrap();
    assert_eq!(bytes, raw);
    assert_eq!(header_len, h.header_len);
}

#[test]
fn build_put_bytes_synthesizes_machine_header_with_start_address() {
    let raw = [0x01u8, 0x02, 0x03];
    let mut o = opts("prog.bin");
    o.start_address = Some(0x38C5);
    let (bytes, header_len) =
        sent(build_put_bytes(&raw, None, Content::Unknown, &o, PocketDevice::Pc1500, &pc1500_keywords())).unwrap();
    let h = header::find(&bytes).unwrap();
    assert_eq!(h.file_type, FileType::Machine);
    assert_eq!(h.start_addr, 0x38C5);
    assert_eq!(h.run_addr, 0xFFFF);
    assert_eq!(header_len, 27);
    assert_eq!(&bytes[header_len..], &raw);
}

#[test]
fn build_put_bytes_raw_override_sends_unmodified_without_start_address() {
    let raw = [0xAAu8, 0xBB];
    let mut o = opts("prog.bin");
    o.raw = true;
    let (bytes, header_len) =
        sent(build_put_bytes(&raw, None, Content::Unknown, &o, PocketDevice::Pc1500, &pc1500_keywords())).unwrap();
    assert_eq!(bytes, raw);
    assert_eq!(header_len, 0);
}

#[test]
fn build_put_bytes_errors_without_header_start_address_or_raw() {
    let raw = [0xAAu8, 0xBB];
    let o = opts("prog.bin");
    let err = sent(build_put_bytes(&raw, None, Content::Unknown, &o, PocketDevice::Pc1500, &pc1500_keywords()))
        .unwrap_err();
    assert!(err.message().contains("--start-address"));
}

#[test]
fn build_put_bytes_asks_for_tokenizing_a_listing() {
    let raw = b"10 PRINT \"HI\"\n";
    match build_put_bytes(raw, None, Content::AsciiBasic, &opts("dir/prog.bas"), PocketDevice::Pc1500, &pc1500_keywords())
    {
        Ok(PutStep::Tokenize(q)) => {
            assert_eq!(q.device, RegDevice::Pc1500);
            assert_eq!(q.name.as_deref(), Some("PROG"));
            assert!(!q.forced);
        },
        _ => panic!("expected a tokenize step"),
    }
}
