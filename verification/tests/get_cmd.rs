use sharpdx::get_cmd::{process_normal, process_raw, resolve_output_path, Format, GetOptions, GetStep, Outcome};
use sharpdx::header::{self, BuildHeader, FileType, ParsedHeader};
use sharpdx::pocket_device::PocketDevice;
use sharpdx::registry::{Device as RegDevice, Keyword, Registry};
use sharpdx::transfer::ExtractError;

fn opts() -> GetOptions {
    GetOptions {
        device: PocketDevice::Pc1500,
        port: None,
        format: Format::Ascii,
        skip_header: false,
        raw: false,
        dry_run: false,
        flow_control: false,
        verbose: false,
        output_file: None,
    }
}

/// The PC-1500 keyword table, as far as these transfers need it.
fn pc1500_keywords() -> Registry {
    Registry::new(RegDevice::Pc1500, vec![Keyword::new("PRINT", 0xF097)])
}

fn ready(r: Result<GetStep, ExtractError>) -> Result<Outcome, ExtractError> {
    match r {
        Ok(GetStep::Ready(o)) => Ok(o),
        Ok(_) => panic!("listing work left to do"),
        Err(e) => Err(e),
    }
}

fn machine(data: &[u8]) -> Vec<u8> {
    let mut raw = header::build_header(BuildHeader {
        device: RegDevice::Pc1500,
        file_type: FileType::Machine,
        name: Some("x"),
        payload_len: 4,
        start_addr: 0x8000,
        run_addr: 0xFFFF,
    });
    raw.extend_from_slice(data);
    raw
}

#[test]
fn machine_ascii_format_is_an_error() {
    let data = machine(&[1, 2, 3, 4]);
    let err = ready(process_normal(&data, &opts(), &pc1500_keywords())).unwrap_err();
    assert!(err.message().contains("--format binary"));
}

#[test]
fn machine_binary_format_ok_and_keeps_header_by_default() {
    let data = machine(&[1, 2, 3, 4]);
    let mut o = opts();
    o.format = Format::Binary;
    let outcome = ready(process_normal(&data, &o, &pc1500_keywords())).unwrap();
    assert_eq!(outcome.bytes, data);
    assert!(outcome.path.ends_with(".bin"));
}

#[test]
fn skip_header_strips_header_in_binary_mode() {
    let header_bytes = header::build(RegDevice::Pc1500, Some("x"), 4);
    let mut data = header_bytes.clone();
    data.extend_from_slice(&[1, 2, 3, 4]);
    let mut o = opts();
    o.format = Format::Binary;
    o.skip_header = true;
    let outcome = ready(process_normal(&data, &o, &pc1500_keywords())).unwrap();
    assert_eq!(outcome.bytes, vec![1, 2, 3, 4]);
}

#[test]
fn output_filename_falls_back_to_unnamed_without_header_filename() {
    let path = resolve_output_path(None, None, "bin");
    assert_eq!(path, "unnamed.bin");
}

#[test]
fn output_filename_uses_header_filename_when_no_cli_arg() {
    let h = ParsedHeader {
        device: RegDevice::Pc1500,
        file_type: FileType::Basic,
        offset: 0,
        header_len: 27,
        length: 4,
        start_addr: 0,
        run_addr: 0,
        filename: Some("MYPROG".to_string()),
    };
    let path = resolve_output_path(None, Some(&h), "bas");
    assert_eq!(path, "MYPROG.bas");
}

#[test]
fn output_filename_cli_arg_wins_and_keeps_existing_extension() {
    let path = resolve_output_path(Some("out.txt"), None, "bas");
    assert_eq!(path, "out.txt");
}

#[test]
fn raw_mode_strips_same_family_header() {
    let header_bytes = header::build(RegDevice::Pc1500, Some("x"), 2);
    let mut data = header_bytes;
    data.extend_from_slice(&[0xAA, 0xBB]);
    let mut o = opts();
    o.raw = true;
    o.output_file = Some("out.bin".to_string());
    let outcome = process_raw(&data, &o);
    assert_eq!(outcome.bytes, vec![0xAA, 0xBB]);
}

#[test]
fn reserve_ascii_get() {
    let reg = pc1500_keywords();
    let mut layout = sharpdx::reserve::ReserveLayout::default();
    layout.labels[0] = "MENU".to_string();
    layout.keys[0][0] = "PRINT".to_string();
    let payload = sharpdx::reserve::encode_payload(&layout, &reg).unwrap();
    let header_bytes = header::build_header(BuildHeader {
        device: RegDevice::Pc1500,
        file_type: FileType::Reserve,
        name: Some("RES"),
        payload_len: payload.len(),
        start_addr: 0,
        run_addr: 0,
    });
    let mut data = header_bytes;
    data.extend_from_slice(&payload);
    let outcome = ready(process_normal(&data, &opts(), &reg)).unwrap();
    let text = String::from_utf8(outcome.bytes).unwrap();
    assert!(text.starts_with("; sde-reserve:"));
    assert!(text.contains("; Filename: RES"));
    assert!(text.contains("key 1: PRINT"));
    assert!(outcome.path.ends_with(".sdar"));
}

#[test]
fn variables_ascii_get() {
    let values = vec![sharpdx::variables::VarValue::NumericScalar("42".to_string())];
    let payload = sharpdx::variables::encode_payload(&values).unwrap();
    let header_bytes = header::build_header(BuildHeader {
        device: RegDevice::Pc1500,
        file_type: FileType::Variables,
        name: Some("VARS"),
        payload_len: payload.len(),
        start_addr: 0,
        run_addr: 0,
    });
    let mut data = header_bytes;
    data.extend_from_slice(&payload);
    let outcome = ready(process_normal(&data, &opts(), &pc1500_keywords())).unwrap();
    let text = String::from_utf8(outcome.bytes).unwrap();
    assert!(text.starts_with("; sde-variables:"));
    assert!(text.contains("; Count: 1"));
    assert!(text.contains("42"));
    assert!(outcome.path.ends_with(".sdav"));
}

#[test]
fn reserve_binary_get_roundtrips_with_skip_header() {
    let reg = pc1500_keywords();
    let layout = sharpdx::reserve::ReserveLayout::default();
    let payload = sharpdx::reserve::encode_payload(&layout, &reg).unwrap();
    let header_bytes = header::build_header(BuildHeader {
        device: RegDevice::Pc1500,
        file_type: FileType::Reserve,
        name: Some("RES"),
        payload_len: payload.len(),
        start_addr: 0,
        run_addr: 0,
    });
    let mut data = header_bytes;
    data.extend_from_slice(&payload);
    let mut o = opts();
    o.format = Format::Binary;
    o.skip_header = true;
    let outcome = ready(process_normal(&data, &o, &reg)).unwrap();
    assert_eq!(outcome.bytes, payload.to_vec());
}

#[test]
fn raw_mode_leaves_wrong_family_header_in_place() {
    let header_bytes = header::build(RegDevice::Pc1600, Some("x"), 2);
    let mut data = header_bytes.clone();
    data.extend_from_slice(&[0xAA, 0xBB]);
    let mut o = opts();
    o.raw = true;
    o.output_file = Some("out.bin".to_string());
    let outcome = process_raw(&data, &o);
    assert_eq!(outcome.bytes, data);
}

#[test]
fn raw_mode_reports_count_and_checksum() {
    let mut o = opts();
    o.raw = true;
    o.output_file = Some("out.bin".to_string());
    let outcome = process_raw(&[0xFF, 0xFF, 0x03], &o);
    assert_eq!(outcome.summary, "checksum 0x0201");
    assert_eq!(outcome.report, vec!["Received 3 bytes (target: out.bin)", "Checksum (16-bit sum): 0x0201"]);
}

#[test]
fn headerless_binary_get_warns_and_is_named_unnamed() {
    let mut o = opts();
    o.format = Format::Binary;
    o.skip_header = true;
    let outcome = ready(process_normal(&[0x00, 0x01], &o, &pc1500_keywords())).unwrap();
    assert_eq!(outcome.path, "unnamed.bas");
    assert_eq!(outcome.warnings.len(), 4);
    assert_eq!(outcome.warnings[0], "WARNING: No recognizable header in received data");
    assert_eq!(outcome.warnings[3], "WARNING: No filename provided on command line or in header, saving to unnamed.bas");
}

#[test]
fn tokenized_basic_get_asks_for_a_listing() {
    let mut data = header::build(RegDevice::Pc1600, None, 4);
    data.extend_from_slice(&[0x00, 0x0A, 0x01, 0x0D]);
    match process_normal(&data, &opts(), &pc1500_keywords()) {
        Ok(GetStep::Detokenize { payload_start, device, outcome }) => {
            assert_eq!(payload_start, 16);
            assert_eq!(device, RegDevice::Pc1600);
            assert_eq!(outcome.path, "unnamed.bas");
        },
        _ => panic!("expected a listing step"),
    }
}
