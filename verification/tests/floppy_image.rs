use sharpdx::floppy_image::{
    format_addressed_hex, format_with_saved, iso8601_from_unix, now_iso8601_utc, parse,
    parse_addressed_hex, FloppyError, FloppyImage, Side, SIDE_SIZE,
};

fn minimal(extra_top: &str, side_a: &str) -> String {
    format!(
        "format: ce1600f-floppy\nformat-version: 1\ndisk-name: \"X\"\n{extra_top}sides:\n  a:\n    encoding: addressed-hex\n    bytes: |\n{side_a}  b:\n    encoding: addressed-hex\n    bytes: |\n      $0000: 00...\n"
    )
}

fn blank_image(name: &str) -> FloppyImage {
    FloppyImage { disk_name: name.to_string(), saved: None, sides: [vec![0u8; SIDE_SIZE], vec![0u8; SIDE_SIZE]] }
}

#[test]
fn reader_accepts_subset_variants() {
    let text = "# c\ndisk-name: 'Single' # trailing\nformat-version: 0x1\nformat: ce1600f-floppy\nsides:\n  b:\n    bytes: |\n      $0000: 00...\n    encoding: \"addressed-hex\"\n  a:\n    encoding: addressed-hex\n    bytes: |\n      $0010: 11...\n\n      $0000: 01 02 03 04 05 06 07 08  09 0A 0B 0C 0D 0E 0F 10\r\n";
    let img = parse(text).unwrap();
    assert_eq!(img.disk_name, "Single");
    assert_eq!(img.saved, None);
    assert_eq!(img.sides[0][0x0F], 0x10);
    assert_eq!(img.sides[0][0xFFFF], 0x11);
}

#[test]
fn reader_rejects() {
    let ok_a = "      $0000: 00...\n";
    assert!(parse(&minimal("", ok_a)).is_ok());
    let cases: Vec<(String, &str)> = vec![
        (minimal("", ok_a).replace("format-version: 1", "format-version: 2"), "format-version 2"),
        (minimal("", ok_a).replace("format-version: 1\n", ""), "missing 'format-version'"),
        (minimal("", ok_a).replace("ce1600f-floppy", "ce1600m-card"), "not a floppy-disk file"),
        (minimal("", ok_a).replace("\"X\"", "\"\""), "empty 'disk-name'"),
        (minimal("colour: red\n", ok_a), "unknown key 'colour'"),
        (minimal("disk-name: \"Y\"\n", ok_a), "duplicate key"),
        (minimal("", ok_a).replace("  b:\n    encoding: addressed-hex\n    bytes: |\n      $0000: 00...\n", ""), "side 'b': missing"),
        (minimal("", ok_a).replacen("encoding: addressed-hex", "encoding: hex", 1), "expected 'encoding: addressed-hex'"),
        (minimal("", "      $0000: 00 01\n      $0004: 00...\n"), "gap or overlap"),
        (minimal("", "      $0000: 00...\n      $0000: 00...\n"), "invalid length"),
        (minimal("", "      $0000: 00 01\n      $0001: 00...\n"), "gap or overlap"),
        (minimal("", "      $0000: 00 01\n"), "covers 0x2 bytes"),
        (minimal("", "      $FFFF: 00...\n      $0000: 0G...\n"), "bad run byte"),
        (minimal("", "      $0000: 00 1\n"), "not a hex byte pair"),
        (minimal("", "      $0000: 00 FF...\n"), "not a hex byte pair"),
        (minimal("", "      $FFFF: 00 01\n      $0000: 00...\n"), "overruns"),
        (minimal("", ok_a).replace("  a:", "\ta:"), "tabs"),
    ];
    for (text, want) in cases {
        let err = parse(&text).unwrap_err().message();
        assert!(err.contains(want), "expected {want:?} in {err:?}");
    }
}

#[test]
fn writer_rows_runs_and_partial_rows() {
    let mut b = vec![0u8; 64];
    b[16..32].copy_from_slice(&[0xFF; 16]);
    b[40] = 0xAB;
    let lines = format_addressed_hex(&b);
    assert_eq!(
        lines,
        vec![
            "$0000: 00...",
            "$0010: FF...",
            "$0020: 00 00 00 00 00 00 00 00  AB 00 00 00 00 00 00 00",
            "$0030: 00...",
        ]
    );
    assert_eq!(parse_addressed_hex(&lines.join("\n"), 64).unwrap(), b);
    // Partial trailing row: never merged into the previous run.
    let b = vec![7u8; 20];
    assert_eq!(format_addressed_hex(&b), vec!["$0000: 07...", "$0010: 07..."]);
}

#[test]
fn iso8601() {
    assert_eq!(iso8601_from_unix(0), "1970-01-01T00:00:00Z");
    assert_eq!(iso8601_from_unix(1_709_210_096), "2024-02-29T12:34:56Z");
    assert_eq!(iso8601_from_unix(1_790_000_000), "2026-09-21T14:13:20Z");
}

#[test]
fn iso8601_before_the_epoch_and_year_zero() {
    assert_eq!(iso8601_from_unix(-1), "1969-12-31T23:59:59Z");
    assert_eq!(iso8601_from_unix(-62_167_219_200), "0000-01-01T00:00:00Z");
    assert_eq!(iso8601_from_unix(-62_167_219_201), "-001-12-31T23:59:59Z");
}

#[test]
fn writer_rejects_unwritable_disk_name() {
    let mut img = blank_image("Blank");
    img.disk_name = "a\"b".into();
    assert!(matches!(format_with_saved(&img, "x"), Err(FloppyError::UnwritableName(_))));
    img.disk_name = "".into();
    assert!(format_with_saved(&img, "x").is_err());
    img.disk_name = "two\nlines".into();
    assert!(format_with_saved(&img, "x").is_err());
}

#[test]
fn writer_rejects_short_side() {
    let mut img = blank_image("Blank");
    img.sides[1].truncate(100);
    assert_eq!(format_with_saved(&img, "x").unwrap_err(), FloppyError::SideSize(Side::B, 100));
}

#[test]
fn written_image_reads_back() {
    let mut img = blank_image("My Disk #1");
    img.sides[0][0x200] = 0xF2;
    img.sides[0][0x1234] = 0x42;
    img.sides[1][0xFFFF] = 0x99;
    let text = format_with_saved(&img, "2024-02-29T12:34:56Z").unwrap();
    assert!(text.starts_with("# Calc-U-1600 CE-1600F floppy disk image\nformat: ce1600f-floppy\nformat-version: 1\ndisk-name: \"My Disk #1\"\nsaved: 2024-02-29T12:34:56Z\nsides:\n  a:\n    encoding: addressed-hex\n    bytes: |\n      $0000: 00...\n"));
    let back = parse(&text).unwrap();
    assert_eq!(back.disk_name, img.disk_name);
    assert_eq!(back.saved.as_deref(), Some("2024-02-29T12:34:56Z"));
    assert_eq!(back.sides, img.sides);
    // and writing it again gives the same text
    assert_eq!(format_with_saved(&back, "2024-02-29T12:34:56Z").unwrap(), text);
}

#[test]
fn format_stamps_the_current_time() {
    let img = blank_image("Now");
    let text = sharpdx::floppy_image::format(&img).unwrap();
    let back = parse(&text).unwrap();
    let saved = back.saved.unwrap();
    assert_eq!(saved.len(), 20);
    assert!(saved.ends_with('Z'));
    assert_eq!(now_iso8601_utc().len(), 20);
}

#[test]
fn side_letters_and_access() {
    assert_eq!(Side::from_str_ci("a"), Some(Side::A));
    assert_eq!(Side::from_str_ci("B"), Some(Side::B));
    assert_eq!(Side::from_str_ci("c"), None);
    assert_eq!(Side::from_str_ci("ab"), None);
    assert_eq!(Side::B.index(), 1);
    let mut img = blank_image("S");
    img.side_mut(Side::B)[3] = 9;
    assert_eq!(img.side(Side::B)[3], 9);
    assert_eq!(img.side(Side::A)[3], 0);
}

#[test]
fn version_scalar_forms() {
    let base = minimal("", "      $0000: 00...\n");
    assert!(parse(&base.replace("format-version: 1", "format-version: +1")).is_ok());
    assert!(parse(&base.replace("format-version: 1", "format-version: 0X01")).is_ok());
    let err = parse(&base.replace("format-version: 1", "format-version: -1")).unwrap_err();
    assert_eq!(err, FloppyError::UnsupportedVersion(-1));
    let err = parse(&base.replace("format-version: 1", "format-version: one")).unwrap_err();
    assert!(err.message().contains("is not an integer"));
}

#[test]
fn written_image_with_version_two_is_refused() {
    let img = blank_image("V2");
    let text = format_with_saved(&img, "2024-02-29T12:34:56Z").unwrap();
    let changed = text.replace("format-version: 1", "format-version: 2");
    assert_eq!(parse(&changed).unwrap_err(), FloppyError::UnsupportedVersion(2));
}
