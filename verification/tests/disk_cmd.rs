use sharpdx::disk_cmd::{parse_image_addr, ImageAddr};
use sharpdx::disk_cmd::{delete_in_image, DelError, DelItem};
use sharpdx::diskfs::{DosTimestamp, Volume};
use sharpdx::floppy_image::{FloppyImage, SIDE_SIZE};
use sharpdx::transfer::DiskFileKind;
use sharpdx::diskfs::FileName;
use sharpdx::registry::{Device, Registry};
use sharpdx::transfer::{extract, Format, GetSpec, LineEnding, PutKind};
use sharpdx::floppy_image::Side;

fn addr(image: &str, side: Option<Side>, name: Option<&str>) -> Option<ImageAddr> {
    Some(ImageAddr { image: image.into(), side, name: name.map(str::to_string) })
}

#[test]
fn image_addresses() {
    let p = |s| parse_image_addr(s).unwrap();
    assert_eq!(p("d.floppy.yaml"), addr("d.floppy.yaml", None, None));
    assert_eq!(p("d.floppy.yaml:a"), addr("d.floppy.yaml", Some(Side::A), None));
    assert_eq!(p("d.floppy.yaml:B:"), addr("d.floppy.yaml", Some(Side::B), None));
    assert_eq!(p("dir/D.Floppy.YAML:A:prog.bas"), addr("dir/D.Floppy.YAML", Some(Side::A), Some("prog.bas")));
    assert_eq!(
        p(r"C:\disks\d.floppy.yaml:A:*.BAS"),
        addr(r"C:\disks\d.floppy.yaml", Some(Side::A), Some("*.BAS"))
    );
    assert_eq!(p("prog.bas"), None);
    assert_eq!(p("C:\\prog.bas"), None);
    assert_eq!(p("d.floppy.yaml.bak"), None);
    assert!(parse_image_addr("d.floppy.yaml:C:X").is_err());
}

#[test]
fn bad_side_message() {
    let e = parse_image_addr("d.floppy.yaml:AB").unwrap_err();
    assert_eq!(e.side, "AB");
    assert_eq!(e.message(), "d.floppy.yaml:AB: disk side must be A or B, got \"AB\"");
}

fn extracted(r: Result<sharpdx::transfer::ExtractStep, sharpdx::transfer::ExtractError>) -> sharpdx::transfer::Extracted {
    match r {
        Ok(sharpdx::transfer::ExtractStep::Ready(x)) => x,
        Ok(sharpdx::transfer::ExtractStep::Detokenize { file, .. }) => file,
        Err(e) => panic!("{}", e.message()),
    }
}

#[test]
fn host_names() {
    let n = |s| FileName::parse(s).unwrap();
    let reg = Registry::new(Device::Pc1600, Vec::new());
    let x = |bytes: &[u8], format| extracted(extract(bytes, &GetSpec { format, skip_header: false, eol: LineEnding::Lf }, &reg));
    let mut basic = sharpdx::header::build(Device::Pc1600, None, 4);
    basic.extend_from_slice(&[0x00, 0x0A, 0x01, 0x0D]);
    assert_eq!(sharpdx::disk_cmd::host_name_for(&n("GLOBUS.BAS"), &x(&basic, None), None), "GLOBUS.bas");
    assert_eq!(
        sharpdx::disk_cmd::host_name_for(&n("GLOBUS.BAS"), &x(&basic, Some(Format::Binary)), Some(Format::Binary)),
        "GLOBUS.bin"
    );
    assert_eq!(sharpdx::disk_cmd::host_name_for(&n("SYS.CFG"), &x(b"A=1\r\n\x1A", None), None), "SYS.CFG");
    assert_eq!(sharpdx::disk_cmd::host_name_for(&n("README"), &x(b"hello\r\n\x1A", None), None), "README");
    assert_eq!(sharpdx::disk_cmd::host_name_for(&n("OLD"), &x(b"10 PRINT\r\n\x1A", None), None), "OLD.bas");
}

#[test]
fn put_descriptions_and_default_disk_names() {
    assert_eq!(sharpdx::disk_cmd::describe_put(PutKind::MachineWrapped), "machine language, header added");
    assert_eq!(sharpdx::disk_cmd::describe_put(PutKind::Variables), "PC-1500 data");
    let n = sharpdx::disk_cmd::default_disk_name("dir/prog.asm", PutKind::Text, b"x\r\n\x1A").unwrap();
    assert_eq!(n.to_text(), "PROG.ASM");
    let n = sharpdx::disk_cmd::default_disk_name("mc", PutKind::MachineWrapped, b"").unwrap();
    assert_eq!(n.to_text(), "MC.BIN");
    let e = sharpdx::disk_cmd::default_disk_name("much_too_long_name.txt", PutKind::Text, b"").unwrap_err();
    assert!(e.message().starts_with("much_too_long_name.txt: "));
    assert!(e.message().ends_with("name the file on the disk explicitly, e.g. <image>:A:NAME.EXT"));
}

#[test]
fn kind_descriptions() {
    assert_eq!(sharpdx::disk_cmd::describe_kind(DiskFileKind::Basic { len: 4 }), "BASIC");
    assert_eq!(
        sharpdx::disk_cmd::describe_kind(DiskFileKind::Machine { load: 0x01_C000, run: 0x01_FFFF, len: 4 }),
        "machine, load 01C000"
    );
    assert_eq!(
        sharpdx::disk_cmd::describe_kind(DiskFileKind::Machine { load: 0x2000, run: 0x2010, len: 4 }),
        "machine, load 002000, run 002010"
    );
    assert_eq!(sharpdx::disk_cmd::describe_kind(DiskFileKind::AsciiBasic), "BASIC (ASCII)");
    assert_eq!(sharpdx::disk_cmd::describe_kind(DiskFileKind::Unknown), "unknown");
}

#[test]
fn directory_listing_of_both_sides() {
    let mut side = vec![0u8; SIDE_SIZE];
    side[0x200] = 0xF2;
    side[0x400] = 0xF2;
    let mut vol = Volume::open_floppy_side(side).unwrap();
    vol.write(&FileName::parse("NOTE.TXT").unwrap(), b"hello\r\n\x1A", DosTimestamp::new(9, 22, 13, 45, 30), false)
        .unwrap();
    let img = FloppyImage {
        disk_name: "WORK".to_string(),
        saved: None,
        sides: [vol.into_inner(), vec![0u8; SIDE_SIZE]],
    };
    let text = sharpdx::disk_cmd::dir_listing(&img, "w.floppy.yaml", None, None).unwrap();
    let lines: Vec<&str> = text.lines().collect();
    assert_eq!(lines[0], "Disk \"WORK\" (w.floppy.yaml), side A");
    assert!(lines[1].starts_with("  NOTE.TXT          8  09-22 13:45:30  "));
    assert!(lines[1].ends_with("  text"));
    assert!(lines[2].starts_with("  1 file, "));
    assert_eq!(lines[3], "");
    assert_eq!(lines[4], "Disk \"WORK\" (w.floppy.yaml), side B");
    assert_eq!(lines[5], "  not formatted");
    assert_eq!(lines.len(), 6);
    assert!(sharpdx::disk_cmd::dir_listing(&img, "w.floppy.yaml", Some(Side::A), Some("*.BAS")).unwrap().contains("  0 files, "));
    assert!(sharpdx::disk_cmd::dir_listing(&img, "w.floppy.yaml", Some(Side::A), Some("TOO.LONGEXT")).is_err());
}

#[test]
fn deleting_files_from_an_image() {
    let mut side = vec![0u8; SIDE_SIZE];
    side[0x200] = 0xF2;
    side[0x400] = 0xF2;
    let blank = side.clone();
    let mut vol = Volume::open_floppy_side(side).unwrap();
    let ts = DosTimestamp::new(1, 2, 3, 4, 6);
    vol.write(&FileName::parse("A.TXT").unwrap(), b"one\r\n\x1A", ts, false).unwrap();
    vol.write(&FileName::parse("B.TXT").unwrap(), b"two\r\n\x1A", ts, false).unwrap();
    let mut img = FloppyImage { disk_name: "D".to_string(), saved: None, sides: [vol.into_inner(), blank.clone()] };
    let item = |name: &str| DelItem { arg: format!("d.floppy.yaml:A:{name}"), side: Side::A, name: name.to_string() };

    let missing = delete_in_image(&mut img.clone(), "d.floppy.yaml", &[item("C.TXT")], false).unwrap_err();
    assert_eq!(missing, DelError::NoFiles { arg: "d.floppy.yaml:A:C.TXT".to_string(), name: "C.TXT".to_string() });
    assert!(missing.message().starts_with("d.floppy.yaml:A:C.TXT: "));

    let msgs = delete_in_image(&mut img, "d.floppy.yaml", &[item("*.TXT")], false).unwrap();
    assert_eq!(msgs, vec!["Deleted A.TXT from d.floppy.yaml side A", "Deleted B.TXT from d.floppy.yaml side A"]);
    let vol = Volume::open_floppy_side(img.sides[0].clone()).unwrap();
    assert!(vol.list().is_empty());
    assert_eq!(img.sides[1], blank);
    let unformatted = DelItem { arg: "x".to_string(), side: Side::B, name: "A.TXT".to_string() };
    let mut nothing = img.clone();
    nothing.sides[1] = vec![0u8; SIDE_SIZE];
    assert!(delete_in_image(&mut nothing, "d.floppy.yaml", &[unformatted], false).is_err());
}

#[test]
fn deletion_errors_name_their_cause() {
    let mut side = vec![0u8; SIDE_SIZE];
    side[0x200] = 0xF2;
    side[0x400] = 0xF2;
    let mut vol = Volume::open_floppy_side(side.clone()).unwrap();
    let ts = DosTimestamp::new(1, 2, 3, 4, 6);
    vol.write(&FileName::parse("A.TXT").unwrap(), b"one\r\n\x1A", ts, false).unwrap();
    let mut written = vol.into_inner();
    written[0x600 + 0x0B] |= sharpdx::diskfs::ATTR_PROTECTED;
    let img = FloppyImage { disk_name: "D".to_string(), saved: None, sides: [written, side] };
    let item = |name: &str| DelItem { arg: format!("d.floppy.yaml:A:{name}"), side: Side::A, name: name.to_string() };

    let missing = delete_in_image(&mut img.clone(), "d.floppy.yaml", &[item("C.TXT")], false).unwrap_err();
    assert!(missing.message().contains("not found"), "{}", missing.message());

    let mut kept = img.clone();
    let protected = delete_in_image(&mut kept, "d.floppy.yaml", &[item("A.TXT")], false).unwrap_err();
    assert_eq!(protected, DelError::Disk(sharpdx::diskfs::DiskError::Protected("A.TXT".to_string())));
    assert_eq!(kept.sides, img.sides);

    let mut forced = img.clone();
    assert!(delete_in_image(&mut forced, "d.floppy.yaml", &[item("A.TXT")], true).is_ok());
}
