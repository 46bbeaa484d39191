use sharpdx::diskfs::{DiskError, DosTimestamp, FileName, Geometry, Pattern, Volume, ATTR_PROTECTED};
use sharpdx::floppy_image::SIDE_SIZE;
use sharpdx::header;
use sharpdx::registry::Device;

fn name(s: &str) -> FileName {
    FileName::parse(s).unwrap()
}

const TS: DosTimestamp = DosTimestamp { year_field: 6, month: 9, day: 22, hour: 13, minute: 45, second: 30 };

/// A freshly formatted side: media id in the FAT and its copy, everything else zero.
fn formatted_side() -> Vec<u8> {
    let mut s = vec![0u8; SIDE_SIZE];
    s[0x200] = 0xF2;
    s[0x400] = 0xF2;
    s
}

/// A side holding a tokenized program GLOBUS.BAS (5967 bytes, clusters 1..=12) and
/// BIO.BAS (2059 bytes, clusters 13..=17), as the PC-1600 ROM lays them out.
fn program_side() -> Vec<u8> {
    let mut vol = Volume::open_floppy_side(formatted_side()).unwrap();
    let mut globus = header::build(Device::Pc1600, None, 5967 - 16);
    globus.extend((0..5967 - 16).map(|i| (i % 251) as u8));
    vol.write(&name("GLOBUS.BAS"), &globus, DosTimestamp::new(1, 1, 0, 2, 18), false).unwrap();
    let mut bio = header::build(Device::Pc1600, None, 2059 - 16);
    bio.extend((0..2059 - 16).map(|i| (i % 13) as u8));
    vol.write(&name("BIO.BAS"), &bio, DosTimestamp::new(1, 1, 0, 3, 0), false).unwrap();
    vol.into_inner()
}

#[test]
fn dw_listing() {
    let vol = Volume::open_floppy_side(program_side()).unwrap();
    let list = vol.list();
    assert_eq!(list.len(), 2);
    assert_eq!(list[0].name.to_text(), "GLOBUS.BAS");
    assert_eq!((list[0].size, list[0].start_cluster, list[0].attr), (5967, 1, 0x20));
    assert_eq!(list[0].timestamp().to_text(), "01-01 00:02:18");
    assert_eq!(list[1].name.to_text(), "BIO.BAS");
    assert_eq!((list[1].size, list[1].start_cluster), (2059, 13));
    assert_eq!(vol.chain(&list[0]).unwrap(), (1..=12).collect::<Vec<u8>>());
    assert_eq!(vol.free_clusters(), 122 - 12 - 5);

    let data = vol.read(&list[0]).unwrap();
    assert_eq!(data.len(), 5967);
    let h = header::find(&data).unwrap();
    assert_eq!(h.payload_start() + h.length, data.len());
}

#[test]
fn blank_side_is_not_formatted() {
    assert_eq!(Volume::open_floppy_side(vec![0u8; SIDE_SIZE]).err(), Some(DiskError::NotFormatted));
    assert!(matches!(Volume::open_floppy_side(vec![0u8; 100]), Err(DiskError::Corrupt(_))));
}

#[test]
fn formatted_side_free_space() {
    let vol = Volume::open_floppy_side(formatted_side()).unwrap();
    assert!(vol.list().is_empty());
    assert_eq!(vol.free_bytes(), 62464);
}

#[test]
fn write_touches_only_fat_heads_dir_slot_and_clusters() {
    let original = program_side();
    let mut vol = Volume::open_floppy_side(original.clone()).unwrap();
    let data: Vec<u8> = (0..1100).map(|i| i as u8).collect();
    let e = vol.write(&name("new.bin"), &data, TS, false).unwrap();
    assert_eq!((e.slot, e.start_cluster, e.size), (2, 18, 1100));
    assert_eq!(vol.chain(&e).unwrap(), vec![18, 19, 20]);
    assert_eq!(vol.read(&e).unwrap(), data);
    assert_eq!(vol.find(&name("NEW.BIN")).unwrap(), e);
    let after = vol.into_inner();
    for (i, (a, b)) in original.iter().zip(after.iter()).enumerate() {
        if a == b {
            continue;
        }
        let fat_head = 0x200 + 18..=0x200 + 20;
        let fat_copy = 0x400 + 18..=0x400 + 20;
        let slot = 0x600 + 2 * 32..0x600 + 3 * 32;
        let clusters = (6 + 17) * 512..(6 + 20) * 512;
        assert!(
            fat_head.contains(&i) || fat_copy.contains(&i) || slot.contains(&i) || clusters.contains(&i),
            "byte {i:#06X} changed"
        );
    }
    // FAT copy follows the FAT; last cluster zero-padded.
    assert_eq!(&after[0x400..0x400 + 123], &after[0x200..0x200 + 123]);
    assert_eq!(after[(6 + 19) * 512 + 76], 0);
}

#[test]
fn exists_force_and_protect() {
    let mut vol = Volume::open_floppy_side(program_side()).unwrap();
    assert!(matches!(vol.write(&name("BIO.BAS"), b"x", TS, false), Err(DiskError::Exists(_))));
    let free = vol.free_clusters();
    let e = vol.write(&name("BIO.BAS"), b"x", TS, true).unwrap();
    assert_eq!((e.slot, e.size), (1, 1));
    assert_eq!(vol.free_clusters(), free + 5 - 1);
    assert_eq!(vol.list().len(), 2);

    // Write-protect it by hand.
    let mut buf = vol.into_inner();
    buf[0x600 + 32 + 0x0B] |= ATTR_PROTECTED;
    let mut vol = Volume::open_floppy_side(buf).unwrap();
    let e = vol.find(&name("BIO.BAS")).unwrap();
    assert_eq!(e.attr_letters(), "P--");
    assert!(matches!(vol.write(&name("BIO.BAS"), b"y", TS, false), Err(DiskError::Protected(_))));
    assert!(matches!(vol.delete(&e, false), Err(DiskError::Protected(_))));
    vol.delete(&e, true).unwrap();
    assert!(vol.find(&name("BIO.BAS")).is_none());
}

#[test]
fn delete_frees_and_slot_is_reused() {
    let mut vol = Volume::open_floppy_side(program_side()).unwrap();
    let globus = vol.find(&name("GLOBUS.BAS")).unwrap();
    vol.delete(&globus, false).unwrap();
    assert_eq!(vol.list().len(), 1);
    assert_eq!(vol.free_clusters(), 122 - 5);
    let e = vol.write(&name("A.TXT"), b"hello\r\n\x1A", TS, false).unwrap();
    assert_eq!((e.slot, e.start_cluster), (0, 1));
    let names: Vec<String> = vol.list().iter().map(|e| e.name.to_text()).collect();
    assert_eq!(names, vec!["A.TXT", "BIO.BAS"]);
}

#[test]
fn disk_full_and_directory_full_change_nothing() {
    let original = formatted_side();
    let mut vol = Volume::open_floppy_side(original.clone()).unwrap();
    let err = vol.write(&name("BIG"), &vec![1u8; 62464 + 1], TS, false).unwrap_err();
    assert_eq!(err, DiskError::DiskFull { needed: 62465, free: 62464 });
    vol.write(&name("FITS"), &vec![1u8; 62464], TS, false).unwrap();
    assert_eq!(vol.free_bytes(), 0);

    let mut vol = Volume::open_floppy_side(original.clone()).unwrap();
    for i in 0..48 {
        vol.write(&name(&format!("F{i}")), b"", TS, false).unwrap();
    }
    let before = vol.into_inner();
    let mut vol = Volume::open_floppy_side(before.clone()).unwrap();
    assert_eq!(vol.write(&name("ONEMORE"), b"", TS, false), Err(DiskError::DirectoryFull));
    assert_eq!(vol.into_inner(), before);
}

#[test]
fn corrupt_chains_are_reported() {
    let base = program_side();
    let cases: [(usize, u8, &str); 3] = [
        (0x200 + 5, 3, "loops"), // 1→…→5→3
        (0x200 + 5, 0x7F, "out of range"),
        (0x200 + 5, 0x00, "free cluster"),
    ];
    for (at, v, want) in cases {
        let mut buf = base.clone();
        buf[at] = v;
        let vol = Volume::open_floppy_side(buf).unwrap();
        let e = vol.find(&name("GLOBUS.BAS")).unwrap();
        let err = vol.read(&e).unwrap_err().message();
        assert!(err.contains(want), "{want}: {err}");
    }
    let mut buf = base.clone();
    buf[0x200 + 5] = 0xF0; // chain ends after 5 clusters, size needs 12
    let vol = Volume::open_floppy_side(buf).unwrap();
    let e = vol.find(&name("GLOBUS.BAS")).unwrap();
    assert!(vol.read(&e).unwrap_err().message().contains("5 clusters"));
}

#[test]
fn glob_and_sizes() {
    let vol = Volume::open_floppy_side(program_side()).unwrap();
    assert_eq!(vol.glob(&Pattern::parse("*.BAS").unwrap()).len(), 2);
    assert_eq!(vol.glob(&Pattern::parse("G*").unwrap()).len(), 0); // no '.': no extension
    assert_eq!(vol.glob(&Pattern::parse("G*.*").unwrap()).len(), 1);
    assert_eq!(SIDE_SIZE, Geometry::ce1600f().volume_size());
}
