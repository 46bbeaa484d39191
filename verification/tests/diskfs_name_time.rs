use sharpdx::diskfs::{DosTimestamp, FileName, Pattern};

#[test]
fn parse_names() {
    let n = FileName::parse("globus.bas").unwrap();
    assert_eq!(&n.raw(), b"GLOBUS  BAS");
    assert_eq!(n.to_text(), "GLOBUS.BAS");
    assert_eq!(FileName::parse("MC").unwrap().to_text(), "MC");
    assert_eq!(FileName::parse("A-1_$.C~").unwrap().to_text(), "A-1_$.C~");
    for bad in ["", ".BAS", "TOOLONGNAME.BAS", "A.BASX", "A B.BAS", "A*.BAS", "A/B", "Ä.BAS", "A.B.C"] {
        assert!(FileName::parse(bad).is_err(), "{bad:?} accepted");
    }
}

#[test]
fn patterns() {
    let name = |s| FileName::parse(s).unwrap();
    let pat = |s| Pattern::parse(s).unwrap();
    assert!(pat("*").matches(&name("GLOBUS.BAS")));
    assert!(pat("*").matches(&name("MC")));
    assert!(pat("*.*").matches(&name("MC")));
    assert!(pat("*.BAS").matches(&name("bio.bas")));
    assert!(!pat("*.BAS").matches(&name("BIO.ASM")));
    assert!(pat("G*.*").matches(&name("GLOBUS.BAS")));
    assert!(!pat("G*.*").matches(&name("BIO.BAS")));
    assert!(pat("B?O.BAS").matches(&name("BIO.BAS")));
    assert!(pat("BIO?.BAS").matches(&name("BIO.BAS")));
    assert!(!pat("BIO").matches(&name("BIO.BAS")));
    assert!(pat("BIO").matches(&name("BIO")));
    assert!(pat("bio.bas").matches(&name("BIO.BAS")));
    assert!(Pattern::parse("*.TOOLONG").is_err());
    assert!(Pattern::is_wildcard("*.BAS") && !Pattern::is_wildcard("A.BAS"));
}

#[test]
fn name_stem_ext_and_raw_roundtrip() {
    let n = FileName::parse("bio.bas").unwrap();
    assert_eq!(n.stem(), "BIO");
    assert_eq!(n.ext(), "BAS");
    let raw = n.raw();
    assert!(FileName::from_raw(&raw).same(&n));
}

#[test]
fn dw_img_entry() {
    let ts = DosTimestamp::unpack(0x0049, 0x0C21);
    assert_eq!(ts, DosTimestamp { year_field: 6, month: 1, day: 1, hour: 0, minute: 2, second: 18 });
    assert_eq!(ts.pack(), (0x0049, 0x0C21));
    assert_eq!(ts.to_text(), "01-01 00:02:18");
}

#[test]
fn roundtrip() {
    let ts = DosTimestamp::new(12, 31, 23, 59, 58);
    assert_eq!(DosTimestamp::unpack(ts.pack().0, ts.pack().1), ts);
}

#[test]
fn pack_masks_fields_to_their_widths() {
    let ts = DosTimestamp { year_field: 0xFF, month: 0x1F, day: 0x3F, hour: 0x3F, minute: 0x7F, second: 0x7F };
    assert_eq!(ts.pack(), (0xFFFF, 0xFFFF));
}
