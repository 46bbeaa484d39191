use sharpdx::config::{parse, Config, KEY_PC1600EMUL_PORT, KEY_VERBOSE};

#[test]
fn parse_ignores_comments_and_blanks() {
    let text = "# comment\n\npc1600emul.port = /dev/ttys006\nverbose=true\n";
    let map = parse(text);
    assert_eq!(map.get(KEY_PC1600EMUL_PORT), Some("/dev/ttys006"));
    assert_eq!(map.get(KEY_VERBOSE), Some("true"));
}

#[test]
fn parse_ignores_malformed_lines() {
    let map = parse("not a valid line\nkey = value\n");
    assert_eq!(map.len(), 1);
    assert_eq!(map.get("key"), Some("value"));
}

#[test]
fn format_roundtrips_through_parse() {
    let entries = Config::from_entries_for_test(vec![
        (KEY_PC1600EMUL_PORT.to_string(), "/dev/ttys006".to_string()),
        (KEY_VERBOSE.to_string(), "true".to_string()),
    ]);
    let text = sharpdx::config::format(&entries);
    let reparsed = parse(&text);
    assert_eq!(reparsed.len(), entries.len());
    assert_eq!(reparsed.get(KEY_PC1600EMUL_PORT), Some("/dev/ttys006"));
    assert_eq!(reparsed.get(KEY_VERBOSE), Some("true"));
    assert_eq!(sharpdx::config::format(&reparsed), text);
}

#[test]
fn config_get_verbose_helpers() {
    let cfg = parse("verbose = true\n");
    assert_eq!(cfg.verbose(), Some(true));
    let cfg = parse("verbose = false\n");
    assert_eq!(cfg.verbose(), Some(false));
    let cfg = Config::new();
    assert_eq!(cfg.verbose(), None);
}

#[test]
fn format_sorts_keys_and_later_lines_win() {
    let cfg = parse("zeta = 1\nalpha=2\n  zeta =  3  \r\n# x = y\n= empty key\n");
    assert_eq!(cfg.len(), 3);
    assert_eq!(cfg.get("zeta"), Some("3"));
    assert_eq!(sharpdx::config::format(&cfg), " = empty key\nalpha = 2\nzeta = 3\n");
    assert_eq!(parse(&sharpdx::config::format(&cfg)).get(""), Some("empty key"));
}

#[test]
fn insert_replaces_and_keeps_order() {
    let mut cfg = Config::new();
    cfg.insert("b", "1");
    cfg.insert("a", "2");
    cfg.insert("b", "3");
    cfg.insert("c", "");
    assert_eq!(sharpdx::config::format(&cfg), "a = 2\nb = 3\nc = \n");
    let back = parse(&sharpdx::config::format(&cfg));
    assert_eq!(sharpdx::config::format(&back), sharpdx::config::format(&cfg));
    assert_eq!(back.get("c"), Some(""));
}
