use sharpdx::config::{Config, KEY_VERBOSE};
use sharpdx::verbosity::{resolve, VerbosityFlag};

fn config_with_verbose(value: Option<&str>) -> Config {
    let mut entries = Vec::new();
    if let Some(v) = value {
        entries.push((KEY_VERBOSE.to_string(), v.to_string()));
    }
    Config::from_entries_for_test(entries)
}

#[test]
fn explicit_verbose_always_wins() {
    assert!(resolve(VerbosityFlag::Verbose, &config_with_verbose(Some("false"))));
    assert!(resolve(VerbosityFlag::Verbose, &config_with_verbose(None)));
}

#[test]
fn explicit_quiet_always_wins() {
    assert!(!resolve(VerbosityFlag::Quiet, &config_with_verbose(Some("true"))));
    assert!(!resolve(VerbosityFlag::Quiet, &config_with_verbose(None)));
}

#[test]
fn unset_falls_back_to_config_then_off() {
    assert!(resolve(VerbosityFlag::Unset, &config_with_verbose(Some("true"))));
    assert!(!resolve(VerbosityFlag::Unset, &config_with_verbose(Some("false"))));
    assert!(!resolve(VerbosityFlag::Unset, &config_with_verbose(None)));
}
