use sharpdx::config::{Config, KEY_PC1600EMUL_PORT};
use sharpdx::pocket_device::PocketDevice;
use sharpdx::serial::{resolve_port, FakeSerial, Transport};

#[test]
fn fake_serial_records_writes_and_sleeps() {
    let mut t = FakeSerial::new();
    t.write_all(&[1, 2, 3]).unwrap();
    t.sleep(300);
    t.write_all(&[4]).unwrap();
    t.drain(2000);
    assert_eq!(t.written, vec![1, 2, 3, 4]);
    assert_eq!(t.write_calls, vec![3, 1]);
    assert_eq!(t.sleeps, vec![300]);
    assert_eq!(t.drains, 1);
}

#[test]
fn fake_serial_read_returns_queued_chunks_then_empty() {
    let mut t = FakeSerial::new();
    t.push_incoming(&[1, 2]);
    t.push_incoming(&[3]);
    assert_eq!(t.read(50).unwrap(), vec![1, 2]);
    assert_eq!(t.read(50).unwrap(), vec![3]);
    assert_eq!(t.read(50).unwrap(), Vec::<u8>::new());
}

#[test]
fn resolve_port_prefers_explicit() {
    let config = Config::from_entries_for_test(Vec::new());
    let port = resolve_port(PocketDevice::Pc1600Emul, Some("/dev/ttys006"), &config).unwrap();
    assert_eq!(port, "/dev/ttys006");
}

#[test]
fn resolve_port_emulator_joins_configured_directory_with_fixed_filename() {
    let entries = vec![(KEY_PC1600EMUL_PORT.to_string(), "/tmp/emul".to_string())];
    let config = Config::from_entries_for_test(entries);
    let port = resolve_port(PocketDevice::Pc1600Emul, None, &config).unwrap();
    assert_eq!(port, "/tmp/emul/calcu1600.serial");
}

#[test]
fn resolve_port_emulator_defaults_to_tmp_without_config() {
    let config = Config::from_entries_for_test(Vec::new());
    let port = resolve_port(PocketDevice::Pc1600Emul, None, &config).unwrap();
    assert_eq!(port, "/tmp/calcu1600.serial");
}

#[test]
fn resolve_port_trims_trailing_slashes_and_scans_for_real_devices() {
    let entries = vec![(KEY_PC1600EMUL_PORT.to_string(), "/var/run//".to_string())];
    let config = Config::from_entries_for_test(entries);
    assert_eq!(resolve_port(PocketDevice::Pc1600Emul, None, &config).unwrap(), "/var/run/calcu1600.serial");
    assert_eq!(resolve_port(PocketDevice::Pc1500, None, &config), None);
    assert_eq!(resolve_port(PocketDevice::Pc1600, Some("COM3"), &config).as_deref(), Some("COM3"));
}
