use sharpdx::pocket_device::PocketDevice;
use sharpdx::registry::Device;

#[test]
fn pc1500_family_facts() {
    for d in [PocketDevice::Pc1500, PocketDevice::Pc1500a] {
        assert!(d.is_pc1500_family());
        assert!(!d.is_pc1600_family());
        assert!(!d.is_emulator());
        assert!(!d.uses_hardware_flow_control(true));
        assert!(d.is_paced_send(true));
        assert_eq!(d.baud_rate(), 19200);
        assert_eq!(d.idle_timeout_ms(), 5000);
        assert_eq!(d.to_registry_device(), Device::Pc1500);
        assert_eq!(d.addr_hex_width(), 4);
    }
}

#[test]
fn pc1600_hardware_facts() {
    let d = PocketDevice::Pc1600;
    assert!(d.is_pc1600_family());
    assert!(!d.is_emulator());
    assert!(!d.uses_hardware_flow_control(false));
    assert!(d.is_paced_send(false));
    assert!(d.uses_hardware_flow_control(true));
    assert!(!d.is_paced_send(true));
    assert_eq!(d.baud_rate(), 9600);
    assert_eq!(d.idle_timeout_ms(), 500);
    assert_eq!(d.to_registry_device(), Device::Pc1600);
    assert_eq!(d.addr_hex_width(), 6);
}

#[test]
fn pc1600_emulator_facts() {
    let d = PocketDevice::Pc1600Emul;
    assert!(d.is_pc1600_family());
    assert!(d.is_emulator());
    assert!(!d.uses_hardware_flow_control(false));
    assert!(d.uses_hardware_flow_control(true));
    assert!(d.is_paced_send(false));
    assert!(d.is_paced_send(true));
    assert_eq!(d.baud_rate(), 9600);
    assert_eq!(d.idle_timeout_ms(), 500);
    assert_eq!(d.to_registry_device(), Device::Pc1600);
    assert_eq!(d.addr_hex_width(), 6);
}

#[test]
fn display_matches_cli_spelling() {
    assert_eq!(PocketDevice::Pc1500.as_str(), "pc1500");
    assert_eq!(PocketDevice::Pc1500a.as_str(), "pc1500a");
    assert_eq!(PocketDevice::Pc1600.as_str(), "pc1600");
    assert_eq!(PocketDevice::Pc1600Emul.as_str(), "pc1600emul");
}

#[test]
fn flow_control_only_for_pc1600_family() {
    assert!(PocketDevice::Pc1500.check_flow_control(true).is_err());
    assert!(PocketDevice::Pc1500.check_flow_control(false).is_ok());
    assert!(PocketDevice::Pc1600Emul.check_flow_control(true).is_ok());
    assert!(!PocketDevice::Pc1500a.supports_flow_control());
    assert!(PocketDevice::Pc1600.supports_flow_control());
}
