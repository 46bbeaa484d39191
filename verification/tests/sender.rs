use sharpdx::pocket_device::PocketDevice;
use sharpdx::sender::{send_ascii_lines, send_data, BYTE_DELAY, HEADER_PAUSE, SEGMENT_PAUSE, TAIL_PAUSE};
use sharpdx::serial::FakeSerial;

#[test]
fn plain_pc1500_send_paces_header_then_payload() {
    let mut t = FakeSerial::new();
    let data = [0xAAu8, 0xBB, 0x01, 0x02, 0x03];
    send_data(&mut t, PocketDevice::Pc1500, 2, &data, true).unwrap();
    assert_eq!(t.written, data);
    // header write, then 1 sleep per payload byte + header pause + tail pause.
    assert_eq!(t.sleeps[0], HEADER_PAUSE);
    assert_eq!(&t.sleeps[1..4], &[BYTE_DELAY, BYTE_DELAY, BYTE_DELAY]);
    assert_eq!(t.sleeps[4], TAIL_PAUSE);
    assert_eq!(t.drains, 1);
}

#[test]
fn real_pc1600_send_is_unpaced_no_sleeps() {
    let mut t = FakeSerial::new();
    let data = [1u8, 2, 3, 4];
    send_data(&mut t, PocketDevice::Pc1600, 0, &data, true).unwrap();
    assert_eq!(t.written, data);
    assert!(t.sleeps.is_empty());
    assert_eq!(t.drains, 1);
}

#[test]
fn pc1600emul_pauses_extra_after_segment_marker() {
    let mut t = FakeSerial::new();
    // header_len=0 for simplicity; payload has one marker at index 2.
    let payload = [0x01u8, 0x02, 0xFF, 0x00, 0x00, 0x03];
    send_data(&mut t, PocketDevice::Pc1600Emul, 0, &payload, true).unwrap();
    assert_eq!(t.written, payload);
    assert_eq!(
        t.sleeps,
        vec![
            HEADER_PAUSE,
            BYTE_DELAY, // 0x01
            BYTE_DELAY, // 0x02
            BYTE_DELAY, // 0xFF
            BYTE_DELAY, // 0x00
            BYTE_DELAY, // 0x00 (marker complete)
            SEGMENT_PAUSE,
            BYTE_DELAY, // 0x03
            TAIL_PAUSE,
        ]
    );
}

#[test]
fn ascii_lines_pace_and_terminate_per_family() {
    let mut t = FakeSerial::new();
    let lines = vec!["10 PRINT".to_string(), "20 END".to_string()];
    send_ascii_lines(&mut t, PocketDevice::Pc1500, &lines, true).unwrap();
    assert_eq!(t.written, b"10 PRINT\r20 END\r\r");
    assert_eq!(t.sleeps, vec![TAIL_PAUSE, TAIL_PAUSE, TAIL_PAUSE]);

    let mut t = FakeSerial::new();
    send_ascii_lines(&mut t, PocketDevice::Pc1600, &lines, true).unwrap();
    assert_eq!(t.written, b"10 PRINT\r\n20 END\r\n\x1A");
    // real PC-1600 is not paced: no per-line sleeps, but the trailing tail pause
    // after the EOF marker still applies.
    assert_eq!(t.sleeps, vec![TAIL_PAUSE]);
}

#[test]
fn pc1600_without_flow_control_is_paced() {
    let mut t = FakeSerial::new();
    send_data(&mut t, PocketDevice::Pc1600, 1, &[9, 8], false).unwrap();
    assert_eq!(t.written, vec![9, 8]);
    assert_eq!(t.write_calls, vec![1, 1]);
    assert_eq!(t.sleeps, vec![HEADER_PAUSE, BYTE_DELAY, TAIL_PAUSE]);
}

#[test]
fn header_longer_than_data_is_sent_whole() {
    let mut t = FakeSerial::new();
    send_data(&mut t, PocketDevice::Pc1500, 10, &[1, 2, 3], true).unwrap();
    assert_eq!(t.write_calls, vec![3]);
    assert_eq!(t.sleeps, vec![HEADER_PAUSE, TAIL_PAUSE]);
}
