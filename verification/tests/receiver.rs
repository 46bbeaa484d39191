use sharpdx::header;
use sharpdx::receiver::Receiver;
use sharpdx::registry::Device;

#[test]
fn feed_completes_once_header_length_reached() {
    let header = header::build(Device::Pc1500, Some("x"), 4);
    let mut r = Receiver::new(false);
    assert!(!r.feed(&header));
    assert!(!r.feed(&[1, 2]));
    assert!(r.feed(&[3, 4]));
    assert_eq!(r.buffer().len(), header.len() + 4);
}

#[test]
fn raw_mode_never_completes_by_length_even_with_header_shaped_bytes() {
    let header = header::build(Device::Pc1500, Some("x"), 4);
    let mut r = Receiver::new(true);
    assert!(!r.feed(&header));
    assert!(!r.feed(&[1, 2, 3, 4]));
}

#[test]
fn empty_reads_end_the_transfer_only_after_the_idle_timeout() {
    let mut r = Receiver::new(false);
    assert!(!r.after_read(&[], None, 20));
    assert!(!r.after_read(&[1, 2, 3], None, 20));
    assert!(!r.after_read(&[], Some(10), 20));
    assert!(r.after_read(&[], Some(20), 20));
    assert_eq!(r.into_bytes(), vec![1, 2, 3]);
}

#[test]
fn known_length_completes_without_waiting() {
    let header = header::build(Device::Pc1500, Some("x"), 2);
    let mut r = Receiver::new(false);
    assert!(!r.after_read(&header, None, 10));
    assert!(r.after_read(&[0xAA, 0xBB], Some(0), 10));
    assert_eq!(r.buffer().len(), header.len() + 2);
}

#[test]
fn receive_until_done_stops_at_known_length() {
    let mut t = sharpdx::serial::FakeSerial::new();
    let header = header::build(Device::Pc1500, Some("x"), 2);
    t.push_incoming(&header);
    t.push_incoming(&[0xAA, 0xBB]);
    let bytes = sharpdx::receiver::receive_until_done(&mut t, 10, false).unwrap();
    assert_eq!(bytes.len(), header.len() + 2);
}

#[test]
fn receive_until_done_falls_back_to_watchdog_without_header() {
    let mut t = sharpdx::serial::FakeSerial::new();
    t.push_incoming(&[1, 2, 3]);
    let bytes = sharpdx::receiver::receive_until_done(&mut t, 20, false).unwrap();
    assert_eq!(bytes, vec![1, 2, 3]);
}

#[test]
fn receive_until_done_raw_mode_ignores_header_shaped_bytes_uses_watchdog() {
    let mut t = sharpdx::serial::FakeSerial::new();
    let header = header::build(Device::Pc1500, Some("x"), 4);
    t.push_incoming(&header);
    let bytes = sharpdx::receiver::receive_until_done(&mut t, 20, true).unwrap();
    assert_eq!(bytes, header);
}
