use uwb_delay_test::bidi::{append_bounded, scan_raw, scan_user_frame1};
use uwb_delay_test::nlink::build_user_frame1;
use uwb_delay_test::pack_payload;
use uwb_delay_test::protocol::build_ack_payload;

#[test]
fn append_bounded_cases() {
    let mut buf = vec![1u8, 2];
    assert!(append_bounded(&mut buf, &[3]));
    assert_eq!(buf, vec![1, 2, 3]);
    assert!(!append_bounded(&mut buf, &[]));
    let big = vec![0u8; 65534];
    assert!(!append_bounded(&mut buf, &big));
    assert_eq!(buf.len(), 3);
    assert!(append_bounded(&mut buf, &big[..65533]));
    assert_eq!(buf.len(), 65536);
}

#[test]
fn scan_raw_finds_payloads() {
    let mut p = vec![0u8; 12];
    pack_payload(&mut p, 513, 0);
    let mut buf = vec![0x00, 0x11];
    buf.extend_from_slice(&p);
    buf.extend_from_slice(&p[..5]);
    let found = scan_raw(&mut buf, 12, 99);
    assert_eq!(found, vec![(513, 99)]);
    assert_eq!(buf, p[..5].to_vec());
}

#[test]
fn scan_user_frame1_finds_acks() {
    let ack = build_ack_payload(1234, 16);
    let f = build_user_frame1(5, 0, &ack);
    let other = build_user_frame1(5, 0, &[1, 2, 3, 4, 5, 6, 7, 8, 9, 10, 11, 12, 13, 14, 15, 16]);
    let mut buf = other.clone();
    buf.push(0x42);
    buf.extend_from_slice(&f);
    buf.extend_from_slice(&f[..8]);
    let found = scan_user_frame1(&mut buf, 16, 7);
    assert_eq!(found, vec![(1234, 7)]);
    assert_eq!(buf, f[..8].to_vec());
}

#[test]
fn scan_user_frame1_needs_full_payload() {
    let ack = build_ack_payload(3, 8);
    let f = build_user_frame1(5, 0, &ack);
    let mut buf = f.clone();
    assert!(scan_user_frame1(&mut buf, 16, 0).is_empty());
    assert!(buf.is_empty());
    let mut buf2 = f.clone();
    assert_eq!(scan_user_frame1(&mut buf2, 8, 0), vec![(3, 0)]);
}

#[test]
fn scans_do_not_depend_on_cuts() {
    let ack = build_ack_payload(77, 12);
    let f = build_user_frame1(5, 2, &ack);
    let mut whole = f.clone();
    let all_at_once = scan_user_frame1(&mut whole, 12, 1);
    let mut pieces = f[..9].to_vec();
    let first = scan_user_frame1(&mut pieces, 12, 1);
    pieces.extend_from_slice(&f[9..]);
    let second = scan_user_frame1(&mut pieces, 12, 1);
    assert!(first.is_empty());
    assert_eq!(second, all_at_once);
    assert_eq!(pieces, whole);

    let mut p = vec![0u8; 12];
    pack_payload(&mut p, 9, 0);
    let mut raw = p[..3].to_vec();
    assert!(scan_raw(&mut raw, 12, 0).is_empty());
    raw.extend_from_slice(&p[3..]);
    assert_eq!(scan_raw(&mut raw, 12, 0), vec![(9, 0)]);
    assert!(raw.is_empty());
}
