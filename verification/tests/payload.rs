use uwb_delay_test::payload::{RecvBuffer, FEED_RESULTS_MAX};
use uwb_delay_test::{pack_payload, unpack_payload, PAYLOAD_HEADER_SIZE, SYNC0, SYNC1};

#[test]
fn sync_constants() {
    assert_eq!(SYNC0, 0xA5);
    assert_eq!(SYNC1, 0x5A);
    assert_eq!(PAYLOAD_HEADER_SIZE, 12);
}

#[test]
fn pack_writes_header_and_zeros() {
    let mut buf = vec![0xEEu8; 16];
    let ts = 1.5f64;
    pack_payload(&mut buf, 0x1234, ts.to_bits());
    assert_eq!(&buf[0..4], &[0xA5, 0x5A, 0x34, 0x12]);
    assert_eq!(&buf[4..12], &ts.to_le_bytes());
    assert_eq!(&buf[12..], &[0, 0, 0, 0]);
}

#[test]
fn pack_exact_header_size() {
    let mut buf = vec![0u8; 12];
    pack_payload(&mut buf, 1, 0x0102030405060708);
    assert_eq!(buf, vec![0xA5, 0x5A, 1, 0, 8, 7, 6, 5, 4, 3, 2, 1]);
}

#[test]
fn unpack_reads_back_pack() {
    let mut buf = vec![0u8; 20];
    let ts = 123.456f64;
    pack_payload(&mut buf, 65535, ts.to_bits());
    let (seq, bits) = unpack_payload(&buf).unwrap();
    assert_eq!(seq, 65535);
    assert_eq!(f64::from_bits(bits), ts);
}

#[test]
fn unpack_rejects_short_and_unsynced() {
    assert_eq!(unpack_payload(&[0xA5, 0x5A, 1, 0, 0, 0, 0, 0, 0, 0, 0]), None);
    let mut buf = vec![0u8; 12];
    pack_payload(&mut buf, 3, 0);
    buf[1] = 0x00;
    assert_eq!(unpack_payload(&buf), None);
    buf[1] = 0x5A;
    buf[0] = 0x5A;
    assert_eq!(unpack_payload(&buf), None);
}

#[test]
fn recv_buffer_finds_payload() {
    let mut buf = vec![0u8; 16];
    pack_payload(&mut buf, 42, 7);
    let mut rb = RecvBuffer::new(16);
    let found = rb.feed(&buf, 1000);
    assert_eq!(found.as_slice(), &[(42u16, 1000u64)]);
}

#[test]
fn recv_buffer_resynchronises() {
    let mut buf = vec![0u8; 12];
    pack_payload(&mut buf, 9, 0);
    let mut stream = vec![0x01, 0xA5, 0x02];
    stream.extend_from_slice(&buf);
    let mut rb = RecvBuffer::new(12);
    let found = rb.feed(&stream, 5);
    assert_eq!(found.as_slice(), &[(9u16, 5u64)]);
}

#[test]
fn recv_buffer_keeps_partial_payload() {
    let mut buf = vec![0u8; 16];
    pack_payload(&mut buf, 77, 0);
    let mut rb = RecvBuffer::new(16);
    assert!(rb.feed(&buf[..10], 1).is_empty());
    let found = rb.feed(&buf[10..], 2);
    assert_eq!(found.as_slice(), &[(77u16, 2u64)]);
}

#[test]
fn recv_buffer_reports_at_most_sixteen() {
    let mut stream = Vec::new();
    for s in 0u16..20 {
        let mut buf = vec![0u8; 12];
        pack_payload(&mut buf, s, 0);
        stream.extend_from_slice(&buf);
    }
    let mut rb = RecvBuffer::new(12);
    let found = rb.feed(&stream, 3);
    assert_eq!(found.len(), FEED_RESULTS_MAX);
    let seqs: Vec<u16> = found.as_slice().iter().map(|p| p.0).collect();
    assert_eq!(seqs, (0u16..16).collect::<Vec<u16>>());
    // the other four were consumed too
    assert!(rb.feed(&[], 4).is_empty());
}

#[test]
fn recv_buffer_small_payload_size_reports_nothing() {
    let mut buf = vec![0u8; 12];
    pack_payload(&mut buf, 1, 0);
    let mut rb = RecvBuffer::new(4);
    assert!(rb.feed(&buf, 0).is_empty());
}
