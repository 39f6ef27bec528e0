use uwb_delay_test::protocol::{
    build_ack_payload, build_probe_payload, build_probe_reply, is_probe_reply, parse_ack,
    probe_request, probe_responder, record_online, sorted_online,
};

#[test]
fn probe_payload_bytes() {
    let p = build_probe_payload(7, 0x33);
    assert_eq!(p, vec![0xDE, 0xAD, 0xBE, 0xEF, 7, 0x33, 0, 0, 0, 0, 0, 0, 0, 0, 0, 0]);
}

#[test]
fn probe_reply_bytes() {
    let p = build_probe_reply(7, 7, 0x33);
    assert_eq!(p, vec![0xCA, 0xFE, 0xBA, 0xBE, 7, 7, 0x33, 0, 0, 0, 0, 0, 0, 0, 0, 0]);
}

#[test]
fn slave_reads_probe() {
    assert_eq!(probe_request(&build_probe_payload(4, 9)), Some((4, 9)));
    assert_eq!(probe_request(&[0xDE, 0xAD, 0xBE, 0xEF, 4]), None);
    assert_eq!(probe_request(&[0xDE, 0xAD, 0xBE, 0xEE, 4, 9]), None);
}

#[test]
fn master_reads_reply() {
    assert_eq!(probe_responder(&build_probe_reply(4, 4, 9), 9), Some(4));
    assert_eq!(probe_responder(&build_probe_reply(4, 5, 9), 9), None);
    assert_eq!(probe_responder(&build_probe_reply(4, 4, 9), 8), None);
    assert_eq!(probe_responder(&[0xCA, 0xFE, 0xBA, 0xBE, 4, 4], 9), None);
}

#[test]
fn probe_and_reply_told_apart() {
    assert!(is_probe_reply(&build_probe_reply(1, 2, 3)));
    assert!(!is_probe_reply(&build_probe_payload(1, 3)));
    assert!(!is_probe_reply(&[0xCA, 0xFE, 0xBA]));
}

#[test]
fn ack_payload_bytes() {
    let a = build_ack_payload(0x0201, 16);
    assert_eq!(a, vec![0x5A, 0xA5, 0x01, 0x02, 0, 0, 0, 0, 0, 0, 0, 0, 0, 0, 0, 0]);
    assert_eq!(build_ack_payload(5, 4), vec![0x5A, 0xA5, 5, 0]);
}

#[test]
fn ack_reads_back() {
    assert_eq!(parse_ack(&build_ack_payload(65535, 16)), Some(65535));
    assert_eq!(parse_ack(&build_ack_payload(0, 4)), Some(0));
    assert_eq!(parse_ack(&[0x5A, 0xA5, 1]), None);
    assert_eq!(parse_ack(&[0xA5, 0x5A, 1, 0]), None);
}

#[test]
fn online_list_has_no_duplicates() {
    let mut online = Vec::new();
    record_online(&mut online, 5);
    record_online(&mut online, 2);
    record_online(&mut online, 5);
    assert_eq!(online, vec![5, 2]);
}

#[test]
fn sorted_online_sorts_and_dedups() {
    assert_eq!(sorted_online(&vec![9, 3, 3, 255, 0, 9]), vec![0, 3, 9, 255]);
    assert_eq!(sorted_online(&vec![]), Vec::<u8>::new());
}
