use uwb_delay_test::nlink::{build_user_frame1, FrameBuffer, Role};
use uwb_delay_test::protocol::{build_ack_payload, build_probe_payload, build_probe_reply, probe_responder};
use uwb_delay_test::session::{
    ack_in_payload, build_test_payload, choose_slave, parse_unsigned, slave_answer,
    test_limit_from, AckOutcome, MasterTest, SlaveAnswer, DEFAULT_TEST_LIMIT,
};
use uwb_delay_test::unpack_payload;

#[test]
fn parse_unsigned_cases() {
    assert_eq!(parse_unsigned("0", 255), Some(0));
    assert_eq!(parse_unsigned("255", 255), Some(255));
    assert_eq!(parse_unsigned("256", 255), None);
    assert_eq!(parse_unsigned("+12", 255), Some(12));
    assert_eq!(parse_unsigned("+", 255), None);
    assert_eq!(parse_unsigned("", 255), None);
    assert_eq!(parse_unsigned("-1", 255), None);
    assert_eq!(parse_unsigned("1a", 255), None);
    assert_eq!(parse_unsigned("007", 255), Some(7));
    assert_eq!(parse_unsigned("18446744073709551615", u64::MAX), Some(u64::MAX));
    assert_eq!(parse_unsigned("18446744073709551616", u64::MAX), None);
    assert_eq!(parse_unsigned("99999999999999999999x", u64::MAX), None);
}

#[test]
fn parse_unsigned_agrees_with_std() {
    for s in ["0", "42", "+42", "", "+", "-3", " 4", "4 ", "300", "65536", "12x", "٣"] {
        assert_eq!(parse_unsigned(s, u8::MAX as u64), s.parse::<u8>().ok().map(|v| v as u64), "{}", s);
        assert_eq!(parse_unsigned(s, u16::MAX as u64), s.parse::<u16>().ok().map(|v| v as u64), "{}", s);
    }
}

#[test]
fn choose_slave_by_index_or_default() {
    let online = [3u8, 7, 9];
    assert_eq!(choose_slave(&online, ""), 3);
    assert_eq!(choose_slave(&online, "  \n"), 3);
    assert_eq!(choose_slave(&online, "1"), 7);
    assert_eq!(choose_slave(&online, " 2 \n"), 9);
    assert_eq!(choose_slave(&online, "3"), 3);
    assert_eq!(choose_slave(&online, "7"), 3);
    assert_eq!(choose_slave(&online, "abc"), 3);
}

#[test]
fn test_limit_parsing() {
    assert_eq!(test_limit_from("1000\n"), 1000);
    assert_eq!(test_limit_from(""), DEFAULT_TEST_LIMIT);
    assert_eq!(test_limit_from("many"), 500);
    assert_eq!(test_limit_from(" 0 "), 0);
}

#[test]
fn master_test_cycle() {
    let mut t = MasterTest::new();
    assert_eq!(t.next_send(), None);
    t.start(4, 2);
    assert_eq!(t.next_send(), Some((4, 0)));
    assert_eq!(t.next_send(), None);
    assert_eq!(t.on_ack(), AckOutcome::NextRound);
    assert_eq!(t.seq, 1);
    assert_eq!(t.next_send(), Some((4, 1)));
    assert_eq!(t.sent_count, 2);
    assert_eq!(t.on_ack(), AckOutcome::Finished);
    assert!(!t.in_test);
    assert!(t.test_complete);
    assert_eq!(t.next_send(), None);
}

#[test]
fn master_test_waits_for_late_acks() {
    let mut t = MasterTest::new();
    t.start(1, 2);
    t.next_send();
    t.on_ack();
    t.next_send();
    // an acknowledgement counted while the last one is still to come
    t.recv_count = 0;
    assert_eq!(t.on_ack(), AckOutcome::Waiting);
    assert!(t.in_test);
    assert_eq!(t.on_ack(), AckOutcome::Finished);
}

#[test]
fn master_test_limit_zero_sends_one() {
    let mut t = MasterTest::new();
    t.start(1, 0);
    assert_eq!(t.next_send(), Some((1, 0)));
    assert_eq!(t.on_ack(), AckOutcome::Finished);
    assert_eq!(t.sent_count, 1);
}

#[test]
fn sequence_wraps() {
    let mut t = MasterTest::new();
    t.start(1, 10);
    t.seq = 65535;
    t.next_send();
    assert_eq!(t.on_ack(), AckOutcome::NextRound);
    assert_eq!(t.seq, 0);
}

#[test]
fn test_payload_layout() {
    let p = build_test_payload(0x0102, 0x1122334455667788);
    assert_eq!(p.len(), 16);
    assert_eq!(unpack_payload(&p), Some((0x0102, 0x1122334455667788)));
    assert_eq!(&p[12..], &[0, 0, 0, 0]);
}

#[test]
fn ack_in_payload_cases() {
    assert_eq!(ack_in_payload(&build_ack_payload(9, 16)), Some(9));
    assert_eq!(ack_in_payload(&build_probe_reply(1, 1, 1)), None);
    assert_eq!(ack_in_payload(&[1, 2, 3, 4]), None);
}

#[test]
fn slave_answers_probe() {
    match slave_answer(6, &build_probe_payload(6, 0x21)) {
        SlaveAnswer::ProbeReply { probed_id, frame } => {
            assert_eq!(probed_id, 6);
            assert_eq!(frame, build_user_frame1(Role::Master.code(), 0, &build_probe_reply(6, 6, 0x21)));
            let mut fb = FrameBuffer::new();
            let got = fb.feed(&frame);
            assert_eq!(got.len(), 1);
            assert_eq!(probe_responder(&got[0], 0x21), Some(6));
        }
        _ => panic!("expected a probe reply"),
    }
}

#[test]
fn slave_answers_payload_with_ack() {
    let p = build_test_payload(300, 1);
    match slave_answer(2, &p) {
        SlaveAnswer::Ack { seq, frame } => {
            assert_eq!(seq, 300);
            let mut fb = FrameBuffer::new();
            let got = fb.feed(&frame);
            assert_eq!(got.len(), 1);
            assert_eq!(ack_in_payload(&got[0]), Some(300));
        }
        _ => panic!("expected an acknowledgement"),
    }
}

#[test]
fn slave_ignores_other_bytes() {
    assert!(matches!(slave_answer(2, &[1, 2, 3]), SlaveAnswer::Ignored));
}
