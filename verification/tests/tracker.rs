use uwb_delay_test::tracker::{
    bidi_loss_deadline, bidi_test_over, delay_test_end, loss_deadline, may_send, next_send_time,
    BidiTracker, DelayTestEnd,
    DelayTracker,
};

#[test]
fn delay_tracker_receive() {
    let mut t = DelayTracker::new();
    assert!(!t.has_pending());
    t.record_send(5, 1_000);
    assert!(t.has_pending());
    assert_eq!(t.sent_at(5), Some(1_000));
    assert_eq!(t.on_receive(5, 3_500), Some(2_500));
    assert_eq!(t.on_receive(5, 4_000), None);
    assert_eq!(t.sent_at(5), None);
    assert!(!t.has_pending());
    assert_eq!(t.lost(), 0);
}

#[test]
fn delay_tracker_expiry() {
    let mut t = DelayTracker::new();
    t.record_send(1, 100);
    t.record_send(2, 200);
    t.record_send(3, 300);
    assert_eq!(t.on_receive(2, 250), Some(50));
    assert_eq!(t.expire_before(300), 1);
    assert_eq!(t.lost(), 1);
    assert_eq!(t.sent_at(1), None);
    assert_eq!(t.sent_at(3), Some(300));
    assert_eq!(t.expire_all(), 1);
    assert_eq!(t.lost(), 2);
    assert!(!t.has_pending());
}

#[test]
fn deadlines_and_schedule() {
    assert_eq!(loss_deadline(5_000_000_000, 3000), 2_000_000_000);
    assert_eq!(loss_deadline(1_000, 3000), 0);
    assert_eq!(next_send_time(10, 10, 15), 20);
    assert_eq!(next_send_time(10, 10, 50), 60);
    assert!(may_send(0, 65000));
    assert!(may_send(10, 9));
    assert!(!may_send(10, 10));
}

#[test]
fn delay_test_end_cases() {
    assert_eq!(delay_test_end(10, 5, true, 0, 1, 1), DelayTestEnd::Running);
    assert_eq!(delay_test_end(10, 10, false, 0, 1, 1), DelayTestEnd::Complete);
    assert_eq!(delay_test_end(10, 10, true, 1_000_010, 1, 1), DelayTestEnd::Running);
    assert_eq!(delay_test_end(10, 10, true, 1_000_011, 1, 1), DelayTestEnd::TimedOut);
    assert_eq!(delay_test_end(0, 10, false, 0, 1, 1), DelayTestEnd::Running);
}

#[test]
fn bidi_tracker_round_trip() {
    let mut t = BidiTracker::new();
    assert!(t.no_active());
    t.record_send(7, 100);
    assert!(!t.no_active());
    assert_eq!(t.on_slave_receive(7, 150), Some(50));
    t.record_ack_sent(7, 160);
    assert_eq!(t.on_master_receive(7, 200), Some((40, 100)));
    assert_eq!(t.on_master_receive(7, 210), None);
    assert_eq!(t.on_slave_receive(7, 220), None);
    // a settled sequence number still waits in the list until its deadline
    assert!(!t.no_active());
    assert_eq!(t.expire_before(100), 0);
    assert_eq!(t.expire_before(101), 1);
    assert_eq!(t.lost(), 1);
    assert!(t.no_active());
}

#[test]
fn bidi_tracker_expiry_keeps_recent() {
    let mut t = BidiTracker::new();
    t.record_send(1, 10);
    t.record_send(2, 20);
    t.record_send(3, 30);
    assert_eq!(t.expire_before(25), 2);
    assert!(!t.slot(1).active);
    assert!(t.slot(3).active);
    assert!(!t.no_active());
    assert_eq!(t.lost(), 2);
}

#[test]
fn counts_before_expiry() {
    let mut t = DelayTracker::new();
    t.record_send(1, 100);
    t.record_send(2, 200);
    t.record_send(3, 300);
    assert_eq!(t.count_pending(), 3);
    assert_eq!(t.count_expired_before(250), 2);
    assert_eq!(t.expire_before(250), 2);
    assert_eq!(t.count_pending(), 1);

    let mut b = BidiTracker::new();
    b.record_send(1, 10);
    b.record_send(2, 20);
    assert_eq!(b.count_expired_before(15), 1);
    assert_eq!(b.expire_before(15), 1);
    assert_eq!(b.count_expired_before(15), 0);
}

#[test]
fn bidi_end_and_deadline() {
    assert_eq!(bidi_loss_deadline(6_000_000_000), 1_000_000_000);
    assert_eq!(bidi_loss_deadline(1), 0);
    assert!(!bidi_test_over(10, 5, true, 0, 1));
    assert!(bidi_test_over(10, 10, true, 0, 1));
    assert!(!bidi_test_over(10, 10, false, 10_000_000_010, 1));
    assert!(bidi_test_over(10, 10, false, 10_000_000_011, 1));
    assert!(!bidi_test_over(0, 10, true, 0, 1));
}
