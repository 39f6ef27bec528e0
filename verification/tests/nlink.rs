use uwb_delay_test::nlink::{
    build_broadcast_frame, build_unicast_frame, build_user_frame1, checksum, FrameBuffer, Role,
};

#[test]
fn checksum_of_empty_is_zero() {
    assert_eq!(checksum(&[]), 0);
}

#[test]
fn checksum_wraps_modulo_256() {
    assert_eq!(checksum(&[0xFF, 0x02]), 0x01);
    assert_eq!(checksum(&[1, 2, 3]), 6);
    let big = vec![0xFFu8; 1000];
    assert_eq!(checksum(&big), ((1000u32 * 255) % 256) as u8);
}

#[test]
fn role_codes() {
    assert_eq!(Role::Node.code(), 0);
    assert_eq!(Role::Anchor.code(), 1);
    assert_eq!(Role::Tag.code(), 2);
    assert_eq!(Role::Console.code(), 3);
    assert_eq!(Role::Master.code(), 4);
    assert_eq!(Role::Slave.code(), 5);
}

#[test]
fn handshake_frame_bytes() {
    let f = build_user_frame1(Role::Slave.code(), 0xFF, &[]);
    assert_eq!(f, vec![0x54, 0xF1, 0xFF, 0xFF, 0xFF, 0xFF, 0x05, 0xFF, 0x00, 0x00, 0x45]);
}

#[test]
fn broadcast_frame_bytes() {
    let f = build_broadcast_frame(&[1, 2, 3, 4]);
    assert_eq!(
        f,
        vec![0x54, 0xF1, 0xFF, 0xFF, 0xFF, 0xFF, 0x00, 0xFF, 0x04, 0x00, 1, 2, 3, 4, 0x4e]
    );
}

#[test]
fn unicast_frame_header() {
    let f = build_unicast_frame(7, &[9; 16]);
    assert_eq!(f.len(), 27);
    assert_eq!(f[6], 5);
    assert_eq!(f[7], 7);
    assert_eq!(f[8], 16);
    assert_eq!(f[9], 0);
    assert_eq!(f[26], checksum(&f[..26]));
}

#[test]
fn length_field_holds_both_bytes() {
    let payload = vec![0u8; 300];
    let f = build_user_frame1(1, 2, &payload);
    assert_eq!(f[8], (300 % 256) as u8);
    assert_eq!(f[9], 1);
    assert_eq!(f.len(), 311);
}

#[test]
fn frame_buffer_gives_back_payload() {
    let payload: Vec<u8> = (0u8..16).collect();
    let f = build_user_frame1(5, 3, &payload);
    let mut fb = FrameBuffer::new();
    let out = fb.feed(&f);
    assert_eq!(out, vec![payload]);
    assert_eq!(fb.feed(&[]), Vec::<Vec<u8>>::new());
}

#[test]
fn frame_buffer_skips_short_payloads() {
    let f = build_user_frame1(5, 3, &[1, 2, 3]);
    let mut fb = FrameBuffer::new();
    assert!(fb.feed(&f).is_empty());
    // the short frame was consumed: a following good frame is found at once
    let g = build_user_frame1(5, 3, &[4, 5, 6, 7]);
    assert_eq!(fb.feed(&g), vec![vec![4, 5, 6, 7]]);
}

#[test]
fn frame_buffer_reassembles_split_frames() {
    let f = build_user_frame1(4, 0, &[0xCA, 0xFE, 0xBA, 0xBE, 1, 1, 9]);
    let mut fb = FrameBuffer::new();
    assert!(fb.feed(&f[..5]).is_empty());
    assert!(fb.feed(&f[5..12]).is_empty());
    assert_eq!(fb.feed(&f[12..]), vec![vec![0xCA, 0xFE, 0xBA, 0xBE, 1, 1, 9]]);
}

#[test]
fn frame_buffer_skips_garbage_and_bad_checksum() {
    let good = build_user_frame1(5, 1, &[10, 20, 30, 40]);
    let mut bad = build_user_frame1(5, 1, &[1, 1, 1, 1]);
    let last = bad.len() - 1;
    bad[last] ^= 0xFF;
    let mut stream = vec![0x00, 0x54, 0x13];
    stream.extend_from_slice(&bad);
    stream.extend_from_slice(&good);
    let mut fb = FrameBuffer::new();
    assert_eq!(fb.feed(&stream), vec![vec![10, 20, 30, 40]]);
}

#[test]
fn frame_buffer_two_frames_in_one_read() {
    let a = build_user_frame1(5, 1, &[1, 2, 3, 4]);
    let b = build_user_frame1(5, 1, &[5, 6, 7, 8, 9]);
    let mut stream = a.clone();
    stream.extend_from_slice(&b);
    let mut fb = FrameBuffer::new();
    assert_eq!(fb.feed(&stream), vec![vec![1, 2, 3, 4], vec![5, 6, 7, 8, 9]]);
}

#[test]
fn frame_buffer_clear_drops_pending() {
    let f = build_user_frame1(5, 3, &[1, 2, 3, 4]);
    let mut fb = FrameBuffer::new();
    assert!(fb.feed(&f[..6]).is_empty());
    fb.clear();
    assert!(fb.feed(&f[6..]).is_empty());
    assert_eq!(fb.feed(&f), vec![vec![1, 2, 3, 4]]);
}

#[test]
fn frame_buffer_drops_pending_on_overflow() {
    let f = build_user_frame1(5, 3, &[1, 2, 3, 4]);
    let mut fb = FrameBuffer::new();
    assert!(fb.feed(&f[..6]).is_empty());
    // pending (6) + data (65531) exceeds the capacity: what was pending is dropped
    let mut big = vec![0u8; 65531 - f.len()];
    big.extend_from_slice(&f);
    assert_eq!(fb.feed(&big), vec![vec![1, 2, 3, 4]]);
}

#[test]
fn empty_broadcast_and_unicast_frames() {
    assert_eq!(
        build_broadcast_frame(&[]),
        vec![0x54, 0xF1, 0xFF, 0xFF, 0xFF, 0xFF, 0x00, 0xFF, 0x00, 0x00, 0x40]
    );
    assert_eq!(
        build_unicast_frame(3, &[]),
        vec![0x54, 0xF1, 0xFF, 0xFF, 0xFF, 0xFF, 0x05, 0x03, 0x00, 0x00, 0x49]
    );
}
