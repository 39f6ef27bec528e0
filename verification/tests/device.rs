use uwb_delay_test::device::{
    build_system_query_frame, device_from_reply, find_system_reply, is_scan_candidate,
    parse_system_frame, select_devices, DeviceInfo, Role, ROLE_MASTER, ROLE_SLAVE,
};

fn reply_frame(role: u8, id: u8) -> Vec<u8> {
    let mut f = vec![0u8; 32];
    f[0] = 0x52;
    f[1] = 0x00;
    f[2] = 0x01;
    f[22] = role;
    f[23] = id;
    let cs = f[..31].iter().fold(0u8, |a, &b| a.wrapping_add(b));
    f[31] = cs;
    f
}

fn dev(port: &str, role: Role, id: u8) -> DeviceInfo {
    DeviceInfo { port: port.to_string(), role, id }
}

#[test]
fn role_from_byte() {
    assert_eq!(Role::from(0), Role::Node);
    assert_eq!(Role::from(1), Role::Anchor);
    assert_eq!(Role::from(2), Role::Tag);
    assert_eq!(Role::from(3), Role::Console);
    assert_eq!(Role::from(4), Role::Master);
    assert_eq!(Role::from(5), Role::Slave);
    assert_eq!(Role::from(6), Role::Unknown);
    assert_eq!(Role::from(255), Role::Unknown);
}

#[test]
fn role_names() {
    assert_eq!(Role::Node.as_str(), "NODE");
    assert_eq!(Role::Anchor.as_str(), "ANCHOR");
    assert_eq!(Role::Tag.as_str(), "TAG");
    assert_eq!(Role::Console.as_str(), "CONSOLE");
    assert_eq!(Role::Master.as_str(), "MASTER");
    assert_eq!(Role::Slave.as_str(), "SLAVE");
    assert_eq!(Role::Unknown.as_str(), "UNKNOWN");
}

#[test]
fn system_query_frame_bytes() {
    let f = build_system_query_frame();
    assert_eq!(f.len(), 32);
    assert_eq!(&f[0..3], &[0x52, 0x00, 0x01]);
    assert!(f[3..22].iter().all(|&b| b == 0xFF));
    assert!(f[22..31].iter().all(|&b| b == 0));
    assert_eq!(f[31], 0x40);
}

#[test]
fn query_frame_reads_as_node_zero() {
    let f = build_system_query_frame();
    assert_eq!(parse_system_frame(&f), Some((Role::Node, 0)));
}

#[test]
fn parse_system_frame_cases() {
    assert_eq!(parse_system_frame(&reply_frame(ROLE_MASTER, 7)), Some((Role::Master, 7)));
    assert_eq!(parse_system_frame(&reply_frame(9, 1)), Some((Role::Unknown, 1)));
    let mut bad = reply_frame(ROLE_SLAVE, 2);
    bad[31] = bad[31].wrapping_add(1);
    assert_eq!(parse_system_frame(&bad), None);
    let mut bad_head = reply_frame(ROLE_SLAVE, 2);
    bad_head[1] = 1;
    assert_eq!(parse_system_frame(&bad_head), None);
    assert_eq!(parse_system_frame(&reply_frame(ROLE_SLAVE, 2)[..31]), None);
}

#[test]
fn find_reply_at_any_offset() {
    let mut buf = vec![1, 2, 3];
    buf.extend_from_slice(&reply_frame(ROLE_SLAVE, 4));
    buf.extend_from_slice(&reply_frame(ROLE_MASTER, 5));
    assert_eq!(find_system_reply(&buf), Some((Role::Slave, 4)));
    assert_eq!(find_system_reply(&buf[..34]), None);
}

#[test]
fn device_from_reply_fills_port() {
    let d = device_from_reply("/dev/cu.usb1", &reply_frame(ROLE_SLAVE, 3)).unwrap();
    assert_eq!(d.port, "/dev/cu.usb1");
    assert_eq!(d.role, Role::Slave);
    assert_eq!(d.id, 3);
    assert!(device_from_reply("/dev/cu.usb1", &[0u8; 40]).is_none());
}

#[test]
fn scan_candidates() {
    assert!(is_scan_candidate(true, "/dev/cu.wchusbserial585C0089431"));
    assert!(!is_scan_candidate(false, "/dev/cu.wchusbserial585C0089431"));
    assert!(!is_scan_candidate(true, "/dev/tty.usbserial"));
    assert!(!is_scan_candidate(true, "/dev/cu"));
    assert!(is_scan_candidate(true, "x/dev/cu.y"));
}

#[test]
fn select_filters_and_sorts_stably() {
    let found = vec![
        dev("a", Role::Slave, 3),
        dev("b", Role::Master, 1),
        dev("c", Role::Slave, 1),
        dev("d", Role::Slave, 3),
        dev("e", Role::Slave, 0),
    ];
    let sel = select_devices(&found, Role::Slave);
    let ports: Vec<&str> = sel.iter().map(|d| d.port.as_str()).collect();
    assert_eq!(ports, vec!["e", "c", "a", "d"]);
    let masters = select_devices(&found, Role::Master);
    assert_eq!(masters.len(), 1);
    assert_eq!(masters[0].port, "b");
    assert!(select_devices(&found, Role::Tag).is_empty());
}

#[test]
fn device_info_clone_keeps_fields() {
    let d = dev("/dev/cu.x", Role::Master, 9);
    let c = d.clone();
    assert_eq!(c.port, d.port);
    assert_eq!(c.role, d.role);
    assert_eq!(c.id, d.id);
}

#[test]
fn role_byte_codes() {
    assert_eq!(Role::Node.code(), 0);
    assert_eq!(Role::Anchor.code(), 1);
    assert_eq!(Role::Tag.code(), 2);
    assert_eq!(Role::Console.code(), 3);
    assert_eq!(Role::Master.code(), 4);
    assert_eq!(Role::Slave.code(), 5);
    assert_eq!(Role::Unknown.code(), 255);
    assert_eq!(Role::from(Role::Slave.code()), Role::Slave);
}

#[test]
fn any_corrupted_byte_rejects_system_frame() {
    let good = reply_frame(ROLE_SLAVE, 2);
    assert!(parse_system_frame(&good).is_some());
    for k in 0..32 {
        let mut bad = good.clone();
        bad[k] ^= 0x10;
        assert_eq!(parse_system_frame(&bad), None, "byte {}", k);
    }
}
