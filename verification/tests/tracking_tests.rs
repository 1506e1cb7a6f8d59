use family_router::device_tracking::{
    block_due, block_owner, close_device, count_frame, frame_count, needs_device_refresh, reload_devices,
    throughput_due, try_count_frame, FrameCount, TrackAction, TrackError, CHECK_NEW_DEVICE, CHECK_THROUGHPUT,
    THROUGHPUT_THRESHOLD,
};
use family_router::models::Device;

/// Closes the interval of every device in turn, collecting what each asks for.
fn close_all(devices: &mut Vec<Device>) -> Vec<Vec<TrackAction>> {
    let mut out = Vec::new();
    for i in 0..devices.len() {
        out.push(close_device(devices, i));
    }
    out
}

fn device(id: i32, mac: &str, last_checked: i32, last_last_checked: i32, is_blocked: i32) -> Device {
    Device {
        id,
        user_id: 7,
        nickname: format!("dev{}", id),
        addr_mac: mac.to_string(),
        addr_ip: format!("10.0.1.{}", id),
        is_watching: 0,
        is_blocked,
        is_tracked: 1,
        last_checked,
        last_last_checked,
        manufacturer_name: None,
    }
}

/// An Ethernet frame carrying an IPv4 packet whose total length is `total`.
fn ipv4_frame(dst: [u8; 6], src: [u8; 6], total: u16) -> Vec<u8> {
    let mut f = Vec::new();
    f.extend_from_slice(&dst);
    f.extend_from_slice(&src);
    f.extend_from_slice(&[0x08, 0x00]);
    let mut ip = vec![0u8; total as usize];
    ip[0] = 0x45;
    ip[2] = (total >> 8) as u8;
    ip[3] = (total & 0xff) as u8;
    ip[16] = 10;
    ip[19] = 9;
    f.extend_from_slice(&ip);
    f
}

const A: [u8; 6] = [0xaa, 0xbb, 0xcc, 0xdd, 0xee, 0x01];
const B: [u8; 6] = [0xaa, 0xbb, 0xcc, 0xdd, 0xee, 0x02];

#[test]
fn ipv4_frame_is_counted() {
    let f = ipv4_frame(B, A, 28);
    let c = frame_count(&f).unwrap();
    assert_eq!(c.dst, B);
    assert_eq!(c.src, A);
    assert_eq!(c.size, 28);
}

#[test]
fn other_ethertypes_are_not_counted() {
    let mut f = ipv4_frame(B, A, 28);
    f[12] = 0x86;
    f[13] = 0xdd;
    assert!(frame_count(&f).is_none());
}

#[test]
fn truncated_ipv4_is_not_counted() {
    let mut f = ipv4_frame(B, A, 28);
    f[17] = 60; // total length 60, but only 28 bytes follow
    assert!(frame_count(&f).is_none());
    let short = ipv4_frame(B, A, 28)[..30].to_vec();
    assert!(frame_count(&short).is_none());
}

#[test]
fn header_longer_than_total_is_not_counted() {
    let mut f = ipv4_frame(B, A, 28);
    f[14] = 0x4f; // header of 60 bytes
    assert!(frame_count(&f).is_none());
}

#[test]
fn frames_count_for_sender_and_receiver() {
    let mut devices = vec![
        device(1, "aa:bb:cc:dd:ee:01", 5, 0, 0),
        device(2, "AA:BB:CC:DD:EE:02", 0, 0, 0),
        device(3, "aa:bb:cc:dd:ee:03", 0, 0, 0),
        device(4, "aa-bb-cc-dd-ee-01", 0, 0, 1),
    ];
    let frame = FrameCount { dst: B, src: A, size: 100 };
    count_frame(&mut devices, &frame);
    assert_eq!(devices[0].last_checked, 105);
    assert_eq!(devices[1].last_checked, 100);
    assert_eq!(devices[2].last_checked, 0);
    assert_eq!(devices[3].last_checked, 100);
}

#[test]
fn unreadable_mac_stops_counting() {
    let mut devices = vec![device(1, "aa:bb:cc:dd:ee:01", 0, 0, 0), device(2, "not a mac", 0, 0, 0)];
    let frame = FrameCount { dst: B, src: A, size: 100 };
    assert_eq!(try_count_frame(&mut devices, &frame), Err(TrackError::UnreadableMac));
    assert_eq!(devices[0].last_checked, 0);
}

#[test]
fn overflowing_counter_stops_counting() {
    let mut devices = vec![device(1, "aa:bb:cc:dd:ee:01", i32::MAX - 10, 0, 0)];
    let frame = FrameCount { dst: B, src: A, size: 100 };
    assert_eq!(try_count_frame(&mut devices, &frame), Err(TrackError::CounterOverflow));
    assert_eq!(devices[0].last_checked, i32::MAX - 10);
}

#[test]
fn counting_through_the_checked_entry() {
    let mut devices = vec![device(1, "aa:bb:cc:dd:ee:01", 1, 0, 0)];
    let frame = FrameCount { dst: B, src: A, size: 100 };
    assert_eq!(try_count_frame(&mut devices, &frame), Ok(()));
    assert_eq!(devices[0].last_checked, 101);
}

#[test]
fn closing_marks_busy_devices_watching() {
    let mut devices = vec![
        device(1, "aa:bb:cc:dd:ee:01", 10000, 10000, 0),
        device(2, "aa:bb:cc:dd:ee:02", 10000, 100, 0),
        device(3, "aa:bb:cc:dd:ee:03", 10000, 10000, 1),
        device(4, "aa:bb:cc:dd:ee:04", THROUGHPUT_THRESHOLD, 10000, 0),
    ];
    let actions = close_all(&mut devices);
    assert_eq!(
        actions,
        vec![
            vec![
                TrackAction::MarkWatching { user_id: 7 },
                TrackAction::ChargePoint { user_id: 7 },
                TrackAction::CheckPoints { user_id: 7, addr_ip: "10.0.1.1".to_string() },
            ],
            vec![TrackAction::MarkNotWatching { addr_mac: "aa:bb:cc:dd:ee:02".to_string() }],
            vec![],
            vec![TrackAction::MarkNotWatching { addr_mac: "aa:bb:cc:dd:ee:04".to_string() }],
        ]
    );
    assert_eq!(devices[0].is_watching, 1);
    assert_eq!(devices[0].last_checked, 0);
    assert_eq!(devices[0].last_last_checked, 10000);
    assert_eq!(devices[1].is_watching, 0);
    assert_eq!(devices[1].last_last_checked, 10000);
    assert_eq!(devices[2].is_watching, 0);
    assert_eq!(devices[2].last_checked, 10000);
    assert_eq!(devices[3].is_watching, 0);
}

#[test]
fn two_busy_intervals_make_a_device_watching() {
    let mut devices = vec![device(1, "aa:bb:cc:dd:ee:01", 0, 0, 0)];
    let f = ipv4_frame(B, A, 9500);
    let c = frame_count(&f).unwrap();
    count_frame(&mut devices, &c);
    close_all(&mut devices);
    assert_eq!(devices[0].is_watching, 0);
    assert_eq!(devices[0].last_checked, 0);
    assert_eq!(devices[0].last_last_checked, 9500);
    count_frame(&mut devices, &c);
    let actions = close_all(&mut devices);
    assert_eq!(actions[0][1], TrackAction::ChargePoint { user_id: 7 });
    assert_eq!(devices[0].is_watching, 1);
    close_all(&mut devices);
    assert_eq!(devices[0].is_watching, 0);
}

#[test]
fn blocked_owner_is_no_longer_charged() {
    let mut devices = vec![
        device(1, "aa:bb:cc:dd:ee:01", 10000, 10000, 0),
        device(2, "aa:bb:cc:dd:ee:02", 10000, 10000, 0),
    ];
    devices[1].user_id = 8;
    assert!(block_due(0));
    assert!(block_due(-3));
    assert!(!block_due(1));
    block_owner(&mut devices, 7);
    assert_eq!(devices[0].is_blocked, 1);
    assert_eq!(devices[1].is_blocked, 0);
    let actions = close_all(&mut devices);
    assert!(actions[0].is_empty());
    assert_eq!(devices[0].last_checked, 10000);
    assert_eq!(actions[1][1], TrackAction::ChargePoint { user_id: 8 });
}

#[test]
fn reload_when_empty_or_stale() {
    let empty: Vec<Device> = Vec::new();
    let one = vec![device(1, "aa:bb:cc:dd:ee:01", 0, 0, 0)];
    assert!(needs_device_refresh(&empty, 0));
    assert!(!needs_device_refresh(&one, CHECK_NEW_DEVICE));
    assert!(needs_device_refresh(&one, CHECK_NEW_DEVICE + 1));
}

#[test]
fn reload_watches_each_loaded_device_once() {
    let mut devices = vec![device(1, "aa:bb:cc:dd:ee:01", 500, 600, 0), device(3, "aa:bb:cc:dd:ee:03", 1, 1, 0)];
    let mut fresh = device(1, "aa:bb:cc:dd:ee:01", 0, 0, 0);
    fresh.is_watching = 1;
    reload_devices(&mut devices, vec![device(2, "aa:bb:cc:dd:ee:02", 0, 0, 0), fresh]);
    assert_eq!(devices.iter().map(|d| d.id).collect::<Vec<_>>(), vec![2, 1]);
    assert_eq!((devices[1].last_checked, devices[1].last_last_checked, devices[1].is_watching), (500, 600, 1));
    assert_eq!(devices[0].last_checked, 0);
    let again = devices.clone();
    reload_devices(&mut devices, again);
    assert_eq!(devices.iter().map(|d| d.id).collect::<Vec<_>>(), vec![2, 1]);
}

#[test]
fn interval_ends_after_ten_seconds() {
    assert!(!throughput_due(CHECK_THROUGHPUT));
    assert!(throughput_due(CHECK_THROUGHPUT + 1));
}

