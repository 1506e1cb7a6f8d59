use family_router::models::{new_device, new_user};
use family_router::route_devices::{blocked_value, device_action, parse_device_id, user_location, DeviceAction};
use family_router::route_users::{try_user_profile, user_profile, ProfileRow};

fn row(device: Option<(i32, &str, &str)>) -> ProfileRow {
    ProfileRow {
        user_id: 3,
        name: "sam".to_string(),
        points: 12,
        is_admin: 0,
        device_id: device.map(|d| d.0),
        nickname: device.map(|d| d.1.to_string()),
        addr_ip: device.map(|d| d.2.to_string()),
    }
}

#[test]
fn profile_lists_each_device() {
    let rows = vec![row(Some((1, "tablet", "10.0.1.5"))), row(Some((2, "phone", "10.0.1.6")))];
    let p = user_profile(&rows);
    assert_eq!(p.user_id, 3);
    assert_eq!(p.name, "sam");
    assert_eq!(p.points, 12);
    assert_eq!(p.is_admin, 0);
    assert_eq!(
        p.devices,
        vec![(1, "tablet".to_string(), "10.0.1.5".to_string()), (2, "phone".to_string(), "10.0.1.6".to_string())]
    );
}

#[test]
fn user_without_devices_has_empty_profile_list() {
    let p = user_profile(&vec![row(None)]);
    assert!(p.devices.is_empty());
    assert_eq!(p.name, "sam");
}

#[test]
fn no_rows_make_no_profile() {
    assert!(try_user_profile(&vec![]).is_none());
    let mut broken = row(Some((1, "tablet", "10.0.1.5")));
    broken.nickname = None;
    assert!(try_user_profile(&vec![broken]).is_none());
    assert!(try_user_profile(&vec![row(None)]).is_some());
}

#[test]
fn actions_are_read() {
    assert_eq!(device_action("block"), DeviceAction::Block);
    assert_eq!(device_action("unblock"), DeviceAction::Unblock);
    assert_eq!(device_action("remove"), DeviceAction::Unknown);
    assert_eq!(device_action("Block"), DeviceAction::Unknown);
    assert_eq!(blocked_value(DeviceAction::Block), Some(1));
    assert_eq!(blocked_value(DeviceAction::Unblock), Some(0));
    assert_eq!(blocked_value(DeviceAction::Unknown), None);
}

#[test]
fn redirect_goes_to_profile() {
    assert_eq!(user_location("sam"), "/users/sam");
    assert_eq!(user_location(""), "/users/");
}

#[test]
fn device_ids_are_decimal() {
    assert_eq!(parse_device_id("42"), Some(42));
    assert_eq!(parse_device_id("-7"), Some(-7));
    assert_eq!(parse_device_id("+3"), Some(3));
    assert_eq!(parse_device_id("2147483647"), Some(i32::MAX));
    assert_eq!(parse_device_id("2147483648"), None);
    assert_eq!(parse_device_id(""), None);
    assert_eq!(parse_device_id("-"), None);
    assert_eq!(parse_device_id(" 4"), None);
    assert_eq!(parse_device_id("4a"), None);
}

#[test]
fn new_users_start_without_points() {
    let u = new_user("sam", 1);
    assert_eq!(u.name, "sam");
    assert_eq!(u.points, 0);
    assert_eq!(u.is_admin, 1);
}

#[test]
fn devices_of_admins_are_not_tracked() {
    let d = new_device(3, "tablet", "aa:bb:cc:dd:ee:01", "10.0.1.5", 1);
    assert_eq!(d.is_tracked, 0);
    let d = new_device(3, "tablet", "aa:bb:cc:dd:ee:01", "10.0.1.5", 0);
    assert_eq!(d.is_tracked, 1);
    assert_eq!(d.user_id, 3);
    assert_eq!(d.nickname, "tablet");
    assert_eq!(d.addr_mac, "aa:bb:cc:dd:ee:01");
    assert_eq!(d.addr_ip, "10.0.1.5");
    assert_eq!((d.is_watching, d.is_blocked, d.last_checked, d.last_last_checked), (0, 0, 0, 0));
    assert!(d.manufacturer_name.is_none());
}
