use vstd::prelude::*;

verus! {

/// A user that is about to be stored.
#[derive(Debug, Clone)]
pub struct NewUser {
    pub name: String,
    pub points: i32,
    pub is_admin: i32,
}

/// A stored user.
#[derive(Debug, Clone)]
pub struct User {
    pub user_id: i32,
    pub name: String,
    pub points: i32,
    pub is_admin: i32,
}

/// A device that is about to be stored.
#[derive(Debug, Clone)]
pub struct NewDevice {
    pub user_id: i32,
    pub nickname: String,
    pub addr_mac: String,
    pub addr_ip: String,
    pub is_watching: i32,
    pub is_blocked: i32,
    pub is_tracked: i32,
    pub last_checked: i32,
    pub last_last_checked: i32,
    pub manufacturer_name: Option<String>,
}

/// A stored device.
#[derive(Debug, Clone)]
pub struct Device {
    pub id: i32,
    pub user_id: i32,
    pub nickname: String,
    pub addr_mac: String,
    pub addr_ip: String,
    pub is_watching: i32,
    pub is_blocked: i32,
    pub is_tracked: i32,
    pub last_checked: i32,
    pub last_last_checked: i32,
    pub manufacturer_name: Option<String>,
}

/// A new user always starts without points.
pub fn new_user(name: &str, is_admin: i32) -> (u: NewUser)
    ensures
        u.name@ == name@,
        u.points == 0,
        u.is_admin == is_admin,
{
    NewUser { points: 0, name: name.to_owned(), is_admin }
}

/// A freshly registered device: neither watching nor blocked, with empty
/// counters and no manufacturer; it is tracked exactly when the owner's admin
/// flag has its lowest bit clear (`is_admin ^ 1`).
pub fn new_device(user_id: i32, nickname: &str, addr_mac: &str, addr_ip: &str, is_admin: i32) -> (d: NewDevice)
    ensures
        d.user_id == user_id,
        d.nickname@ == nickname@,
        d.addr_mac@ == addr_mac@,
        d.addr_ip@ == addr_ip@,
        d.is_watching == 0,
        d.is_blocked == 0,
        d.is_tracked == is_admin ^ 1,
        is_admin == 0 ==> d.is_tracked == 1,
        is_admin == 1 ==> d.is_tracked == 0,
        d.last_checked == 0,
        d.last_last_checked == 0,
        d.manufacturer_name is None,
{
    assert(is_admin == 0 ==> is_admin ^ 1 == 1) by (bit_vector);
    assert(is_admin == 1 ==> is_admin ^ 1 == 0) by (bit_vector);
    NewDevice {
        nickname: nickname.to_owned(),
        user_id,
        addr_mac: addr_mac.to_owned(),
        addr_ip: addr_ip.to_owned(),
        is_watching: 0,
        is_blocked: 0,
        is_tracked: is_admin ^ 1,
        manufacturer_name: None,
        last_checked: 0,
        last_last_checked: 0,
    }
}

} // verus!
