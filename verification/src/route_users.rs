use vstd::prelude::*;

verus! {

broadcast use vstd::seq_lib::group_seq_properties;

/// One row of the profile query: the user joined with one of its devices (the
/// device columns are empty when the user has no device).
#[derive(Debug, Clone)]
pub struct ProfileRow {
    pub user_id: i32,
    pub name: String,
    pub points: i32,
    pub is_admin: i32,
    pub device_id: Option<i32>,
    pub nickname: Option<String>,
    pub addr_ip: Option<String>,
}

/// What a user's profile page shows.
#[derive(Debug, Clone)]
pub struct UserProfile {
    pub user_id: i32,
    pub name: String,
    pub points: i32,
    pub is_admin: i32,
    pub devices: Vec<(i32, String, String)>,
}

/// Holds of a row that carries a device.
pub open spec fn has_device() -> spec_fn(ProfileRow) -> bool {
    |r: ProfileRow| r.device_id is Some
}

/// The devices a profile lists: `(id, nickname, address)` of each row that
/// has a device, in row order.
pub open spec fn profile_devices(rows: Seq<ProfileRow>) -> Seq<(i32, Seq<char>, Seq<char>)> {
    rows.filter(has_device()).map_values(|r: ProfileRow| (r.device_id->0, r.nickname->0@, r.addr_ip->0@))
}

/// Law: a profile lists one entry per row that has a device, in row order.
/// No rows give no entries; one more row adds its `(id, nickname, address)`
/// at the end exactly when it has a device, and nothing otherwise.
pub proof fn law_profile_lists_device_rows(rows: Seq<ProfileRow>, row: ProfileRow)
    ensures
        profile_devices(Seq::<ProfileRow>::empty()) == Seq::<(i32, Seq<char>, Seq<char>)>::empty(),
        profile_devices(rows.push(row)) == if row.device_id is Some {
            profile_devices(rows).push((row.device_id->0, row.nickname->0@, row.addr_ip->0@))
        } else {
            profile_devices(rows)
        },
{
    rows.lemma_filter_push(row, has_device());
    reveal(Seq::filter);
    assert(profile_devices(Seq::<ProfileRow>::empty()) =~= Seq::<(i32, Seq<char>, Seq<char>)>::empty());
    if row.device_id is Some {
        assert(profile_devices(rows.push(row)) =~= profile_devices(rows).push(
            (row.device_id->0, row.nickname->0@, row.addr_ip->0@),
        ));
    } else {
        assert(profile_devices(rows.push(row)) =~= profile_devices(rows));
    }
}

/// The rows make a profile: there is one, and every row with a device names
/// the device's nickname and address.
pub open spec fn profile_rows_ok(rows: Seq<ProfileRow>) -> bool {
    &&& rows.len() >= 1
    &&& forall|i: int| 0 <= i < rows.len() && (#[trigger] rows[i]).device_id is Some ==> rows[i].nickname is Some
        && rows[i].addr_ip is Some
}

/// Builds a user's profile from the rows of the profile query: the user's
/// fields from the first row, and one entry per row that has a device.
pub fn user_profile(rows: &Vec<ProfileRow>) -> (p: UserProfile)
    requires
        profile_rows_ok(rows@),
    ensures
        p.user_id == rows@[0].user_id,
        p.name@ == rows@[0].name@,
        p.points == rows@[0].points,
        p.is_admin == rows@[0].is_admin,
        p.devices.deep_view() == profile_devices(rows@),
{
    let mut devices: Vec<(i32, String, String)> = Vec::new();
    let n = rows.len();
    let mut i: usize = 0;
    while i < n
        invariant
            n == rows.len(),
            i <= n,
            profile_rows_ok(rows@),
            devices.deep_view() == profile_devices(rows@.take(i as int)),
        decreases n - i,
    {
        let row = &rows[i];
        proof {
            assert(rows@.take(i + 1) =~= rows@.take(i as int).push(rows@[i as int]));
            rows@.take(i as int).lemma_filter_push(rows@[i as int], has_device());
        }
        match row.device_id {
            Some(id) => {
                let nickname = match &row.nickname {
                    Some(s) => s.clone(),
                    None => {
                        proof {
                            assert(false);
                        }
                        String::new()
                    },
                };
                let addr_ip = match &row.addr_ip {
                    Some(s) => s.clone(),
                    None => {
                        proof {
                            assert(false);
                        }
                        String::new()
                    },
                };
                let ghost before = devices.deep_view();
                devices.push((id, nickname, addr_ip));
                proof {
                    assert(devices.deep_view() =~= before.push((id, row.nickname->0@, row.addr_ip->0@)));
                }
            },
            None => {},
        }
        i = i + 1;
    }
    proof {
        assert(rows@.take(n as int) =~= rows@);
    }
    UserProfile {
        user_id: rows[0].user_id,
        name: rows[0].name.clone(),
        points: rows[0].points,
        is_admin: rows[0].is_admin,
        devices,
    }
}

/// Like `user_profile`, on every list of rows: `None` when the rows do not
/// make a profile.
pub fn try_user_profile(rows: &Vec<ProfileRow>) -> (r: Option<UserProfile>)
    ensures
        r is Some <==> profile_rows_ok(rows@),
        r matches Some(p) ==> p.user_id == rows@[0].user_id && p.name@ == rows@[0].name@ && p.points
            == rows@[0].points && p.is_admin == rows@[0].is_admin && p.devices.deep_view() == profile_devices(rows@),
{
    if rows.len() == 0 {
        return None;
    }
    let mut i: usize = 0;
    while i < rows.len()
        invariant
            i <= rows.len(),
            forall|j: int| 0 <= j < i && (#[trigger] rows@[j]).device_id is Some ==> rows@[j].nickname is Some
                && rows@[j].addr_ip is Some,
        decreases rows.len() - i,
    {
        if rows[i].device_id.is_some() && (rows[i].nickname.is_none() || rows[i].addr_ip.is_none()) {
            return None;
        }
        i = i + 1;
    }
    Some(user_profile(rows))
}

} // verus!
