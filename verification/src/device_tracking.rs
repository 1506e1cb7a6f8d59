use vstd::prelude::*;
use crate::models::Device;
use smoltcp::wire::{EthernetAddress, EthernetFrame, Ipv4Packet};

verus! {

/// Seconds between two throughput checks.
pub const CHECK_THROUGHPUT: u64 = 10;
/// Seconds between two reloads of the watched devices.
pub const CHECK_NEW_DEVICE: u64 = 300;
/// Bytes per interval above which a device counts as busy.
pub const THROUGHPUT_THRESHOLD: i32 = 9000;
/// The EtherType of IPv4.
pub const ETHERTYPE_IPV4: u16 = 0x0800;

/// A big-endian 16-bit value.
pub open spec fn be16(hi: u8, lo: u8) -> int {
    hi * 256 + lo
}

/// Whether an IPv4 packet passes smoltcp's length checks: at least the fixed
/// header, at least the header length, a header no longer than the total
/// length, and at least the total length.
pub open spec fn ipv4_lengths_ok(packet: Seq<u8>) -> bool {
    &&& packet.len() >= 20
    &&& packet.len() >= (packet[0] % 16) * 4
    &&& (packet[0] % 16) * 4 <= be16(packet[2], packet[3])
    &&& packet.len() >= be16(packet[2], packet[3])
}

/// Calls `smoltcp::wire::EthernetFrame::ethertype` on the frame. Claimed: the
/// value is bytes 12 and 13, big-endian (smoltcp reads them with
/// `NetworkEndian::read_u16` and converts losslessly).
#[verifier::external_body]
fn ethernet_ethertype(frame: &[u8]) -> (t: u16)
    requires
        frame@.len() >= 14,
    ensures
        t == be16(frame@[12], frame@[13]),
{
    u16::from(EthernetFrame::new_unchecked(frame).ethertype())
}

/// Calls `smoltcp::wire::EthernetFrame::dst_addr`. Claimed: bytes 0 to 6.
#[verifier::external_body]
fn ethernet_dst_addr(frame: &[u8]) -> (a: [u8; 6])
    requires
        frame@.len() >= 14,
    ensures
        a@ == frame@.subrange(0, 6),
{
    EthernetFrame::new_unchecked(frame).dst_addr().0
}

/// Calls `smoltcp::wire::EthernetFrame::src_addr`. Claimed: bytes 6 to 12.
#[verifier::external_body]
fn ethernet_src_addr(frame: &[u8]) -> (a: [u8; 6])
    requires
        frame@.len() >= 14,
    ensures
        a@ == frame@.subrange(6, 12),
{
    EthernetFrame::new_unchecked(frame).src_addr().0
}

/// Calls `smoltcp::wire::EthernetFrame::payload`. Claimed: everything after
/// byte 14.
#[verifier::external_body]
fn ethernet_payload<'a>(frame: &'a [u8]) -> (p: &'a [u8])
    requires
        frame@.len() >= 14,
    ensures
        p@ == frame@.subrange(14, frame@.len() as int),
{
    EthernetFrame::new_unchecked(frame).payload()
}

/// Calls `smoltcp::wire::Ipv4Packet::new_checked` and, on success,
/// `total_len`. Claimed: success exactly when `ipv4_lengths_ok`, and the total
/// length is bytes 2 and 3, big-endian.
#[verifier::external_body]
fn ipv4_total_len(packet: &[u8]) -> (r: Option<u16>)
    ensures
        r is Some <==> ipv4_lengths_ok(packet@),
        r matches Some(n) ==> n == be16(packet@[2], packet@[3]),
{
    match Ipv4Packet::new_checked(packet) {
        Ok(p) => Some(p.total_len()),
        Err(_) => None,
    }
}

/// Whether `c` is a hexadecimal digit.
pub open spec fn is_hex_digit(c: char) -> bool {
    ('0' <= c <= '9') || ('a' <= c <= 'f') || ('A' <= c <= 'F')
}

/// The value of a hexadecimal digit.
pub open spec fn hex_value(c: char) -> int {
    if '0' <= c <= '9' {
        c as int - '0' as int
    } else if 'a' <= c <= 'f' {
        c as int - 'a' as int + 10
    } else {
        c as int - 'A' as int + 10
    }
}

/// How many digits the octet at the front of the text has: two when there are
/// two hex digits, else one when there is one, else none.
pub open spec fn octet_len(text: Seq<char>) -> int {
    if text.len() >= 2 && is_hex_digit(text[0]) && is_hex_digit(text[1]) {
        2
    } else if text.len() >= 1 && is_hex_digit(text[0]) {
        1
    } else {
        0
    }
}

/// The value of the octet at the front of the text.
pub open spec fn octet_value(text: Seq<char>) -> u8 {
    (if octet_len(text) == 2 {
        hex_value(text[0]) * 16 + hex_value(text[1])
    } else {
        hex_value(text[0])
    }) as u8
}

/// The text is exactly `n` octets joined by `sep`; their values.
pub open spec fn octets_joined_by(text: Seq<char>, sep: char, n: nat) -> Option<Seq<u8>>
    decreases n,
{
    let g = octet_len(text);
    if n == 0 || g == 0 {
        None
    } else if n == 1 {
        if text.len() == g { Some(seq![octet_value(text)]) } else { None }
    } else if text.len() > g && text[g] == sep {
        match octets_joined_by(text.skip(g + 1), sep, (n - 1) as nat) {
            Some(rest) => Some(seq![octet_value(text)] + rest),
            None => None,
        }
    } else {
        None
    }
}

/// What smoltcp's `EthernetAddress::from_str` makes of a text: six octets of
/// one or two hex digits, joined all by `-` or all by `:`, and nothing else.
pub open spec fn mac_from_text(text: Seq<char>) -> Option<Seq<u8>> {
    match octets_joined_by(text, '-', 6) {
        Some(octets) => Some(octets),
        None => octets_joined_by(text, ':', 6),
    }
}

/// Calls `<smoltcp::wire::EthernetAddress as FromStr>::from_str`. Claimed, as
/// its parser reads (greedy one- or two-digit hex octets, the `-` form tried
/// before the `:` form, then the end of the text): the result is
/// `mac_from_text` of the text.
#[verifier::external_body]
fn parse_mac(text: &str) -> (r: Option<[u8; 6]>)
    ensures
        match r {
            Some(a) => mac_from_text(text@) == Some(a@),
            None => mac_from_text(text@) is None,
        },
{
    text.parse::<EthernetAddress>().ok().map(|a| a.0)
}

/// What a captured frame tells the tracker: destination MAC, source MAC and
/// the IPv4 total length.
#[derive(Debug, Clone, Copy)]
pub struct FrameCount {
    pub dst: [u8; 6],
    pub src: [u8; 6],
    pub size: i32,
}

/// Reads a captured Ethernet frame: an IPv4 frame whose packet passes the
/// length checks gives its addresses and total length; any other frame gives
/// `None`.
pub fn frame_count(frame: &[u8]) -> (r: Option<FrameCount>)
    requires
        frame@.len() >= 14,
    ensures
        r is Some <==> be16(frame@[12], frame@[13]) == ETHERTYPE_IPV4
            && ipv4_lengths_ok(frame@.subrange(14, frame@.len() as int)),
        r matches Some(c) ==> c.dst@ == frame@.subrange(0, 6) && c.src@ == frame@.subrange(6, 12)
            && c.size == be16(frame@[16], frame@[17]),
{
    if ethernet_ethertype(frame) != ETHERTYPE_IPV4 {
        return None;
    }
    let payload = ethernet_payload(frame);
    match ipv4_total_len(payload) {
        Some(len) => Some(FrameCount { dst: ethernet_dst_addr(frame), src: ethernet_src_addr(frame), size: len as i32 }),
        None => None,
    }
}

/// The frame was sent to or from the device's MAC address.
pub open spec fn frame_matches(d: Device, f: FrameCount) -> bool {
    mac_from_text(d.addr_mac@) == Some(f.dst@) || mac_from_text(d.addr_mac@) == Some(f.src@)
}

/// A device after a frame was counted: its current counter grows by the
/// frame's size when the frame is its own.
pub open spec fn counted(d: Device, f: FrameCount) -> Device {
    if frame_matches(d, f) {
        Device { last_checked: (d.last_checked + f.size) as i32, ..d }
    } else {
        d
    }
}

/// Every watched MAC address can be read, and no counter that grows leaves `i32`.
pub open spec fn can_count(devices: Seq<Device>, f: FrameCount) -> bool {
    &&& forall|i: int| 0 <= i < devices.len() ==> #[trigger] mac_from_text(devices[i].addr_mac@) is Some
    &&& forall|i: int|
        0 <= i < devices.len() && #[trigger] frame_matches(devices[i], f) ==> i32::MIN <= devices[i].last_checked
            + f.size <= i32::MAX
}

/// Busy: both the current and the previous interval went over the threshold.
pub open spec fn busy(d: Device) -> bool {
    d.last_checked > THROUGHPUT_THRESHOLD && d.last_last_checked > THROUGHPUT_THRESHOLD
}

/// A device after an interval closes: an unblocked device is watching exactly
/// when busy, its counter moves to the previous-interval slot and restarts
/// from zero; a blocked device is left as it is.
pub open spec fn closed(d: Device) -> Device {
    if d.is_blocked == 0 {
        Device {
            is_watching: if busy(d) { 1i32 } else { 0i32 },
            last_last_checked: d.last_checked,
            last_checked: 0i32,
            ..d
        }
    } else {
        d
    }
}

/// A database write or read that the tracker asks for when it closes a
/// device's interval.
#[derive(Debug, Clone, PartialEq, Eq)]
pub enum TrackAction {
    /// Mark every device of the user as watching.
    MarkWatching { user_id: i32 },
    /// Take one point from the user.
    ChargePoint { user_id: i32 },
    /// Read the user's points; when `block_due`, block this address and the
    /// user's devices (`block_owner`).
    CheckPoints { user_id: i32, addr_ip: String },
    /// Mark the device with this MAC as not watching.
    MarkNotWatching { addr_mac: String },
}

/// What closing a device's interval asks for, in order: nothing for a blocked
/// device; for a busy one, mark its user watching, charge the user one point
/// and check the user's points; for any other, mark it not watching.
pub open spec fn device_actions(d: Device) -> Seq<TrackAction> {
    if d.is_blocked != 0 {
        seq![]
    } else if busy(d) {
        seq![
            TrackAction::MarkWatching { user_id: d.user_id },
            TrackAction::ChargePoint { user_id: d.user_id },
            TrackAction::CheckPoints { user_id: d.user_id, addr_ip: d.addr_ip },
        ]
    } else {
        seq![TrackAction::MarkNotWatching { addr_mac: d.addr_mac }]
    }
}

/// Index of the first device with the id, or the list's length.
pub open spec fn index_of_id(devices: Seq<Device>, id: i32) -> int
    decreases devices.len(),
{
    if devices.len() == 0 {
        0
    } else if devices[0].id == id {
        0
    } else {
        1 + index_of_id(devices.drop_first(), id)
    }
}

/// A loaded row as the tracker keeps it: the stored device, with the interval
/// counters of the device it already tracks under the same id (those counters
/// live only in the tracker).
pub open spec fn refreshed(devices: Seq<Device>, row: Device) -> Device {
    let k = index_of_id(devices, row.id);
    if 0 <= k < devices.len() {
        Device { last_checked: devices[k].last_checked, last_last_checked: devices[k].last_last_checked, ..row }
    } else {
        row
    }
}

/// The watched devices after a reload brought the rows `loaded`.
pub open spec fn reloaded(devices: Seq<Device>, loaded: Seq<Device>) -> Seq<Device> {
    loaded.map_values(|row: Device| refreshed(devices, row))
}

/// The devices after their owner was blocked: every device of the user is
/// marked blocked.
pub open spec fn owner_blocked(devices: Seq<Device>, user_id: i32) -> Seq<Device> {
    devices.map_values(|d: Device| if d.user_id == user_id { Device { is_blocked: 1i32, ..d } } else { d })
}

/// An exact copy of a device.
fn copy_device(d: &Device) -> (r: Device)
    ensures
        r == *d,
{
    let manufacturer_name = match &d.manufacturer_name {
        Some(m) => Some(m.clone()),
        None => None,
    };
    Device {
        id: d.id,
        user_id: d.user_id,
        nickname: d.nickname.clone(),
        addr_mac: d.addr_mac.clone(),
        addr_ip: d.addr_ip.clone(),
        is_watching: d.is_watching,
        is_blocked: d.is_blocked,
        is_tracked: d.is_tracked,
        last_checked: d.last_checked,
        last_last_checked: d.last_last_checked,
        manufacturer_name,
    }
}

fn same_mac(a: &[u8; 6], b: &[u8; 6]) -> (same: bool)
    ensures
        same == (a@ == b@),
{
    let mut i: usize = 0;
    while i < 6
        invariant
            i <= 6,
            a@.len() == 6,
            b@.len() == 6,
            forall|j: int| 0 <= j < i ==> a@[j] == b@[j],
        decreases 6 - i,
    {
        if a[i] != b[i] {
            return false;
        }
        i = i + 1;
    }
    assert(a@ =~= b@);
    true
}

/// Whether the watched devices must be (re)loaded: none is watched yet, or the
/// last load is more than `CHECK_NEW_DEVICE` seconds old.
pub fn needs_device_refresh(devices: &Vec<Device>, secs_since_load: u64) -> (r: bool)
    ensures
        r == (devices.len() == 0 || secs_since_load > CHECK_NEW_DEVICE),
{
    devices.len() == 0 || secs_since_load > CHECK_NEW_DEVICE
}

proof fn lemma_index_of_id(devices: Seq<Device>, id: i32, k: int)
    requires
        0 <= k <= devices.len(),
        forall|j: int| 0 <= j < k ==> devices[j].id != id,
        k == devices.len() || devices[k].id == id,
    ensures
        index_of_id(devices, id) == k,
    decreases devices.len(),
{
    if devices.len() > 0 && devices[0].id != id {
        lemma_index_of_id(devices.drop_first(), id, k - 1);
    }
}

fn position_of_id(devices: &Vec<Device>, id: i32) -> (k: usize)
    ensures
        k == index_of_id(devices@, id),
{
    let mut k: usize = 0;
    while k < devices.len()
        invariant
            k <= devices.len(),
            forall|j: int| 0 <= j < k ==> devices@[j].id != id,
        decreases devices.len() - k,
    {
        if devices[k].id == id {
            proof {
                lemma_index_of_id(devices@, id, k as int);
            }
            return k;
        }
        k = k + 1;
    }
    proof {
        lemma_index_of_id(devices@, id, k as int);
    }
    k
}

/// Takes the freshly loaded rows as the watched devices: each row once, in
/// load order, keeping the interval counters of a device already watched under
/// the same id.
pub fn reload_devices(devices: &mut Vec<Device>, loaded: Vec<Device>)
    ensures
        final(devices)@ == reloaded(old(devices)@, loaded@),
{
    let mut kept: Vec<Device> = Vec::new();
    let n = loaded.len();
    let mut i: usize = 0;
    while i < n
        invariant
            n == loaded.len(),
            i <= n,
            kept.len() == i,
            forall|j: int| 0 <= j < i ==> #[trigger] kept@[j] == refreshed(devices@, loaded@[j]),
        decreases n - i,
    {
        let row = copy_device(&loaded[i]);
        let k = position_of_id(devices, row.id);
        if k < devices.len() {
            let last_checked = devices[k].last_checked;
            let last_last_checked = devices[k].last_last_checked;
            kept.push(Device { last_checked, last_last_checked, ..row });
        } else {
            kept.push(row);
        }
        i = i + 1;
    }
    assert(kept@ =~= reloaded(devices@, loaded@));
    *devices = kept;
}

/// Whether the current interval is over: more than `CHECK_THROUGHPUT` seconds.
pub fn throughput_due(secs_in_interval: u64) -> (r: bool)
    ensures
        r == (secs_in_interval > CHECK_THROUGHPUT),
{
    secs_in_interval > CHECK_THROUGHPUT
}

/// Counts one frame for every watched device it was sent to or from.
pub fn count_frame(devices: &mut Vec<Device>, frame: &FrameCount)
    requires
        can_count(old(devices)@, *frame),
    ensures
        final(devices)@ == old(devices)@.map_values(|d: Device| counted(d, *frame)),
{
    let ghost start = devices@;
    let n = devices.len();
    let mut i: usize = 0;
    while i < n
        invariant
            n == devices.len(),
            n == start.len(),
            i <= n,
            can_count(start, *frame),
            forall|j: int| 0 <= j < i ==> #[trigger] devices@[j] == counted(start[j], *frame),
            forall|j: int| i <= j < n ==> #[trigger] devices@[j] == start[j],
        decreases n - i,
    {
        let d = copy_device(&devices[i]);
        proof {
            assert(d == start[i as int]);
            assert(mac_from_text(start[i as int].addr_mac@) is Some);
        }
        let mac = match parse_mac(d.addr_mac.as_str()) {
            Some(m) => m,
            None => {
                proof {
                    assert(false);
                }
                return;
            },
        };
        if same_mac(&mac, &frame.dst) || same_mac(&mac, &frame.src) {
            proof {
                assert(frame_matches(start[i as int], *frame));
            }
            let grown = d.last_checked + frame.size;
            devices.set(i, Device { last_checked: grown, ..d });
        } else {
            proof {
                assert(!frame_matches(start[i as int], *frame));
            }
        }
        i = i + 1;
    }
    assert(devices@ =~= start.map_values(|d: Device| counted(d, *frame)));
}

/// Why a frame could not be counted.
#[derive(Debug, Clone, Copy, PartialEq, Eq, Structural)]
pub enum TrackError {
    /// A watched device's MAC address is not a MAC address.
    UnreadableMac,
    /// A device's counter would leave the range of `i32`.
    CounterOverflow,
}

/// Like `count_frame`, on every list of devices: when some MAC cannot be read
/// or some counter would overflow, reports it and leaves the devices alone.
pub fn try_count_frame(devices: &mut Vec<Device>, frame: &FrameCount) -> (r: Result<(), TrackError>)
    ensures
        r is Ok <==> can_count(old(devices)@, *frame),
        r is Ok ==> final(devices)@ == old(devices)@.map_values(|d: Device| counted(d, *frame)),
        r is Err ==> final(devices)@ == old(devices)@,
        r == Err::<(), TrackError>(TrackError::UnreadableMac) ==> exists|i: int|
            0 <= i < old(devices)@.len() && #[trigger] mac_from_text(old(devices)@[i].addr_mac@) is None,
        r == Err::<(), TrackError>(TrackError::CounterOverflow) ==> exists|i: int|
            0 <= i < old(devices)@.len() && #[trigger] frame_matches(old(devices)@[i], *frame) && !(i32::MIN
                <= old(devices)@[i].last_checked + frame.size <= i32::MAX),
{
    let n = devices.len();
    let mut i: usize = 0;
    while i < n
        invariant
            n == devices.len(),
            i <= n,
            forall|j: int| 0 <= j < i ==> #[trigger] mac_from_text(devices@[j].addr_mac@) is Some,
            forall|j: int|
                0 <= j < i && #[trigger] frame_matches(devices@[j], *frame) ==> i32::MIN <= devices@[j].last_checked
                    + frame.size <= i32::MAX,
        decreases n - i,
    {
        let mac = match parse_mac(devices[i].addr_mac.as_str()) {
            Some(m) => m,
            None => {
                return Err(TrackError::UnreadableMac);
            },
        };
        if same_mac(&mac, &frame.dst) || same_mac(&mac, &frame.src) {
            proof {
                assert(frame_matches(devices@[i as int], *frame));
            }
            if devices[i].last_checked.checked_add(frame.size).is_none() {
                return Err(TrackError::CounterOverflow);
            }
        } else {
            proof {
                assert(!frame_matches(devices@[i as int], *frame));
            }
        }
        i = i + 1;
    }
    count_frame(devices, frame);
    Ok(())
}

/// Closes the interval of the device at `i`: an unblocked device is marked
/// watching exactly when busy and its counters shift; a blocked one is left as
/// it is. Returns what is to be written for it.
pub fn close_device(devices: &mut Vec<Device>, i: usize) -> (actions: Vec<TrackAction>)
    requires
        i < old(devices).len(),
    ensures
        final(devices)@ == old(devices)@.update(i as int, closed(old(devices)@[i as int])),
        actions@ == device_actions(old(devices)@[i as int]),
{
    let d = copy_device(&devices[i]);
    if d.is_blocked != 0 {
        assert(devices@ =~= devices@.update(i as int, closed(d)));
        return Vec::new();
    }
    let watching = d.last_checked > THROUGHPUT_THRESHOLD && d.last_last_checked > THROUGHPUT_THRESHOLD;
    let mut actions: Vec<TrackAction> = Vec::new();
    if watching {
        actions.push(TrackAction::MarkWatching { user_id: d.user_id });
        actions.push(TrackAction::ChargePoint { user_id: d.user_id });
        actions.push(TrackAction::CheckPoints { user_id: d.user_id, addr_ip: d.addr_ip.clone() });
    } else {
        actions.push(TrackAction::MarkNotWatching { addr_mac: d.addr_mac.clone() });
    }
    let previous = d.last_checked;
    let is_watching: i32 = if watching { 1 } else { 0 };
    devices.set(i, Device { is_watching, last_last_checked: previous, last_checked: 0, ..d });
    assert(actions@ =~= device_actions(d));
    actions
}

/// Whether the owner of a watching device is to be blocked: the user's points,
/// read after the charge, are used up.
pub fn block_due(points: i32) -> (r: bool)
    ensures
        r == (points <= 0),
{
    points <= 0
}

/// Marks every watched device of the user as blocked.
pub fn block_owner(devices: &mut Vec<Device>, user_id: i32)
    ensures
        final(devices)@ == owner_blocked(old(devices)@, user_id),
{
    let ghost start = devices@;
    let n = devices.len();
    let mut i: usize = 0;
    while i < n
        invariant
            n == devices.len(),
            n == start.len(),
            i <= n,
            forall|j: int| 0 <= j < i ==> #[trigger] devices@[j] == owner_blocked(start, user_id)[j],
            forall|j: int| i <= j < n ==> #[trigger] devices@[j] == start[j],
        decreases n - i,
    {
        if devices[i].user_id == user_id {
            let d = copy_device(&devices[i]);
            devices.set(i, Device { is_blocked: 1, ..d });
        }
        i = i + 1;
    }
    assert(devices@ =~= owner_blocked(start, user_id));
}

/// How many points the actions take from the user.
pub open spec fn charges(actions: Seq<TrackAction>, user_id: i32) -> int
    decreases actions.len(),
{
    if actions.len() == 0 {
        0
    } else {
        charges(actions.drop_first(), user_id) + if actions[0] == (TrackAction::ChargePoint { user_id }) {
            1int
        } else {
            0int
        }
    }
}

/// Law: closing a device's interval charges its owner one point when the
/// device is unblocked and busy, and nothing otherwise; no other user is
/// charged, and a charge is always followed by a check of the owner's points.
pub proof fn law_one_point_per_watching_device(d: Device, user_id: i32)
    ensures
        charges(device_actions(d), user_id) == if d.is_blocked == 0 && busy(d) && user_id == d.user_id {
            1int
        } else {
            0int
        },
        d.is_blocked == 0 && busy(d) ==> device_actions(d).last() == (TrackAction::CheckPoints {
            user_id: d.user_id,
            addr_ip: d.addr_ip,
        }),
{
    reveal_with_fuel(charges, 4);
    let a = device_actions(d);
    if d.is_blocked == 0 && busy(d) {
        assert(a.drop_first() =~= seq![a[1], a[2]]);
        assert(a.drop_first().drop_first() =~= seq![a[2]]);
        assert(a.drop_first().drop_first().drop_first() =~= Seq::<TrackAction>::empty());
    } else if d.is_blocked == 0 {
        assert(a.drop_first() =~= Seq::<TrackAction>::empty());
    }
}

/// Law: once a user is blocked, none of the user's devices is charged or
/// changed again when an interval closes.
pub proof fn law_blocked_owner_left_alone(devices: Seq<Device>, user_id: i32, i: int)
    requires
        0 <= i < devices.len(),
        devices[i].user_id == user_id,
    ensures
        device_actions(owner_blocked(devices, user_id)[i]) == Seq::<TrackAction>::empty(),
        closed(owner_blocked(devices, user_id)[i]) == owner_blocked(devices, user_id)[i],
        owner_blocked(devices, user_id)[i].is_blocked == 1,
{
}

/// Law: the tracker never unblocks a device and never gives points back.
/// Counting a frame, closing an interval and blocking an owner keep every
/// device (same id, same owner, no device added or removed); none of them
/// lowers `is_blocked`, and blocking only ever sets it to 1; what a close asks
/// of the database takes points, never adds them.
pub proof fn law_tracker_is_monotone(devices: Seq<Device>, d: Device, f: FrameCount, user_id: i32)
    ensures
        counted(d, f).is_blocked == d.is_blocked,
        counted(d, f).id == d.id && counted(d, f).user_id == d.user_id,
        closed(d).is_blocked == d.is_blocked,
        closed(d).id == d.id && closed(d).user_id == d.user_id,
        owner_blocked(devices, user_id).len() == devices.len(),
        forall|i: int| 0 <= i < devices.len() ==> {
            let e = #[trigger] owner_blocked(devices, user_id)[i];
            &&& e.id == devices[i].id
            &&& e.user_id == devices[i].user_id
            &&& (e.is_blocked == devices[i].is_blocked || e.is_blocked == 1)
        },
        charges(device_actions(d), user_id) >= 0,
{
    law_one_point_per_watching_device(d, user_id);
}

/// Law: a reload watches each loaded device exactly once. The watched list
/// follows the loaded rows one for one, by id; when the rows carry distinct ids
/// so does the list; a device already watched keeps its interval counters.
pub proof fn law_reload_once(devices: Seq<Device>, loaded: Seq<Device>)
    ensures
        reloaded(devices, loaded).len() == loaded.len(),
        forall|i: int| 0 <= i < loaded.len() ==> (#[trigger] reloaded(devices, loaded)[i]).id
            == loaded[i].id,
        (forall|i: int, j: int| 0 <= i < j < loaded.len() ==> loaded[i].id != loaded[j].id) ==> (forall|i: int, j: int|
            0 <= i < j < loaded.len() ==> reloaded(devices, loaded)[i].id
                != reloaded(devices, loaded)[j].id),
        forall|i: int| 0 <= i < loaded.len() ==> (Device {
            last_checked: loaded[i].last_checked,
            last_last_checked: loaded[i].last_last_checked,
            ..#[trigger] reloaded(devices, loaded)[i]
        }) == loaded[i],
        forall|i: int|
            0 <= i < loaded.len() && (forall|k: int| 0 <= k < devices.len() ==> devices[k].id != loaded[i].id)
                ==> #[trigger] reloaded(devices, loaded)[i] == loaded[i],
        forall|i: int, k: int|
            0 <= i < loaded.len() && 0 <= k < devices.len() && devices[k].id == loaded[i].id && (forall|j: int|
                0 <= j < k ==> devices[j].id != loaded[i].id) ==> (#[trigger] reloaded(devices, loaded)[i]).last_checked
                == #[trigger] devices[k].last_checked && reloaded(devices, loaded)[i].last_last_checked
                == devices[k].last_last_checked,
{
    assert forall|i: int, k: int|
        0 <= i < loaded.len() && 0 <= k < devices.len() && devices[k].id == loaded[i].id && (forall|j: int|
            0 <= j < k ==> devices[j].id != loaded[i].id) implies (#[trigger] reloaded(devices, loaded)[i]).last_checked
            == #[trigger] devices[k].last_checked && reloaded(devices, loaded)[i].last_last_checked
            == devices[k].last_last_checked by {
        lemma_index_of_id(devices, loaded[i].id, k);
    }
    assert forall|i: int|
        0 <= i < loaded.len() && (forall|k: int| 0 <= k < devices.len() ==> devices[k].id != loaded[i].id)
            implies #[trigger] reloaded(devices, loaded)[i] == loaded[i] by {
        lemma_index_of_id(devices, loaded[i].id, devices.len() as int);
    }
    assert forall|i: int| 0 <= i < loaded.len() implies (Device {
        last_checked: loaded[i].last_checked,
        last_last_checked: loaded[i].last_last_checked,
        ..#[trigger] reloaded(devices, loaded)[i]
    }) == loaded[i] by {
        let k = index_of_id(devices, loaded[i].id);
        if 0 <= k < devices.len() {
        }
    }
}

/// Law: closing an unblocked device's interval takes exactly one point from
/// its owner when both its current and its previous interval carried more than
/// `THROUGHPUT_THRESHOLD` bytes, whether or not it was already watching, and
/// no point otherwise; the device is then marked watching exactly in that case,
/// and its counters shift.
pub proof fn law_close_charges_busy_intervals(d: Device)
    requires
        d.is_blocked == 0,
    ensures
        charges(device_actions(d), d.user_id) == 1 <==> (d.last_checked > THROUGHPUT_THRESHOLD
            && d.last_last_checked > THROUGHPUT_THRESHOLD),
        charges(device_actions(d), d.user_id) == 0 <==> !(d.last_checked > THROUGHPUT_THRESHOLD
            && d.last_last_checked > THROUGHPUT_THRESHOLD),
        device_actions(d).contains(TrackAction::ChargePoint { user_id: d.user_id }) <==> (d.last_checked
            > THROUGHPUT_THRESHOLD && d.last_last_checked > THROUGHPUT_THRESHOLD),
        closed(d).is_watching == (if d.last_checked > THROUGHPUT_THRESHOLD && d.last_last_checked
            > THROUGHPUT_THRESHOLD {
            1i32
        } else {
            0i32
        }),
        closed(d).last_last_checked == d.last_checked,
        closed(d).last_checked == 0,
        closed(d).is_blocked == 0,
{
    law_one_point_per_watching_device(d, d.user_id);
    let a = device_actions(d);
    if d.last_checked > THROUGHPUT_THRESHOLD && d.last_last_checked > THROUGHPUT_THRESHOLD {
        assert(a[1] == TrackAction::ChargePoint { user_id: d.user_id });
    } else {
        assert(a.len() == 1);
        if a.contains(TrackAction::ChargePoint { user_id: d.user_id }) {
            let j = choose|j: int| 0 <= j < a.len() && a[j] == TrackAction::ChargePoint { user_id: d.user_id };
            assert(j == 0);
        }
    }
}

/// Law: blocking an owner marks exactly that user's devices blocked, changing
/// nothing else about them, and leaves every other user's devices as they are.
pub proof fn law_block_owner_only_owner(devices: Seq<Device>, user_id: i32)
    ensures
        owner_blocked(devices, user_id).len() == devices.len(),
        forall|i: int|
            0 <= i < devices.len() && devices[i].user_id != user_id ==> #[trigger] owner_blocked(devices, user_id)[i]
                == devices[i],
        forall|i: int|
            0 <= i < devices.len() && devices[i].user_id == user_id ==> (#[trigger] owner_blocked(devices, user_id)[i]).is_blocked
                == 1 && (Device { is_blocked: devices[i].is_blocked, ..owner_blocked(devices, user_id)[i] }) == devices[i],
{
}

/// A device after the frames were counted one after another.
pub open spec fn counted_all(d: Device, frames: Seq<FrameCount>) -> Device
    decreases frames.len(),
{
    if frames.len() == 0 {
        d
    } else {
        counted(counted_all(d, frames.drop_last()), frames.last())
    }
}

/// The bytes of the frames that were sent to or from the device.
pub open spec fn matched_bytes(d: Device, frames: Seq<FrameCount>) -> int
    decreases frames.len(),
{
    if frames.len() == 0 {
        0
    } else {
        matched_bytes(d, frames.drop_last()) + if frame_matches(d, frames.last()) {
            frames.last().size as int
        } else {
            0
        }
    }
}

/// The device's counter stays within `i32` while the frames are counted.
pub open spec fn counts_fit(d: Device, frames: Seq<FrameCount>) -> bool {
    forall|k: int| 0 <= k <= frames.len() ==> i32::MIN <= d.last_checked + #[trigger] matched_bytes(d, frames.take(k))
        <= i32::MAX
}

proof fn lemma_matched_bytes_by_mac(d: Device, e: Device, frames: Seq<FrameCount>)
    requires
        d.addr_mac@ == e.addr_mac@,
    ensures
        matched_bytes(d, frames) == matched_bytes(e, frames),
    decreases frames.len(),
{
    if frames.len() > 0 {
        lemma_matched_bytes_by_mac(d, e, frames.drop_last());
    }
}

proof fn lemma_counted_all(d: Device, frames: Seq<FrameCount>)
    requires
        counts_fit(d, frames),
    ensures
        counted_all(d, frames) == (Device { last_checked: (d.last_checked + matched_bytes(d, frames)) as i32, ..d }),
    decreases frames.len(),
{
    if frames.len() > 0 {
        let rest = frames.drop_last();
        assert forall|k: int| 0 <= k <= rest.len() implies i32::MIN <= d.last_checked + #[trigger] matched_bytes(d, rest.take(k))
            <= i32::MAX by {
            assert(rest.take(k) =~= frames.take(k));
        }
        lemma_counted_all(d, rest);
        assert(frames.take(frames.len() as int) =~= frames);
        assert(frames.take(rest.len() as int) =~= rest);
        assert(i32::MIN <= d.last_checked + matched_bytes(d, frames.take(rest.len() as int)) <= i32::MAX);
        assert(i32::MIN <= d.last_checked + matched_bytes(d, frames.take(frames.len() as int)) <= i32::MAX);
    } else {
        assert(frames.take(0) =~= frames);
    }
}

/// Law: the traffic of an interval ends up in the previous-interval slot.
/// Counting a sequence of frames for an unblocked device and then closing the
/// interval leaves its current counter at zero and its previous-interval
/// counter at the starting counter plus the bytes of the frames that were its
/// own.
pub proof fn law_interval_total(d: Device, frames: Seq<FrameCount>)
    requires
        d.is_blocked == 0,
        counts_fit(d, frames),
    ensures
        closed(counted_all(d, frames)).last_checked == 0,
        closed(counted_all(d, frames)).last_last_checked == d.last_checked + matched_bytes(d, frames),
{
    lemma_counted_all(d, frames);
    assert(frames.take(frames.len() as int) =~= frames);
    assert(i32::MIN <= d.last_checked + matched_bytes(d, frames.take(frames.len() as int)) <= i32::MAX);
}

/// Law: a device is watching exactly after two busy intervals. Starting from
/// an unblocked device, count the frames of one interval, close it, count the
/// frames of the next and close again: the device is then marked watching
/// exactly when each of the two intervals carried more than
/// `THROUGHPUT_THRESHOLD` bytes of its traffic (the first one counting from the
/// counter it started with).
pub proof fn law_watching_after_two_busy_intervals(d: Device, first: Seq<FrameCount>, second: Seq<FrameCount>)
    requires
        d.is_blocked == 0,
        counts_fit(d, first),
        counts_fit(closed(counted_all(d, first)), second),
    ensures
        closed(counted_all(closed(counted_all(d, first)), second)).is_watching == 1 <==> (d.last_checked
            + matched_bytes(d, first) > THROUGHPUT_THRESHOLD && matched_bytes(d, second) > THROUGHPUT_THRESHOLD),
        closed(counted_all(closed(counted_all(d, first)), second)).is_blocked == 0,
{
    law_interval_total(d, first);
    lemma_counted_all(d, first);
    let d1 = closed(counted_all(d, first));
    assert(d1.is_blocked == 0 && d1.addr_mac == d.addr_mac);
    law_interval_total(d1, second);
    lemma_counted_all(d1, second);
    lemma_matched_bytes_by_mac(d1, d, second);
}

} // verus!
