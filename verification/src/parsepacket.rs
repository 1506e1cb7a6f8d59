use vstd::prelude::*;
use crate::device_tracking::{be16, ETHERTYPE_IPV4};
use pnet::packet::ethernet::EthernetPacket;
use pnet::packet::ipv4::Ipv4Packet;
use pnet::packet::ipv6::Ipv6Packet;
use pnet::packet::Packet;

verus! {

/// The EtherType of IPv6.
pub const ETHERTYPE_IPV6: u16 = 0x86dd;

/// An IP address, by its octets.
#[derive(Debug, Clone, Copy)]
pub enum IpAddress {
    V4([u8; 4]),
    V6([u8; 16]),
}

/// Calls `pnet::packet::ethernet::EthernetPacket::new` and `get_ethertype`.
/// Claimed: the EtherType is bytes 12 and 13, big-endian (pnet's packet is
/// built for any buffer of at least 14 bytes).
#[verifier::external_body]
fn pnet_ethertype(frame: &[u8]) -> (t: u16)
    requires
        frame@.len() >= 14,
    ensures
        t == be16(frame@[12], frame@[13]),
{
    EthernetPacket::new(frame).unwrap().get_ethertype().0
}

/// Calls `EthernetPacket::new` and `get_source`. Claimed: bytes 6 to 12.
#[verifier::external_body]
fn pnet_source(frame: &[u8]) -> (a: [u8; 6])
    requires
        frame@.len() >= 14,
    ensures
        a@ == frame@.subrange(6, 12),
{
    EthernetPacket::new(frame).unwrap().get_source().octets()
}

/// Calls `EthernetPacket::new` and `Packet::payload`. Claimed: everything
/// after byte 14.
#[verifier::external_body]
fn pnet_payload(frame: &[u8]) -> (p: Vec<u8>)
    requires
        frame@.len() >= 14,
    ensures
        p@ == frame@.subrange(14, frame@.len() as int),
{
    EthernetPacket::new(frame).unwrap().payload().to_vec()
}

/// Calls `pnet::packet::ipv4::Ipv4Packet::new` and `get_destination`.
/// Claimed: a header exactly when the buffer holds at least 20 bytes, and the
/// destination is bytes 16 to 20.
#[verifier::external_body]
fn pnet_ipv4_destination(packet: &[u8]) -> (r: Option<[u8; 4]>)
    ensures
        r is Some <==> packet@.len() >= 20,
        r matches Some(a) ==> a@ == packet@.subrange(16, 20),
{
    match Ipv4Packet::new(packet) {
        Some(header) => Some(header.get_destination().octets()),
        None => None,
    }
}

/// Calls `pnet::packet::ipv6::Ipv6Packet::new` and `get_destination`.
/// Claimed: a header exactly when the buffer holds at least 40 bytes, and the
/// destination is bytes 24 to 40.
#[verifier::external_body]
fn pnet_ipv6_destination(packet: &[u8]) -> (r: Option<[u8; 16]>)
    ensures
        r is Some <==> packet@.len() >= 40,
        r matches Some(a) ==> a@ == packet@.subrange(24, 40),
{
    match Ipv6Packet::new(packet) {
        Some(header) => Some(header.get_destination().octets()),
        None => None,
    }
}

/// The destination of the IPv4 packet carried by an Ethernet frame, or `None`
/// when the payload is too short for an IPv4 header.
pub fn handle_ipv4_packet(ethernet: &[u8]) -> (r: Option<IpAddress>)
    requires
        ethernet@.len() >= 14,
    ensures
        r is Some <==> ethernet@.len() >= 34,
        r matches Some(a) ==> a matches IpAddress::V4(d) && d@ == ethernet@.subrange(30, 34),
{
    let payload = pnet_payload(ethernet);
    match pnet_ipv4_destination(payload.as_slice()) {
        Some(d) => Some(IpAddress::V4(d)),
        None => None,
    }
}

/// The destination of the IPv6 packet carried by an Ethernet frame, or `None`
/// when the payload is too short for an IPv6 header.
pub fn handle_ipv6_packet(ethernet: &[u8]) -> (r: Option<IpAddress>)
    requires
        ethernet@.len() >= 14,
    ensures
        r is Some <==> ethernet@.len() >= 54,
        r matches Some(a) ==> a matches IpAddress::V6(d) && d@ == ethernet@.subrange(38, 54),
{
    let payload = pnet_payload(ethernet);
    match pnet_ipv6_destination(payload.as_slice()) {
        Some(d) => Some(IpAddress::V6(d)),
        None => None,
    }
}

/// The source MAC of an Ethernet frame, and the destination of the IPv4 or
/// IPv6 packet it carries (`None` for other EtherTypes or a short packet).
pub fn handle_ethernet_frame(e_packet: &[u8]) -> (r: ([u8; 6], Option<IpAddress>))
    requires
        e_packet@.len() >= 14,
    ensures
        r.0@ == e_packet@.subrange(6, 12),
        be16(e_packet@[12], e_packet@[13]) == ETHERTYPE_IPV4 ==> (r.1 is Some <==> e_packet@.len() >= 34),
        be16(e_packet@[12], e_packet@[13]) == ETHERTYPE_IPV6 ==> (r.1 is Some <==> e_packet@.len() >= 54),
        be16(e_packet@[12], e_packet@[13]) != ETHERTYPE_IPV4 && be16(e_packet@[12], e_packet@[13]) != ETHERTYPE_IPV6
            ==> r.1 is None,
        r.1 matches Some(IpAddress::V4(d)) ==> be16(e_packet@[12], e_packet@[13]) == ETHERTYPE_IPV4
            && d@ == e_packet@.subrange(30, 34),
        r.1 matches Some(IpAddress::V6(d)) ==> be16(e_packet@[12], e_packet@[13]) == ETHERTYPE_IPV6
            && d@ == e_packet@.subrange(38, 54),
{
    let ethertype = pnet_ethertype(e_packet);
    let destination = if ethertype == ETHERTYPE_IPV4 {
        handle_ipv4_packet(e_packet)
    } else if ethertype == ETHERTYPE_IPV6 {
        handle_ipv6_packet(e_packet)
    } else {
        None
    };
    (pnet_source(e_packet), destination)
}

} // verus!
