use family_router::parsepacket::{handle_ethernet_frame, handle_ipv4_packet, handle_ipv6_packet, IpAddress};

fn frame(ethertype: [u8; 2], payload_len: usize) -> Vec<u8> {
    let mut f = vec![0xff, 0xff, 0xff, 0xff, 0xff, 0xff, 1, 2, 3, 4, 5, 6];
    f.extend_from_slice(&ethertype);
    for i in 0..payload_len {
        f.push(i as u8);
    }
    f
}

#[test]
fn ipv4_destination_is_read() {
    let f = frame([0x08, 0x00], 20);
    let (src, dst) = handle_ethernet_frame(&f);
    assert_eq!(src, [1, 2, 3, 4, 5, 6]);
    match dst {
        Some(IpAddress::V4(a)) => assert_eq!(a, [16, 17, 18, 19]),
        other => panic!("unexpected {:?}", other),
    }
}

#[test]
fn ipv6_destination_is_read() {
    let f = frame([0x86, 0xdd], 40);
    let (_, dst) = handle_ethernet_frame(&f);
    match dst {
        Some(IpAddress::V6(a)) => assert_eq!(a.to_vec(), (24u8..40).collect::<Vec<u8>>()),
        other => panic!("unexpected {:?}", other),
    }
}

#[test]
fn short_packets_have_no_destination() {
    assert!(handle_ipv4_packet(&frame([0x08, 0x00], 19)).is_none());
    assert!(handle_ipv6_packet(&frame([0x86, 0xdd], 39)).is_none());
    assert!(handle_ethernet_frame(&frame([0x08, 0x00], 0)).1.is_none());
}

#[test]
fn other_ethertypes_have_no_destination() {
    let (src, dst) = handle_ethernet_frame(&frame([0x08, 0x06], 40));
    assert_eq!(src, [1, 2, 3, 4, 5, 6]);
    assert!(dst.is_none());
}
