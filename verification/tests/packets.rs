use userspace_stack::{arp, ethernet, icmp, ipv4, tcp, udp};

const A: [u8; 4] = [192, 0, 2, 1];
const B: [u8; 4] = [198, 51, 100, 2];

#[test]
fn ethernet_round_trip() {
    let bytes = ethernet::serialize([1, 2, 3, 4, 5, 6], [7, 8, 9, 10, 11, 12], 0x0800, b"payload");
    assert_eq!(bytes.len(), ethernet::HEADER_LEN + 7);
    let frame = ethernet::Frame::parse(&bytes).unwrap();
    assert_eq!(frame.dst, [1, 2, 3, 4, 5, 6]);
    assert_eq!(frame.src, [7, 8, 9, 10, 11, 12]);
    assert_eq!(frame.ethertype, 0x0800);
    assert_eq!(frame.payload, b"payload");
}

#[test]
fn ethernet_short_frame_is_rejected() {
    assert!(ethernet::Frame::parse(&[0u8; 13]).is_none());
    assert!(ethernet::Frame::parse(&[0u8; 14]).unwrap().payload.is_empty());
}

#[test]
fn arp_round_trip() {
    let packet = arp::Packet {
        operation: arp::REPLY,
        sender_mac: [2, 0, 0, 0, 0, 9],
        sender_ip: A,
        target_mac: [2, 0, 0, 0, 0, 8],
        target_ip: B,
    };
    let bytes = packet.serialize();
    assert_eq!(bytes.len(), arp::PACKET_LEN);
    assert_eq!(&bytes[..8], &[0, 1, 8, 0, 6, 4, 0, 2]);
    assert_eq!(arp::Packet::parse(&bytes), Some(packet));
}

#[test]
fn arp_with_other_hardware_is_rejected() {
    let packet = arp::Packet {
        operation: arp::REQUEST,
        sender_mac: [2, 0, 0, 0, 0, 9],
        sender_ip: A,
        target_mac: [0; 6],
        target_ip: B,
    };
    let mut bytes = packet.serialize();
    bytes[1] = 6;
    assert_eq!(arp::Packet::parse(&bytes), None);
    let bytes = packet.serialize();
    assert_eq!(arp::Packet::parse(&bytes[..27]), None);
}

#[test]
fn ipv4_round_trip() {
    let bytes = ipv4::serialize(A, B, ipv4::PROTOCOL_UDP, 0x1234, b"abc");
    assert_eq!(bytes.len(), 23);
    assert_eq!(userspace_stack::checksum::internet(&bytes[..20]), 0);
    let packet = ipv4::Packet::parse(&bytes).unwrap();
    assert_eq!(packet.dscp_ecn, 0);
    assert_eq!(packet.identification, 0x1234);
    assert_eq!(packet.flags_fragment, 0x4000);
    assert_eq!(packet.ttl, 64);
    assert_eq!(packet.protocol, ipv4::PROTOCOL_UDP);
    assert_eq!((packet.src, packet.dst), (A, B));
    assert_eq!(packet.payload, b"abc");
}

fn resum(bytes: &mut [u8]) {
    bytes[10] = 0;
    bytes[11] = 0;
    let sum = userspace_stack::checksum::internet(&bytes[..20]);
    bytes[10..12].copy_from_slice(&sum.to_be_bytes());
}

#[test]
fn ipv4_errors_are_reported_in_order() {
    let good = ipv4::serialize(A, B, ipv4::PROTOCOL_ICMP, 1, b"data");
    assert_eq!(ipv4::Packet::parse(&good[..19]), Err(ipv4::ParseError::Truncated));

    let mut bad = good.clone();
    bad[0] = 0x65;
    assert_eq!(ipv4::Packet::parse(&bad), Err(ipv4::ParseError::Version));

    let mut bad = good.clone();
    bad[0] = 0x44;
    assert_eq!(ipv4::Packet::parse(&bad), Err(ipv4::ParseError::HeaderLength));

    let mut bad = good.clone();
    bad[2..4].copy_from_slice(&100u16.to_be_bytes());
    resum(&mut bad);
    assert_eq!(ipv4::Packet::parse(&bad), Err(ipv4::ParseError::TotalLength));

    let mut bad = good.clone();
    bad[11] ^= 0x80;
    assert_eq!(ipv4::Packet::parse(&bad), Err(ipv4::ParseError::Checksum));

    let mut bad = good.clone();
    bad[6..8].copy_from_slice(&0x0001u16.to_be_bytes());
    resum(&mut bad);
    assert_eq!(ipv4::Packet::parse(&bad), Err(ipv4::ParseError::Fragmented));
}

#[test]
fn ipv4_payload_stops_at_total_length() {
    let mut bytes = ipv4::serialize(A, B, ipv4::PROTOCOL_TCP, 7, b"data");
    bytes.extend_from_slice(b"padding");
    let packet = ipv4::Packet::parse(&bytes).unwrap();
    assert_eq!(packet.payload, b"data");
}

#[test]
fn icmp_round_trip_and_reply() {
    let bytes = icmp::serialize(icmp::ECHO_REQUEST, 0, [0, 1, 0, 2], b"ping");
    let packet = icmp::Packet::parse(&bytes).unwrap();
    assert_eq!((packet.kind, packet.code), (icmp::ECHO_REQUEST, 0));
    assert_eq!(packet.rest, [0, 1, 0, 2]);
    assert_eq!(packet.payload, b"ping");
    let reply = packet.echo_reply().unwrap();
    assert_eq!(reply, icmp::serialize(icmp::ECHO_REPLY, 0, [0, 1, 0, 2], b"ping"));
}

#[test]
fn icmp_non_request_gets_no_reply() {
    let bytes = icmp::serialize(icmp::ECHO_REPLY, 0, [0; 4], b"pong");
    assert!(icmp::Packet::parse(&bytes).unwrap().echo_reply().is_none());
    let bytes = icmp::serialize(icmp::ECHO_REQUEST, 1, [0; 4], b"odd");
    assert!(icmp::Packet::parse(&bytes).unwrap().echo_reply().is_none());
    assert!(icmp::Packet::parse(&bytes[..7]).is_none());
}

#[test]
fn udp_round_trip() {
    let bytes = udp::serialize(A, B, 1234, 53, b"query");
    assert_eq!(bytes.len(), udp::HEADER_LEN + 5);
    let datagram = udp::Datagram::parse(A, B, &bytes).unwrap();
    assert_eq!((datagram.src_port, datagram.dst_port), (1234, 53));
    assert_eq!(datagram.payload, b"query");
}

#[test]
fn udp_without_checksum_is_accepted() {
    let mut bytes = udp::serialize(A, B, 1, 2, b"x");
    bytes[6] = 0;
    bytes[7] = 0;
    bytes[8] = b'y';
    let datagram = udp::Datagram::parse(A, B, &bytes).unwrap();
    assert_eq!(datagram.payload, b"y");
}

#[test]
fn udp_bad_length_is_rejected() {
    let mut bytes = udp::serialize(A, B, 1, 2, b"xy");
    bytes[4..6].copy_from_slice(&11u16.to_be_bytes());
    assert!(udp::Datagram::parse(A, B, &bytes).is_none());
    bytes[4..6].copy_from_slice(&7u16.to_be_bytes());
    assert!(udp::Datagram::parse(A, B, &bytes).is_none());
    assert!(udp::Datagram::parse(A, B, &bytes[..7]).is_none());
}

#[test]
fn udp_zero_sum_is_sent_as_all_ones() {
    let mut found = false;
    for word in 0..=u16::MAX {
        let bytes = udp::serialize(A, B, 1, 2, &word.to_be_bytes());
        if bytes[6..8] == [0xff, 0xff] {
            assert!(udp::Datagram::parse(A, B, &bytes).is_some());
            found = true;
            break;
        }
    }
    assert!(found);
}

#[test]
fn tcp_round_trip_keeps_nine_flag_bits() {
    let bytes = tcp::serialize(A, B, 1000, 80, 7, 9, 0xffff, 512, b"body");
    assert_eq!(bytes.len(), 24);
    let segment = tcp::Segment::parse(A, B, &bytes).unwrap();
    assert_eq!((segment.src_port, segment.dst_port), (1000, 80));
    assert_eq!((segment.sequence, segment.acknowledgment), (7, 9));
    assert_eq!(segment.flags, 0x1ff);
    assert_eq!(segment.window, 512);
    assert_eq!(segment.payload, b"body");
}

#[test]
fn tcp_options_are_skipped() {
    let mut bytes = tcp::serialize(A, B, 1, 2, 3, 4, tcp::ACK, 100, &[1, 1, 1, 1, 0xaa]);
    bytes[12] = 0x60;
    bytes[16] = 0;
    bytes[17] = 0;
    let sum = userspace_stack::checksum::pseudo_header(A, B, 6, &bytes);
    bytes[16..18].copy_from_slice(&sum.to_be_bytes());
    let segment = tcp::Segment::parse(A, B, &bytes).unwrap();
    assert_eq!(segment.payload, &[0xaa]);
}

#[test]
fn tcp_bad_offset_or_source_is_rejected() {
    let mut bytes = tcp::serialize(A, B, 1, 2, 3, 4, tcp::ACK, 100, &[]);
    assert!(tcp::Segment::parse([192, 0, 2, 9], B, &bytes).is_none());
    bytes[12] = 0x40;
    bytes[16] = 0;
    bytes[17] = 0;
    let sum = userspace_stack::checksum::pseudo_header(A, B, 6, &bytes);
    bytes[16..18].copy_from_slice(&sum.to_be_bytes());
    assert!(tcp::Segment::parse(A, B, &bytes).is_none());
}
