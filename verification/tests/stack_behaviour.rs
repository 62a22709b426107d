use userspace_stack::stack::MAX_SEGMENT_DATA;
use userspace_stack::tun::Mode;
use userspace_stack::{arp, ethernet, icmp, ipv4, tcp, udp, Config, Stack, StackEvent};

const LOCAL_IP: [u8; 4] = [10, 0, 0, 2];
const REMOTE_IP: [u8; 4] = [10, 0, 0, 1];
const LOCAL_MAC: [u8; 6] = [0x02, 0, 0, 0, 0, 2];
const REMOTE_MAC: [u8; 6] = [0x02, 0, 0, 0, 0, 1];
const T0: u64 = 1_000_000_000;

fn frame_to_stack(stack: &mut Stack, protocol: u8, id: u16, payload: &[u8]) -> Vec<Vec<u8>> {
    let packet = ipv4::serialize(REMOTE_IP, LOCAL_IP, protocol, id, payload);
    let frame = ethernet::serialize(LOCAL_MAC, REMOTE_MAC, ethernet::ETHERTYPE_IPV4, &packet);
    stack.process_ethernet(&frame, T0)
}

#[test]
fn default_config_values() {
    let config = Config::default();
    assert_eq!(config.local_ip, LOCAL_IP);
    assert_eq!(config.local_mac, LOCAL_MAC);
    assert_eq!(config.tcp_listeners, vec![8080]);
    assert!(config.tcp_sink_ports.is_empty());
    assert_eq!(config.udp_echo_ports, vec![7]);
    assert_eq!(config.retransmission_timeout, 200_000_000);
    assert_ne!(Mode::Tun, Mode::Tap);
}

#[test]
fn ethernet_udp_echo_uses_sender_mac_and_learns_it() {
    let mut stack = Stack::new(Config::default());
    let request = udp::serialize(REMOTE_IP, LOCAL_IP, 5000, 7, b"echo");
    let frames = frame_to_stack(&mut stack, ipv4::PROTOCOL_UDP, 3, &request);
    let frame = ethernet::Frame::parse(&frames[0]).unwrap();
    assert_eq!((frame.dst, frame.src), (REMOTE_MAC, LOCAL_MAC));
    let ip = ipv4::Packet::parse(frame.payload).unwrap();
    assert_eq!(ip.identification, 1);
    let reply = udp::Datagram::parse(LOCAL_IP, REMOTE_IP, ip.payload).unwrap();
    assert_eq!((reply.src_port, reply.dst_port, reply.payload), (7, 5000, &b"echo"[..]));
    let events = stack.drain_events();
    assert_eq!(events[0], StackEvent::ArpLearned { ip: REMOTE_IP, mac: REMOTE_MAC });
    assert!(matches!(events[1], StackEvent::UdpDatagram { local_port: 7, .. }));
    assert!(stack.drain_events().is_empty());
}

#[test]
fn frames_for_other_hardware_are_ignored() {
    let mut stack = Stack::new(Config::default());
    let request = udp::serialize(REMOTE_IP, LOCAL_IP, 5000, 7, b"echo");
    let packet = ipv4::serialize(REMOTE_IP, LOCAL_IP, ipv4::PROTOCOL_UDP, 3, &request);
    let frame = ethernet::serialize([0x02, 0, 0, 0, 0, 9], REMOTE_MAC, ethernet::ETHERTYPE_IPV4, &packet);
    assert!(stack.process_ethernet(&frame, T0).is_empty());
    let frame = ethernet::serialize(LOCAL_MAC, REMOTE_MAC, 0x86dd, &packet);
    assert!(stack.process_ethernet(&frame, T0).is_empty());
    assert!(stack.drain_events().is_empty());
}

#[test]
fn ip_identification_counts_packets_sent() {
    let mut stack = Stack::new(Config::default());
    for expected in 1..4u16 {
        let echo = icmp::serialize(icmp::ECHO_REQUEST, 0, [0, 0, 0, expected as u8], b"x");
        let packet = ipv4::serialize(REMOTE_IP, LOCAL_IP, ipv4::PROTOCOL_ICMP, 99, &echo);
        let replies = stack.process_ipv4_packet(&packet, T0);
        assert_eq!(ipv4::Packet::parse(&replies[0]).unwrap().identification, expected);
    }
    let events = stack.drain_events();
    assert_eq!(events.len(), 3);
    assert_eq!(events[0], StackEvent::IcmpEcho { remote_ip: REMOTE_IP, bytes: 1 });
}

#[test]
fn arp_reply_is_learned_without_answer() {
    let mut stack = Stack::new(Config::default());
    let packet = arp::Packet {
        operation: arp::REPLY,
        sender_mac: REMOTE_MAC,
        sender_ip: REMOTE_IP,
        target_mac: LOCAL_MAC,
        target_ip: LOCAL_IP,
    };
    let frame = ethernet::serialize(LOCAL_MAC, REMOTE_MAC, ethernet::ETHERTYPE_ARP, &packet.serialize());
    assert!(stack.process_ethernet(&frame, T0).is_empty());
    assert_eq!(
        stack.drain_events(),
        vec![StackEvent::ArpLearned { ip: REMOTE_IP, mac: REMOTE_MAC }]
    );
    assert!(stack.process_ethernet(&frame, T0).is_empty());
    assert!(stack.drain_events().is_empty());
}

#[test]
fn tcp_over_ethernet_needs_a_known_peer() {
    let mut stack = Stack::new(Config::default());
    let key = tcp::ConnectionKey { remote_ip: REMOTE_IP, remote_port: 30_100, local_port: 8080 };
    assert!(stack.send_tcp_ethernet(key, b"x", T0).is_none());
    let syn = tcp::serialize(REMOTE_IP, LOCAL_IP, 30_100, 8080, 10, 0, tcp::SYN, 65_535, &[]);
    let frames = frame_to_stack(&mut stack, ipv4::PROTOCOL_TCP, 1, &syn);
    let syn_ack = ethernet::Frame::parse(&frames[0]).unwrap();
    assert_eq!(syn_ack.dst, REMOTE_MAC);
    let ip = ipv4::Packet::parse(syn_ack.payload).unwrap();
    let seg = tcp::Segment::parse(LOCAL_IP, REMOTE_IP, ip.payload).unwrap();
    let ack = tcp::serialize(REMOTE_IP, LOCAL_IP, 30_100, 8080, 11, seg.sequence + 1, tcp::ACK, 65_535, &[]);
    assert!(frame_to_stack(&mut stack, ipv4::PROTOCOL_TCP, 2, &ack).is_empty());
    let frame = stack.send_tcp_ethernet(key, b"hello", T0).unwrap();
    let frame = ethernet::Frame::parse(&frame).unwrap();
    assert_eq!(frame.dst, REMOTE_MAC);
    let ip = ipv4::Packet::parse(frame.payload).unwrap();
    let seg = tcp::Segment::parse(LOCAL_IP, REMOTE_IP, ip.payload).unwrap();
    assert_eq!(seg.payload, b"hello");
    let retries = stack.tick_ethernet(T0 + 200_000_000);
    assert_eq!(retries.len(), 1);
    assert_eq!(ethernet::Frame::parse(&retries[0]).unwrap().dst, REMOTE_MAC);
}

#[test]
fn largest_segment_fits_a_packet() {
    let mut stack = Stack::new(Config::default());
    let syn = tcp::serialize(REMOTE_IP, LOCAL_IP, 30_200, 8080, 10, 0, tcp::SYN, 65_535, &[]);
    let packet = ipv4::serialize(REMOTE_IP, LOCAL_IP, ipv4::PROTOCOL_TCP, 1, &syn);
    let replies = stack.process_ipv4_packet(&packet, T0);
    let ip = ipv4::Packet::parse(&replies[0]).unwrap();
    let seg = tcp::Segment::parse(LOCAL_IP, REMOTE_IP, ip.payload).unwrap();
    let ack = tcp::serialize(REMOTE_IP, LOCAL_IP, 30_200, 8080, 11, seg.sequence + 1, tcp::ACK, 65_535, &[]);
    let packet = ipv4::serialize(REMOTE_IP, LOCAL_IP, ipv4::PROTOCOL_TCP, 2, &ack);
    assert!(stack.process_ipv4_packet(&packet, T0).is_empty());
    let key = tcp::ConnectionKey { remote_ip: REMOTE_IP, remote_port: 30_200, local_port: 8080 };
    let data = vec![0x5a; MAX_SEGMENT_DATA];
    let out = stack.send_tcp_ipv4(key, &data, T0).unwrap();
    assert_eq!(out.len(), 65_535);
    assert_eq!(ipv4::Packet::parse(&out).unwrap().payload.len(), 20 + MAX_SEGMENT_DATA);
}

#[test]
fn oversized_send_beyond_capacity_is_refused() {
    let mut stack = Stack::new(Config::default());
    let key = tcp::ConnectionKey { remote_ip: REMOTE_IP, remote_port: 40_000, local_port: 8080 };
    let big = vec![0u8; 70_000];
    assert!(stack.send_tcp_ipv4(key, &big, T0).is_none());
    assert!(stack.send_tcp_ethernet(key, &big, T0).is_none());
    assert_eq!(stack.connection_count(), 0);
}
