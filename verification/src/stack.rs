//! The protocol stack: demultiplexes received frames and packets to ARP, ICMP, UDP and
//! TCP, and wraps what they answer in IPv4 (and Ethernet).
//!
//! Times are readings of a monotonic clock in nanoseconds; only their differences matter.
use vstd::prelude::*;
use crate::MacAddr;
use crate::{arp, ethernet, icmp, ipv4, tcp, udp};
use crate::bytes::{
    be16_at, ip_at, mac_at, same_ip, same_mac, push_all, push_be16, lemma_ip_at, lemma_mac_at,
};
use crate::tcp::engine::{
    EngineView, capacity_spec, keys_distinct, handle_spec, send_spec, tick_all, payloads_within, outbounds_within,
    lemma_handle_bounds, lemma_send_bounds, lemma_tick_bounds,
};
use crate::tcp::{ConnectionKey, EventView, OutboundView, SegmentView, events_view, outbounds_view};

verus! {

/// The most application data one TCP segment of this stack carries, so that a segment
/// fits an IPv4 packet.
pub const MAX_SEGMENT_DATA: usize = 65495;

/// The broadcast hardware address.
pub open spec fn broadcast_mac() -> MacAddr {
    [0xffu8, 0xffu8, 0xffu8, 0xffu8, 0xffu8, 0xffu8]
}

/// The stack's configuration.
#[derive(Debug, Clone)]
pub struct Config {
    pub local_ip: [u8; 4],
    pub local_mac: MacAddr,
    pub tcp_listeners: Vec<u16>,
    /// TCP listener ports that acknowledge and discard data instead of echoing it.
    pub tcp_sink_ports: Vec<u16>,
    pub udp_echo_ports: Vec<u16>,
    /// The base retransmission timeout, in nanoseconds.
    pub retransmission_timeout: u64,
}

impl Default for Config {
    /// 10.0.0.2 with MAC 02:00:00:00:00:02, a TCP echo listener on 8080, a UDP echo
    /// port 7 and a 200 ms retransmission timeout.
    fn default() -> (c: Self)
        ensures
            c.local_ip == [10u8, 0u8, 0u8, 2u8],
            c.local_mac == [0x02u8, 0u8, 0u8, 0u8, 0u8, 2u8],
            c.tcp_listeners@ == seq![8080u16],
            c.tcp_sink_ports@ == Seq::<u16>::empty(),
            c.udp_echo_ports@ == seq![7u16],
            c.retransmission_timeout == 200_000_000,
    {
        let mut tcp_listeners: Vec<u16> = Vec::new();
        tcp_listeners.push(8080);
        let mut udp_echo_ports: Vec<u16> = Vec::new();
        udp_echo_ports.push(7);
        let c = Config {
            local_ip: [10, 0, 0, 2],
            local_mac: [0x02, 0, 0, 0, 0, 2],
            tcp_listeners,
            tcp_sink_ports: Vec::new(),
            udp_echo_ports,
            retransmission_timeout: 200_000_000,
        };
        assert(c.tcp_listeners@ =~= seq![8080u16]);
        assert(c.udp_echo_ports@ =~= seq![7u16]);
        c
    }
}

/// What the stack reports to the application.
#[derive(Debug, Clone, PartialEq, Eq)]
pub enum StackEvent {
    ArpLearned { ip: [u8; 4], mac: MacAddr },
    IcmpEcho { remote_ip: [u8; 4], bytes: usize },
    UdpDatagram { remote_ip: [u8; 4], remote_port: u16, local_port: u16, data: Vec<u8> },
    Tcp(tcp::Event),
}

/// An event, with its data as sequences.
pub enum StackEventView {
    ArpLearned { ip: [u8; 4], mac: MacAddr },
    IcmpEcho { remote_ip: [u8; 4], bytes: usize },
    UdpDatagram { remote_ip: [u8; 4], remote_port: u16, local_port: u16, data: Seq<u8> },
    Tcp(EventView),
}

impl View for StackEvent {
    type V = StackEventView;

    open spec fn view(&self) -> StackEventView {
        match self {
            StackEvent::ArpLearned { ip, mac } => StackEventView::ArpLearned { ip: *ip, mac: *mac },
            StackEvent::IcmpEcho { remote_ip, bytes } => StackEventView::IcmpEcho {
                remote_ip: *remote_ip,
                bytes: *bytes,
            },
            StackEvent::UdpDatagram { remote_ip, remote_port, local_port, data } =>
                StackEventView::UdpDatagram {
                remote_ip: *remote_ip,
                remote_port: *remote_port,
                local_port: *local_port,
                data: data@,
            },
            StackEvent::Tcp(e) => StackEventView::Tcp(e@),
        }
    }
}

/// The views of a list of events.
pub open spec fn stack_events_view(v: Seq<StackEvent>) -> Seq<StackEventView> {
    v.map_values(|e: StackEvent| e@)
}

/// TCP events as stack events.
pub open spec fn tcp_events(v: Seq<EventView>) -> Seq<StackEventView> {
    v.map_values(|e: EventView| StackEventView::Tcp(e))
}

/// A learned IPv4-to-hardware address binding.
#[derive(Debug, Clone, Copy)]
struct ArpEntry {
    ip: [u8; 4],
    mac: MacAddr,
}

/// The stack: its addresses and UDP echo ports, the TCP engine, the bindings it has
/// learned (with the last peer seen kept apart for a quick check), the events not yet
/// drained, and the next IPv4 identification.
pub struct Stack {
    local_ip: [u8; 4],
    local_mac: MacAddr,
    udp_echo_ports: Vec<u16>,
    tcp: tcp::Engine,
    arp_cache: Vec<ArpEntry>,
    last_peer: Option<([u8; 4], MacAddr)>,
    events: Vec<StackEvent>,
    next_ip_id: u16,
}

/// The stack, as plain values.
pub struct StackView {
    pub local_ip: [u8; 4],
    pub local_mac: MacAddr,
    pub udp_echo_ports: Seq<u16>,
    pub tcp: EngineView,
    pub arp_cache: Seq<([u8; 4], MacAddr)>,
    pub last_peer: Option<([u8; 4], MacAddr)>,
    pub events: Seq<StackEventView>,
    pub next_ip_id: u16,
}

/// The bindings of a cache.
spec fn cache_view(v: Seq<ArpEntry>) -> Seq<([u8; 4], MacAddr)> {
    v.map_values(|a: ArpEntry| (a.ip, a.mac))
}

impl View for Stack {
    type V = StackView;

    closed spec fn view(&self) -> StackView {
        StackView {
            local_ip: self.local_ip,
            local_mac: self.local_mac,
            udp_echo_ports: self.udp_echo_ports@,
            tcp: self.tcp@,
            arp_cache: cache_view(self.arp_cache@),
            last_peer: self.last_peer,
            events: stack_events_view(self.events@),
            next_ip_id: self.next_ip_id,
        }
    }
}

/// No two bindings are for the same IPv4 address.
pub open spec fn ips_distinct(cache: Seq<([u8; 4], MacAddr)>) -> bool {
    forall|i: int, j: int|
        0 <= i < cache.len() && 0 <= j < cache.len() && i != j ==> cache[i].0 != cache[j].0
}

/// The position of the binding for `ip`, if there is one.
pub open spec fn arp_find(cache: Seq<([u8; 4], MacAddr)>, ip: [u8; 4]) -> Option<int> {
    if exists|i: int| 0 <= i < cache.len() && cache[i].0 == ip {
        Some(choose|i: int| 0 <= i < cache.len() && cache[i].0 == ip)
    } else {
        None
    }
}

/// Records that `ip` was seen at `mac`; a new or changed binding is reported.
pub open spec fn remember_spec(s: StackView, ip: [u8; 4], mac: MacAddr) -> StackView {
    if s.last_peer == Some((ip, mac)) {
        s
    } else {
        let s1 = StackView { last_peer: Some((ip, mac)), ..s };
        let learned = s1.events.push(StackEventView::ArpLearned { ip, mac });
        match arp_find(s.arp_cache, ip) {
            Some(i) => {
                if s.arp_cache[i].1 == mac {
                    s1
                } else {
                    StackView { arp_cache: s.arp_cache.update(i, (ip, mac)), events: learned, ..s1 }
                }
            },
            None => StackView { arp_cache: s.arp_cache.push((ip, mac)), events: learned, ..s1 },
        }
    }
}

/// The hardware address of `ip`: the last peer's if it is `ip`, else the learned one.
pub open spec fn peer_mac_spec(s: StackView, ip: [u8; 4]) -> Option<MacAddr> {
    match s.last_peer {
        Some((p, m)) if p == ip => Some(m),
        _ => match arp_find(s.arp_cache, ip) {
            Some(i) => Some(s.arp_cache[i].1),
            None => None,
        },
    }
}

/// The last peer seen, if any, is bound in the cache to the address it was seen at.
pub open spec fn last_peer_bound(s: StackView) -> bool {
    match s.last_peer {
        Some((p, m)) => s.arp_cache.contains((p, m)),
        None => true,
    }
}

/// Wraps a payload in an IPv4 packet to `remote_ip`, taking the next identification.
pub open spec fn wrap_ipv4_spec(s: StackView, remote_ip: [u8; 4], protocol: u8, payload: Seq<u8>) -> (StackView, Seq<u8>) {
    (
        StackView { next_ip_id: s.next_ip_id.wrapping_add(1), ..s },
        ipv4::packet_bytes(s.local_ip, remote_ip, protocol, s.next_ip_id, payload),
    )
}

/// Wraps a payload in an IPv4 packet to `remote_ip` inside an Ethernet frame to `mac`.
pub open spec fn wrap_ethernet_spec(s: StackView, mac: MacAddr, remote_ip: [u8; 4], protocol: u8, payload: Seq<u8>) -> (StackView, Seq<u8>) {
    let (s2, packet) = wrap_ipv4_spec(s, remote_ip, protocol, payload);
    (s2, ethernet::frame_bytes(mac, s.local_mac, ethernet::ETHERTYPE_IPV4, packet))
}

/// An ICMP message from `remote_ip`: an echo request is answered with an echo reply
/// and reported.
pub open spec fn icmp_spec(s: StackView, remote_ip: [u8; 4], b: Seq<u8>) -> (StackView, Option<(u8, Seq<u8>)>) {
    if icmp::is_message(b) && b[0] == icmp::ECHO_REQUEST && b[1] == 0 {
        (
            StackView {
                events: s.events.push(StackEventView::IcmpEcho { remote_ip, bytes: icmp::data_len(b) }),
                ..s
            },
            Some((ipv4::PROTOCOL_ICMP, icmp::message_bytes(icmp::ECHO_REPLY, 0, ip_at(b, 4), icmp::data_of(b)))),
        )
    } else {
        (s, None)
    }
}

/// A UDP datagram from `remote_ip`: reported, and echoed back when its port is an echo port.
pub open spec fn udp_spec(s: StackView, remote_ip: [u8; 4], b: Seq<u8>) -> (StackView, Option<(u8, Seq<u8>)>) {
    if udp::is_datagram(remote_ip, s.local_ip, b) {
        let src_port = be16_at(b, 0);
        let dst_port = be16_at(b, 2);
        let data = b.subrange(8, be16_at(b, 4) as int);
        let s1 = StackView {
            events: s.events.push(
                StackEventView::UdpDatagram { remote_ip, remote_port: src_port, local_port: dst_port, data },
            ),
            ..s
        };
        if s.udp_echo_ports.contains(dst_port) {
            (s1, Some((ipv4::PROTOCOL_UDP, udp::datagram_bytes(s.local_ip, remote_ip, dst_port, src_port, data))))
        } else {
            (s1, None)
        }
    } else {
        (s, None)
    }
}

/// The segment that the bytes of a valid TCP segment carry.
pub open spec fn segment_of(b: Seq<u8>) -> SegmentView {
    SegmentView {
        src_port: be16_at(b, 0),
        dst_port: be16_at(b, 2),
        sequence: crate::bytes::be32_at(b, 4),
        acknowledgment: crate::bytes::be32_at(b, 8),
        flags: tcp::flags_of(b),
        window: be16_at(b, 14),
        payload: b.subrange(tcp::data_offset_of(b), b.len() as int),
    }
}

/// A TCP segment from `remote_ip`, handed to the engine at `now`; its answer, if any, is sent.
pub open spec fn tcp_spec(s: StackView, remote_ip: [u8; 4], b: Seq<u8>, now: u64) -> (StackView, Option<(u8, Seq<u8>)>) {
    if tcp::is_segment(remote_ip, s.local_ip, b) {
        let (e2, outs, evs) = handle_spec(s.tcp, remote_ip, segment_of(b), now);
        let s1 = StackView { tcp: e2, events: s.events + tcp_events(evs), ..s };
        if outs.len() > 0 {
            (s1, Some((ipv4::PROTOCOL_TCP, outs[0].bytes)))
        } else {
            (s1, None)
        }
    } else {
        (s, None)
    }
}

/// A valid IPv4 packet's contents: only packets for the local address are handled,
/// by protocol.
pub open spec fn parsed_ipv4_spec(s: StackView, src: [u8; 4], dst: [u8; 4], protocol: u8, payload: Seq<u8>, now: u64) -> (StackView, Option<(u8, Seq<u8>)>) {
    if dst != s.local_ip {
        (s, None)
    } else if protocol == ipv4::PROTOCOL_ICMP {
        icmp_spec(s, src, payload)
    } else if protocol == ipv4::PROTOCOL_UDP {
        udp_spec(s, src, payload)
    } else if protocol == ipv4::PROTOCOL_TCP {
        tcp_spec(s, src, payload, now)
    } else {
        (s, None)
    }
}

/// `parsed_ipv4_spec` on the fields of valid packet bytes.
pub open spec fn parsed_bytes_spec(s: StackView, b: Seq<u8>, now: u64) -> (StackView, Option<(u8, Seq<u8>)>) {
    parsed_ipv4_spec(s, ip_at(b, 12), ip_at(b, 16), b[9], ipv4::payload_of(b), now)
}

/// A raw IPv4 packet received at `now`, and the packets sent in answer.
pub open spec fn process_ipv4_spec(s: StackView, b: Seq<u8>, now: u64) -> (StackView, Seq<Seq<u8>>) {
    if ipv4::parse_error(b) is Some {
        (s, Seq::empty())
    } else {
        let (s2, r) = parsed_bytes_spec(s, b, now);
        match r {
            None => (s2, Seq::empty()),
            Some((protocol, payload)) => {
                let (s3, packet) = wrap_ipv4_spec(s2, ip_at(b, 12), protocol, payload);
                (s3, seq![packet])
            },
        }
    }
}

/// An ARP packet: the sender's binding is learned, and a request for the local address
/// is answered with a reply from the local hardware address.
pub open spec fn arp_spec(s: StackView, b: Seq<u8>) -> (StackView, Seq<Seq<u8>>) {
    if arp::is_arp(b) {
        let p = arp::packet_of(b);
        let s1 = remember_spec(s, p.sender_ip, p.sender_mac);
        if p.operation != arp::REQUEST || p.target_ip != s.local_ip {
            (s1, Seq::empty())
        } else {
            let reply = arp::Packet {
                operation: arp::REPLY,
                sender_mac: s.local_mac,
                sender_ip: s.local_ip,
                target_mac: p.sender_mac,
                target_ip: p.sender_ip,
            };
            (
                s1,
                seq![ethernet::frame_bytes(p.sender_mac, s.local_mac, ethernet::ETHERTYPE_ARP, arp::packet_bytes(reply))],
            )
        }
    } else {
        (s, Seq::empty())
    }
}

/// An Ethernet frame received at `now`, and the frames sent in answer: frames for
/// another hardware address are ignored; for IPv4 the sender's binding is learned.
pub open spec fn process_ethernet_spec(s: StackView, b: Seq<u8>, now: u64) -> (StackView, Seq<Seq<u8>>) {
    if b.len() < ethernet::HEADER_LEN {
        (s, Seq::empty())
    } else {
        let dst = mac_at(b, 0);
        let src = mac_at(b, 6);
        let payload = b.subrange(14, b.len() as int);
        if dst != s.local_mac && dst != broadcast_mac() {
            (s, Seq::empty())
        } else if be16_at(b, 12) == ethernet::ETHERTYPE_ARP {
            arp_spec(s, payload)
        } else if be16_at(b, 12) == ethernet::ETHERTYPE_IPV4 {
            if ipv4::parse_error(payload) is Some {
                (s, Seq::empty())
            } else {
                let remote_ip = ip_at(payload, 12);
                let s1 = remember_spec(s, remote_ip, src);
                let (s2, r) = parsed_bytes_spec(s1, payload, now);
                match r {
                    None => (s2, Seq::empty()),
                    Some((protocol, data)) => {
                        let (s3, frame) = wrap_ethernet_spec(s2, src, remote_ip, protocol, data);
                        (s3, seq![frame])
                    },
                }
            }
        } else {
            (s, Seq::empty())
        }
    }
}

/// Wraps each outbound TCP segment in an IPv4 packet, in order.
pub open spec fn wrap_all_ipv4(s: StackView, outs: Seq<OutboundView>) -> (StackView, Seq<Seq<u8>>)
    decreases outs.len(),
{
    if outs.len() == 0 {
        (s, Seq::empty())
    } else {
        let (s1, packets) = wrap_all_ipv4(s, outs.drop_last());
        let o = outs.last();
        let (s2, packet) = wrap_ipv4_spec(s1, o.key.remote_ip, ipv4::PROTOCOL_TCP, o.bytes);
        (s2, packets.push(packet))
    }
}

/// Wraps each outbound TCP segment whose peer's hardware address is known in an
/// Ethernet frame, in order; the others are dropped.
pub open spec fn wrap_all_ethernet(s: StackView, outs: Seq<OutboundView>) -> (StackView, Seq<Seq<u8>>)
    decreases outs.len(),
{
    if outs.len() == 0 {
        (s, Seq::empty())
    } else {
        let (s1, frames) = wrap_all_ethernet(s, outs.drop_last());
        let o = outs.last();
        match peer_mac_spec(s1, o.key.remote_ip) {
            Some(mac) => {
                let (s2, frame) = wrap_ethernet_spec(s1, mac, o.key.remote_ip, ipv4::PROTOCOL_TCP, o.bytes);
                (s2, frames.push(frame))
            },
            None => (s1, frames),
        }
    }
}

/// The stack after the TCP timers run at `now`, and what they send.
pub open spec fn ticked(s: StackView, now: u64) -> (StackView, Seq<OutboundView>) {
    let (conns, outs) = tick_all(s.tcp.local_ip, s.tcp.connections, now, s.tcp.rto);
    (StackView { tcp: EngineView { connections: conns, ..s.tcp }, ..s }, outs)
}

/// The views of a list of packets or frames.
pub open spec fn packets_view(v: Seq<Vec<u8>>) -> Seq<Seq<u8>> {
    v.map_values(|p: Vec<u8>| p@)
}

/// The view of an optional protocol answer.
pub open spec fn answer_view(r: Option<(u8, Vec<u8>)>) -> Option<(u8, Seq<u8>)> {
    match r {
        Some((p, v)) => Some((p, v@)),
        None => None,
    }
}

/// Whether `v` holds `x`.
fn contains_u16(v: &Vec<u16>, x: u16) -> (r: bool)
    ensures
        r == v@.contains(x),
{
    let mut i: usize = 0;
    while i < v.len()
        invariant
            i <= v@.len(),
            forall|j: int| 0 <= j < i ==> v@[j] != x,
        decreases v@.len() - i,
    {
        if v[i] == x {
            return true;
        }
        i = i + 1;
    }
    false
}

/// The key of the connection a segment from `remote_ip` belongs to.
fn segment_key(remote_ip: [u8; 4], segment: &tcp::Segment) -> (k: ConnectionKey)
    ensures
        k == crate::tcp::engine::key_of(remote_ip, segment@),
{
    ConnectionKey { remote_ip, remote_port: segment.src_port, local_port: segment.dst_port }
}

/// Queuing `payload` on `key` at `now`, and the IPv4 packet that carries it.
pub open spec fn send_ipv4_spec(s: StackView, key: ConnectionKey, payload: Seq<u8>, now: u64) -> (StackView, Option<Seq<u8>>) {
    let (e2, r) = send_spec(s.tcp, key, payload, now);
    match r {
        None => (s, None),
        Some(o) => {
            let (s2, packet) = wrap_ipv4_spec(StackView { tcp: e2, ..s }, key.remote_ip, ipv4::PROTOCOL_TCP, o.bytes);
            (s2, Some(packet))
        },
    }
}

/// Queuing `payload` on `key` at `now`, and the Ethernet frame that carries it; nothing
/// happens while the peer's hardware address is unknown.
pub open spec fn send_ethernet_spec(s: StackView, key: ConnectionKey, payload: Seq<u8>, now: u64) -> (StackView, Option<Seq<u8>>) {
    match peer_mac_spec(s, key.remote_ip) {
        None => (s, None),
        Some(mac) => {
            let (e2, r) = send_spec(s.tcp, key, payload, now);
            match r {
                None => (s, None),
                Some(o) => {
                    let (s2, frame) = wrap_ethernet_spec(StackView { tcp: e2, ..s }, mac, key.remote_ip, ipv4::PROTOCOL_TCP, o.bytes);
                    (s2, Some(frame))
                },
            }
        },
    }
}

/// The view of an optional packet.
pub open spec fn packet_option_view(r: Option<Vec<u8>>) -> Option<Seq<u8>> {
    match r {
        Some(v) => Some(v@),
        None => None,
    }
}

impl Stack {
    /// The stack's invariant: the engine's, distinct bindings, and segments kept for
    /// retransmission that fit an IPv4 packet.
    pub closed spec fn wf(&self) -> bool {
        &&& self.tcp.wf()
        &&& self@.tcp.local_ip == self@.local_ip
        &&& payloads_within(self@.tcp, MAX_SEGMENT_DATA as nat)
        &&& ips_distinct(self@.arp_cache)
        &&& last_peer_bound(self@)
    }

    /// What the invariant says of the stack's model: the engine's connection keys are
    /// distinct and it sends from the local address, the segments it keeps fit an IPv4
    /// packet, no address is bound twice, and the last peer seen is bound in the cache.
    pub proof fn lemma_wf(&self)
        requires
            self.wf(),
        ensures
            keys_distinct(self@.tcp.connections),
            self@.tcp.local_ip == self@.local_ip,
            payloads_within(self@.tcp, MAX_SEGMENT_DATA as nat),
            ips_distinct(self@.arp_cache),
            last_peer_bound(self@),
    {
        self.tcp.lemma_wf_keys_distinct();
    }

    /// A stack with the given configuration, no connections, bindings or events, and
    /// IPv4 identifications starting at 1.
    pub fn new(config: Config) -> (s: Self)
        ensures
            s.wf(),
            s@ == (StackView {
                local_ip: config.local_ip,
                local_mac: config.local_mac,
                udp_echo_ports: config.udp_echo_ports@,
                tcp: EngineView {
                    local_ip: config.local_ip,
                    listeners: config.tcp_listeners@,
                    sink_ports: config.tcp_sink_ports@,
                    connections: Seq::empty(),
                    rto: config.retransmission_timeout,
                },
                arp_cache: Seq::empty(),
                last_peer: None,
                events: Seq::empty(),
                next_ip_id: 1,
            }),
    {
        let Config {
            local_ip,
            local_mac,
            tcp_listeners,
            tcp_sink_ports,
            udp_echo_ports,
            retransmission_timeout,
        } = config;
        let tcp = tcp::Engine::new(local_ip, tcp_listeners, tcp_sink_ports, retransmission_timeout);
        let s = Stack {
            local_ip,
            local_mac,
            udp_echo_ports,
            tcp,
            arp_cache: Vec::new(),
            last_peer: None,
            events: Vec::new(),
            next_ip_id: 1,
        };
        assert(s@.arp_cache =~= Seq::<([u8; 4], MacAddr)>::empty());
        assert(s@.events =~= Seq::<StackEventView>::empty());
        s
    }

    /// The number of open TCP connections.
    pub fn connection_count(&self) -> (n: usize)
        ensures
            n == self@.tcp.connections.len(),
    {
        self.tcp.connection_count()
    }

    /// Takes the events recorded so far, oldest first.
    pub fn drain_events(&mut self) -> (events: Vec<StackEvent>)
        requires
            old(self).wf(),
        ensures
            final(self).wf(),
            stack_events_view(events@) == old(self)@.events,
            final(self)@ == (StackView { events: Seq::empty(), ..old(self)@ }),
    {
        let mut events: Vec<StackEvent> = Vec::new();
        std::mem::swap(&mut events, &mut self.events);
        assert(self@.events =~= Seq::<StackEventView>::empty());
        events
    }

    /// Returns how many bytes can currently be queued for an established TCP peer.
    pub fn tcp_send_capacity(&self, key: ConnectionKey) -> (n: usize)
        requires
            self.wf(),
        ensures
            n == capacity_spec(self@.tcp, key),
    {
        self.tcp.send_capacity(key)
    }

    /// The position of the binding for `ip`.
    fn find_arp(&self, ip: &[u8; 4]) -> (r: Option<usize>)
        requires
            self.wf(),
        ensures
            match r {
                Some(i) => i < self@.arp_cache.len() && arp_find(self@.arp_cache, *ip) == Some(i as int),
                None => arp_find(self@.arp_cache, *ip) is None,
            },
    {
        let mut i: usize = 0;
        while i < self.arp_cache.len()
            invariant
                self.wf(),
                i <= self@.arp_cache.len(),
                self@.arp_cache.len() == self.arp_cache@.len(),
                forall|j: int| 0 <= j < i ==> self@.arp_cache[j].0 != *ip,
            decreases self.arp_cache@.len() - i,
        {
            if same_ip(&self.arp_cache[i].ip, ip) {
                assert(self@.arp_cache[i as int].0 == *ip);
                let ghost k = choose|k: int| 0 <= k < self@.arp_cache.len() && self@.arp_cache[k].0 == *ip;
                assert(k == i);
                return Some(i);
            }
            i = i + 1;
        }
        None
    }

    /// Records that `ip` was seen at `mac`.
    fn remember_peer(&mut self, ip: [u8; 4], mac: MacAddr)
        requires
            old(self).wf(),
        ensures
            final(self).wf(),
            final(self)@ == remember_spec(old(self)@, ip, mac),
    {
        let ghost s0 = self@;
        proof {
            lemma_remember_binds(s0, ip, mac);
        }
        match self.last_peer {
            Some((p, m)) => {
                if same_ip(&p, &ip) && same_mac(&m, &mac) {
                    return;
                }
            },
            None => {},
        }
        let found = self.find_arp(&ip);
        self.last_peer = Some((ip, mac));
        match found {
            Some(i) => {
                if same_mac(&self.arp_cache[i].mac, &mac) {
                    return;
                }
                self.arp_cache.set(i, ArpEntry { ip, mac });
                assert(self@.arp_cache =~= s0.arp_cache.update(i as int, (ip, mac)));
            },
            None => {
                self.arp_cache.push(ArpEntry { ip, mac });
                assert(self@.arp_cache =~= s0.arp_cache.push((ip, mac)));
            },
        }
        let ghost ev0 = self.events@;
        self.events.push(StackEvent::ArpLearned { ip, mac });
        assert(self@.events =~= stack_events_view(ev0).push(StackEventView::ArpLearned { ip, mac }));
    }

    /// The hardware address of `ip`, if known.
    fn peer_mac(&self, ip: [u8; 4]) -> (r: Option<MacAddr>)
        requires
            self.wf(),
        ensures
            r == peer_mac_spec(self@, ip),
    {
        match self.last_peer {
            Some((p, m)) => {
                if same_ip(&p, &ip) {
                    return Some(m);
                }
            },
            None => {},
        }
        match self.find_arp(&ip) {
            Some(i) => Some(self.arp_cache[i].mac),
            None => None,
        }
    }

    /// Takes the next IPv4 identification.
    fn take_ip_id(&mut self) -> (id: u16)
        requires
            old(self).wf(),
        ensures
            final(self).wf(),
            id == old(self)@.next_ip_id,
            final(self)@ == (StackView { next_ip_id: old(self)@.next_ip_id.wrapping_add(1), ..old(self)@ }),
    {
        let id = self.next_ip_id;
        self.next_ip_id = self.next_ip_id.wrapping_add(1);
        id
    }

    /// Wraps a payload in an IPv4 packet to `remote_ip`.
    fn wrap_ipv4(&mut self, remote_ip: [u8; 4], protocol: u8, payload: &[u8]) -> (packet: Vec<u8>)
        requires
            old(self).wf(),
            payload@.len() <= ipv4::MAX_PAYLOAD,
        ensures
            final(self).wf(),
            (final(self)@, packet@) == wrap_ipv4_spec(old(self)@, remote_ip, protocol, payload@),
    {
        let id = self.take_ip_id();
        ipv4::serialize(self.local_ip, remote_ip, protocol, id, payload)
    }

    /// Wraps a payload in an IPv4 packet to `remote_ip` inside an Ethernet frame to `remote_mac`.
    fn wrap_ethernet_ipv4(&mut self, remote_mac: MacAddr, remote_ip: [u8; 4], protocol: u8, payload: &[u8]) -> (frame: Vec<u8>)
        requires
            old(self).wf(),
            payload@.len() <= ipv4::MAX_PAYLOAD,
        ensures
            final(self).wf(),
            (final(self)@, frame@) == wrap_ethernet_spec(old(self)@, remote_mac, remote_ip, protocol, payload@),
    {
        let id = self.take_ip_id();
        let mut bytes: Vec<u8> = Vec::new();
        push_all(&mut bytes, &remote_mac);
        push_all(&mut bytes, &self.local_mac);
        push_be16(&mut bytes, ethernet::ETHERTYPE_IPV4);
        let header = ipv4::header(self.local_ip, remote_ip, protocol, id, payload.len());
        push_all(&mut bytes, header.as_slice());
        push_all(&mut bytes, payload);
        assert(bytes@ =~= ethernet::frame_bytes(
            remote_mac,
            self.local_mac,
            ethernet::ETHERTYPE_IPV4,
            ipv4::packet_bytes(self.local_ip, remote_ip, protocol, id, payload@),
        ));
        bytes
    }

    /// Answers an ICMP echo request from `remote_ip`.
    fn handle_icmp(&mut self, remote_ip: [u8; 4], bytes: &[u8]) -> (r: Option<(u8, Vec<u8>)>)
        requires
            old(self).wf(),
        ensures
            final(self).wf(),
            (final(self)@, answer_view(r)) == icmp_spec(old(self)@, remote_ip, bytes@),
            r matches Some((_, v)) ==> v@.len() == bytes@.len(),
    {
        let request = match icmp::Packet::parse(bytes) {
            Some(p) => p,
            None => return None,
        };
        let reply = match request.echo_reply() {
            Some(v) => v,
            None => return None,
        };
        let ghost ev0 = self.events@;
        self.events.push(StackEvent::IcmpEcho { remote_ip, bytes: request.payload.len() });
        assert(self@.events =~= stack_events_view(ev0).push(
            StackEventView::IcmpEcho { remote_ip, bytes: icmp::data_len(bytes@) },
        ));
        Some((ipv4::PROTOCOL_ICMP, reply))
    }

    /// Reports a UDP datagram from `remote_ip` and echoes it on an echo port.
    fn handle_udp(&mut self, remote_ip: [u8; 4], bytes: &[u8]) -> (r: Option<(u8, Vec<u8>)>)
        requires
            old(self).wf(),
            bytes@.len() <= ipv4::MAX_PAYLOAD,
        ensures
            final(self).wf(),
            (final(self)@, answer_view(r)) == udp_spec(old(self)@, remote_ip, bytes@),
            r matches Some((_, v)) ==> v@.len() <= bytes@.len(),
    {
        let datagram = match udp::Datagram::parse(remote_ip, self.local_ip, bytes) {
            Some(d) => d,
            None => return None,
        };
        let ghost ev0 = self.events@;
        self.events.push(StackEvent::UdpDatagram {
            remote_ip,
            remote_port: datagram.src_port,
            local_port: datagram.dst_port,
            data: vstd::slice::slice_to_vec(datagram.payload),
        });
        assert(self@.events =~= stack_events_view(ev0).push(
            StackEventView::UdpDatagram {
                remote_ip,
                remote_port: datagram.src_port,
                local_port: datagram.dst_port,
                data: datagram.payload@,
            },
        ));
        if !contains_u16(&self.udp_echo_ports, datagram.dst_port) {
            return None;
        }
        let reply = udp::serialize(
            self.local_ip,
            remote_ip,
            datagram.dst_port,
            datagram.src_port,
            datagram.payload,
        );
        Some((ipv4::PROTOCOL_UDP, reply))
    }

    /// Appends TCP events to the stack's events.
    fn push_tcp_events(&mut self, events: Vec<tcp::Event>, filler: ConnectionKey)
        requires
            old(self).wf(),
        ensures
            final(self).wf(),
            final(self)@ == (StackView {
                events: old(self)@.events + tcp_events(events_view(events@)),
                ..old(self)@
            }),
    {
        let mut events = events;
        let ghost evs = events_view(events@);
        let ghost s0 = self@;
        let mut j: usize = 0;
        assert(tcp_events(evs.take(0)) =~= Seq::<StackEventView>::empty());
        while j < events.len()
            invariant
                self.wf(),
                j <= events@.len(),
                events@.len() == evs.len(),
                forall|k: int| j <= k < evs.len() ==> events@[k]@ == evs[k],
                self@ == (StackView { events: s0.events + tcp_events(evs.take(j as int)), ..s0 }),
            decreases evs.len() - j,
        {
            let mut ev = tcp::Event::Closed(filler);
            events.set_and_swap(j, &mut ev);
            let ghost before = self.events@;
            self.events.push(StackEvent::Tcp(ev));
            assert(tcp_events(evs.take(j + 1)) =~= tcp_events(evs.take(j as int)).push(StackEventView::Tcp(evs[j as int])));
            assert(stack_events_view(self.events@) =~= stack_events_view(before).push(StackEventView::Tcp(evs[j as int])));
            j = j + 1;
        }
        assert(evs.take(j as int) == evs);
    }

    /// Hands a TCP segment from `remote_ip` to the engine and returns its answer.
    fn handle_tcp(&mut self, remote_ip: [u8; 4], bytes: &[u8], now: u64) -> (r: Option<(u8, Vec<u8>)>)
        requires
            old(self).wf(),
            bytes@.len() <= ipv4::MAX_PAYLOAD,
        ensures
            final(self).wf(),
            (final(self)@, answer_view(r)) == tcp_spec(old(self)@, remote_ip, bytes@, now),
            r matches Some((_, v)) ==> v@.len() <= ipv4::MAX_PAYLOAD,
    {
        let segment = match tcp::Segment::parse(remote_ip, self.local_ip, bytes) {
            Some(s) => s,
            None => return None,
        };
        let ghost s0 = self@;
        assert(segment@ == segment_of(bytes@));
        proof {
            lemma_handle_bounds(s0.tcp, remote_ip, segment@, now, MAX_SEGMENT_DATA as nat);
        }
        let (mut outs, events) = self.tcp.handle(remote_ip, &segment, now);
        self.push_tcp_events(events, segment_key(remote_ip, &segment));
        if outs.len() > 0 {
            let ghost o0 = outs@[0]@;
            let first = outs.swap_remove(0);
            assert(first@ == o0);
            Some((ipv4::PROTOCOL_TCP, first.bytes))
        } else {
            None
        }
    }

    /// Handles the contents of a valid IPv4 packet.
    fn process_parsed_ipv4(&mut self, packet: &ipv4::Packet, now: u64) -> (r: Option<(u8, Vec<u8>)>)
        requires
            old(self).wf(),
            packet.payload@.len() <= ipv4::MAX_PAYLOAD,
        ensures
            final(self).wf(),
            (final(self)@, answer_view(r)) == parsed_ipv4_spec(
                old(self)@,
                packet.src,
                packet.dst,
                packet.protocol,
                packet.payload@,
                now,
            ),
            r matches Some((_, v)) ==> v@.len() <= ipv4::MAX_PAYLOAD,
    {
        if !same_ip(&packet.dst, &self.local_ip) {
            return None;
        }
        if packet.protocol == ipv4::PROTOCOL_ICMP {
            self.handle_icmp(packet.src, packet.payload)
        } else if packet.protocol == ipv4::PROTOCOL_UDP {
            self.handle_udp(packet.src, packet.payload)
        } else if packet.protocol == ipv4::PROTOCOL_TCP {
            self.handle_tcp(packet.src, packet.payload, now)
        } else {
            None
        }
    }

    /// Learns the sender of an ARP packet and answers a request for the local address.
    fn handle_arp(&mut self, bytes: &[u8]) -> (frames: Vec<Vec<u8>>)
        requires
            old(self).wf(),
        ensures
            final(self).wf(),
            (final(self)@, packets_view(frames@)) == arp_spec(old(self)@, bytes@),
    {
        let mut frames: Vec<Vec<u8>> = Vec::new();
        assert(packets_view(frames@) =~= Seq::<Seq<u8>>::empty());
        let packet = match arp::Packet::parse(bytes) {
            Some(p) => p,
            None => return frames,
        };
        self.remember_peer(packet.sender_ip, packet.sender_mac);
        if packet.operation != arp::REQUEST || !same_ip(&packet.target_ip, &self.local_ip) {
            return frames;
        }
        let reply = arp::Packet {
            operation: arp::REPLY,
            sender_mac: self.local_mac,
            sender_ip: self.local_ip,
            target_mac: packet.sender_mac,
            target_ip: packet.sender_ip,
        };
        let body = reply.serialize();
        let frame = ethernet::serialize(packet.sender_mac, self.local_mac, ethernet::ETHERTYPE_ARP, body.as_slice());
        frames.push(frame);
        assert(packets_view(frames@) =~= seq![frame@]);
        frames
    }

    /// Processes one Ethernet frame (TAP mode) and returns response frames.
    pub fn process_ethernet(&mut self, bytes: &[u8], now: u64) -> (frames: Vec<Vec<u8>>)
        requires
            old(self).wf(),
        ensures
            final(self).wf(),
            (final(self)@, packets_view(frames@)) == process_ethernet_spec(old(self)@, bytes@, now),
    {
        let mut frames: Vec<Vec<u8>> = Vec::new();
        assert(packets_view(frames@) =~= Seq::<Seq<u8>>::empty());
        let frame = match ethernet::Frame::parse(bytes) {
            Some(f) => f,
            None => return frames,
        };
        let broadcast: MacAddr = [0xff, 0xff, 0xff, 0xff, 0xff, 0xff];
        if !same_mac(&frame.dst, &self.local_mac) && !same_mac(&frame.dst, &broadcast) {
            return frames;
        }
        if frame.ethertype == ethernet::ETHERTYPE_ARP {
            return self.handle_arp(frame.payload);
        }
        if frame.ethertype != ethernet::ETHERTYPE_IPV4 {
            return frames;
        }
        let packet = match ipv4::Packet::parse(frame.payload) {
            Ok(p) => p,
            Err(_) => return frames,
        };
        self.remember_peer(packet.src, frame.src);
        let remote_ip = packet.src;
        match self.process_parsed_ipv4(&packet, now) {
            Some((protocol, payload)) => {
                let out = self.wrap_ethernet_ipv4(frame.src, remote_ip, protocol, payload.as_slice());
                frames.push(out);
                assert(packets_view(frames@) =~= seq![out@]);
                frames
            },
            None => frames,
        }
    }

    /// Processes one raw IPv4 packet (TUN mode) and returns response packets.
    pub fn process_ipv4_packet(&mut self, bytes: &[u8], now: u64) -> (packets: Vec<Vec<u8>>)
        requires
            old(self).wf(),
        ensures
            final(self).wf(),
            (final(self)@, packets_view(packets@)) == process_ipv4_spec(old(self)@, bytes@, now),
    {
        let mut packets: Vec<Vec<u8>> = Vec::new();
        assert(packets_view(packets@) =~= Seq::<Seq<u8>>::empty());
        let packet = match ipv4::Packet::parse(bytes) {
            Ok(p) => p,
            Err(_) => return packets,
        };
        let remote_ip = packet.src;
        match self.process_parsed_ipv4(&packet, now) {
            Some((protocol, payload)) => {
                let out = self.wrap_ipv4(remote_ip, protocol, payload.as_slice());
                packets.push(out);
                assert(packets_view(packets@) =~= seq![out@]);
                packets
            },
            None => packets,
        }
    }

    /// Queues application data and returns a raw IPv4 packet for TUN mode.
    pub fn send_tcp_ipv4(&mut self, key: ConnectionKey, payload: &[u8], now: u64) -> (r: Option<Vec<u8>>)
        requires
            old(self).wf(),
            payload@.len() <= MAX_SEGMENT_DATA || payload@.len() > capacity_spec(old(self)@.tcp, key),
        ensures
            final(self).wf(),
            (final(self)@, packet_option_view(r)) == send_ipv4_spec(old(self)@, key, payload@, now),
    {
        let ghost s0 = self@;
        proof {
            lemma_send_bounds(s0.tcp, key, payload@, now, MAX_SEGMENT_DATA as nat);
        }
        let output = match self.tcp.send(key, payload, now) {
            Some(o) => o,
            None => return None,
        };
        Some(self.wrap_ipv4(key.remote_ip, ipv4::PROTOCOL_TCP, output.bytes.as_slice()))
    }

    /// Queues application data and returns an Ethernet frame for TAP mode.
    pub fn send_tcp_ethernet(&mut self, key: ConnectionKey, payload: &[u8], now: u64) -> (r: Option<Vec<u8>>)
        requires
            old(self).wf(),
            payload@.len() <= MAX_SEGMENT_DATA || payload@.len() > capacity_spec(old(self)@.tcp, key)
                || peer_mac_spec(old(self)@, key.remote_ip) is None,
        ensures
            final(self).wf(),
            (final(self)@, packet_option_view(r)) == send_ethernet_spec(old(self)@, key, payload@, now),
    {
        let ghost s0 = self@;
        let remote_mac = match self.peer_mac(key.remote_ip) {
            Some(m) => m,
            None => return None,
        };
        proof {
            lemma_send_bounds(s0.tcp, key, payload@, now, MAX_SEGMENT_DATA as nat);
        }
        let output = match self.tcp.send(key, payload, now) {
            Some(o) => o,
            None => return None,
        };
        Some(self.wrap_ethernet_ipv4(remote_mac, key.remote_ip, ipv4::PROTOCOL_TCP, output.bytes.as_slice()))
    }

    /// Runs the TCP timers at `now`.
    fn tick_tcp(&mut self, now: u64) -> (outs: Vec<tcp::Outbound>)
        requires
            old(self).wf(),
        ensures
            final(self).wf(),
            (final(self)@, outbounds_view(outs@)) == ticked(old(self)@, now),
            outbounds_within(outbounds_view(outs@), MAX_SEGMENT_DATA as nat),
    {
        let ghost s0 = self@;
        proof {
            lemma_tick_bounds(s0.tcp, now, MAX_SEGMENT_DATA as nat);
        }
        self.tcp.tick(now)
    }

    /// Runs retransmission timers and returns raw IPv4 packets for TUN mode.
    pub fn tick_ipv4(&mut self, now: u64) -> (packets: Vec<Vec<u8>>)
        requires
            old(self).wf(),
        ensures
            final(self).wf(),
            ({
                let (s1, outs) = ticked(old(self)@, now);
                (final(self)@, packets_view(packets@)) == wrap_all_ipv4(s1, outs)
            }),
    {
        let outs = self.tick_tcp(now);
        let ghost s1 = self@;
        let ghost ov = outbounds_view(outs@);
        let mut packets: Vec<Vec<u8>> = Vec::new();
        let mut i: usize = 0;
        assert(ov.take(0) =~= Seq::<OutboundView>::empty());
        assert(packets_view(packets@) =~= Seq::<Seq<u8>>::empty());
        while i < outs.len()
            invariant
                self.wf(),
                i <= outs@.len(),
                ov == outbounds_view(outs@),
                outbounds_within(ov, MAX_SEGMENT_DATA as nat),
                (self@, packets_view(packets@)) == wrap_all_ipv4(s1, ov.take(i as int)),
            decreases outs@.len() - i,
        {
            assert(ov.take(i + 1).drop_last() == ov.take(i as int));
            assert(ov.take(i + 1).last() == ov[i as int]);
            assert(ov[i as int].bytes.len() <= 20 + MAX_SEGMENT_DATA);
            let packet = self.wrap_ipv4(outs[i].key.remote_ip, ipv4::PROTOCOL_TCP, outs[i].bytes.as_slice());
            let ghost before = packets@;
            packets.push(packet);
            assert(packets_view(packets@) =~= packets_view(before).push(packet@));
            i = i + 1;
        }
        assert(ov.take(i as int) == ov);
        packets
    }

    /// Runs retransmission timers and returns Ethernet frames for known peers.
    pub fn tick_ethernet(&mut self, now: u64) -> (frames: Vec<Vec<u8>>)
        requires
            old(self).wf(),
        ensures
            final(self).wf(),
            ({
                let (s1, outs) = ticked(old(self)@, now);
                (final(self)@, packets_view(frames@)) == wrap_all_ethernet(s1, outs)
            }),
    {
        let outs = self.tick_tcp(now);
        let ghost s1 = self@;
        let ghost ov = outbounds_view(outs@);
        let mut frames: Vec<Vec<u8>> = Vec::new();
        let mut i: usize = 0;
        assert(ov.take(0) =~= Seq::<OutboundView>::empty());
        assert(packets_view(frames@) =~= Seq::<Seq<u8>>::empty());
        while i < outs.len()
            invariant
                self.wf(),
                i <= outs@.len(),
                ov == outbounds_view(outs@),
                outbounds_within(ov, MAX_SEGMENT_DATA as nat),
                (self@, packets_view(frames@)) == wrap_all_ethernet(s1, ov.take(i as int)),
            decreases outs@.len() - i,
        {
            assert(ov.take(i + 1).drop_last() == ov.take(i as int));
            assert(ov.take(i + 1).last() == ov[i as int]);
            assert(ov[i as int].bytes.len() <= 20 + MAX_SEGMENT_DATA);
            let remote_ip = outs[i].key.remote_ip;
            match self.peer_mac(remote_ip) {
                Some(mac) => {
                    let frame = self.wrap_ethernet_ipv4(mac, remote_ip, ipv4::PROTOCOL_TCP, outs[i].bytes.as_slice());
                    let ghost before = frames@;
                    frames.push(frame);
                    assert(packets_view(frames@) =~= packets_view(before).push(frame@));
                },
                None => {},
            }
            i = i + 1;
        }
        assert(ov.take(i as int) == ov);
        frames
    }
}

/// With no address bound twice and the last peer bound, the hardware address found for
/// `ip` is exactly the one the cache binds it to, and none is found when it binds none.
pub proof fn lemma_peer_mac_is_the_binding(s: StackView, ip: [u8; 4])
    requires
        ips_distinct(s.arp_cache),
        last_peer_bound(s),
    ensures
        forall|m: MacAddr| peer_mac_spec(s, ip) == Some(m) <==> #[trigger] s.arp_cache.contains((ip, m)),
        peer_mac_spec(s, ip) is None <==> forall|m: MacAddr| !#[trigger] s.arp_cache.contains((ip, m)),
{
    assert forall|m: MacAddr| peer_mac_spec(s, ip) == Some(m) <==> #[trigger] s.arp_cache.contains((ip, m)) by {
        if s.arp_cache.contains((ip, m)) {
            let k = choose|k: int| 0 <= k < s.arp_cache.len() && s.arp_cache[k] == (ip, m);
            assert(s.arp_cache[k].0 == ip);
            if let Some((p, m2)) = s.last_peer {
                if p == ip {
                    let k2 = choose|k2: int| 0 <= k2 < s.arp_cache.len() && s.arp_cache[k2] == (p, m2);
                    assert(s.arp_cache[k2].0 == ip);
                }
            }
        }
        if peer_mac_spec(s, ip) == Some(m) {
            match s.last_peer {
                Some((p, m2)) => {
                    if p != ip {
                        let i = arp_find(s.arp_cache, ip)->0;
                        assert(s.arp_cache[i] == (ip, m));
                    }
                },
                None => {
                    let i = arp_find(s.arp_cache, ip)->0;
                    assert(s.arp_cache[i] == (ip, m));
                },
            }
        }
    }
    if peer_mac_spec(s, ip) is None {
        assert forall|m: MacAddr| !#[trigger] s.arp_cache.contains((ip, m)) by {
            if s.arp_cache.contains((ip, m)) {
                let k = choose|k: int| 0 <= k < s.arp_cache.len() && s.arp_cache[k] == (ip, m);
                assert(s.arp_cache[k].0 == ip);
            }
        }
    } else {
        let m = peer_mac_spec(s, ip)->0;
        assert(s.arp_cache.contains((ip, m)));
    }
}

/// Learning that `ip` is at `mac` binds `ip` to `mac` and leaves every other address's
/// binding as it was, keeping no address bound twice and the last peer bound.
pub proof fn lemma_remember_binds(s: StackView, ip: [u8; 4], mac: MacAddr)
    requires
        ips_distinct(s.arp_cache),
        last_peer_bound(s),
    ensures
        ({
            let s2 = remember_spec(s, ip, mac);
            &&& ips_distinct(s2.arp_cache)
            &&& last_peer_bound(s2)
            &&& s2.arp_cache.contains((ip, mac))
            &&& forall|ip2: [u8; 4], m: MacAddr| ip2 != ip ==> (#[trigger] s2.arp_cache.contains((ip2, m)) <==> s.arp_cache.contains((ip2, m)))
        }),
{
    let s2 = remember_spec(s, ip, mac);
    let c = s.arp_cache;
    if s.last_peer != Some((ip, mac)) {
        match arp_find(c, ip) {
            Some(i) => {
                let c2 = c.update(i, (ip, mac));
                if c[i].1 != mac {
                    assert(c2[i] == (ip, mac));
                    assert forall|ip2: [u8; 4], m: MacAddr| ip2 != ip implies (#[trigger] c2.contains((ip2, m)) <==> c.contains((ip2, m))) by {
                        if c2.contains((ip2, m)) {
                            let k = choose|k: int| 0 <= k < c2.len() && c2[k] == (ip2, m);
                            assert(c[k] == (ip2, m));
                        }
                        if c.contains((ip2, m)) {
                            let k = choose|k: int| 0 <= k < c.len() && c[k] == (ip2, m);
                            assert(c2[k] == (ip2, m));
                        }
                    }
                } else {
                    assert(c[i] == (ip, mac));
                }
            },
            None => {
                let c2 = c.push((ip, mac));
                assert(c2[c.len() as int] == (ip, mac));
                assert forall|ip2: [u8; 4], m: MacAddr| ip2 != ip implies (#[trigger] c2.contains((ip2, m)) <==> c.contains((ip2, m))) by {
                    if c2.contains((ip2, m)) {
                        let k = choose|k: int| 0 <= k < c2.len() && c2[k] == (ip2, m);
                        assert(c[k] == (ip2, m));
                    }
                    if c.contains((ip2, m)) {
                        let k = choose|k: int| 0 <= k < c.len() && c[k] == (ip2, m);
                        assert(c2[k] == (ip2, m));
                    }
                }
                assert forall|a: int, b: int| 0 <= a < c2.len() && 0 <= b < c2.len() && a != b implies c2[a].0 != c2[b].0 by {
                    if a < c.len() && b < c.len() {
                        assert(c2[a] == c[a] && c2[b] == c[b]);
                    } else if a < c.len() {
                        assert(c2[a] == c[a]);
                    } else if b < c.len() {
                        assert(c2[b] == c[b]);
                    }
                }
            },
        }
    }
}

/// The hardware address found for a peer is the one it was last seen at, however many
/// other peers were seen since.
pub proof fn lemma_peer_found_after_others(s: StackView, ip: [u8; 4], mac: MacAddr, other: [u8; 4], other_mac: MacAddr)
    requires
        ips_distinct(s.arp_cache),
        last_peer_bound(s),
        other != ip,
    ensures
        peer_mac_spec(remember_spec(remember_spec(s, ip, mac), other, other_mac), ip) == Some(mac),
{
    let s1 = remember_spec(s, ip, mac);
    lemma_remember_binds(s, ip, mac);
    lemma_remember_binds(s1, other, other_mac);
    let s2 = remember_spec(s1, other, other_mac);
    assert(s2.arp_cache.contains((ip, mac)));
    lemma_peer_mac_is_the_binding(s2, ip);
}

/// After a peer is learned at a hardware address, that is the address found for it.
pub proof fn lemma_learned_peer_is_found(s: StackView, ip: [u8; 4], mac: MacAddr)
    requires
        ips_distinct(s.arp_cache),
    ensures
        peer_mac_spec(remember_spec(s, ip, mac), ip) == Some(mac),
{
}

/// A UDP datagram to an echo port comes back to its sender from that port, with the
/// same data, in the next packet the stack numbers; it is reported too.
pub proof fn lemma_udp_echo_round_trip(
    s: StackView,
    remote_ip: [u8; 4],
    identification: u16,
    remote_port: u16,
    port: u16,
    data: Seq<u8>,
    now: u64,
)
    requires
        s.udp_echo_ports.contains(port),
        data.len() <= udp::MAX_PAYLOAD - 20,
    ensures
        ({
            let request = ipv4::packet_bytes(
                remote_ip,
                s.local_ip,
                ipv4::PROTOCOL_UDP,
                identification,
                udp::datagram_bytes(remote_ip, s.local_ip, remote_port, port, data),
            );
            let (s2, out) = process_ipv4_spec(s, request, now);
            &&& out == seq![
                ipv4::packet_bytes(
                    s.local_ip,
                    remote_ip,
                    ipv4::PROTOCOL_UDP,
                    s.next_ip_id,
                    udp::datagram_bytes(s.local_ip, remote_ip, port, remote_port, data),
                ),
            ]
            &&& s2.events == s.events.push(
                StackEventView::UdpDatagram { remote_ip, remote_port, local_port: port, data },
            )
            &&& s2.next_ip_id == s.next_ip_id.wrapping_add(1)
        }),
{
    let d = udp::datagram_bytes(remote_ip, s.local_ip, remote_port, port, data);
    udp::lemma_parse_serialize(remote_ip, s.local_ip, remote_port, port, data);
    ipv4::lemma_parse_serialize(remote_ip, s.local_ip, ipv4::PROTOCOL_UDP, identification, d);
    let b = ipv4::packet_bytes(remote_ip, s.local_ip, ipv4::PROTOCOL_UDP, identification, d);
    lemma_ip_at(remote_ip, b, 12);
    lemma_ip_at(s.local_ip, b, 16);
    assert(ipv4::payload_of(b) == d);
}

/// An ICMP echo request is answered with an echo reply with the same identifier,
/// sequence number and data, in the next packet the stack numbers; it is reported too.
pub proof fn lemma_echo_request_round_trip(
    s: StackView,
    remote_ip: [u8; 4],
    identification: u16,
    rest: [u8; 4],
    data: Seq<u8>,
    now: u64,
)
    requires
        data.len() <= ipv4::MAX_PAYLOAD - 8,
    ensures
        ({
            let request = ipv4::packet_bytes(
                remote_ip,
                s.local_ip,
                ipv4::PROTOCOL_ICMP,
                identification,
                icmp::message_bytes(icmp::ECHO_REQUEST, 0, rest, data),
            );
            let (s2, out) = process_ipv4_spec(s, request, now);
            &&& out == seq![
                ipv4::packet_bytes(
                    s.local_ip,
                    remote_ip,
                    ipv4::PROTOCOL_ICMP,
                    s.next_ip_id,
                    icmp::message_bytes(icmp::ECHO_REPLY, 0, rest, data),
                ),
            ]
            &&& s2.events == s.events.push(
                StackEventView::IcmpEcho { remote_ip, bytes: icmp::data_len(icmp::message_bytes(icmp::ECHO_REQUEST, 0, rest, data)) },
            )
            &&& icmp::data_len(icmp::message_bytes(icmp::ECHO_REQUEST, 0, rest, data)) == data.len()
            &&& s2.next_ip_id == s.next_ip_id.wrapping_add(1)
        }),
{
    let m = icmp::message_bytes(icmp::ECHO_REQUEST, 0, rest, data);
    icmp::lemma_parse_serialize(icmp::ECHO_REQUEST, 0, rest, data);
    lemma_ip_at(rest, m, 4);
    ipv4::lemma_parse_serialize(remote_ip, s.local_ip, ipv4::PROTOCOL_ICMP, identification, m);
    let b = ipv4::packet_bytes(remote_ip, s.local_ip, ipv4::PROTOCOL_ICMP, identification, m);
    lemma_ip_at(remote_ip, b, 12);
    lemma_ip_at(s.local_ip, b, 16);
    assert(ipv4::payload_of(b) == m);
}

/// A broadcast ARP request for the local address is answered, to the asker, with a
/// reply that binds the local address to the local hardware address; the asker is learned.
pub proof fn lemma_arp_request_is_answered(s: StackView, request: arp::Packet, now: u64)
    requires
        request.operation == arp::REQUEST,
        request.target_ip == s.local_ip,
    ensures
        ({
            let frame = ethernet::frame_bytes(
                broadcast_mac(),
                request.sender_mac,
                ethernet::ETHERTYPE_ARP,
                arp::packet_bytes(request),
            );
            let (s2, out) = process_ethernet_spec(s, frame, now);
            let reply = arp::Packet {
                operation: arp::REPLY,
                sender_mac: s.local_mac,
                sender_ip: s.local_ip,
                target_mac: request.sender_mac,
                target_ip: request.sender_ip,
            };
            &&& out == seq![
                ethernet::frame_bytes(request.sender_mac, s.local_mac, ethernet::ETHERTYPE_ARP, arp::packet_bytes(reply)),
            ]
            &&& s2 == remember_spec(s, request.sender_ip, request.sender_mac)
        }),
{
    let body = arp::packet_bytes(request);
    let frame = ethernet::frame_bytes(broadcast_mac(), request.sender_mac, ethernet::ETHERTYPE_ARP, body);
    ethernet::lemma_parse_serialize(broadcast_mac(), request.sender_mac, ethernet::ETHERTYPE_ARP, body);
    lemma_mac_at(broadcast_mac(), frame, 0);
    lemma_mac_at(request.sender_mac, frame, 6);
    arp::lemma_packet_of_bytes(request);
}

} // verus!
