use userspace_stack::tcp::{self, ConnectionKey, Engine, Event, Segment, State};

const LOCAL: [u8; 4] = [10, 0, 0, 2];
const PEER: [u8; 4] = [10, 0, 0, 1];
const MS: u64 = 1_000_000;
const T0: u64 = 5_000_000_000;

fn engine(sinks: Vec<u16>) -> Engine {
    Engine::new(LOCAL, vec![8080], sinks, 200 * MS)
}

struct Reply {
    sequence: u32,
    acknowledgment: u32,
    flags: u16,
    payload: Vec<u8>,
}

fn reply(bytes: &[u8]) -> Reply {
    let s = Segment::parse(LOCAL, PEER, bytes).unwrap();
    Reply {
        sequence: s.sequence,
        acknowledgment: s.acknowledgment,
        flags: s.flags,
        payload: s.payload.to_vec(),
    }
}

fn deliver(
    e: &mut Engine,
    port: u16,
    seq: u32,
    ack: u32,
    flags: u16,
    payload: &[u8],
    now: u64,
) -> (Vec<tcp::Outbound>, Vec<Event>) {
    let bytes = tcp::serialize(PEER, LOCAL, port, 8080, seq, ack, flags, 65_535, payload);
    let segment = Segment::parse(PEER, LOCAL, &bytes).unwrap();
    e.handle(PEER, &segment, now)
}

fn key(port: u16) -> ConnectionKey {
    ConnectionKey { remote_ip: PEER, remote_port: port, local_port: 8080 }
}

fn open(e: &mut Engine, port: u16) -> (u32, u32) {
    let (outs, events) = deliver(e, port, 1000, 0, tcp::SYN, &[], T0);
    assert!(events.is_empty());
    let syn_ack = reply(&outs[0].bytes);
    assert_eq!(syn_ack.flags, tcp::SYN | tcp::ACK);
    assert_eq!(syn_ack.acknowledgment, 1001);
    assert_eq!(e.state(key(port)), Some(State::SynReceived));
    let (outs, events) = deliver(e, port, 1001, syn_ack.sequence + 1, tcp::ACK, &[], T0);
    assert!(outs.is_empty());
    assert_eq!(events, vec![Event::Established(key(port))]);
    assert_eq!(e.state(key(port)), Some(State::Established));
    (1001, syn_ack.sequence + 1)
}

#[test]
fn engine_passive_open_and_echo() {
    let mut e = engine(vec![]);
    let (c, s) = open(&mut e, 40_000);
    let (outs, events) = deliver(&mut e, 40_000, c, s, tcp::ACK | tcp::PSH, b"hi", T0);
    assert_eq!(events, vec![Event::Data(key(40_000), b"hi".to_vec())]);
    let echo = reply(&outs[0].bytes);
    assert_eq!((echo.sequence, echo.acknowledgment), (s, c + 2));
    assert_eq!(echo.flags, tcp::ACK | tcp::PSH);
    assert_eq!(echo.payload, b"hi");
    assert!(!outs[0].retransmission);
}

#[test]
fn engine_initial_sequence_depends_on_key_only() {
    let mut a = engine(vec![]);
    let mut b = engine(vec![]);
    let (x, _) = deliver(&mut a, 41_000, 1, 0, tcp::SYN, &[], T0);
    let (y, _) = deliver(&mut b, 41_000, 77, 0, tcp::SYN, &[], T0 + 5);
    assert_eq!(reply(&x[0].bytes).sequence, reply(&y[0].bytes).sequence);
    let ip = u32::from_be_bytes(PEER);
    let expected = ip.rotate_left(13) ^ (41_000u32 << 16) ^ 8080 ^ 0x6d2b_79f5;
    assert_eq!(reply(&x[0].bytes).sequence, expected);
}

#[test]
fn engine_ignores_segments_without_connection() {
    let mut e = engine(vec![]);
    let (outs, events) = deliver(&mut e, 42_000, 5, 0, tcp::ACK, b"x", T0);
    assert!(outs.is_empty() && events.is_empty());
    let (outs, events) = deliver(&mut e, 42_000, 5, 0, tcp::RST, &[], T0);
    assert!(outs.is_empty() && events.is_empty());
    assert_eq!(e.connection_count(), 0);
}

#[test]
fn engine_reset_reports_existing_connection() {
    let mut e = engine(vec![]);
    let (c, s) = open(&mut e, 43_000);
    let (outs, events) = deliver(&mut e, 43_000, c, s, tcp::RST, &[], T0);
    assert!(outs.is_empty());
    assert_eq!(events, vec![Event::Reset(key(43_000))]);
    assert_eq!(e.state(key(43_000)), None);
}

#[test]
fn engine_fin_then_last_ack_closes() {
    let mut e = engine(vec![]);
    let (c, s) = open(&mut e, 44_000);
    let (outs, _) = deliver(&mut e, 44_000, c, s, tcp::FIN | tcp::ACK, &[], T0);
    let fin = reply(&outs[0].bytes);
    assert_eq!(fin.flags, tcp::FIN | tcp::ACK);
    assert_eq!((fin.sequence, fin.acknowledgment), (s, c + 1));
    assert_eq!(e.state(key(44_000)), Some(State::LastAck));
    let (outs, events) = deliver(&mut e, 44_000, c + 1, s + 1, tcp::ACK, &[], T0);
    assert!(outs.is_empty());
    assert_eq!(events, vec![Event::Closed(key(44_000))]);
    assert_eq!(e.connection_count(), 0);
}

#[test]
fn engine_data_with_fin_is_echoed_before_fin() {
    let mut e = engine(vec![]);
    let (c, s) = open(&mut e, 46_500);
    let (outs, events) = deliver(&mut e, 46_500, c, s, tcp::FIN | tcp::ACK | tcp::PSH, b"bye", T0);
    assert_eq!(events, vec![Event::Data(key(46_500), b"bye".to_vec())]);
    assert_eq!(outs.len(), 1);
    let r = reply(&outs[0].bytes);
    assert_eq!(r.flags, tcp::FIN | tcp::ACK | tcp::PSH);
    assert_eq!((r.sequence, r.acknowledgment), (s, c + 4));
    assert_eq!(r.payload, b"bye");
    assert_eq!(e.state(key(46_500)), Some(State::LastAck));
    // The echo and the FIN stay outstanding until acknowledged.
    let outs = e.tick(T0 + 200 * MS);
    assert_eq!(outs.len(), 1);
    assert!(outs[0].retransmission);
    assert_eq!(reply(&outs[0].bytes).payload, b"bye");
    let (outs, events) = deliver(&mut e, 46_500, c + 4, s + 4, tcp::ACK, &[], T0 + 300 * MS);
    assert!(outs.is_empty());
    assert_eq!(events, vec![Event::Closed(key(46_500))]);
}

#[test]
fn engine_send_capacity_tracks_window_and_flight() {
    let mut e = engine(vec![]);
    assert_eq!(e.send_capacity(key(45_000)), 0);
    let (c, s) = open(&mut e, 45_000);
    assert_eq!(e.send_capacity(key(45_000)), 65_535);
    assert!(e.send(key(45_000), &[], T0).is_none());
    let out = e.send(key(45_000), &[7u8; 100], T0).unwrap();
    let sent = reply(&out.bytes);
    assert_eq!((sent.sequence, sent.acknowledgment, sent.flags), (s, c, tcp::ACK | tcp::PSH));
    assert_eq!(e.send_capacity(key(45_000)), 65_435);
    assert!(e.send(key(45_000), &vec![0u8; 65_436], T0).is_none());
    let (_, _) = deliver(&mut e, 45_000, c, s + 100, tcp::ACK, &[], T0);
    assert_eq!(e.send_capacity(key(45_000)), 65_535);
}

#[test]
fn engine_window_limits_capacity() {
    let mut e = engine(vec![]);
    let (c, s) = open(&mut e, 46_000);
    let bytes = tcp::serialize(PEER, LOCAL, 46_000, 8080, c, s, tcp::ACK, 10, &[]);
    let segment = Segment::parse(PEER, LOCAL, &bytes).unwrap();
    e.handle(PEER, &segment, T0);
    assert_eq!(e.send_capacity(key(46_000)), 10);
    e.send(key(46_000), b"0123456789", T0).unwrap();
    assert_eq!(e.send_capacity(key(46_000)), 0);
}

#[test]
fn engine_backoff_doubles_then_stops_at_thirty_two() {
    let mut e = engine(vec![]);
    deliver(&mut e, 47_000, 1, 0, tcp::SYN, &[], T0);
    let mut at = T0;
    for shift in 0..7u32 {
        let wait = 200 * MS * (1u64 << shift.min(5));
        assert!(e.tick(at + wait - 1).is_empty());
        let outs = e.tick(at + wait);
        assert_eq!(outs.len(), 1);
        assert!(outs[0].retransmission);
        assert_eq!(reply(&outs[0].bytes).flags, tcp::SYN | tcp::ACK);
        at += wait;
    }
}

#[test]
fn engine_tick_twice_at_once_sends_once() {
    let mut e = engine(vec![]);
    deliver(&mut e, 48_000, 1, 0, tcp::SYN, &[], T0);
    assert_eq!(e.tick(T0 + 300 * MS).len(), 1);
    assert!(e.tick(T0 + 300 * MS).is_empty());
}

#[test]
fn engine_sink_pushed_data_is_acknowledged_at_once() {
    let mut e = engine(vec![8080]);
    let (c, s) = open(&mut e, 49_000);
    let (outs, events) = deliver(&mut e, 49_000, c, s, tcp::ACK | tcp::PSH, b"abc", T0);
    assert!(events.is_empty());
    let ack = reply(&outs[0].bytes);
    assert!(ack.payload.is_empty());
    assert_eq!((ack.sequence, ack.acknowledgment), (s, c + 3));
}

#[test]
fn engine_sink_delayed_ack_fires_after_ten_ms() {
    let mut e = engine(vec![8080]);
    let (c, s) = open(&mut e, 49_001);
    let (outs, _) = deliver(&mut e, 49_001, c, s, tcp::ACK, b"abcd", T0);
    assert!(outs.is_empty());
    assert!(e.tick(T0 + 10 * MS - 1).is_empty());
    let outs = e.tick(T0 + 10 * MS);
    assert_eq!(outs.len(), 1);
    assert!(!outs[0].retransmission);
    assert_eq!(reply(&outs[0].bytes).acknowledgment, c + 4);
    assert!(e.tick(T0 + 20 * MS).is_empty());
}

#[test]
fn engine_data_ignored_before_establishment() {
    let mut e = engine(vec![]);
    let (outs, _) = deliver(&mut e, 50_000, 1, 0, tcp::SYN, &[], T0);
    let iss = reply(&outs[0].bytes).sequence;
    let (outs, events) = deliver(&mut e, 50_000, 2, iss, tcp::ACK, b"early", T0);
    assert!(outs.is_empty() && events.is_empty());
    assert_eq!(e.state(key(50_000)), Some(State::SynReceived));
}
