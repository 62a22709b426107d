//! The passive-open TCP engine: connection state, acknowledgments and retransmission.
//!
//! Times are readings of a monotonic clock in nanoseconds; only their differences matter.
use vstd::prelude::*;
use super::{
    ConnectionKey, State, Event, EventView, Outbound, OutboundView, Segment, SegmentView,
    events_view, outbounds_view, segment_bytes, same_key, serialize, ACK, FIN, PSH, RST, SYN,
};

verus! {

/// How long a sink connection holds back the acknowledgment of a lone segment: 10 ms.
pub const DELAYED_ACK_TIMEOUT: u64 = 10_000_000;

/// The receive window this engine advertises.
pub const ADVERTISED_WINDOW: u16 = 65_535;

/// A sent segment that still occupies sequence space and awaits acknowledgment.
struct Outstanding {
    sequence: u32,
    end_sequence: u32,
    flags: u16,
    payload: Vec<u8>,
    last_sent: u64,
    retries: u8,
}

/// An unacknowledged segment, as plain values.
pub struct OutstandingView {
    pub sequence: u32,
    pub end_sequence: u32,
    pub flags: u16,
    pub payload: Seq<u8>,
    pub last_sent: u64,
    pub retries: u8,
}

impl View for Outstanding {
    type V = OutstandingView;

    closed spec fn view(&self) -> OutstandingView {
        OutstandingView {
            sequence: self.sequence,
            end_sequence: self.end_sequence,
            flags: self.flags,
            payload: self.payload@,
            last_sent: self.last_sent,
            retries: self.retries,
        }
    }
}

/// One connection's state.
struct Connection {
    key: ConnectionKey,
    state: State,
    recv_next: u32,
    send_next: u32,
    peer_window: u16,
    outstanding: Vec<Outstanding>,
    ack_pending_since: Option<u64>,
}

/// A connection, as plain values. `ack_pending_since` is the arrival time of a sink
/// segment whose acknowledgment is being delayed.
pub struct ConnectionView {
    pub key: ConnectionKey,
    pub state: State,
    pub recv_next: u32,
    pub send_next: u32,
    pub peer_window: u16,
    pub outstanding: Seq<OutstandingView>,
    pub ack_pending_since: Option<u64>,
}

/// The views of a list of unacknowledged segments.
pub open spec fn outstanding_view(v: Seq<Outstanding>) -> Seq<OutstandingView> {
    v.map_values(|o: Outstanding| o@)
}

impl View for Connection {
    type V = ConnectionView;

    closed spec fn view(&self) -> ConnectionView {
        ConnectionView {
            key: self.key,
            state: self.state,
            recv_next: self.recv_next,
            send_next: self.send_next,
            peer_window: self.peer_window,
            outstanding: outstanding_view(self.outstanding@),
            ack_pending_since: self.ack_pending_since,
        }
    }
}

/// The TCP engine: listening ports, ports that discard what they receive, the
/// connections in the order they were opened, and the retransmission timeout.
pub struct Engine {
    local_ip: [u8; 4],
    listeners: Vec<u16>,
    sink_ports: Vec<u16>,
    connections: Vec<Connection>,
    rto: u64,
}

/// The engine, as plain values.
pub struct EngineView {
    pub local_ip: [u8; 4],
    pub listeners: Seq<u16>,
    pub sink_ports: Seq<u16>,
    pub connections: Seq<ConnectionView>,
    pub rto: u64,
}

/// The views of a list of connections.
pub open spec fn connections_view(v: Seq<Connection>) -> Seq<ConnectionView> {
    v.map_values(|c: Connection| c@)
}

impl View for Engine {
    type V = EngineView;

    closed spec fn view(&self) -> EngineView {
        EngineView {
            local_ip: self.local_ip,
            listeners: self.listeners@,
            sink_ports: self.sink_ports@,
            connections: connections_view(self.connections@),
            rto: self.rto,
        }
    }
}

/// No two connections share a key.
pub open spec fn keys_distinct(conns: Seq<ConnectionView>) -> bool {
    forall|i: int, j: int|
        0 <= i < conns.len() && 0 <= j < conns.len() && i != j ==> conns[i].key != conns[j].key
}

/// The position of the connection with `key`, if there is one.
pub open spec fn find(conns: Seq<ConnectionView>, key: ConnectionKey) -> Option<int> {
    if exists|i: int| 0 <= i < conns.len() && conns[i].key == key {
        Some(choose|i: int| 0 <= i < conns.len() && conns[i].key == key)
    } else {
        None
    }
}

/// Whether `value` is at or after `expected` in 32-bit sequence space.
pub open spec fn sequence_at_or_after(value: u32, expected: u32) -> bool {
    value.wrapping_sub(expected) < 0x8000_0000
}

/// `v` rotated left by 13 bits.
pub open spec fn rotate13(v: u32) -> u32 {
    ((v as nat * 0x2000) % 0x1_0000_0000 + v as nat / 0x8_0000) as u32
}

/// The initial send sequence number of a connection, a fixed function of its key.
pub open spec fn initial_sequence_spec(key: ConnectionKey) -> u32 {
    let ip = ((key.remote_ip[0] as nat) * 0x100_0000 + (key.remote_ip[1] as nat) * 0x1_0000
        + (key.remote_ip[2] as nat) * 0x100 + (key.remote_ip[3] as nat)) as u32;
    rotate13(ip) ^ ((key.remote_port as u32) * 0x1_0000) as u32 ^ (key.local_port as u32)
        ^ 0x6d2b_79f5u32
}

/// The bytes of a segment this engine sends on the connection `key`.
pub open spec fn segment_for(
    local_ip: [u8; 4],
    key: ConnectionKey,
    sequence: u32,
    acknowledgment: u32,
    flags: u16,
    payload: Seq<u8>,
) -> Seq<u8> {
    segment_bytes(
        local_ip,
        key.remote_ip,
        key.local_port,
        key.remote_port,
        sequence,
        acknowledgment,
        flags,
        ADVERTISED_WINDOW,
        payload,
    )
}

/// The segments that an acknowledgment number does not yet cover, in order.
pub open spec fn unacked(os: Seq<OutstandingView>, ack: u32) -> Seq<OutstandingView>
    decreases os.len(),
{
    if os.len() == 0 {
        os
    } else {
        let rest = unacked(os.drop_last(), ack);
        if sequence_at_or_after(ack, os.last().end_sequence) {
            rest
        } else {
            rest.push(os.last())
        }
    }
}

/// The sequence space a segment occupies: its payload, plus one each for SYN and FIN.
pub open spec fn sequence_space(flags: u16, payload_len: nat) -> u32 {
    (payload_len as u32).wrapping_add(if flags & SYN != 0 { 1u32 } else { 0u32 }).wrapping_add(
        if flags & FIN != 0 { 1u32 } else { 0u32 },
    )
}

/// Whether a sent segment must be kept for retransmission: it carries SYN, FIN or data.
pub open spec fn occupies_sequence(flags: u16, payload_len: nat) -> bool {
    flags & (SYN | FIN) != 0 || payload_len > 0
}

/// A segment that answers a received one: sequence number, flags and payload.
pub struct Response {
    pub sequence: u32,
    pub flags: u16,
    pub payload: Seq<u8>,
}

/// What an existing connection does with a segment.
pub struct Step {
    pub conn: ConnectionView,
    pub response: Option<Response>,
    pub events: Seq<EventView>,
    pub remove: bool,
}

/// The data part of a segment on an established connection: an in-order payload is
/// taken (echoed, or on a sink port acknowledged at once when pushed or when a previous
/// acknowledgment is still held back, else held back); any other payload is answered
/// with a bare acknowledgment.
pub open spec fn receive_data(c: ConnectionView, sink: bool, seg: SegmentView, now: u64) -> (ConnectionView, Option<Response>, Seq<EventView>) {
    let len = seg.payload.len();
    let bare_ack = Response { sequence: c.send_next, flags: ACK, payload: Seq::empty() };
    if len > 0 && seg.sequence == c.recv_next {
        let recv_next = c.recv_next.wrapping_add(len as u32);
        if sink {
            if seg.flags & PSH != 0 || c.ack_pending_since is Some {
                (ConnectionView { recv_next, ack_pending_since: None, ..c }, Some(bare_ack), Seq::empty())
            } else {
                (ConnectionView { recv_next, ack_pending_since: Some(now), ..c }, None, Seq::empty())
            }
        } else {
            (
                ConnectionView {
                    recv_next,
                    send_next: c.send_next.wrapping_add(len as u32),
                    ack_pending_since: None,
                    ..c
                },
                Some(Response { sequence: c.send_next, flags: (ACK | PSH), payload: seg.payload }),
                seq![EventView::Data(c.key, seg.payload)],
            )
        }
    } else if len > 0 {
        (ConnectionView { ack_pending_since: None, ..c }, Some(bare_ack), Seq::empty())
    } else {
        (c, None, Seq::empty())
    }
}

/// The answer to a FIN: the echo of the data that came with it, if any, carrying the FIN
/// after its data (FIN|ACK|PSH); else a bare FIN|ACK at the next send sequence number.
pub open spec fn fin_response(response: Option<Response>, send_next: u32) -> Response {
    match response {
        Some(r) => {
            if r.payload.len() > 0 {
                Response { sequence: r.sequence, flags: (FIN | ACK | PSH), payload: r.payload }
            } else {
                Response { sequence: send_next, flags: (FIN | ACK), payload: Seq::empty() }
            }
        },
        None => Response { sequence: send_next, flags: (FIN | ACK), payload: Seq::empty() },
    }
}

/// A segment on an established connection: its data, then a FIN that follows the data
/// in sequence, which is answered with a FIN of the engine's own (sent together with the
/// echo of the data, if there is one) and moves the connection to LastAck.
pub open spec fn established_step(c: ConnectionView, sink: bool, seg: SegmentView, now: u64) -> Step {
    let (c2, response, events) = receive_data(c, sink, seg, now);
    let fin_sequence = seg.sequence.wrapping_add(seg.payload.len() as u32);
    if seg.flags & FIN != 0 && fin_sequence == c2.recv_next {
        Step {
            conn: ConnectionView {
                recv_next: c2.recv_next.wrapping_add(1),
                send_next: c2.send_next.wrapping_add(1),
                state: State::LastAck,
                ack_pending_since: None,
                ..c2
            },
            response: Some(fin_response(response, c2.send_next)),
            events,
            remove: false,
        }
    } else {
        Step { conn: c2, response, events, remove: false }
    }
}

/// What an existing connection does with a (non-reset) segment: it takes the peer's
/// window, drops the segments the acknowledgment covers, then acts on its state.
pub open spec fn step(c: ConnectionView, sink: bool, seg: SegmentView, now: u64) -> Step {
    let has_ack = seg.flags & ACK != 0;
    let c1 = ConnectionView {
        peer_window: seg.window,
        outstanding: if has_ack { unacked(c.outstanding, seg.acknowledgment) } else { c.outstanding },
        ..c
    };
    match c1.state {
        State::SynReceived => {
            if has_ack && seg.acknowledgment == c1.send_next {
                Step {
                    conn: ConnectionView { state: State::Established, ..c1 },
                    response: None,
                    events: seq![EventView::Established(c1.key)],
                    remove: false,
                }
            } else {
                Step { conn: c1, response: None, events: Seq::empty(), remove: false }
            }
        },
        State::Established => established_step(c1, sink, seg, now),
        State::LastAck => {
            if has_ack && sequence_at_or_after(seg.acknowledgment, c1.send_next) {
                Step { conn: c1, response: None, events: seq![EventView::Closed(c1.key)], remove: true }
            } else {
                Step { conn: c1, response: None, events: Seq::empty(), remove: false }
            }
        },
    }
}

/// The connection after sending `r` at `now`: kept for retransmission when it occupies
/// sequence space.
pub open spec fn record(c: ConnectionView, r: Response, now: u64) -> ConnectionView {
    if occupies_sequence(r.flags, r.payload.len()) {
        ConnectionView {
            outstanding: c.outstanding.push(
                OutstandingView {
                    sequence: r.sequence,
                    end_sequence: r.sequence.wrapping_add(sequence_space(r.flags, r.payload.len())),
                    flags: r.flags,
                    payload: r.payload,
                    last_sent: now,
                    retries: 0,
                },
            ),
            ..c
        }
    } else {
        c
    }
}

/// The outbound segment for a response on connection `c`, acknowledging `c.recv_next`.
pub open spec fn response_outbound(local_ip: [u8; 4], c: ConnectionView, r: Response) -> OutboundView {
    OutboundView {
        key: c.key,
        bytes: segment_for(local_ip, c.key, r.sequence, c.recv_next, r.flags, r.payload),
        retransmission: false,
    }
}

/// A connection opened by a SYN: SynReceived, with its SYN|ACK outstanding.
pub open spec fn opened(key: ConnectionKey, seg: SegmentView, now: u64) -> ConnectionView {
    let iss = initial_sequence_spec(key);
    ConnectionView {
        key,
        state: State::SynReceived,
        recv_next: seg.sequence.wrapping_add(1),
        send_next: iss.wrapping_add(1),
        peer_window: seg.window,
        outstanding: seq![
            OutstandingView {
                sequence: iss,
                end_sequence: iss.wrapping_add(1),
                flags: (SYN | ACK),
                payload: Seq::empty(),
                last_sent: now,
                retries: 0,
            },
        ],
        ack_pending_since: None,
    }
}

/// The key of the connection a segment from `remote_ip` belongs to.
pub open spec fn key_of(remote_ip: [u8; 4], seg: SegmentView) -> ConnectionKey {
    ConnectionKey { remote_ip, remote_port: seg.src_port, local_port: seg.dst_port }
}

/// What the engine does with a segment from `remote_ip` at `now`: the new engine,
/// the segments to send, and the events.
pub open spec fn handle_spec(e: EngineView, remote_ip: [u8; 4], seg: SegmentView, now: u64) -> (EngineView, Seq<OutboundView>, Seq<EventView>) {
    let key = key_of(remote_ip, seg);
    if seg.flags & RST != 0 {
        match find(e.connections, key) {
            Some(i) => (
                EngineView { connections: e.connections.remove(i), ..e },
                Seq::empty(),
                seq![EventView::Reset(key)],
            ),
            None => (e, Seq::empty(), Seq::empty()),
        }
    } else {
        match find(e.connections, key) {
            None => {
                if seg.flags & SYN == 0 || !e.listeners.contains(seg.dst_port) {
                    (e, Seq::empty(), Seq::empty())
                } else {
                    let c = opened(key, seg, now);
                    let iss = initial_sequence_spec(key);
                    (
                        EngineView { connections: e.connections.push(c), ..e },
                        seq![
                            OutboundView {
                                key,
                                bytes: segment_for(e.local_ip, key, iss, c.recv_next, (SYN | ACK), Seq::empty()),
                                retransmission: false,
                            },
                        ],
                        Seq::empty(),
                    )
                }
            },
            Some(i) => {
                let st = step(e.connections[i], e.sink_ports.contains(key.local_port), seg, now);
                let (c, outs) = match st.response {
                    Some(r) => (record(st.conn, r, now), seq![response_outbound(e.local_ip, st.conn, r)]),
                    None => (st.conn, Seq::empty()),
                };
                let conns = if st.remove {
                    e.connections.remove(i)
                } else {
                    e.connections.update(i, c)
                };
                (EngineView { connections: conns, ..e }, outs, st.events)
            },
        }
    }
}

/// The total sequence space of the unacknowledged segments.
pub open spec fn in_flight(os: Seq<OutstandingView>) -> int
    decreases os.len(),
{
    if os.len() == 0 {
        0
    } else {
        in_flight(os.drop_last()) + os.last().end_sequence.wrapping_sub(os.last().sequence)
    }
}

/// How many bytes may be sent on `key` now: the peer's window less what is in flight,
/// for an established connection; zero otherwise.
pub open spec fn capacity_spec(e: EngineView, key: ConnectionKey) -> nat {
    match find(e.connections, key) {
        Some(i) => {
            let c = e.connections[i];
            if c.state == State::Established && in_flight(c.outstanding) < c.peer_window {
                (c.peer_window - in_flight(c.outstanding)) as nat
            } else {
                0
            }
        },
        None => 0,
    }
}

/// Sending `payload` on `key` at `now`, when it is nonempty and within the capacity: the
/// data is queued as a PSH|ACK segment at the connection's next sequence number.
pub open spec fn send_spec(e: EngineView, key: ConnectionKey, payload: Seq<u8>, now: u64) -> (EngineView, Option<OutboundView>) {
    if payload.len() == 0 || payload.len() > capacity_spec(e, key) {
        (e, None)
    } else {
        let i = find(e.connections, key)->0;
        let c = e.connections[i];
        let r = Response { sequence: c.send_next, flags: (ACK | PSH), payload };
        let c2 = ConnectionView { send_next: c.send_next.wrapping_add(payload.len() as u32), ..c };
        (
            EngineView { connections: e.connections.update(i, record(c2, r, now)), ..e },
            Some(response_outbound(e.local_ip, c, r)),
        )
    }
}

/// 2 to the power `min(retries, 5)`.
pub open spec fn backoff_factor(retries: u8) -> u64 {
    if retries == 0 {
        1
    } else if retries == 1 {
        2
    } else if retries == 2 {
        4
    } else if retries == 3 {
        8
    } else if retries == 4 {
        16
    } else {
        32
    }
}

/// The retransmission timeout after `retries` retransmissions: doubled each time up to
/// 32 times the base, saturating.
pub open spec fn backoff(rto: u64, retries: u8) -> u64 {
    if rto * backoff_factor(retries) > u64::MAX {
        u64::MAX
    } else {
        (rto * backoff_factor(retries)) as u64
    }
}

/// The time from `then` to `now`, zero when `then` is later.
pub open spec fn elapsed(now: u64, then: u64) -> u64 {
    if now >= then {
        (now - then) as u64
    } else {
        0
    }
}

/// Whether a segment's retransmission timer has expired at `now`.
pub open spec fn due(o: OutstandingView, now: u64, rto: u64) -> bool {
    elapsed(now, o.last_sent) >= backoff(rto, o.retries)
}

/// The unacknowledged segments of a connection after the timers are run at `now`, and
/// the retransmissions, in order.
pub open spec fn retransmit(
    local_ip: [u8; 4],
    c: ConnectionView,
    os: Seq<OutstandingView>,
    now: u64,
    rto: u64,
) -> (Seq<OutstandingView>, Seq<OutboundView>)
    decreases os.len(),
{
    if os.len() == 0 {
        (os, Seq::empty())
    } else {
        let (done, outs) = retransmit(local_ip, c, os.drop_last(), now, rto);
        let o = os.last();
        if due(o, now, rto) {
            (
                done.push(OutstandingView { last_sent: now, retries: o.retries.saturating_add(1), ..o }),
                outs.push(
                    OutboundView {
                        key: c.key,
                        bytes: segment_for(local_ip, c.key, o.sequence, c.recv_next, o.flags, o.payload),
                        retransmission: true,
                    },
                ),
            )
        } else {
            (done.push(o), outs)
        }
    }
}

/// A connection after its timers are run at `now`: retransmissions, then a held-back
/// acknowledgment whose delay has run out.
pub open spec fn tick_connection(local_ip: [u8; 4], c: ConnectionView, now: u64, rto: u64) -> (ConnectionView, Seq<OutboundView>) {
    let (os, outs) = retransmit(local_ip, c, c.outstanding, now, rto);
    match c.ack_pending_since {
        Some(t) if elapsed(now, t) >= DELAYED_ACK_TIMEOUT => (
            ConnectionView { outstanding: os, ack_pending_since: None, ..c },
            outs.push(
                OutboundView {
                    key: c.key,
                    bytes: segment_for(local_ip, c.key, c.send_next, c.recv_next, ACK, Seq::empty()),
                    retransmission: false,
                },
            ),
        ),
        _ => (ConnectionView { outstanding: os, ..c }, outs),
    }
}

/// All connections after their timers are run, and everything they send, connection by
/// connection.
pub open spec fn tick_all(local_ip: [u8; 4], conns: Seq<ConnectionView>, now: u64, rto: u64) -> (Seq<ConnectionView>, Seq<OutboundView>)
    decreases conns.len(),
{
    if conns.len() == 0 {
        (conns, Seq::empty())
    } else {
        let (done, outs) = tick_all(local_ip, conns.drop_last(), now, rto);
        let (c, more) = tick_connection(local_ip, conns.last(), now, rto);
        (done.push(c), outs + more)
    }
}

/// Unfolds `tick_all` on a prefix one connection longer.
proof fn lemma_tick_all_step(local_ip: [u8; 4], cs: Seq<ConnectionView>, i: int, now: u64, rto: u64)
    requires
        0 <= i < cs.len(),
    ensures
        tick_all(local_ip, cs.take(i + 1), now, rto) == (
            tick_all(local_ip, cs.take(i), now, rto).0.push(tick_connection(local_ip, cs[i], now, rto).0),
            tick_all(local_ip, cs.take(i), now, rto).1 + tick_connection(local_ip, cs[i], now, rto).1,
        ),
        tick_connection(local_ip, cs[i], now, rto).0.key == cs[i].key,
{
    assert(cs.take(i + 1).drop_last() == cs.take(i));
    assert(cs.take(i + 1).last() == cs[i]);
}

/// Whether `v` holds `x`.
fn contains_port(v: &Vec<u16>, x: u16) -> (r: bool)
    ensures
        r == v@.contains(x),
{
    let mut i: usize = 0;
    while i < v.len()
        invariant
            i <= v@.len(),
            forall|j: int| 0 <= j < i ==> v@[j] != x,
        decreases v@.len() - i,
    {
        if v[i] == x {
            return true;
        }
        i = i + 1;
    }
    false
}

/// The bytes of a segment this engine sends on `key`.
fn make_segment(
    local_ip: [u8; 4],
    key: ConnectionKey,
    sequence: u32,
    acknowledgment: u32,
    flags: u16,
    payload: &[u8],
) -> (bytes: Vec<u8>)
    ensures
        bytes@ == segment_for(local_ip, key, sequence, acknowledgment, flags, payload@),
{
    serialize(
        local_ip,
        key.remote_ip,
        key.local_port,
        key.remote_port,
        sequence,
        acknowledgment,
        flags,
        ADVERTISED_WINDOW,
        payload,
    )
}

/// The initial send sequence number of a connection.
fn initial_sequence(key: ConnectionKey) -> (iss: u32)
    ensures
        iss == initial_sequence_spec(key),
{
    let ip: u32 = (key.remote_ip[0] as u32) * 0x100_0000 + (key.remote_ip[1] as u32) * 0x1_0000
        + (key.remote_ip[2] as u32) * 0x100 + (key.remote_ip[3] as u32);
    let rotated: u32 = ((ip as u64 * 0x2000) % 0x1_0000_0000 + ip as u64 / 0x8_0000) as u32;
    rotated ^ ((key.remote_port as u32) * 0x1_0000) ^ (key.local_port as u32) ^ 0x6d2b_79f5
}

/// Whether `value` is at or after `expected` in sequence space.
fn seq_at_or_after(value: u32, expected: u32) -> (r: bool)
    ensures
        r == sequence_at_or_after(value, expected),
{
    value.wrapping_sub(expected) < 0x8000_0000
}

/// A response as the engine builds it.
struct ResponseData {
    sequence: u32,
    flags: u16,
    payload: Vec<u8>,
}

impl View for ResponseData {
    type V = Response;

    closed spec fn view(&self) -> Response {
        Response { sequence: self.sequence, flags: self.flags, payload: self.payload@ }
    }
}

/// The view of an optional response.
spec fn response_view(r: Option<ResponseData>) -> Option<Response> {
    match r {
        Some(d) => Some(d@),
        None => None,
    }
}

/// An empty unacknowledged segment, to stand in a slot while its owner is worked on.
fn placeholder_outstanding() -> (o: Outstanding)
    ensures
        o@ == (OutstandingView { sequence: 0, end_sequence: 0, flags: 0, payload: Seq::empty(), last_sent: 0, retries: 0 }),
{
    Outstanding { sequence: 0, end_sequence: 0, flags: 0, payload: Vec::new(), last_sent: 0, retries: 0 }
}

/// An empty connection with `key`, to stand in a slot while the real one is worked on.
fn placeholder_connection(key: ConnectionKey) -> (c: Connection)
    ensures
        c@.key == key,
{
    Connection {
        key,
        state: State::SynReceived,
        recv_next: 0,
        send_next: 0,
        peer_window: 0,
        outstanding: Vec::new(),
        ack_pending_since: None,
    }
}

/// Drops the segments that `ack` covers.
fn drop_acknowledged(c: &mut Connection, ack: u32)
    ensures
        final(c)@ == (ConnectionView { outstanding: unacked(old(c)@.outstanding, ack), ..old(c)@ }),
{
    let mut old_os: Vec<Outstanding> = Vec::new();
    std::mem::swap(&mut c.outstanding, &mut old_os);
    let ghost os0 = outstanding_view(old_os@);
    let mut kept: Vec<Outstanding> = Vec::new();
    let mut j: usize = 0;
    while j < old_os.len()
        invariant
            j <= old_os@.len(),
            old_os@.len() == os0.len(),
            forall|k: int| j <= k < old_os@.len() ==> old_os@[k]@ == os0[k],
            outstanding_view(kept@) == unacked(os0.take(j as int), ack),
        decreases old_os@.len() - j,
    {
        let mut o = placeholder_outstanding();
        old_os.set_and_swap(j, &mut o);
        assert(os0.take(j + 1).drop_last() == os0.take(j as int));
        assert(os0.take(j + 1).last() == os0[j as int]);
        if !seq_at_or_after(ack, o.end_sequence) {
            kept.push(o);
            assert(outstanding_view(kept@) =~= unacked(os0.take(j as int), ack).push(os0[j as int]));
        }
        j = j + 1;
    }
    assert(os0.take(j as int) == os0);
    c.outstanding = kept;
    assert(c@ == (ConnectionView { outstanding: unacked(old(c)@.outstanding, ack), ..old(c)@ }));
}

/// Records a sent response for retransmission when it occupies sequence space.
fn record_sent(c: &mut Connection, r: ResponseData, now: u64)
    ensures
        final(c)@ == record(old(c)@, r@, now),
{
    let syn: u32 = if r.flags & SYN != 0 { 1 } else { 0 };
    let fin: u32 = if r.flags & FIN != 0 { 1 } else { 0 };
    if r.flags & (SYN | FIN) != 0 || r.payload.len() > 0 {
        #[verifier::truncate]
        let len = r.payload.len() as u32;
        let space = len.wrapping_add(syn).wrapping_add(fin);
        let o = Outstanding {
            sequence: r.sequence,
            end_sequence: r.sequence.wrapping_add(space),
            flags: r.flags,
            payload: r.payload,
            last_sent: now,
            retries: 0,
        };
        c.outstanding.push(o);
        assert(outstanding_view(c.outstanding@) =~= outstanding_view(old(c).outstanding@).push(o@));
    }
}

/// The data part of a segment on an established connection (see `receive_data`).
fn take_data(c: &mut Connection, sink: bool, segment: &Segment, now: u64) -> (r: (Option<ResponseData>, Vec<Event>))
    ensures
        ({
            let (c2, resp, events) = receive_data(old(c)@, sink, segment@, now);
            &&& final(c)@ == c2
            &&& response_view(r.0) == resp
            &&& events_view(r.1@) == events
        }),
{
    let len = segment.payload.len();
    let mut events: Vec<Event> = Vec::new();
    if len > 0 && segment.sequence == c.recv_next {
        #[verifier::truncate]
        let len32 = len as u32;
        c.recv_next = c.recv_next.wrapping_add(len32);
        if sink {
            if segment.flags & PSH != 0 || c.ack_pending_since.is_some() {
                c.ack_pending_since = None;
                let r = ResponseData { sequence: c.send_next, flags: ACK, payload: Vec::new() };
                assert(events_view(events@) =~= Seq::<EventView>::empty());
                (Some(r), events)
            } else {
                c.ack_pending_since = Some(now);
                assert(events_view(events@) =~= Seq::<EventView>::empty());
                (None, events)
            }
        } else {
            let data = vstd::slice::slice_to_vec(segment.payload);
            events.push(Event::Data(c.key, data));
            assert(events_view(events@) =~= seq![EventView::Data(c.key, segment.payload@)]);
            let sequence = c.send_next;
            c.send_next = c.send_next.wrapping_add(len32);
            c.ack_pending_since = None;
            let r = ResponseData { sequence, flags: ACK | PSH, payload: vstd::slice::slice_to_vec(segment.payload) };
            (Some(r), events)
        }
    } else if len > 0 {
        c.ack_pending_since = None;
        let r = ResponseData { sequence: c.send_next, flags: ACK, payload: Vec::new() };
        assert(events_view(events@) =~= Seq::<EventView>::empty());
        (Some(r), events)
    } else {
        assert(events_view(events@) =~= Seq::<EventView>::empty());
        (None, events)
    }
}

/// What an existing connection does with a non-reset segment (see `step`).
fn step_connection(c: &mut Connection, sink: bool, segment: &Segment, now: u64) -> (r: (Option<ResponseData>, Vec<Event>, bool))
    ensures
        ({
            let st = step(old(c)@, sink, segment@, now);
            &&& final(c)@ == st.conn
            &&& response_view(r.0) == st.response
            &&& events_view(r.1@) == st.events
            &&& r.2 == st.remove
        }),
{
    c.peer_window = segment.window;
    let has_ack = segment.flags & ACK != 0;
    if has_ack {
        drop_acknowledged(c, segment.acknowledgment);
    }
    let mut events: Vec<Event> = Vec::new();
    match c.state {
        State::SynReceived => {
            if has_ack && segment.acknowledgment == c.send_next {
                c.state = State::Established;
                events.push(Event::Established(c.key));
                assert(events_view(events@) =~= seq![EventView::Established(c.key)]);
            } else {
                assert(events_view(events@) =~= Seq::<EventView>::empty());
            }
            (None, events, false)
        },
        State::Established => {
            let (response, events) = take_data(c, sink, segment, now);
            #[verifier::truncate]
            let len32 = segment.payload.len() as u32;
            let fin_sequence = segment.sequence.wrapping_add(len32);
            if segment.flags & FIN != 0 && fin_sequence == c.recv_next {
                c.recv_next = c.recv_next.wrapping_add(1);
                let sequence = c.send_next;
                c.send_next = c.send_next.wrapping_add(1);
                c.state = State::LastAck;
                c.ack_pending_since = None;
                let reply = match response {
                    Some(r) => {
                        if r.payload.len() > 0 {
                            ResponseData { sequence: r.sequence, flags: FIN | ACK | PSH, payload: r.payload }
                        } else {
                            ResponseData { sequence, flags: FIN | ACK, payload: Vec::new() }
                        }
                    },
                    None => ResponseData { sequence, flags: FIN | ACK, payload: Vec::new() },
                };
                (Some(reply), events, false)
            } else {
                (response, events, false)
            }
        },
        State::LastAck => {
            if has_ack && seq_at_or_after(segment.acknowledgment, c.send_next) {
                events.push(Event::Closed(c.key));
                assert(events_view(events@) =~= seq![EventView::Closed(c.key)]);
                (None, events, true)
            } else {
                assert(events_view(events@) =~= Seq::<EventView>::empty());
                (None, events, false)
            }
        },
    }
}

/// The retransmission timeout after `retries` retransmissions.
fn backoff_of(rto: u64, retries: u8) -> (b: u64)
    ensures
        b == backoff(rto, retries),
{
    let factor: u64 = if retries == 0 {
        1
    } else if retries == 1 {
        2
    } else if retries == 2 {
        4
    } else if retries == 3 {
        8
    } else if retries == 4 {
        16
    } else {
        32
    };
    match rto.checked_mul(factor) {
        Some(v) => v,
        None => u64::MAX,
    }
}

/// The views of an optional outbound segment.
pub open spec fn outbound_option_view(r: Option<Outbound>) -> Option<OutboundView> {
    match r {
        Some(o) => Some(o@),
        None => None,
    }
}

/// Runs the retransmission timers of one connection and its delayed acknowledgment,
/// appending what it sends to `out`.
fn tick_one(c: &mut Connection, local_ip: [u8; 4], now: u64, rto: u64, out: &mut Vec<Outbound>)
    ensures
        final(c)@ == tick_connection(local_ip, old(c)@, now, rto).0,
        outbounds_view(final(out)@) == outbounds_view(old(out)@) + tick_connection(local_ip, old(c)@, now, rto).1,
{
    let ghost c0 = c@;
    let ghost os0 = c0.outstanding;
    let ghost out0 = outbounds_view(out@);
    let mut j: usize = 0;
    while j < c.outstanding.len()
        invariant
            j <= c.outstanding@.len(),
            c.outstanding@.len() == os0.len(),
            c.key == c0.key,
            c.recv_next == c0.recv_next,
            c.send_next == c0.send_next,
            c.state == c0.state,
            c.peer_window == c0.peer_window,
            c.ack_pending_since == c0.ack_pending_since,
            forall|k: int| j <= k < os0.len() ==> c.outstanding@[k]@ == os0[k],
            outstanding_view(c.outstanding@).take(j as int) == retransmit(local_ip, c0, os0.take(j as int), now, rto).0,
            outbounds_view(out@) == out0 + retransmit(local_ip, c0, os0.take(j as int), now, rto).1,
        decreases os0.len() - j,
    {
        let ghost before = outstanding_view(c.outstanding@);
        let mut o = placeholder_outstanding();
        c.outstanding.set_and_swap(j, &mut o);
        assert(o@ == os0[j as int]);
        assert(os0.take(j + 1).drop_last() == os0.take(j as int));
        assert(os0.take(j + 1).last() == os0[j as int]);
        let limit = backoff_of(rto, o.retries);
        if now.saturating_sub(o.last_sent) >= limit {
            let bytes = make_segment(local_ip, c.key, o.sequence, c.recv_next, o.flags, o.payload.as_slice());
            let ghost out_before = out@;
            out.push(Outbound { key: c.key, bytes, retransmission: true });
            assert(outbounds_view(out@) =~= outbounds_view(out_before).push(out@.last()@));
            o.last_sent = now;
            o.retries = o.retries.saturating_add(1);
        }
        let ghost o_new = o@;
        c.outstanding.set(j, o);
        assert(outstanding_view(c.outstanding@) =~= before.update(j as int, o_new));
        assert(outstanding_view(c.outstanding@).take(j + 1) =~= retransmit(local_ip, c0, os0.take(j + 1), now, rto).0);
        j = j + 1;
    }
    assert(os0.take(j as int) == os0);
    assert(outstanding_view(c.outstanding@).take(j as int) == outstanding_view(c.outstanding@));
    match c.ack_pending_since {
        Some(t) => {
            if now.saturating_sub(t) >= DELAYED_ACK_TIMEOUT {
                let empty: Vec<u8> = Vec::new();
                let bytes = make_segment(local_ip, c.key, c.send_next, c.recv_next, ACK, empty.as_slice());
                let ghost out_before = out@;
                out.push(Outbound { key: c.key, bytes, retransmission: false });
                assert(outbounds_view(out@) =~= outbounds_view(out_before).push(out@.last()@));
                c.ack_pending_since = None;
            }
        },
        None => {},
    }
}

/// `tick_all` keeps the connections and their keys in place.
proof fn lemma_tick_all_keys(local_ip: [u8; 4], cs: Seq<ConnectionView>, now: u64, rto: u64)
    ensures
        tick_all(local_ip, cs, now, rto).0.len() == cs.len(),
        forall|k: int| 0 <= k < cs.len() ==> #[trigger] tick_all(local_ip, cs, now, rto).0[k].key == cs[k].key,
    decreases cs.len(),
{
    if cs.len() > 0 {
        lemma_tick_all_keys(local_ip, cs.drop_last(), now, rto);
    }
}

/// Runs the timers of every connection in order, collecting what they send.
fn tick_connections(conns: &mut Vec<Connection>, local_ip: [u8; 4], now: u64, rto: u64) -> (out: Vec<Outbound>)
    ensures
        connections_view(final(conns)@) == tick_all(local_ip, connections_view(old(conns)@), now, rto).0,
        outbounds_view(out@) == tick_all(local_ip, connections_view(old(conns)@), now, rto).1,
{
    let ghost cs0 = connections_view(conns@);
    let mut out: Vec<Outbound> = Vec::new();
    assert(outbounds_view(out@) =~= Seq::<OutboundView>::empty());
    assert(cs0.take(0) =~= Seq::<ConnectionView>::empty());
    assert(connections_view(conns@).take(0) =~= Seq::<ConnectionView>::empty());
    let mut i: usize = 0;
    while i < conns.len()
        invariant
            i <= conns@.len(),
            conns@.len() == cs0.len(),
            forall|k: int| i <= k < cs0.len() ==> conns@[k]@ == cs0[k],
            connections_view(conns@).take(i as int) == tick_all(local_ip, cs0.take(i as int), now, rto).0,
            outbounds_view(out@) == tick_all(local_ip, cs0.take(i as int), now, rto).1,
        decreases cs0.len() - i,
    {
        let ghost before = connections_view(conns@);
        proof {
            lemma_tick_all_step(local_ip, cs0, i as int, now, rto);
        }
        let mut c = placeholder_connection(conns[i].key);
        conns.set_and_swap(i, &mut c);
        assert(c@ == cs0[i as int]);
        tick_one(&mut c, local_ip, now, rto, &mut out);
        let ghost c_new = c@;
        conns.set(i, c);
        assert(connections_view(conns@) =~= before.update(i as int, c_new));
        assert(connections_view(conns@).take(i + 1) =~= before.take(i as int).push(c_new));
        i = i + 1;
    }
    assert(cs0.take(i as int) == cs0);
    assert(connections_view(conns@).take(i as int) =~= connections_view(conns@));
    out
}

impl Engine {
    /// The engine's invariant: connection keys are distinct.
    pub closed spec fn wf(&self) -> bool {
        keys_distinct(self@.connections)
    }

    /// What the invariant says: no two connections share a key.
    pub proof fn lemma_wf_keys_distinct(&self)
        requires
            self.wf(),
        ensures
            keys_distinct(self@.connections),
    {
    }

    /// An engine with no connections.
    pub fn new(local_ip: [u8; 4], listeners: Vec<u16>, sink_ports: Vec<u16>, rto: u64) -> (e: Self)
        ensures
            e.wf(),
            e@ == (EngineView {
                local_ip,
                listeners: listeners@,
                sink_ports: sink_ports@,
                connections: Seq::empty(),
                rto,
            }),
    {
        let e = Engine { local_ip, listeners, sink_ports, connections: Vec::new(), rto };
        assert(e@.connections =~= Seq::<ConnectionView>::empty());
        e
    }

    /// The number of open connections.
    pub fn connection_count(&self) -> (n: usize)
        ensures
            n == self@.connections.len(),
    {
        self.connections.len()
    }

    /// The position of the connection with `key`.
    fn find_index(&self, key: &ConnectionKey) -> (r: Option<usize>)
        requires
            self.wf(),
        ensures
            match r {
                Some(i) => i < self@.connections.len() && find(self@.connections, *key) == Some(i as int),
                None => find(self@.connections, *key) is None,
            },
    {
        let mut i: usize = 0;
        while i < self.connections.len()
            invariant
                self.wf(),
                i <= self@.connections.len(),
                self@.connections.len() == self.connections@.len(),
                forall|j: int| 0 <= j < i ==> self@.connections[j].key != *key,
            decreases self.connections@.len() - i,
        {
            if same_key(&self.connections[i].key, key) {
                assert(self@.connections[i as int].key == *key);
                let ghost k = choose|k: int| 0 <= k < self@.connections.len() && self@.connections[k].key == *key;
                assert(k == i);
                return Some(i);
            }
            i = i + 1;
        }
        None
    }

    /// The state of the connection with `key`, if it is open.
    pub fn state(&self, key: ConnectionKey) -> (r: Option<State>)
        requires
            self.wf(),
        ensures
            r == (match find(self@.connections, key) {
                Some(i) => Some(self@.connections[i].state),
                None => None,
            }),
    {
        match self.find_index(&key) {
            Some(i) => Some(self.connections[i].state),
            None => None,
        }
    }

    /// Handles a segment from `remote_ip` received at `now`: opens, advances or closes
    /// its connection, and returns the segments to send and the events to report.
    pub fn handle(&mut self, remote_ip: [u8; 4], segment: &Segment<'_>, now: u64) -> (r: (Vec<Outbound>, Vec<Event>))
        requires
            old(self).wf(),
        ensures
            final(self).wf(),
            (final(self)@, outbounds_view(r.0@), events_view(r.1@)) == handle_spec(
                old(self)@,
                remote_ip,
                segment@,
                now,
            ),
    {
        let key = ConnectionKey {
            remote_ip,
            remote_port: segment.src_port,
            local_port: segment.dst_port,
        };
        let found = self.find_index(&key);
        let ghost e0 = self@;
        if segment.flags & RST != 0 {
            match found {
                Some(i) => {
                    self.connections.remove(i);
                    let mut events: Vec<Event> = Vec::new();
                    events.push(Event::Reset(key));
                    assert(events_view(events@) =~= seq![EventView::Reset(key)]);
                    assert(self@.connections =~= e0.connections.remove(i as int));
                    let outs: Vec<Outbound> = Vec::new();
                    assert(outbounds_view(outs@) =~= Seq::<OutboundView>::empty());
                    return (outs, events);
                },
                None => {
                    let outs: Vec<Outbound> = Vec::new();
                    let events: Vec<Event> = Vec::new();
                    assert(outbounds_view(outs@) =~= Seq::<OutboundView>::empty());
                    assert(events_view(events@) =~= Seq::<EventView>::empty());
                    return (outs, events);
                },
            }
        }
        match found {
            None => {
                let outs: Vec<Outbound> = Vec::new();
                let events: Vec<Event> = Vec::new();
                assert(events_view(events@) =~= Seq::<EventView>::empty());
                if segment.flags & SYN == 0 || !contains_port(&self.listeners, segment.dst_port) {
                    assert(outbounds_view(outs@) =~= Seq::<OutboundView>::empty());
                    return (outs, events);
                }
                let iss = initial_sequence(key);
                let recv_next = segment.sequence.wrapping_add(1);
                let empty: Vec<u8> = Vec::new();
                let bytes = make_segment(self.local_ip, key, iss, recv_next, SYN | ACK, empty.as_slice());
                let mut outstanding: Vec<Outstanding> = Vec::new();
                outstanding.push(Outstanding {
                    sequence: iss,
                    end_sequence: iss.wrapping_add(1),
                    flags: SYN | ACK,
                    payload: Vec::new(),
                    last_sent: now,
                    retries: 0,
                });
                let c = Connection {
                    key,
                    state: State::SynReceived,
                    recv_next,
                    send_next: iss.wrapping_add(1),
                    peer_window: segment.window,
                    outstanding,
                    ack_pending_since: None,
                };
                assert(c@.outstanding =~= opened(key, segment@, now).outstanding);
                assert(c@ == opened(key, segment@, now));
                self.connections.push(c);
                assert(self@.connections =~= e0.connections.push(c@));
                let mut outs = outs;
                outs.push(Outbound { key, bytes, retransmission: false });
                assert(outbounds_view(outs@) =~= handle_spec(e0, remote_ip, segment@, now).1);
                (outs, events)
            },
            Some(i) => {
                let sink = contains_port(&self.sink_ports, key.local_port);
                let mut c = placeholder_connection(key);
                self.connections.set_and_swap(i, &mut c);
                assert(c@ == e0.connections[i as int]);
                let (response, events, remove) = step_connection(&mut c, sink, segment, now);
                let ghost stepped = c@;
                let mut outs: Vec<Outbound> = Vec::new();
                match response {
                    Some(r) => {
                        let bytes = make_segment(
                            self.local_ip,
                            key,
                            r.sequence,
                            c.recv_next,
                            r.flags,
                            r.payload.as_slice(),
                        );
                        outs.push(Outbound { key, bytes, retransmission: false });
                        proof {
                            assert(stepped.key == key);
                        }
                        assert(outbounds_view(outs@) =~= seq![response_outbound(e0.local_ip, stepped, r@)]);
                        record_sent(&mut c, r, now);
                    },
                    None => {
                        assert(outbounds_view(outs@) =~= Seq::<OutboundView>::empty());
                    },
                }
                if remove {
                    self.connections.remove(i);
                    assert(self@.connections =~= e0.connections.remove(i as int));
                } else {
                    self.connections.set(i, c);
                    assert(self@.connections =~= e0.connections.update(i as int, c@));
                }
                (outs, events)
            },
        }
    }

    /// How many bytes can currently be queued on `key`: for an established connection,
    /// the peer's window less the sequence space in flight; zero otherwise.
    pub fn send_capacity(&self, key: ConnectionKey) -> (n: usize)
        requires
            self.wf(),
        ensures
            n == capacity_spec(self@, key),
    {
        let i = match self.find_index(&key) {
            Some(i) => i,
            None => return 0,
        };
        let c = &self.connections[i];
        assert(c@ == self@.connections[i as int]);
        match c.state {
            State::Established => {},
            _ => return 0,
        }
        let window = c.peer_window as u64;
        let ghost os = c@.outstanding;
        let mut total: u64 = 0;
        let mut j: usize = 0;
        while j < c.outstanding.len()
            invariant
                j <= c.outstanding@.len(),
                os == outstanding_view(c.outstanding@),
                window == c.peer_window,
                total == (if in_flight(os.take(j as int)) < window { in_flight(os.take(j as int)) } else { window as int }),
            decreases c.outstanding@.len() - j,
        {
            let o = &c.outstanding[j];
            assert(os.take(j + 1).drop_last() == os.take(j as int));
            assert(os.take(j + 1).last() == o@);
            let t = o.end_sequence.wrapping_sub(o.sequence) as u64;
            if total + t >= window {
                total = window;
            } else {
                total = total + t;
            }
            j = j + 1;
        }
        assert(os.take(j as int) == os);
        (window - total) as usize
    }

    /// Queues `payload` on `key` at `now` and returns the segment to send, when the data
    /// is nonempty and fits the send capacity; otherwise changes nothing.
    pub fn send(&mut self, key: ConnectionKey, payload: &[u8], now: u64) -> (r: Option<Outbound>)
        requires
            old(self).wf(),
        ensures
            final(self).wf(),
            (final(self)@, outbound_option_view(r)) == send_spec(old(self)@, key, payload@, now),
    {
        if payload.len() == 0 || payload.len() > self.send_capacity(key) {
            return None;
        }
        let ghost e0 = self@;
        let i = match self.find_index(&key) {
            Some(i) => i,
            None => return None,
        };
        let mut c = placeholder_connection(key);
        self.connections.set_and_swap(i, &mut c);
        assert(c@ == e0.connections[i as int]);
        let sequence = c.send_next;
        let ghost c_before = c@;
        c.send_next = c.send_next.wrapping_add(payload.len() as u32);
        let bytes = make_segment(self.local_ip, key, sequence, c.recv_next, ACK | PSH, payload);
        let r = ResponseData { sequence, flags: ACK | PSH, payload: vstd::slice::slice_to_vec(payload) };
        record_sent(&mut c, r, now);
        self.connections.set(i, c);
        assert(self@.connections =~= e0.connections.update(i as int, c@));
        Some(Outbound { key, bytes, retransmission: false })
    }

    /// Runs the retransmission timers at `now` and returns what is due, connection by
    /// connection: expired segments (their timers doubled, up to 32 times the timeout) and
    /// held-back acknowledgments whose delay has run out.
    pub fn tick(&mut self, now: u64) -> (r: Vec<Outbound>)
        requires
            old(self).wf(),
        ensures
            final(self).wf(),
            final(self)@ == (EngineView {
                connections: tick_all(old(self)@.local_ip, old(self)@.connections, now, old(self)@.rto).0,
                ..old(self)@
            }),
            outbounds_view(r@) == tick_all(old(self)@.local_ip, old(self)@.connections, now, old(self)@.rto).1,
    {
        let ghost e0 = self@;
        let out = tick_connections(&mut self.connections, self.local_ip, now, self.rto);
        proof {
            lemma_tick_all_keys(e0.local_ip, e0.connections, now, e0.rto);
        }
        out
    }
}

/// Every segment the connection keeps for retransmission carries at most `n` bytes.
pub open spec fn conn_payloads_within(c: ConnectionView, n: nat) -> bool {
    forall|j: int| 0 <= j < c.outstanding.len() ==> #[trigger] c.outstanding[j].payload.len() <= n
}

/// Every segment the engine keeps for retransmission carries at most `n` bytes.
pub open spec fn payloads_within(e: EngineView, n: nat) -> bool {
    forall|i: int| 0 <= i < e.connections.len() ==> conn_payloads_within(#[trigger] e.connections[i], n)
}

/// Every outbound segment is at most a header plus `n` bytes long.
pub open spec fn outbounds_within(outs: Seq<OutboundView>, n: nat) -> bool {
    forall|k: int| 0 <= k < outs.len() ==> #[trigger] outs[k].bytes.len() <= 20 + n
}

/// A segment's bytes are its 20-byte header and its payload.
pub proof fn lemma_segment_len(
    local_ip: [u8; 4],
    key: ConnectionKey,
    sequence: u32,
    acknowledgment: u32,
    flags: u16,
    payload: Seq<u8>,
)
    ensures
        segment_for(local_ip, key, sequence, acknowledgment, flags, payload).len() == 20 + payload.len(),
{
}

proof fn lemma_unacked_within(os: Seq<OutstandingView>, ack: u32, n: nat)
    requires
        forall|j: int| 0 <= j < os.len() ==> #[trigger] os[j].payload.len() <= n,
    ensures
        forall|j: int| 0 <= j < unacked(os, ack).len() ==> #[trigger] unacked(os, ack)[j].payload.len() <= n,
    decreases os.len(),
{
    if os.len() > 0 {
        let rest = os.drop_last();
        assert forall|j: int| 0 <= j < rest.len() implies #[trigger] rest[j].payload.len() <= n by {
            assert(rest[j] == os[j]);
        }
        lemma_unacked_within(rest, ack, n);
        let u = unacked(rest, ack);
        let r = unacked(os, ack);
        assert(os.last() == os[os.len() - 1]);
        assert forall|j: int| 0 <= j < r.len() implies #[trigger] r[j].payload.len() <= n by {
            if j < u.len() {
                assert(r[j] == u[j]);
            }
        }
    }
}

/// A segment never gets more than one answer, and with payloads of at most `n` bytes
/// kept and received, what is kept and what is sent stay within `n` bytes of payload.
pub proof fn lemma_handle_bounds(e: EngineView, remote_ip: [u8; 4], seg: SegmentView, now: u64, n: nat)
    requires
        payloads_within(e, n),
        seg.payload.len() <= n,
    ensures
        ({
            let (e2, outs, events) = handle_spec(e, remote_ip, seg, now);
            &&& payloads_within(e2, n)
            &&& outs.len() <= 1
            &&& outbounds_within(outs, n)
        }),
{
    let key = key_of(remote_ip, seg);
    let (e2, outs, events) = handle_spec(e, remote_ip, seg, now);
    if seg.flags & RST != 0 {
        if let Some(i) = find(e.connections, key) {
            assert forall|k: int| 0 <= k < e2.connections.len() implies conn_payloads_within(#[trigger] e2.connections[k], n) by {
                if k < i {
                    assert(e2.connections[k] == e.connections[k]);
                } else {
                    assert(e2.connections[k] == e.connections[k + 1]);
                }
            }
        }
    } else {
        match find(e.connections, key) {
            None => {
                if !(seg.flags & SYN == 0 || !e.listeners.contains(seg.dst_port)) {
                    let c = opened(key, seg, now);
                    assert forall|k: int| 0 <= k < e2.connections.len() implies conn_payloads_within(#[trigger] e2.connections[k], n) by {
                        if k < e.connections.len() {
                            assert(e2.connections[k] == e.connections[k]);
                        } else {
                            assert(e2.connections[k] == c);
                        }
                    }
                }
            },
            Some(i) => {
                let c0 = e.connections[i];
                assert(conn_payloads_within(c0, n));
                if seg.flags & ACK != 0 {
                    lemma_unacked_within(c0.outstanding, seg.acknowledgment, n);
                }
                let st = step(c0, e.sink_ports.contains(key.local_port), seg, now);
                assert(conn_payloads_within(st.conn, n));
                let c = match st.response {
                    Some(r) => record(st.conn, r, now),
                    None => st.conn,
                };
                assert(conn_payloads_within(c, n));
                assert forall|k: int| 0 <= k < e2.connections.len() implies conn_payloads_within(#[trigger] e2.connections[k], n) by {
                    if st.remove {
                        if k < i {
                            assert(e2.connections[k] == e.connections[k]);
                        } else {
                            assert(e2.connections[k] == e.connections[k + 1]);
                        }
                    } else if k != i {
                        assert(e2.connections[k] == e.connections[k]);
                    }
                }
            },
        }
    }
}

/// Sending at most `n` bytes keeps payloads within `n` bytes.
pub proof fn lemma_send_bounds(e: EngineView, key: ConnectionKey, payload: Seq<u8>, now: u64, n: nat)
    requires
        payloads_within(e, n),
        payload.len() <= n || payload.len() > capacity_spec(e, key),
    ensures
        payloads_within(send_spec(e, key, payload, now).0, n),
        send_spec(e, key, payload, now).1 matches Some(o) ==> o.bytes.len() == 20 + payload.len(),
{
    let (e2, r) = send_spec(e, key, payload, now);
    if !(payload.len() == 0 || payload.len() > capacity_spec(e, key)) {
        let i = find(e.connections, key)->0;
        assert(conn_payloads_within(e.connections[i], n));
        assert forall|k: int| 0 <= k < e2.connections.len() implies conn_payloads_within(#[trigger] e2.connections[k], n) by {
            if k != i {
                assert(e2.connections[k] == e.connections[k]);
            }
        }
    }
}

proof fn lemma_retransmit_within(local_ip: [u8; 4], c: ConnectionView, os: Seq<OutstandingView>, now: u64, rto: u64, n: nat)
    requires
        forall|j: int| 0 <= j < os.len() ==> #[trigger] os[j].payload.len() <= n,
    ensures
        ({
            let (done, outs) = retransmit(local_ip, c, os, now, rto);
            &&& forall|j: int| 0 <= j < done.len() ==> #[trigger] done[j].payload.len() <= n
            &&& outbounds_within(outs, n)
            &&& forall|k: int| 0 <= k < outs.len() ==> #[trigger] outs[k].key == c.key
        }),
    decreases os.len(),
{
    if os.len() > 0 {
        let rest = os.drop_last();
        assert forall|j: int| 0 <= j < rest.len() implies #[trigger] rest[j].payload.len() <= n by {
            assert(rest[j] == os[j]);
        }
        lemma_retransmit_within(local_ip, c, rest, now, rto, n);
        let o = os.last();
        assert(o.payload.len() <= n);
    }
}

proof fn lemma_tick_all_within(local_ip: [u8; 4], cs: Seq<ConnectionView>, now: u64, rto: u64, n: nat)
    requires
        forall|i: int| 0 <= i < cs.len() ==> conn_payloads_within(#[trigger] cs[i], n),
    ensures
        ({
            let (done, outs) = tick_all(local_ip, cs, now, rto);
            &&& forall|i: int| 0 <= i < done.len() ==> conn_payloads_within(#[trigger] done[i], n)
            &&& outbounds_within(outs, n)
        }),
    decreases cs.len(),
{
    if cs.len() > 0 {
        let rest = cs.drop_last();
        assert forall|i: int| 0 <= i < rest.len() implies conn_payloads_within(#[trigger] rest[i], n) by {
            assert(rest[i] == cs[i]);
        }
        lemma_tick_all_within(local_ip, rest, now, rto, n);
        let c = cs.last();
        assert(conn_payloads_within(c, n));
        lemma_retransmit_within(local_ip, c, c.outstanding, now, rto, n);
        let (done, outs) = tick_all(local_ip, rest, now, rto);
        let (c2, more) = tick_connection(local_ip, c, now, rto);
        assert(conn_payloads_within(c2, n));
        assert(outbounds_within(more, n));
        let all = outs + more;
        assert forall|k: int| 0 <= k < all.len() implies #[trigger] all[k].bytes.len() <= 20 + n by {
            if k < outs.len() {
                assert(all[k] == outs[k]);
            } else {
                assert(all[k] == more[k - outs.len()]);
            }
        }
    }
}

/// Running the timers keeps payloads within `n` bytes, and sends segments of at most a
/// header plus `n` bytes.
pub proof fn lemma_tick_bounds(e: EngineView, now: u64, n: nat)
    requires
        payloads_within(e, n),
    ensures
        ({
            let (done, outs) = tick_all(e.local_ip, e.connections, now, e.rto);
            &&& payloads_within(EngineView { connections: done, ..e }, n)
            &&& outbounds_within(outs, n)
        }),
{
    lemma_tick_all_within(e.local_ip, e.connections, now, e.rto, n);
}

} // verus!
