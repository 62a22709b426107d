//! What the engine promises across segments: the passive open, echo, duplicate
//! handling, close, reset, delayed acknowledgment, send capacity and timers.
use vstd::prelude::*;
use super::{ConnectionKey, EventView, OutboundView, SegmentView, State, ACK, FIN, PSH, RST, SYN};
use super::engine::{
    step,
    EngineView, ConnectionView, OutstandingView, keys_distinct, find, handle_spec, key_of,
    initial_sequence_spec, segment_for, capacity_spec, send_spec, in_flight, unacked,
    sequence_at_or_after, tick_all, tick_connection, retransmit, due, backoff, backoff_factor,
    sequence_space, elapsed, DELAYED_ACK_TIMEOUT, ADVERTISED_WINDOW,
};
use super::{is_segment, flags_of, data_offset_of, lemma_parse_serialize};
use crate::bytes::{be16_at, be32_at};
use vstd::arithmetic::power2::{pow2, lemma2_to64};

verus! {

/// With distinct keys, the connection found at `i` is the one with `key`.
pub proof fn lemma_find_at(conns: Seq<ConnectionView>, key: ConnectionKey, i: int)
    requires
        keys_distinct(conns),
        0 <= i < conns.len(),
        conns[i].key == key,
    ensures
        find(conns, key) == Some(i),
{
}

/// A SYN to a listening port with no connection yet opens one in SynReceived, answered
/// by a SYN|ACK from the key's initial sequence number that acknowledges the SYN.
pub proof fn lemma_passive_open(e: EngineView, remote_ip: [u8; 4], seg: SegmentView, now: u64)
    requires
        keys_distinct(e.connections),
        find(e.connections, key_of(remote_ip, seg)) is None,
        seg.flags & RST == 0,
        seg.flags & SYN != 0,
        e.listeners.contains(seg.dst_port),
    ensures
        ({
            let (e2, outs, events) = handle_spec(e, remote_ip, seg, now);
            let key = key_of(remote_ip, seg);
            let i = e.connections.len() as int;
            &&& keys_distinct(e2.connections)
            &&& find(e2.connections, key) == Some(i)
            &&& e2.connections[i].state == State::SynReceived
            &&& e2.connections[i].recv_next == seg.sequence.wrapping_add(1)
            &&& e2.connections[i].send_next == initial_sequence_spec(key).wrapping_add(1)
            &&& outs == seq![
                OutboundView {
                    key,
                    bytes: segment_for(e.local_ip, key, initial_sequence_spec(key), seg.sequence.wrapping_add(1), (SYN | ACK), Seq::empty()),
                    retransmission: false,
                },
            ]
            &&& events.len() == 0
        }),
{
    let (e2, outs, events) = handle_spec(e, remote_ip, seg, now);
    let key = key_of(remote_ip, seg);
    let i = e.connections.len() as int;
    assert forall|a: int, b: int|
        0 <= a < e2.connections.len() && 0 <= b < e2.connections.len() && a != b implies
        e2.connections[a].key != e2.connections[b].key by {
        if a == i {
            assert(e.connections[b].key != key);
        } else if b == i {
            assert(e.connections[a].key != key);
        }
    }
    lemma_find_at(e2.connections, key, i);
}

/// The ACK of a connection's SYN|ACK establishes it and reports it, sending nothing.
pub proof fn lemma_handshake_completes(e: EngineView, remote_ip: [u8; 4], seg: SegmentView, now: u64, i: int)
    requires
        keys_distinct(e.connections),
        0 <= i < e.connections.len(),
        e.connections[i].key == key_of(remote_ip, seg),
        e.connections[i].state == State::SynReceived,
        seg.flags & RST == 0,
        seg.flags & ACK != 0,
        seg.acknowledgment == e.connections[i].send_next,
    ensures
        ({
            let (e2, outs, events) = handle_spec(e, remote_ip, seg, now);
            &&& e2.connections.len() == e.connections.len()
            &&& e2.connections[i].state == State::Established
            &&& outs.len() == 0
            &&& events == seq![EventView::Established(key_of(remote_ip, seg))]
        }),
{
    lemma_find_at(e.connections, key_of(remote_ip, seg), i);
}

/// In-order data on an established connection of an echo port is reported and echoed
/// back: the echo starts at the connection's next send sequence number and acknowledges
/// the data.
pub proof fn lemma_data_is_echoed(e: EngineView, remote_ip: [u8; 4], seg: SegmentView, now: u64, i: int)
    requires
        keys_distinct(e.connections),
        0 <= i < e.connections.len(),
        e.connections[i].key == key_of(remote_ip, seg),
        e.connections[i].state == State::Established,
        !e.sink_ports.contains(seg.dst_port),
        seg.flags & RST == 0,
        seg.flags & FIN == 0,
        seg.payload.len() > 0,
        seg.sequence == e.connections[i].recv_next,
    ensures
        ({
            let (e2, outs, events) = handle_spec(e, remote_ip, seg, now);
            let c = e.connections[i];
            let key = key_of(remote_ip, seg);
            let recv_next = c.recv_next.wrapping_add(seg.payload.len() as u32);
            &&& e2.connections[i].recv_next == recv_next
            &&& e2.connections[i].send_next == c.send_next.wrapping_add(seg.payload.len() as u32)
            &&& outs == seq![
                OutboundView {
                    key,
                    bytes: segment_for(e.local_ip, key, c.send_next, recv_next, (ACK | PSH), seg.payload),
                    retransmission: false,
                },
            ]
            &&& events == seq![EventView::Data(key, seg.payload)]
        }),
{
    lemma_find_at(e.connections, key_of(remote_ip, seg), i);
}

/// Data that is not the next expected on an established connection is only
/// acknowledged: nothing is taken, and the acknowledgment repeats what is expected.
pub proof fn lemma_out_of_order_data_is_only_acknowledged(e: EngineView, remote_ip: [u8; 4], seg: SegmentView, now: u64, i: int)
    requires
        keys_distinct(e.connections),
        0 <= i < e.connections.len(),
        e.connections[i].key == key_of(remote_ip, seg),
        e.connections[i].state == State::Established,
        seg.flags & RST == 0,
        seg.flags & FIN == 0,
        seg.payload.len() > 0,
        seg.sequence != e.connections[i].recv_next,
    ensures
        ({
            let (e2, outs, events) = handle_spec(e, remote_ip, seg, now);
            let c = e.connections[i];
            let key = key_of(remote_ip, seg);
            &&& e2.connections[i].recv_next == c.recv_next
            &&& e2.connections[i].send_next == c.send_next
            &&& outs == seq![
                OutboundView {
                    key,
                    bytes: segment_for(e.local_ip, key, c.send_next, c.recv_next, ACK, Seq::empty()),
                    retransmission: false,
                },
            ]
            &&& events.len() == 0
        }),
{
    lemma_find_at(e.connections, key_of(remote_ip, seg), i);
}

/// A FIN that follows the received data is acknowledged with a FIN of the engine's own,
/// and the connection waits for the last acknowledgment.
pub proof fn lemma_fin_is_answered(e: EngineView, remote_ip: [u8; 4], seg: SegmentView, now: u64, i: int)
    requires
        keys_distinct(e.connections),
        0 <= i < e.connections.len(),
        e.connections[i].key == key_of(remote_ip, seg),
        e.connections[i].state == State::Established,
        seg.flags & RST == 0,
        seg.flags & FIN != 0,
        seg.payload.len() == 0,
        seg.sequence == e.connections[i].recv_next,
    ensures
        ({
            let (e2, outs, events) = handle_spec(e, remote_ip, seg, now);
            let c = e.connections[i];
            let key = key_of(remote_ip, seg);
            &&& e2.connections[i].state == State::LastAck
            &&& e2.connections[i].send_next == c.send_next.wrapping_add(1)
            &&& outs == seq![
                OutboundView {
                    key,
                    bytes: segment_for(e.local_ip, key, c.send_next, c.recv_next.wrapping_add(1), (FIN | ACK), Seq::empty()),
                    retransmission: false,
                },
            ]
            &&& events.len() == 0
        }),
{
    lemma_find_at(e.connections, key_of(remote_ip, seg), i);
    assert(seg.sequence.wrapping_add(0u32) == seg.sequence);
}

/// In-order data that comes with a FIN on an established connection of an echo port is
/// reported and echoed back in one segment that carries the engine's FIN after the data:
/// it starts at the connection's next send sequence number, acknowledges the data and
/// the FIN, and is kept for retransmission; the connection waits for the last
/// acknowledgment, its next send sequence number past the echo and the FIN.
pub proof fn lemma_data_with_fin_is_echoed(e: EngineView, remote_ip: [u8; 4], seg: SegmentView, now: u64, i: int)
    requires
        keys_distinct(e.connections),
        0 <= i < e.connections.len(),
        e.connections[i].key == key_of(remote_ip, seg),
        e.connections[i].state == State::Established,
        !e.sink_ports.contains(seg.dst_port),
        seg.flags & RST == 0,
        seg.flags & FIN != 0,
        seg.payload.len() > 0,
        seg.sequence == e.connections[i].recv_next,
    ensures
        ({
            let (e2, outs, events) = handle_spec(e, remote_ip, seg, now);
            let c = e.connections[i];
            let key = key_of(remote_ip, seg);
            let len = seg.payload.len() as u32;
            let recv_next = c.recv_next.wrapping_add(len).wrapping_add(1);
            let send_next = c.send_next.wrapping_add(len).wrapping_add(1);
            &&& e2.connections[i].state == State::LastAck
            &&& e2.connections[i].recv_next == recv_next
            &&& e2.connections[i].send_next == send_next
            &&& e2.connections[i].outstanding.last() == (OutstandingView {
                sequence: c.send_next,
                end_sequence: c.send_next.wrapping_add(sequence_space((FIN | ACK | PSH), seg.payload.len())),
                flags: (FIN | ACK | PSH),
                payload: seg.payload,
                last_sent: now,
                retries: 0,
            })
            &&& outs == seq![
                OutboundView {
                    key,
                    bytes: segment_for(e.local_ip, key, c.send_next, recv_next, (FIN | ACK | PSH), seg.payload),
                    retransmission: false,
                },
            ]
            &&& events == seq![EventView::Data(key, seg.payload)]
        }),
{
    lemma_find_at(e.connections, key_of(remote_ip, seg), i);
    assert((FIN | ACK | PSH) & (SYN | FIN) != 0) by (bit_vector);
}

/// The acknowledgment of the engine's FIN closes the connection: it is removed and
/// reported closed.
pub proof fn lemma_last_ack_closes(e: EngineView, remote_ip: [u8; 4], seg: SegmentView, now: u64, i: int)
    requires
        keys_distinct(e.connections),
        0 <= i < e.connections.len(),
        e.connections[i].key == key_of(remote_ip, seg),
        e.connections[i].state == State::LastAck,
        seg.flags & RST == 0,
        seg.flags & ACK != 0,
        sequence_at_or_after(seg.acknowledgment, e.connections[i].send_next),
    ensures
        ({
            let (e2, outs, events) = handle_spec(e, remote_ip, seg, now);
            &&& e2.connections == e.connections.remove(i)
            &&& find(e2.connections, key_of(remote_ip, seg)) is None
            &&& outs.len() == 0
            &&& events == seq![EventView::Closed(key_of(remote_ip, seg))]
        }),
{
    let key = key_of(remote_ip, seg);
    lemma_find_at(e.connections, key, i);
    let rest = e.connections.remove(i);
    if exists|k: int| 0 <= k < rest.len() && rest[k].key == key {
        let k = choose|k: int| 0 <= k < rest.len() && rest[k].key == key;
        if k < i {
            assert(rest[k] == e.connections[k]);
        } else {
            assert(rest[k] == e.connections[k + 1]);
        }
    }
}

/// A reset closes its connection, if there is one, and reports it; nothing is sent.
pub proof fn lemma_reset_closes(e: EngineView, remote_ip: [u8; 4], seg: SegmentView, now: u64)
    requires
        keys_distinct(e.connections),
        seg.flags & RST != 0,
    ensures
        ({
            let (e2, outs, events) = handle_spec(e, remote_ip, seg, now);
            let key = key_of(remote_ip, seg);
            &&& find(e2.connections, key) is None
            &&& outs.len() == 0
            &&& events == if find(e.connections, key) is Some {
                seq![EventView::Reset(key)]
            } else {
                Seq::empty()
            }
        }),
{
    let key = key_of(remote_ip, seg);
    if let Some(i) = find(e.connections, key) {
        let rest = e.connections.remove(i);
        if exists|k: int| 0 <= k < rest.len() && rest[k].key == key {
            let k = choose|k: int| 0 <= k < rest.len() && rest[k].key == key;
            if k < i {
                assert(rest[k] == e.connections[k]);
            } else {
                assert(rest[k] == e.connections[k + 1]);
            }
        }
    }
}

/// On a sink port, a lone in-order segment without PSH is taken silently and its
/// acknowledgment held back from `now`.
pub proof fn lemma_sink_holds_back_ack(e: EngineView, remote_ip: [u8; 4], seg: SegmentView, now: u64, i: int)
    requires
        keys_distinct(e.connections),
        0 <= i < e.connections.len(),
        e.connections[i].key == key_of(remote_ip, seg),
        e.connections[i].state == State::Established,
        e.connections[i].ack_pending_since is None,
        e.sink_ports.contains(seg.dst_port),
        seg.flags & RST == 0,
        seg.flags & FIN == 0,
        seg.flags & PSH == 0,
        seg.payload.len() > 0,
        seg.sequence == e.connections[i].recv_next,
    ensures
        ({
            let (e2, outs, events) = handle_spec(e, remote_ip, seg, now);
            &&& e2.connections[i].recv_next == e.connections[i].recv_next.wrapping_add(seg.payload.len() as u32)
            &&& e2.connections[i].ack_pending_since == Some(now)
            &&& outs.len() == 0
            &&& events.len() == 0
        }),
{
    lemma_find_at(e.connections, key_of(remote_ip, seg), i);
}

/// On a sink port, an in-order segment that arrives while an acknowledgment is held
/// back is acknowledged at once, together with the held-back one.
pub proof fn lemma_sink_acks_second_segment(e: EngineView, remote_ip: [u8; 4], seg: SegmentView, now: u64, i: int)
    requires
        keys_distinct(e.connections),
        0 <= i < e.connections.len(),
        e.connections[i].key == key_of(remote_ip, seg),
        e.connections[i].state == State::Established,
        e.connections[i].ack_pending_since is Some,
        e.sink_ports.contains(seg.dst_port),
        seg.flags & RST == 0,
        seg.flags & FIN == 0,
        seg.payload.len() > 0,
        seg.sequence == e.connections[i].recv_next,
    ensures
        ({
            let (e2, outs, events) = handle_spec(e, remote_ip, seg, now);
            let c = e.connections[i];
            let key = key_of(remote_ip, seg);
            let recv_next = c.recv_next.wrapping_add(seg.payload.len() as u32);
            &&& e2.connections[i].recv_next == recv_next
            &&& e2.connections[i].ack_pending_since is None
            &&& outs == seq![
                OutboundView {
                    key,
                    bytes: segment_for(e.local_ip, key, c.send_next, recv_next, ACK, Seq::empty()),
                    retransmission: false,
                },
            ]
            &&& events.len() == 0
        }),
{
    lemma_find_at(e.connections, key_of(remote_ip, seg), i);
}

proof fn lemma_in_flight_nonneg(os: Seq<OutstandingView>)
    ensures
        in_flight(os) >= 0,
    decreases os.len(),
{
    if os.len() > 0 {
        lemma_in_flight_nonneg(os.drop_last());
    }
}

proof fn lemma_in_flight_push(os: Seq<OutstandingView>, o: OutstandingView)
    ensures
        in_flight(os.push(o)) == in_flight(os) + o.end_sequence.wrapping_sub(o.sequence),
{
    assert(os.push(o).drop_last() == os);
}

/// Sending data takes exactly its length from the send capacity.
pub proof fn lemma_send_consumes_capacity(e: EngineView, key: ConnectionKey, payload: Seq<u8>, now: u64)
    requires
        keys_distinct(e.connections),
        0 < payload.len() <= capacity_spec(e, key),
    ensures
        send_spec(e, key, payload, now).1 is Some,
        keys_distinct(send_spec(e, key, payload, now).0.connections),
        capacity_spec(send_spec(e, key, payload, now).0, key) == capacity_spec(e, key) - payload.len(),
{
    let i = find(e.connections, key)->0;
    let c = e.connections[i];
    let (e2, r) = send_spec(e, key, payload, now);
    let len = payload.len();
    lemma_in_flight_nonneg(c.outstanding);
    assert(len <= 0xffff);
    assert((ACK | PSH) & SYN == 0u16) by (bit_vector);
    assert((ACK | PSH) & FIN == 0u16) by (bit_vector);
    let c2 = e2.connections[i];
    let o = c2.outstanding.last();
    assert(c2.outstanding == c.outstanding.push(o));
    assert(o.end_sequence.wrapping_sub(o.sequence) == len);
    lemma_in_flight_push(c.outstanding, o);
    lemma_find_at(e2.connections, key, i);
}

proof fn lemma_all_acked(os: Seq<OutstandingView>, ack: u32)
    requires
        forall|j: int| 0 <= j < os.len() ==> sequence_at_or_after(ack, #[trigger] os[j].end_sequence),
    ensures
        unacked(os, ack).len() == 0,
    decreases os.len(),
{
    if os.len() > 0 {
        let rest = os.drop_last();
        assert forall|j: int| 0 <= j < rest.len() implies sequence_at_or_after(ack, #[trigger] rest[j].end_sequence) by {
            assert(rest[j] == os[j]);
        }
        lemma_all_acked(rest, ack);
        assert(sequence_at_or_after(ack, os[os.len() - 1].end_sequence));
    }
}

/// An acknowledgment that covers everything in flight on an established connection
/// gives back the whole window the peer advertises.
pub proof fn lemma_full_ack_restores_capacity(e: EngineView, remote_ip: [u8; 4], seg: SegmentView, now: u64, i: int)
    requires
        keys_distinct(e.connections),
        0 <= i < e.connections.len(),
        e.connections[i].key == key_of(remote_ip, seg),
        e.connections[i].state == State::Established,
        seg.flags & RST == 0,
        seg.flags & FIN == 0,
        seg.flags & ACK != 0,
        seg.payload.len() == 0,
        forall|j: int| 0 <= j < e.connections[i].outstanding.len() ==>
            sequence_at_or_after(seg.acknowledgment, #[trigger] e.connections[i].outstanding[j].end_sequence),
    ensures
        ({
            let (e2, outs, events) = handle_spec(e, remote_ip, seg, now);
            &&& capacity_spec(e2, key_of(remote_ip, seg)) == seg.window
            &&& outs.len() == 0
            &&& events.len() == 0
        }),
{
    let key = key_of(remote_ip, seg);
    lemma_find_at(e.connections, key, i);
    lemma_all_acked(e.connections[i].outstanding, seg.acknowledgment);
    let (e2, outs, events) = handle_spec(e, remote_ip, seg, now);
    assert(e2.connections[i].outstanding.len() == 0);
    assert(in_flight(e2.connections[i].outstanding) == 0);
    lemma_find_at(e2.connections, key, i);
}

proof fn lemma_backoff_positive(rto: u64, retries: u8)
    requires
        rto > 0,
    ensures
        backoff(rto, retries) > 0,
{
    assert(backoff_factor(retries) >= 1);
    assert(rto * backoff_factor(retries) >= rto) by (nonlinear_arith)
        requires
            backoff_factor(retries) >= 1,
            rto > 0,
    ;
}

proof fn lemma_retransmit_twice(
    local_ip: [u8; 4],
    c: ConnectionView,
    c2: ConnectionView,
    os: Seq<OutstandingView>,
    now: u64,
    rto: u64,
)
    requires
        rto > 0,
        c2.key == c.key,
        c2.recv_next == c.recv_next,
    ensures
        retransmit(local_ip, c2, retransmit(local_ip, c, os, now, rto).0, now, rto) == (
            retransmit(local_ip, c, os, now, rto).0,
            Seq::<OutboundView>::empty(),
        ),
    decreases os.len(),
{
    if os.len() > 0 {
        lemma_retransmit_twice(local_ip, c, c2, os.drop_last(), now, rto);
        let (done, outs) = retransmit(local_ip, c, os, now, rto);
        let (prev, _) = retransmit(local_ip, c, os.drop_last(), now, rto);
        assert(done.drop_last() == prev);
        let o = os.last();
        lemma_backoff_positive(rto, o.retries.saturating_add(1));
        assert(!due(done.last(), now, rto));
    }
}

/// Running the timers twice at the same instant sends nothing the second time and
/// changes nothing, when the retransmission timeout is positive.
pub proof fn lemma_tick_is_idempotent(local_ip: [u8; 4], cs: Seq<ConnectionView>, now: u64, rto: u64)
    requires
        rto > 0,
    ensures
        tick_all(local_ip, tick_all(local_ip, cs, now, rto).0, now, rto) == (
            tick_all(local_ip, cs, now, rto).0,
            Seq::<OutboundView>::empty(),
        ),
    decreases cs.len(),
{
    if cs.len() > 0 {
        lemma_tick_is_idempotent(local_ip, cs.drop_last(), now, rto);
        let (done, outs) = tick_all(local_ip, cs, now, rto);
        let (prev, _) = tick_all(local_ip, cs.drop_last(), now, rto);
        assert(done.drop_last() == prev);
        let c = cs.last();
        let (c1, _) = tick_connection(local_ip, c, now, rto);
        lemma_retransmit_twice(local_ip, c, c1, c.outstanding, now, rto);
        assert(tick_connection(local_ip, c1, now, rto) == (c1, Seq::<OutboundView>::empty()));
        assert(Seq::<OutboundView>::empty() + Seq::<OutboundView>::empty() =~= Seq::<OutboundView>::empty());
    }
}


/// The retransmission of the unacknowledged segment `o` on connection `key`, which
/// acknowledges `recv_next`.
#[verifier::opaque]
pub open spec fn retransmission_of(local_ip: [u8; 4], key: ConnectionKey, recv_next: u32, o: OutstandingView) -> OutboundView {
    OutboundView {
        key,
        bytes: segment_for(local_ip, key, o.sequence, recv_next, o.flags, o.payload),
        retransmission: true,
    }
}

/// The connections after the timers are run at each of `times` in turn.
pub open spec fn tick_all_at(local_ip: [u8; 4], cs: Seq<ConnectionView>, times: Seq<u64>, rto: u64) -> Seq<ConnectionView>
    decreases times.len(),
{
    if times.len() == 0 {
        cs
    } else {
        tick_all(local_ip, tick_all_at(local_ip, cs, times.drop_last(), rto), times.last(), rto).0
    }
}

/// The retransmission timeout after `n` retransmissions: `rto` times 2 to the power
/// `min(n, 5)`, saturating at the largest `u64`.
pub open spec fn timeout_after(rto: u64, n: nat) -> int {
    let t = rto * pow2(if n < 5 { n } else { 5 });
    if t > u64::MAX { u64::MAX as int } else { t as int }
}

/// The instants among `times` at which a segment first sent at `sent`, and never
/// acknowledged, is retransmitted: each time the timeout after the retransmissions so
/// far has run out since it was last sent.
pub open spec fn retransmission_times(sent: u64, times: Seq<u64>, rto: u64) -> Seq<u64>
    decreases times.len(),
{
    if times.len() == 0 {
        Seq::empty()
    } else {
        let rt = retransmission_times(sent, times.drop_last(), rto);
        let last = if rt.len() == 0 { sent } else { rt.last() };
        if elapsed(times.last(), last) >= timeout_after(rto, rt.len()) {
            rt.push(times.last())
        } else {
            rt
        }
    }
}

/// The unacknowledged segment `o` after it was retransmitted at the instants `rt`.
pub open spec fn after_retransmissions(o: OutstandingView, rt: Seq<u64>) -> OutstandingView {
    OutstandingView {
        last_sent: if rt.len() == 0 { o.last_sent } else { rt.last() },
        retries: if rt.len() < 255 { rt.len() as u8 } else { 255u8 },
        ..o
    }
}

/// The timeout a segment's retry count gives is the timeout after that many
/// retransmissions.
proof fn lemma_backoff_is_timeout(rto: u64, n: nat)
    ensures
        backoff(rto, if n < 255 { n as u8 } else { 255u8 }) == timeout_after(rto, n),
{
    lemma2_to64();
}

/// One run of the timers over unacknowledged segments: each keeps its place, and is
/// retransmitted (restarting its timer) exactly when it is due.
proof fn lemma_retransmit_at(local_ip: [u8; 4], c: ConnectionView, os: Seq<OutstandingView>, now: u64, rto: u64, j: int)
    requires
        0 <= j < os.len(),
    ensures
        retransmit(local_ip, c, os, now, rto).0.len() == os.len(),
        retransmit(local_ip, c, os, now, rto).0[j] == if due(os[j], now, rto) {
            OutstandingView { last_sent: now, retries: os[j].retries.saturating_add(1), ..os[j] }
        } else {
            os[j]
        },
        due(os[j], now, rto) ==> retransmit(local_ip, c, os, now, rto).1.contains(
            retransmission_of(local_ip, c.key, c.recv_next, os[j]),
        ),
    decreases os.len(),
{
    reveal(retransmission_of);
    lemma_retransmit_len(local_ip, c, os.drop_last(), now, rto);
    if j < os.len() - 1 {
        lemma_retransmit_at(local_ip, c, os.drop_last(), now, rto, j);
        let (_, outs) = retransmit(local_ip, c, os.drop_last(), now, rto);
        if due(os[j], now, rto) {
            let w = retransmission_of(local_ip, c.key, c.recv_next, os[j]);
            let k = choose|k: int| 0 <= k < outs.len() && outs[k] == w;
            let (_, outs2) = retransmit(local_ip, c, os, now, rto);
            assert(outs2[k] == w);
        }
    } else {
        let (_, outs2) = retransmit(local_ip, c, os, now, rto);
        if due(os[j], now, rto) {
            assert(outs2[outs2.len() - 1] == outs2.last());
        }
    }
}

/// Running the timers keeps the number of unacknowledged segments.
proof fn lemma_retransmit_len(local_ip: [u8; 4], c: ConnectionView, os: Seq<OutstandingView>, now: u64, rto: u64)
    ensures
        retransmit(local_ip, c, os, now, rto).0.len() == os.len(),
    decreases os.len(),
{
    if os.len() > 0 {
        lemma_retransmit_len(local_ip, c, os.drop_last(), now, rto);
    }
}

/// One run of the timers over all connections: connection `i` is the one it was after
/// its own timers ran, and what it sends is among what is sent.
proof fn lemma_tick_all_at_index(local_ip: [u8; 4], cs: Seq<ConnectionView>, now: u64, rto: u64, i: int)
    requires
        0 <= i < cs.len(),
    ensures
        tick_all(local_ip, cs, now, rto).0.len() == cs.len(),
        tick_all(local_ip, cs, now, rto).0[i] == tick_connection(local_ip, cs[i], now, rto).0,
        forall|x: OutboundView| tick_connection(local_ip, cs[i], now, rto).1.contains(x)
            ==> #[trigger] tick_all(local_ip, cs, now, rto).1.contains(x),
    decreases cs.len(),
{
    let (done, outs) = tick_all(local_ip, cs.drop_last(), now, rto);
    let more = tick_connection(local_ip, cs.last(), now, rto).1;
    if i < cs.len() - 1 {
        lemma_tick_all_at_index(local_ip, cs.drop_last(), now, rto, i);
        assert forall|x: OutboundView| tick_connection(local_ip, cs[i], now, rto).1.contains(x)
            implies #[trigger] tick_all(local_ip, cs, now, rto).1.contains(x) by {
            assert(outs.contains(x));
            let k = choose|k: int| 0 <= k < outs.len() && outs[k] == x;
            assert((outs + more)[k] == x);
        }
    } else {
        if cs.len() > 1 {
            lemma_tick_all_at_index(local_ip, cs.drop_last(), now, rto, 0);
        } else {
            assert(cs.drop_last().len() == 0);
        }
        assert forall|x: OutboundView| tick_connection(local_ip, cs[i], now, rto).1.contains(x)
            implies #[trigger] tick_all(local_ip, cs, now, rto).1.contains(x) by {
            let k = choose|k: int| 0 <= k < more.len() && more[k] == x;
            assert((outs + more)[outs.len() + k] == x);
        }
    }
}

/// Retransmission backs off across runs of the timers: a segment first sent at `sent`
/// and never acknowledged is retransmitted at the instants `retransmission_times`
/// gives, that is, by each run of the timers at which `rto * 2^min(n, 5)` (saturating)
/// has passed since it was last sent, `n` being the number of its retransmissions so
/// far; each of these runs sends it again, and its timer then counts `n` retransmissions
/// from the last of them.
pub proof fn lemma_retransmission_backs_off(
    local_ip: [u8; 4],
    cs: Seq<ConnectionView>,
    times: Seq<u64>,
    rto: u64,
    i: int,
    j: int,
)
    requires
        0 <= i < cs.len(),
        0 <= j < cs[i].outstanding.len(),
        cs[i].outstanding[j].retries == 0,
    ensures
        ({
            let o = cs[i].outstanding[j];
            let c = tick_all_at(local_ip, cs, times, rto)[i];
            &&& tick_all_at(local_ip, cs, times, rto).len() == cs.len()
            &&& c.key == cs[i].key
            &&& c.recv_next == cs[i].recv_next
            &&& c.outstanding.len() == cs[i].outstanding.len()
            &&& c.outstanding[j] == after_retransmissions(o, retransmission_times(o.last_sent, times, rto))
        }),
        forall|k: int|
            0 <= k < times.len() && #[trigger] retransmission_times(cs[i].outstanding[j].last_sent, times.take(k + 1), rto).len()
                > retransmission_times(cs[i].outstanding[j].last_sent, times.take(k), rto).len()
            ==> tick_all(local_ip, tick_all_at(local_ip, cs, times.take(k), rto), times[k], rto).1.contains(
                retransmission_of(local_ip, cs[i].key, cs[i].recv_next, cs[i].outstanding[j]),
            ),
    decreases times.len(),
{
    let o = cs[i].outstanding[j];
    if times.len() > 0 {
        let prev = times.drop_last();
        lemma_retransmission_backs_off(local_ip, cs, prev, rto, i, j);
        lemma_tick_step(local_ip, cs, prev, times.last(), rto, i, j);
        assert(prev.push(times.last()) == times);
        assert forall|k: int|
            0 <= k < times.len() && #[trigger] retransmission_times(o.last_sent, times.take(k + 1), rto).len()
                > retransmission_times(o.last_sent, times.take(k), rto).len()
            implies tick_all(local_ip, tick_all_at(local_ip, cs, times.take(k), rto), times[k], rto).1.contains(
                retransmission_of(local_ip, cs[i].key, cs[i].recv_next, o),
            ) by {
            if k < times.len() - 1 {
                assert(prev.take(k + 1) == times.take(k + 1));
                assert(prev.take(k) == times.take(k));
                assert(prev[k] == times[k]);
            } else {
                assert(times.take(k + 1) == times);
                assert(times.take(k) == prev);
            }
        }
    }
}

/// One more run of the timers, at `now`, after runs at `times`.
proof fn lemma_tick_step(local_ip: [u8; 4], cs: Seq<ConnectionView>, times: Seq<u64>, now: u64, rto: u64, i: int, j: int)
    requires
        0 <= i < cs.len(),
        0 <= j < cs[i].outstanding.len(),
        ({
            let o = cs[i].outstanding[j];
            let c = tick_all_at(local_ip, cs, times, rto)[i];
            &&& tick_all_at(local_ip, cs, times, rto).len() == cs.len()
            &&& c.key == cs[i].key
            &&& c.recv_next == cs[i].recv_next
            &&& c.outstanding.len() == cs[i].outstanding.len()
            &&& c.outstanding[j] == after_retransmissions(o, retransmission_times(o.last_sent, times, rto))
        }),
    ensures
        ({
            let o = cs[i].outstanding[j];
            let all = times.push(now);
            let c = tick_all_at(local_ip, cs, all, rto)[i];
            &&& tick_all_at(local_ip, cs, all, rto).len() == cs.len()
            &&& c.key == cs[i].key
            &&& c.recv_next == cs[i].recv_next
            &&& c.outstanding.len() == cs[i].outstanding.len()
            &&& c.outstanding[j] == after_retransmissions(o, retransmission_times(o.last_sent, all, rto))
            &&& retransmission_times(o.last_sent, all, rto).len() > retransmission_times(o.last_sent, times, rto).len()
                ==> tick_all(local_ip, tick_all_at(local_ip, cs, times, rto), now, rto).1.contains(
                    retransmission_of(local_ip, cs[i].key, cs[i].recv_next, o),
                )
        }),
{
    let o = cs[i].outstanding[j];
    let all = times.push(now);
    assert(all.drop_last() == times);
    assert(all.last() == now);
    let before = tick_all_at(local_ip, cs, times, rto);
    let c = before[i];
    lemma_tick_all_at_index(local_ip, before, now, rto, i);
    lemma_retransmit_at(local_ip, c, c.outstanding, now, rto, j);
    let rt = retransmission_times(o.last_sent, times, rto);
    lemma_backoff_is_timeout(rto, rt.len());
    let cur = c.outstanding[j];
    assert(cur.last_sent == if rt.len() == 0 { o.last_sent } else { rt.last() });
    assert(due(cur, now, rto) == (elapsed(now, cur.last_sent) >= timeout_after(rto, rt.len())));
    let rt2 = retransmission_times(o.last_sent, all, rto);
    if due(cur, now, rto) {
        assert(rt2 == rt.push(now));
        assert(cur.retries.saturating_add(1) == if rt2.len() < 255 { rt2.len() as u8 } else { 255u8 });
        let w = retransmission_of(local_ip, cs[i].key, cs[i].recv_next, o);
        assert(retransmission_of(local_ip, c.key, c.recv_next, cur) == w) by {
            reveal(retransmission_of);
        }
        let outs_r = retransmit(local_ip, c, c.outstanding, now, rto).1;
        let outs_t = tick_connection(local_ip, c, now, rto).1;
        let k = choose|k: int| 0 <= k < outs_r.len() && outs_r[k] == w;
        assert(outs_t[k] == w);
        assert(outs_t.contains(w));
    } else {
        assert(rt2 == rt);
    }
}


/// New segments tile the sequence space: whatever an existing connection answers a
/// segment with starts at its next send sequence number, which then moves just past the
/// answer (its payload, plus one for a FIN), and stays put when nothing is sent; and
/// data reported on an echo port is sent back in the answer.
pub proof fn lemma_answers_tile_sequence_space(c: ConnectionView, sink: bool, seg: SegmentView, now: u64)
    ensures
        ({
            let st = step(c, sink, seg, now);
            &&& match st.response {
                Some(r) => {
                    &&& r.sequence == c.send_next
                    &&& st.conn.send_next == r.sequence.wrapping_add(sequence_space(r.flags, r.payload.len()))
                },
                None => st.conn.send_next == c.send_next,
            }
            &&& forall|k: int|
                0 <= k < st.events.len() && !sink ==> (#[trigger] st.events[k] matches EventView::Data(_, d) ==> (
                    st.response matches Some(r) && r.payload == d))
        }),
{
    let len = seg.payload.len() as u32;
    assert((ACK | PSH) & SYN == 0 && (ACK | PSH) & FIN == 0) by (bit_vector);
    assert((FIN | ACK | PSH) & SYN == 0 && (FIN | ACK | PSH) & FIN != 0) by (bit_vector);
    assert((FIN | ACK) & SYN == 0 && (FIN | ACK) & FIN != 0) by (bit_vector);
    assert(ACK & SYN == 0 && ACK & FIN == 0) by (bit_vector);
    assert(len.wrapping_add(0u32).wrapping_add(0u32) == len);
    assert(len.wrapping_add(0u32).wrapping_add(1u32) == len.wrapping_add(1u32));
    assert(c.send_next.wrapping_add(len).wrapping_add(1u32) == c.send_next.wrapping_add(len.wrapping_add(1u32)));
    assert(c.send_next.wrapping_add(0u32) == c.send_next);
    assert(0u32.wrapping_add(0u32).wrapping_add(0u32) == 0u32);
    assert(0u32.wrapping_add(0u32).wrapping_add(1u32) == 1u32);
}


/// Whether the acknowledgment number `ack` reaches the end of the segment `o`.
pub open spec fn acknowledged_by(ack: u32, o: OutstandingView) -> bool {
    (ack.wrapping_sub(o.end_sequence) as int) < 0x8000_0000
}

/// An acknowledgment removes exactly the segments whose end it reaches, and keeps the
/// others in the order they were sent.
pub proof fn lemma_ack_removes_exactly_the_acknowledged(os: Seq<OutstandingView>, ack: u32)
    ensures
        unacked(os, ack) == os.filter(|o: OutstandingView| !acknowledged_by(ack, o)),
        forall|k: int| 0 <= k < os.len() && !acknowledged_by(ack, #[trigger] os[k]) ==> unacked(os, ack).contains(os[k]),
        forall|o: OutstandingView| #[trigger] unacked(os, ack).contains(o) ==> os.contains(o) && !acknowledged_by(ack, o),
    decreases os.len(),
{
    reveal(Seq::filter);
    let pred = |o: OutstandingView| !acknowledged_by(ack, o);
    if os.len() > 0 {
        let rest = os.drop_last();
        lemma_ack_removes_exactly_the_acknowledged(rest, ack);
        assert(unacked(os, ack) == os.filter(pred));
        assert forall|o: OutstandingView| #[trigger] unacked(os, ack).contains(o) implies os.contains(o) && !acknowledged_by(ack, o) by {
            let u = unacked(os, ack);
            let j = choose|j: int| 0 <= j < u.len() && u[j] == o;
            if j < unacked(rest, ack).len() {
                assert(unacked(rest, ack)[j] == o);
                assert(unacked(rest, ack).contains(o));
                let m = choose|m: int| 0 <= m < rest.len() && rest[m] == o;
                assert(os[m] == o);
            } else {
                assert(o == os.last());
                assert(os[os.len() - 1] == o);
            }
        }
    } else {
        assert(unacked(os, ack) == os.filter(pred));
    }
    os.filter_lemma(pred);
    assert forall|k: int| 0 <= k < os.len() && !acknowledged_by(ack, #[trigger] os[k]) implies unacked(os, ack).contains(os[k]) by {
        lemma_filter_keeps(os, pred, k);
    }
}

/// A filter keeps every element that passes it.
proof fn lemma_filter_keeps(os: Seq<OutstandingView>, pred: spec_fn(OutstandingView) -> bool, k: int)
    requires
        0 <= k < os.len(),
        pred(os[k]),
    ensures
        os.filter(pred).contains(os[k]),
    decreases os.len(),
{
    reveal(Seq::filter);
    let sub = os.drop_last().filter(pred);
    if k < os.len() - 1 {
        assert(os.drop_last()[k] == os[k]);
        lemma_filter_keeps(os.drop_last(), pred, k);
        let j = choose|j: int| 0 <= j < sub.len() && sub[j] == os[k];
        if pred(os.last()) {
            assert(sub.push(os.last())[j] == os[k]);
        }
    } else {
        assert(sub.push(os.last())[sub.len() as int] == os[k]);
    }
}

/// A segment with an acknowledgment, on a connection that stays, leaves outstanding the
/// segments the acknowledgment does not reach, in order, followed by at most the one new
/// segment sent in answer.
pub proof fn lemma_ack_keeps_unacknowledged_segments(e: EngineView, remote_ip: [u8; 4], seg: SegmentView, now: u64, i: int)
    requires
        keys_distinct(e.connections),
        0 <= i < e.connections.len(),
        e.connections[i].key == key_of(remote_ip, seg),
        seg.flags & RST == 0,
        seg.flags & ACK != 0,
        handle_spec(e, remote_ip, seg, now).0.connections.len() == e.connections.len(),
    ensures
        ({
            let kept = e.connections[i].outstanding.filter(|o: OutstandingView| !acknowledged_by(seg.acknowledgment, o));
            let after = handle_spec(e, remote_ip, seg, now).0.connections[i].outstanding;
            &&& after.take(kept.len() as int) == kept
            &&& after.len() <= kept.len() + 1
            &&& forall|k: int| 0 <= k < e.connections[i].outstanding.len()
                && !acknowledged_by(seg.acknowledgment, #[trigger] e.connections[i].outstanding[k])
                ==> after.contains(e.connections[i].outstanding[k])
        }),
{
    let c = e.connections[i];
    lemma_find_at(e.connections, key_of(remote_ip, seg), i);
    lemma_ack_removes_exactly_the_acknowledged(c.outstanding, seg.acknowledgment);
    let kept = c.outstanding.filter(|o: OutstandingView| !acknowledged_by(seg.acknowledgment, o));
    let after = handle_spec(e, remote_ip, seg, now).0.connections[i].outstanding;
    assert(after.take(kept.len() as int) == kept);
    assert forall|k: int| 0 <= k < c.outstanding.len() && !acknowledged_by(seg.acknowledgment, #[trigger] c.outstanding[k])
        implies after.contains(c.outstanding[k]) by {
        let j = choose|j: int| 0 <= j < kept.len() && kept[j] == c.outstanding[k];
        assert(after[j] == kept[j]);
    }
}

/// Only an established connection takes data: with no connection for `key`, or one that
/// is not established, the send capacity is zero and a send does nothing.
pub proof fn lemma_only_established_takes_data(e: EngineView, key: ConnectionKey, payload: Seq<u8>, now: u64)
    requires
        match find(e.connections, key) {
            Some(i) => e.connections[i].state != State::Established,
            None => true,
        },
    ensures
        capacity_spec(e, key) == 0,
        send_spec(e, key, payload, now) == (e, Option::<OutboundView>::None),
{
}

/// A connection waiting for the acknowledgment of its FIN stays, silent, until a segment
/// acknowledges everything it sent: a segment without an acknowledgment that reaches
/// its next send sequence number sends nothing, reports nothing, and leaves the
/// connection in place in LastAck.
pub proof fn lemma_last_ack_waits_for_fin_ack(e: EngineView, remote_ip: [u8; 4], seg: SegmentView, now: u64, i: int)
    requires
        keys_distinct(e.connections),
        0 <= i < e.connections.len(),
        e.connections[i].key == key_of(remote_ip, seg),
        e.connections[i].state == State::LastAck,
        seg.flags & RST == 0,
        seg.flags & ACK == 0 || (seg.acknowledgment.wrapping_sub(e.connections[i].send_next) as int) >= 0x8000_0000,
    ensures
        ({
            let (e2, outs, events) = handle_spec(e, remote_ip, seg, now);
            &&& e2.connections.len() == e.connections.len()
            &&& find(e2.connections, key_of(remote_ip, seg)) == Some(i)
            &&& e2.connections[i].state == State::LastAck
            &&& e2.connections[i].send_next == e.connections[i].send_next
            &&& e2.connections[i].recv_next == e.connections[i].recv_next
            &&& outs.len() == 0
            &&& events.len() == 0
        }),
{
    let key = key_of(remote_ip, seg);
    lemma_find_at(e.connections, key, i);
    let e2 = handle_spec(e, remote_ip, seg, now).0;
    assert(e2.connections[i].key == key);
    assert forall|a: int, b: int| 0 <= a < e2.connections.len() && 0 <= b < e2.connections.len() && a != b
        implies e2.connections[a].key != e2.connections[b].key by {
        assert(e.connections[a].key != e.connections[b].key);
    }
    lemma_find_at(e2.connections, key, i);
}

/// A held-back acknowledgment whose delay has run out is sent by the timers as a bare
/// ACK from the local port to the peer's, whose sequence number is the connection's
/// next send sequence number and whose acknowledgment is its next receive sequence
/// number; it is no retransmission, and nothing is held back afterwards. Without a
/// held-back acknowledgment the timers send only retransmissions.
pub proof fn lemma_held_back_ack_is_sent(local_ip: [u8; 4], c: ConnectionView, now: u64, rto: u64)
    ensures
        ({
            let (c2, outs) = tick_connection(local_ip, c, now, rto);
            &&& c2.send_next == c.send_next
            &&& c2.recv_next == c.recv_next
            &&& (c.ack_pending_since matches Some(t) && elapsed(now, t) >= DELAYED_ACK_TIMEOUT) ==> {
                let b = outs.last().bytes;
                &&& outs.len() > 0
                &&& outs.last().key == c.key
                &&& !outs.last().retransmission
                &&& is_segment(local_ip, c.key.remote_ip, b)
                &&& be16_at(b, 0) == c.key.local_port
                &&& be16_at(b, 2) == c.key.remote_port
                &&& be32_at(b, 4) == c.send_next
                &&& be32_at(b, 8) == c.recv_next
                &&& flags_of(b) == ACK
                &&& data_offset_of(b) == 20
                &&& b.len() == 20
                &&& c2.ack_pending_since is None
            }
            &&& c.ack_pending_since is None ==> forall|k: int| 0 <= k < outs.len() ==> (#[trigger] outs[k]).retransmission
        }),
{
    lemma_retransmit_all_retransmissions(local_ip, c, c.outstanding, now, rto);
    lemma_parse_serialize(
        local_ip,
        c.key.remote_ip,
        c.key.local_port,
        c.key.remote_port,
        c.send_next,
        c.recv_next,
        ACK,
        ADVERTISED_WINDOW,
        Seq::empty(),
    );
    let b = segment_for(local_ip, c.key, c.send_next, c.recv_next, ACK, Seq::empty());
    assert(ACK % 0x200 == ACK);
    assert(b.subrange(20, b.len() as int).len() == 0);
}

/// The timers' retransmissions are all marked as such.
proof fn lemma_retransmit_all_retransmissions(local_ip: [u8; 4], c: ConnectionView, os: Seq<OutstandingView>, now: u64, rto: u64)
    ensures
        forall|k: int| 0 <= k < retransmit(local_ip, c, os, now, rto).1.len()
            ==> (#[trigger] retransmit(local_ip, c, os, now, rto).1[k]).retransmission,
    decreases os.len(),
{
    if os.len() > 0 {
        lemma_retransmit_all_retransmissions(local_ip, c, os.drop_last(), now, rto);
        let prev = retransmit(local_ip, c, os.drop_last(), now, rto).1;
        let outs = retransmit(local_ip, c, os, now, rto).1;
        assert forall|k: int| 0 <= k < outs.len() implies (#[trigger] outs[k]).retransmission by {
            if k < prev.len() {
                assert(outs[k] == prev[k]);
            }
        }
    }
}

} // verus!
