//! TCP segments and the passive-open connection engine.
use vstd::prelude::*;
use crate::bytes::{
    be16_at, be32_at, u16_bytes, u32_bytes, read_be16, read_be32, push_be16, push_be32, push_all,
    lemma_u16_bytes_roundtrip, lemma_u32_bytes_roundtrip,
};
use crate::checksum::{pseudo_header, pseudo_header_spec, pseudo_sum, lemma_checksum_field};

pub mod engine;
pub mod properties;

pub use engine::Engine;

verus! {

pub const FIN: u16 = 0x001;
pub const SYN: u16 = 0x002;
pub const RST: u16 = 0x004;
pub const PSH: u16 = 0x008;
pub const ACK: u16 = 0x010;

/// A parsed segment; the payload borrows from the received bytes.
#[derive(Debug, Clone, PartialEq, Eq)]
pub struct Segment<'a> {
    pub src_port: u16,
    pub dst_port: u16,
    pub sequence: u32,
    pub acknowledgment: u32,
    pub flags: u16,
    pub window: u16,
    pub payload: &'a [u8],
}

/// The header length in bytes that the data-offset field announces.
pub open spec fn data_offset_of(b: Seq<u8>) -> int {
    (b[12] / 16) as int * 4
}

/// Whether `b`, received from `src` for `dst`, is a segment: a full header, a correct
/// checksum, and a data offset within the bytes.
pub open spec fn is_segment(src: [u8; 4], dst: [u8; 4], b: Seq<u8>) -> bool {
    &&& b.len() >= 20
    &&& pseudo_header_spec(src, dst, 6, b) == 0
    &&& 20 <= data_offset_of(b) <= b.len()
}

/// The nine flag bits (NS and the eight in byte 13) of a header.
pub open spec fn flags_of(b: Seq<u8>) -> u16 {
    ((b[12] % 2) as nat * 256 + b[13] as nat) as u16
}

/// A 20-byte header with the given checksum field, followed by the payload.
pub open spec fn segment_with(
    src_port: u16,
    dst_port: u16,
    sequence: u32,
    acknowledgment: u32,
    flags: u16,
    window: u16,
    checksum: u16,
    payload: Seq<u8>,
) -> Seq<u8> {
    u16_bytes(src_port) + u16_bytes(dst_port) + u32_bytes(sequence) + u32_bytes(acknowledgment)
        + seq![(0x50 + flags / 256 % 2) as u8, (flags % 256) as u8] + u16_bytes(window)
        + u16_bytes(checksum) + seq![0u8, 0u8] + payload
}

/// The wire bytes of a segment sent from `src_ip` to `dst_ip`, with its checksum filled in.
pub open spec fn segment_bytes(
    src_ip: [u8; 4],
    dst_ip: [u8; 4],
    src_port: u16,
    dst_port: u16,
    sequence: u32,
    acknowledgment: u32,
    flags: u16,
    window: u16,
    payload: Seq<u8>,
) -> Seq<u8> {
    segment_with(
        src_port,
        dst_port,
        sequence,
        acknowledgment,
        flags,
        window,
        pseudo_header_spec(
            src_ip,
            dst_ip,
            6,
            segment_with(src_port, dst_port, sequence, acknowledgment, flags, window, 0, payload),
        ),
        payload,
    )
}

impl<'a> Segment<'a> {
    /// Parses a segment sent from `src` to `dst`; options are skipped.
    pub fn parse(src: [u8; 4], dst: [u8; 4], bytes: &'a [u8]) -> (r: Option<Self>)
        ensures
            r is Some <==> is_segment(src, dst, bytes@),
            r matches Some(s) ==> {
                &&& s.src_port == be16_at(bytes@, 0)
                &&& s.dst_port == be16_at(bytes@, 2)
                &&& s.sequence == be32_at(bytes@, 4)
                &&& s.acknowledgment == be32_at(bytes@, 8)
                &&& s.flags == flags_of(bytes@)
                &&& s.window == be16_at(bytes@, 14)
                &&& s.payload@ == bytes@.subrange(data_offset_of(bytes@), bytes@.len() as int)
            },
    {
        if bytes.len() < 20 || pseudo_header(src, dst, 6, bytes) != 0 {
            return None;
        }
        let header_len = ((bytes[12] / 16) as usize) * 4;
        if header_len < 20 || header_len > bytes.len() {
            return None;
        }
        Some(Segment {
            src_port: read_be16(bytes, 0),
            dst_port: read_be16(bytes, 2),
            sequence: read_be32(bytes, 4),
            acknowledgment: read_be32(bytes, 8),
            flags: ((bytes[12] % 2) as u16) * 256 + (bytes[13] as u16),
            window: read_be16(bytes, 14),
            payload: &bytes[header_len..bytes.len()],
        })
    }
}

/// Builds a segment with a 20-byte header and fills in its checksum.
pub fn serialize(
    src_ip: [u8; 4],
    dst_ip: [u8; 4],
    src_port: u16,
    dst_port: u16,
    sequence: u32,
    acknowledgment: u32,
    flags: u16,
    window: u16,
    payload: &[u8],
) -> (bytes: Vec<u8>)
    ensures
        bytes@ == segment_bytes(
            src_ip,
            dst_ip,
            src_port,
            dst_port,
            sequence,
            acknowledgment,
            flags,
            window,
            payload@,
        ),
{
    let mut bytes: Vec<u8> = Vec::new();
    push_be16(&mut bytes, src_port);
    push_be16(&mut bytes, dst_port);
    push_be32(&mut bytes, sequence);
    push_be32(&mut bytes, acknowledgment);
    bytes.push((0x50 + flags / 256 % 2) as u8);
    bytes.push((flags % 256) as u8);
    push_be16(&mut bytes, window);
    bytes.push(0);
    bytes.push(0);
    bytes.push(0);
    bytes.push(0);
    push_all(&mut bytes, payload);
    assert(bytes@ =~= segment_with(
        src_port,
        dst_port,
        sequence,
        acknowledgment,
        flags,
        window,
        0,
        payload@,
    ));
    let sum = pseudo_header(src_ip, dst_ip, 6, bytes.as_slice());
    bytes.set(16, (sum / 256) as u8);
    bytes.set(17, (sum % 256) as u8);
    assert(bytes@ =~= segment_with(
        src_port,
        dst_port,
        sequence,
        acknowledgment,
        flags,
        window,
        sum,
        payload@,
    ));
    bytes
}

/// What a segment carries, as plain values.
pub struct SegmentView {
    pub src_port: u16,
    pub dst_port: u16,
    pub sequence: u32,
    pub acknowledgment: u32,
    pub flags: u16,
    pub window: u16,
    pub payload: Seq<u8>,
}

impl<'a> View for Segment<'a> {
    type V = SegmentView;

    open spec fn view(&self) -> SegmentView {
        SegmentView {
            src_port: self.src_port,
            dst_port: self.dst_port,
            sequence: self.sequence,
            acknowledgment: self.acknowledgment,
            flags: self.flags,
            window: self.window,
            payload: self.payload@,
        }
    }
}

/// Identifies a connection by the peer's address and port and the local port.
#[derive(Debug, Clone, Copy, Hash, PartialEq, Eq)]
pub struct ConnectionKey {
    pub remote_ip: [u8; 4],
    pub remote_port: u16,
    pub local_port: u16,
}

/// Whether two keys are equal.
pub fn same_key(a: &ConnectionKey, b: &ConnectionKey) -> (r: bool)
    ensures
        r == (*a == *b),
{
    let r = a.remote_port == b.remote_port && a.local_port == b.local_port && a.remote_ip[0]
        == b.remote_ip[0] && a.remote_ip[1] == b.remote_ip[1] && a.remote_ip[2] == b.remote_ip[2]
        && a.remote_ip[3] == b.remote_ip[3];
    proof {
        if r {
            assert(a.remote_ip =~= b.remote_ip);
        }
    }
    r
}

/// The states a passively opened connection goes through.
#[derive(Debug, Clone, Copy, PartialEq, Eq)]
pub enum State {
    SynReceived,
    Established,
    LastAck,
}

/// What the engine reports to the application.
#[derive(Debug, Clone, PartialEq, Eq)]
pub enum Event {
    Established(ConnectionKey),
    Data(ConnectionKey, Vec<u8>),
    Closed(ConnectionKey),
    Reset(ConnectionKey),
}

/// An event, with its data as a sequence.
pub enum EventView {
    Established(ConnectionKey),
    Data(ConnectionKey, Seq<u8>),
    Closed(ConnectionKey),
    Reset(ConnectionKey),
}

impl View for Event {
    type V = EventView;

    open spec fn view(&self) -> EventView {
        match self {
            Event::Established(k) => EventView::Established(*k),
            Event::Data(k, d) => EventView::Data(*k, d@),
            Event::Closed(k) => EventView::Closed(*k),
            Event::Reset(k) => EventView::Reset(*k),
        }
    }
}

/// The views of a list of events.
pub open spec fn events_view(v: Seq<Event>) -> Seq<EventView> {
    v.map_values(|e: Event| e@)
}

/// A segment for the network layer to send to the key's peer.
#[derive(Debug, Clone)]
pub struct Outbound {
    pub key: ConnectionKey,
    pub bytes: Vec<u8>,
    pub retransmission: bool,
}

/// An outbound segment, with its bytes as a sequence.
pub struct OutboundView {
    pub key: ConnectionKey,
    pub bytes: Seq<u8>,
    pub retransmission: bool,
}

impl View for Outbound {
    type V = OutboundView;

    open spec fn view(&self) -> OutboundView {
        OutboundView { key: self.key, bytes: self.bytes@, retransmission: self.retransmission }
    }
}

/// The views of a list of outbound segments.
pub open spec fn outbounds_view(v: Seq<Outbound>) -> Seq<OutboundView> {
    v.map_values(|o: Outbound| o@)
}

/// A segment sent from `src_ip` to `dst_ip` parses at `dst_ip` as coming from `src_ip`,
/// with the fields it was sent with (of the flags, the nine bits a header holds).
pub proof fn lemma_parse_serialize(
    src_ip: [u8; 4],
    dst_ip: [u8; 4],
    src_port: u16,
    dst_port: u16,
    sequence: u32,
    acknowledgment: u32,
    flags: u16,
    window: u16,
    payload: Seq<u8>,
)
    ensures
        ({
            let b = segment_bytes(
                src_ip,
                dst_ip,
                src_port,
                dst_port,
                sequence,
                acknowledgment,
                flags,
                window,
                payload,
            );
            &&& is_segment(src_ip, dst_ip, b)
            &&& be16_at(b, 0) == src_port
            &&& be16_at(b, 2) == dst_port
            &&& be32_at(b, 4) == sequence
            &&& be32_at(b, 8) == acknowledgment
            &&& flags_of(b) == flags % 0x200
            &&& be16_at(b, 14) == window
            &&& data_offset_of(b) == 20
            &&& b.subrange(data_offset_of(b), b.len() as int) == payload
        }),
{
    let pre = u16_bytes(src_port) + u16_bytes(dst_port) + u32_bytes(sequence) + u32_bytes(
        acknowledgment,
    ) + seq![(0x50 + flags / 256 % 2) as u8, (flags % 256) as u8] + u16_bytes(window);
    let post = seq![0u8, 0u8] + payload;
    let zero_form = segment_with(src_port, dst_port, sequence, acknowledgment, flags, window, 0, payload);
    let c = pseudo_header_spec(src_ip, dst_ip, 6, zero_form);
    let b = segment_bytes(src_ip, dst_ip, src_port, dst_port, sequence, acknowledgment, flags, window, payload);
    assert(zero_form =~= pre + seq![0u8, 0u8] + post);
    assert(b =~= pre + u16_bytes(c) + post);
    lemma_checksum_field(pre, post, pseudo_sum(src_ip, dst_ip, 6, zero_form.len()));
    lemma_u16_bytes_roundtrip(src_port);
    lemma_u16_bytes_roundtrip(dst_port);
    lemma_u32_bytes_roundtrip(sequence);
    lemma_u32_bytes_roundtrip(acknowledgment);
    lemma_u16_bytes_roundtrip(window);
    assert(be16_at(b, 0) == be16_at(u16_bytes(src_port), 0));
    assert(be16_at(b, 2) == be16_at(u16_bytes(dst_port), 0));
    assert(be32_at(b, 4) == be32_at(u32_bytes(sequence), 0));
    assert(be32_at(b, 8) == be32_at(u32_bytes(acknowledgment), 0));
    assert(be16_at(b, 14) == be16_at(u16_bytes(window), 0));
    assert(b.subrange(20, b.len() as int) =~= payload);
    assert(flags / 256 % 2 * 256 + flags % 256 == flags % 0x200);
}

} // verus!
