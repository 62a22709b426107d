//! IPv4 packets without options in what this stack sends, and without fragmentation.
use vstd::prelude::*;
use crate::bytes::{ip_at, lemma_ip_at, read_ip, be16_at, u16_bytes, read_be16, push_be16, push_all, lemma_u16_bytes_roundtrip};
use crate::checksum::{internet, internet_spec, lemma_checksum_field};

verus! {

pub const PROTOCOL_ICMP: u8 = 1;
pub const PROTOCOL_TCP: u8 = 6;
pub const PROTOCOL_UDP: u8 = 17;

/// The largest payload that fits a packet with a 20-byte header.
pub const MAX_PAYLOAD: usize = 65515;

/// A parsed packet; the payload borrows from the received bytes.
#[derive(Debug, Clone, PartialEq, Eq)]
pub struct Packet<'a> {
    pub dscp_ecn: u8,
    pub identification: u16,
    pub flags_fragment: u16,
    pub ttl: u8,
    pub protocol: u8,
    pub src: [u8; 4],
    pub dst: [u8; 4],
    pub payload: &'a [u8],
}

/// Why a packet was rejected.
#[derive(Debug, Clone, Copy, PartialEq, Eq, Structural)]
pub enum ParseError {
    Truncated,
    Version,
    HeaderLength,
    TotalLength,
    Checksum,
    Fragmented,
}

/// The header length in bytes that the first byte announces.
pub open spec fn header_len_of(b: Seq<u8>) -> int {
    (b[0] % 16) as int * 4
}

/// The first check that `b` fails, in the order the parser makes them, or `None`.
pub open spec fn parse_error(b: Seq<u8>) -> Option<ParseError> {
    if b.len() < 20 {
        Some(ParseError::Truncated)
    } else if b[0] / 16 != 4 {
        Some(ParseError::Version)
    } else if header_len_of(b) < 20 || b.len() < header_len_of(b) {
        Some(ParseError::HeaderLength)
    } else if be16_at(b, 2) < header_len_of(b) || be16_at(b, 2) > b.len() {
        Some(ParseError::TotalLength)
    } else if internet_spec(b.subrange(0, header_len_of(b))) != 0 {
        Some(ParseError::Checksum)
    } else if be16_at(b, 6) % 0x4000 != 0 {
        Some(ParseError::Fragmented)
    } else {
        None
    }
}

/// The payload of a valid packet: from the end of the header to the total length.
pub open spec fn payload_of(b: Seq<u8>) -> Seq<u8> {
    b.subrange(header_len_of(b), be16_at(b, 2) as int)
}

/// A 20-byte header with version 4, IHL 5, DSCP/ECN 0, the don't-fragment flag,
/// TTL 64 and the given checksum field.
pub open spec fn header_bytes(
    total: u16,
    identification: u16,
    protocol: u8,
    checksum: u16,
    src: [u8; 4],
    dst: [u8; 4],
) -> Seq<u8> {
    seq![0x45u8, 0u8] + u16_bytes(total) + u16_bytes(identification) + seq![
        0x40u8,
        0u8,
        64u8,
        protocol,
    ] + u16_bytes(checksum) + src@ + dst@
}

/// The header this stack sends, with its checksum filled in.
pub open spec fn sent_header(
    src: [u8; 4],
    dst: [u8; 4],
    protocol: u8,
    identification: u16,
    payload_len: nat,
) -> Seq<u8> {
    let total = (20 + payload_len) as u16;
    header_bytes(
        total,
        identification,
        protocol,
        internet_spec(header_bytes(total, identification, protocol, 0, src, dst)),
        src,
        dst,
    )
}

/// The wire bytes of a packet this stack sends.
pub open spec fn packet_bytes(
    src: [u8; 4],
    dst: [u8; 4],
    protocol: u8,
    identification: u16,
    payload: Seq<u8>,
) -> Seq<u8> {
    sent_header(src, dst, protocol, identification, payload.len()) + payload
}

impl<'a> Packet<'a> {
    /// Parses a packet, checking version, lengths, header checksum and fragmentation;
    /// the payload is cut at the total length.
    pub fn parse(bytes: &'a [u8]) -> (r: Result<Self, ParseError>)
        ensures
            match r {
                Err(e) => parse_error(bytes@) == Some(e),
                Ok(p) => {
                    &&& parse_error(bytes@) is None
                    &&& p.dscp_ecn == bytes@[1]
                    &&& p.identification == be16_at(bytes@, 4)
                    &&& p.flags_fragment == be16_at(bytes@, 6)
                    &&& p.ttl == bytes@[8]
                    &&& p.protocol == bytes@[9]
                    &&& p.src == ip_at(bytes@, 12)
                    &&& p.dst == ip_at(bytes@, 16)
                    &&& p.payload@ == bytes@.subrange(header_len_of(bytes@), be16_at(bytes@, 2) as int)
                },
            },
    {
        if bytes.len() < 20 {
            return Err(ParseError::Truncated);
        }
        if bytes[0] / 16 != 4 {
            return Err(ParseError::Version);
        }
        let header_len = ((bytes[0] % 16) as usize) * 4;
        if header_len < 20 || bytes.len() < header_len {
            return Err(ParseError::HeaderLength);
        }
        let total_len = read_be16(bytes, 2) as usize;
        if total_len < header_len || total_len > bytes.len() {
            return Err(ParseError::TotalLength);
        }
        if internet(&bytes[0..header_len]) != 0 {
            return Err(ParseError::Checksum);
        }
        let flags_fragment = read_be16(bytes, 6);
        if flags_fragment % 0x4000 != 0 {
            return Err(ParseError::Fragmented);
        }
        let src = read_ip(bytes, 12);
        let dst = read_ip(bytes, 16);
        proof {
            lemma_ip_at(src, bytes@, 12);
            lemma_ip_at(dst, bytes@, 16);
        }
        Ok(Packet {
            dscp_ecn: bytes[1],
            identification: read_be16(bytes, 4),
            flags_fragment,
            ttl: bytes[8],
            protocol: bytes[9],
            src,
            dst,
            payload: &bytes[header_len..total_len],
        })
    }
}

/// Builds a packet with a 20-byte header around `payload`.
pub fn serialize(
    src: [u8; 4],
    dst: [u8; 4],
    protocol: u8,
    identification: u16,
    payload: &[u8],
) -> (bytes: Vec<u8>)
    requires
        payload@.len() <= MAX_PAYLOAD,
    ensures
        bytes@ == packet_bytes(src, dst, protocol, identification, payload@),
{
    let mut bytes = header(src, dst, protocol, identification, payload.len());
    push_all(&mut bytes, payload);
    bytes
}

/// Builds the header of a packet with a payload of `payload_len` bytes.
pub fn header(
    src: [u8; 4],
    dst: [u8; 4],
    protocol: u8,
    identification: u16,
    payload_len: usize,
) -> (bytes: Vec<u8>)
    requires
        payload_len <= MAX_PAYLOAD,
    ensures
        bytes@ == sent_header(src, dst, protocol, identification, payload_len as nat),
{
    let total = (20 + payload_len) as u16;
    let mut bytes: Vec<u8> = Vec::new();
    bytes.push(0x45);
    bytes.push(0);
    push_be16(&mut bytes, total);
    push_be16(&mut bytes, identification);
    bytes.push(0x40);
    bytes.push(0);
    bytes.push(64);
    bytes.push(protocol);
    bytes.push(0);
    bytes.push(0);
    push_all(&mut bytes, &src);
    push_all(&mut bytes, &dst);
    assert(bytes@ =~= header_bytes(total, identification, protocol, 0, src, dst));
    let sum = internet(bytes.as_slice());
    bytes.set(10, (sum / 256) as u8);
    bytes.set(11, (sum % 256) as u8);
    assert(bytes@ =~= header_bytes(total, identification, protocol, sum, src, dst));
    bytes
}

/// The header this stack sends passes the header checksum check.
pub proof fn lemma_sent_header_checksum(
    src: [u8; 4],
    dst: [u8; 4],
    protocol: u8,
    identification: u16,
    payload_len: nat,
)
    ensures
        internet_spec(sent_header(src, dst, protocol, identification, payload_len)) == 0,
        sent_header(src, dst, protocol, identification, payload_len).len() == 20,
{
    let total = (20 + payload_len) as u16;
    let pre = seq![0x45u8, 0u8] + u16_bytes(total) + u16_bytes(identification) + seq![
        0x40u8,
        0u8,
        64u8,
        protocol,
    ];
    let post = src@ + dst@;
    let c = internet_spec(header_bytes(total, identification, protocol, 0, src, dst));
    assert(header_bytes(total, identification, protocol, 0, src, dst) =~= pre + seq![0u8, 0u8]
        + post);
    assert(header_bytes(total, identification, protocol, c, src, dst) =~= pre + u16_bytes(c)
        + post);
    lemma_checksum_field(pre, post, 0);
}

/// Parsing a packet this stack sends succeeds and gives back what was sent.
pub proof fn lemma_parse_serialize(
    src: [u8; 4],
    dst: [u8; 4],
    protocol: u8,
    identification: u16,
    payload: Seq<u8>,
)
    requires
        payload.len() <= MAX_PAYLOAD,
    ensures
        ({
            let b = packet_bytes(src, dst, protocol, identification, payload);
            &&& parse_error(b) is None
            &&& b[1] == 0
            &&& be16_at(b, 4) == identification
            &&& be16_at(b, 6) == 0x4000
            &&& b[8] == 64
            &&& b[9] == protocol
            &&& b.subrange(12, 16) == src@
            &&& b.subrange(16, 20) == dst@
            &&& header_len_of(b) == 20
            &&& be16_at(b, 2) == b.len()
            &&& b.subrange(header_len_of(b), be16_at(b, 2) as int) == payload
        }),
{
    let h = sent_header(src, dst, protocol, identification, payload.len());
    let b = h + payload;
    let total = (20 + payload.len()) as u16;
    lemma_sent_header_checksum(src, dst, protocol, identification, payload.len());
    lemma_u16_bytes_roundtrip(total);
    lemma_u16_bytes_roundtrip(identification);
    lemma_u16_bytes_roundtrip(0x4000);
    assert(b.subrange(0, 20) =~= h);
    assert(b.subrange(12, 16) =~= src@);
    assert(b.subrange(16, 20) =~= dst@);
    assert(b.subrange(20, b.len() as int) =~= payload);
    assert(be16_at(b, 2) == be16_at(u16_bytes(total), 0));
    assert(be16_at(b, 4) == be16_at(u16_bytes(identification), 0));
    assert(be16_at(b, 6) == be16_at(u16_bytes(0x4000), 0));
}

} // verus!
