//! UDP datagrams over IPv4.
use vstd::prelude::*;
use crate::bytes::{be16_at, u16_bytes, read_be16, push_be16, push_all, lemma_u16_bytes_roundtrip};
use crate::checksum::{
    pseudo_header, pseudo_header_spec, pseudo_sum, word_sum,
    lemma_checksum_field, lemma_fold16_congruent, lemma_complement_cancels, lemma_fold16_closed,
};

verus! {

pub const HEADER_LEN: usize = 8;

/// The largest payload a datagram can carry.
pub const MAX_PAYLOAD: usize = 65527;

/// A parsed datagram; the payload borrows from the received bytes.
#[derive(Debug, Clone, PartialEq, Eq)]
pub struct Datagram<'a> {
    pub src_port: u16,
    pub dst_port: u16,
    pub payload: &'a [u8],
}

/// Whether `b`, received from `src` for `dst`, is a datagram: a header, a length field
/// between 8 and the byte count, and a checksum that is either absent (zero) or correct
/// over the first `length` bytes.
pub open spec fn is_datagram(src: [u8; 4], dst: [u8; 4], b: Seq<u8>) -> bool {
    &&& b.len() >= HEADER_LEN
    &&& HEADER_LEN <= be16_at(b, 4) <= b.len()
    &&& (be16_at(b, 6) == 0 || pseudo_header_spec(src, dst, 17, b.subrange(0, be16_at(b, 4) as int))
        == 0)
}

/// A datagram with the given checksum field.
pub open spec fn datagram_with(src_port: u16, dst_port: u16, checksum: u16, payload: Seq<u8>) -> Seq<u8> {
    u16_bytes(src_port) + u16_bytes(dst_port) + u16_bytes((HEADER_LEN + payload.len()) as u16)
        + u16_bytes(checksum) + payload
}

/// The checksum field a datagram is sent with: the pseudo-header checksum, with a
/// computed zero sent as 0xffff (zero means "no checksum").
pub open spec fn sent_checksum(src_ip: [u8; 4], dst_ip: [u8; 4], src_port: u16, dst_port: u16, payload: Seq<u8>) -> u16 {
    let c = pseudo_header_spec(src_ip, dst_ip, 17, datagram_with(src_port, dst_port, 0, payload));
    if c == 0 { 0xffff } else { c }
}

/// The wire bytes of a datagram.
pub open spec fn datagram_bytes(
    src_ip: [u8; 4],
    dst_ip: [u8; 4],
    src_port: u16,
    dst_port: u16,
    payload: Seq<u8>,
) -> Seq<u8> {
    datagram_with(src_port, dst_port, sent_checksum(src_ip, dst_ip, src_port, dst_port, payload), payload)
}

impl<'a> Datagram<'a> {
    /// Parses a datagram sent from `src` to `dst`; the payload is cut at the length field.
    pub fn parse(src: [u8; 4], dst: [u8; 4], bytes: &'a [u8]) -> (r: Option<Self>)
        ensures
            r is Some <==> is_datagram(src, dst, bytes@),
            r matches Some(d) ==> {
                &&& d.src_port == be16_at(bytes@, 0)
                &&& d.dst_port == be16_at(bytes@, 2)
                &&& d.payload@ == bytes@.subrange(8, be16_at(bytes@, 4) as int)
            },
    {
        if bytes.len() < HEADER_LEN {
            return None;
        }
        let len = read_be16(bytes, 4) as usize;
        if len < HEADER_LEN || len > bytes.len() {
            return None;
        }
        let received = read_be16(bytes, 6);
        if received != 0 && pseudo_header(src, dst, 17, &bytes[0..len]) != 0 {
            return None;
        }
        Some(Datagram {
            src_port: read_be16(bytes, 0),
            dst_port: read_be16(bytes, 2),
            payload: &bytes[HEADER_LEN..len],
        })
    }
}

/// Builds a datagram and fills in its checksum.
pub fn serialize(
    src_ip: [u8; 4],
    dst_ip: [u8; 4],
    src_port: u16,
    dst_port: u16,
    payload: &[u8],
) -> (bytes: Vec<u8>)
    requires
        payload@.len() <= MAX_PAYLOAD,
    ensures
        bytes@ == datagram_bytes(src_ip, dst_ip, src_port, dst_port, payload@),
{
    let mut bytes: Vec<u8> = Vec::new();
    push_be16(&mut bytes, src_port);
    push_be16(&mut bytes, dst_port);
    push_be16(&mut bytes, (HEADER_LEN + payload.len()) as u16);
    bytes.push(0);
    bytes.push(0);
    push_all(&mut bytes, payload);
    assert(bytes@ =~= datagram_with(src_port, dst_port, 0, payload@));
    let mut sum = pseudo_header(src_ip, dst_ip, 17, bytes.as_slice());
    if sum == 0 {
        sum = 0xffff;
    }
    bytes.set(6, (sum / 256) as u8);
    bytes.set(7, (sum % 256) as u8);
    assert(bytes@ =~= datagram_with(src_port, dst_port, sum, payload@));
    bytes
}

/// A datagram sent from `src_ip` to `dst_ip` parses at `dst_ip` as coming from `src_ip`,
/// with the ports and payload it was sent with.
pub proof fn lemma_parse_serialize(
    src_ip: [u8; 4],
    dst_ip: [u8; 4],
    src_port: u16,
    dst_port: u16,
    payload: Seq<u8>,
)
    requires
        payload.len() <= MAX_PAYLOAD,
    ensures
        ({
            let b = datagram_bytes(src_ip, dst_ip, src_port, dst_port, payload);
            &&& is_datagram(src_ip, dst_ip, b)
            &&& be16_at(b, 0) == src_port
            &&& be16_at(b, 2) == dst_port
            &&& be16_at(b, 4) == b.len()
            &&& b.subrange(8, be16_at(b, 4) as int) == payload
        }),
{
    let len16 = (HEADER_LEN + payload.len()) as u16;
    let pre = u16_bytes(src_port) + u16_bytes(dst_port) + u16_bytes(len16);
    let zero_form = datagram_with(src_port, dst_port, 0, payload);
    let extra = pseudo_sum(src_ip, dst_ip, 17, zero_form.len());
    let c = pseudo_header_spec(src_ip, dst_ip, 17, zero_form);
    let s = sent_checksum(src_ip, dst_ip, src_port, dst_port, payload);
    let b = datagram_bytes(src_ip, dst_ip, src_port, dst_port, payload);
    assert(zero_form =~= pre + seq![0u8, 0u8] + payload);
    assert(datagram_with(src_port, dst_port, c, payload) =~= pre + u16_bytes(c) + payload);
    assert(b =~= pre + u16_bytes(s) + payload);
    assert(b.len() == zero_form.len());
    lemma_checksum_field(pre, payload, extra);
    if c == 0 {
        // 0xffff and 0 are the same value in ones-complement arithmetic.
        assert(pre + u16_bytes(0) + payload =~= zero_form);
        let n = extra + word_sum(zero_form);
        lemma_fold16_closed(n);
        lemma_complement_cancels(n);
        assert(b =~= pre + u16_bytes(0xffff) + payload);
        crate::checksum::lemma_word_sum_concat(pre, u16_bytes(0xffff) + payload);
        crate::checksum::lemma_word_sum_concat(u16_bytes(0xffff), payload);
        crate::checksum::lemma_word_sum_concat(pre, seq![0u8, 0u8] + payload);
        crate::checksum::lemma_word_sum_concat(seq![0u8, 0u8], payload);
        crate::checksum::lemma_word_sum_u16(0xffff);
        crate::checksum::lemma_word_sum_u16(0);
        assert(pre + u16_bytes(0xffff) + payload =~= pre + (u16_bytes(0xffff) + payload));
        assert(zero_form =~= pre + (u16_bytes(0) + payload));
        vstd::arithmetic::div_mod::lemma_mod_multiples_vanish(1, n, 65535);
        lemma_fold16_congruent(n + 0xffff, n, 0);
    }
    lemma_u16_bytes_roundtrip(src_port);
    lemma_u16_bytes_roundtrip(dst_port);
    lemma_u16_bytes_roundtrip(len16);
    lemma_u16_bytes_roundtrip(s);
    assert(be16_at(b, 0) == be16_at(u16_bytes(src_port), 0));
    assert(be16_at(b, 2) == be16_at(u16_bytes(dst_port), 0));
    assert(be16_at(b, 4) == be16_at(u16_bytes(len16), 0));
    assert(be16_at(b, 6) == be16_at(u16_bytes(s), 0));
    assert(b.subrange(0, b.len() as int) =~= b);
    assert(b.subrange(8, b.len() as int) =~= payload);
}

} // verus!
