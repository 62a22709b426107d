//! Ethernet II frames.
use vstd::prelude::*;
use crate::MacAddr;
use crate::bytes::{mac_at, lemma_mac_at, read_mac, be16_at, u16_bytes, read_be16, push_be16, push_all, lemma_u16_bytes_roundtrip};

verus! {

pub const HEADER_LEN: usize = 14;
pub const ETHERTYPE_IPV4: u16 = 0x0800;
pub const ETHERTYPE_ARP: u16 = 0x0806;

/// A parsed frame; the payload borrows from the received bytes.
#[derive(Debug, Clone, PartialEq, Eq)]
pub struct Frame<'a> {
    pub dst: MacAddr,
    pub src: MacAddr,
    pub ethertype: u16,
    pub payload: &'a [u8],
}

/// The wire bytes of a frame: destination, source, ethertype, payload.
pub open spec fn frame_bytes(dst: MacAddr, src: MacAddr, ethertype: u16, payload: Seq<u8>) -> Seq<u8> {
    dst@ + src@ + u16_bytes(ethertype) + payload
}

impl<'a> Frame<'a> {
    /// Parses a frame; fails only when the bytes are shorter than the header.
    pub fn parse(bytes: &'a [u8]) -> (r: Option<Self>)
        ensures
            r is None <==> bytes@.len() < HEADER_LEN,
            r matches Some(f) ==> {
                &&& f.dst == mac_at(bytes@, 0)
                &&& f.src == mac_at(bytes@, 6)
                &&& f.ethertype == be16_at(bytes@, 12)
                &&& f.payload@ == bytes@.subrange(14, bytes@.len() as int)
                &&& bytes@ == frame_bytes(f.dst, f.src, f.ethertype, f.payload@)
            },
    {
        if bytes.len() < HEADER_LEN {
            return None;
        }
        let f = Frame {
            dst: read_mac(bytes, 0),
            src: read_mac(bytes, 6),
            ethertype: read_be16(bytes, 12),
            payload: &bytes[HEADER_LEN..bytes.len()],
        };
        proof {
            lemma_mac_at(f.dst, bytes@, 0);
            lemma_mac_at(f.src, bytes@, 6);
        }
        assert(u16_bytes(f.ethertype) =~= bytes@.subrange(12, 14));
        assert(frame_bytes(f.dst, f.src, f.ethertype, f.payload@) =~= bytes@);
        Some(f)
    }
}

/// Builds the wire bytes of a frame.
pub fn serialize(dst: MacAddr, src: MacAddr, ethertype: u16, payload: &[u8]) -> (bytes: Vec<u8>)
    ensures
        bytes@ == frame_bytes(dst, src, ethertype, payload@),
{
    let mut bytes: Vec<u8> = Vec::new();
    push_all(&mut bytes, &dst);
    push_all(&mut bytes, &src);
    push_be16(&mut bytes, ethertype);
    push_all(&mut bytes, payload);
    bytes
}

/// Parsing the bytes of a serialized frame gives back its fields.
pub proof fn lemma_parse_serialize(dst: MacAddr, src: MacAddr, ethertype: u16, payload: Seq<u8>)
    ensures
        ({
            let b = frame_bytes(dst, src, ethertype, payload);
            &&& b.len() >= HEADER_LEN
            &&& b.subrange(0, 6) == dst@
            &&& b.subrange(6, 12) == src@
            &&& be16_at(b, 12) == ethertype
            &&& b.subrange(14, b.len() as int) == payload
        }),
{
    let b = frame_bytes(dst, src, ethertype, payload);
    lemma_u16_bytes_roundtrip(ethertype);
    assert(b.subrange(0, 6) =~= dst@);
    assert(b.subrange(6, 12) =~= src@);
    assert(b.subrange(14, b.len() as int) =~= payload);
}

} // verus!
