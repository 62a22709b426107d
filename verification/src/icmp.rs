//! ICMP messages, with the echo request/reply exchange.
use vstd::prelude::*;
use crate::bytes::{ip_at, lemma_ip_at, read_ip, u16_bytes, push_all};
use crate::checksum::{internet, internet_spec, lemma_checksum_field};

verus! {

pub const ECHO_REPLY: u8 = 0;
pub const ECHO_REQUEST: u8 = 8;

/// A parsed message; the payload borrows from the received bytes.
#[derive(Debug, Clone, PartialEq, Eq)]
pub struct Packet<'a> {
    pub kind: u8,
    pub code: u8,
    pub rest: [u8; 4],
    pub payload: &'a [u8],
}

/// A message with the given checksum field.
pub open spec fn message_with(kind: u8, code: u8, checksum: u16, rest: [u8; 4], payload: Seq<u8>) -> Seq<u8> {
    seq![kind, code] + u16_bytes(checksum) + rest@ + payload
}

/// The wire bytes of a message, with its checksum filled in.
pub open spec fn message_bytes(kind: u8, code: u8, rest: [u8; 4], payload: Seq<u8>) -> Seq<u8> {
    message_with(kind, code, internet_spec(message_with(kind, code, 0, rest, payload)), rest, payload)
}

/// The data after the 8-byte header of message `b`.
pub open spec fn data_of(b: Seq<u8>) -> Seq<u8> {
    b.subrange(8, b.len() as int)
}

/// The length of the data after the 8-byte header of message `b`.
pub open spec fn data_len(b: Seq<u8>) -> usize {
    (b.len() - 8) as usize
}

/// Whether `b` is a message: at least 8 bytes with a correct checksum.
pub open spec fn is_message(b: Seq<u8>) -> bool {
    b.len() >= 8 && internet_spec(b) == 0
}

impl<'a> Packet<'a> {
    /// Parses a message; fails when it is shorter than 8 bytes or its checksum is wrong.
    pub fn parse(bytes: &'a [u8]) -> (r: Option<Self>)
        ensures
            r is Some <==> is_message(bytes@),
            r matches Some(p) ==> {
                &&& p.kind == bytes@[0]
                &&& p.code == bytes@[1]
                &&& p.rest == ip_at(bytes@, 4)
                &&& p.payload@ == bytes@.subrange(8, bytes@.len() as int)
            },
    {
        if bytes.len() < 8 || internet(bytes) != 0 {
            return None;
        }
        let rest = read_ip(bytes, 4);
        proof {
            lemma_ip_at(rest, bytes@, 4);
        }
        Some(Packet {
            kind: bytes[0],
            code: bytes[1],
            rest,
            payload: &bytes[8..bytes.len()],
        })
    }

    /// The echo reply to an echo request (type 8, code 0): the same identifier,
    /// sequence number and data; `None` for any other message.
    pub fn echo_reply(&self) -> (r: Option<Vec<u8>>)
        ensures
            r is Some <==> self.kind == ECHO_REQUEST && self.code == 0,
            r matches Some(v) ==> v@ == message_bytes(ECHO_REPLY, 0, self.rest, self.payload@),
    {
        if self.kind == ECHO_REQUEST && self.code == 0 {
            Some(serialize(ECHO_REPLY, 0, self.rest, self.payload))
        } else {
            None
        }
    }
}

/// Builds a message and fills in its checksum.
pub fn serialize(kind: u8, code: u8, rest: [u8; 4], payload: &[u8]) -> (bytes: Vec<u8>)
    ensures
        bytes@ == message_bytes(kind, code, rest, payload@),
{
    let mut bytes: Vec<u8> = Vec::new();
    bytes.push(kind);
    bytes.push(code);
    bytes.push(0);
    bytes.push(0);
    push_all(&mut bytes, &rest);
    push_all(&mut bytes, payload);
    assert(bytes@ =~= message_with(kind, code, 0, rest, payload@));
    let sum = internet(bytes.as_slice());
    bytes.set(2, (sum / 256) as u8);
    bytes.set(3, (sum % 256) as u8);
    assert(bytes@ =~= message_with(kind, code, sum, rest, payload@));
    bytes
}

/// Parsing a serialized message succeeds and gives back its fields.
pub proof fn lemma_parse_serialize(kind: u8, code: u8, rest: [u8; 4], payload: Seq<u8>)
    ensures
        ({
            let b = message_bytes(kind, code, rest, payload);
            &&& is_message(b)
            &&& b[0] == kind
            &&& b[1] == code
            &&& b.subrange(4, 8) == rest@
            &&& b.subrange(8, b.len() as int) == payload
        }),
{
    let pre = seq![kind, code];
    let post = rest@ + payload;
    let c = internet_spec(message_with(kind, code, 0, rest, payload));
    let b = message_bytes(kind, code, rest, payload);
    assert(message_with(kind, code, 0, rest, payload) =~= pre + seq![0u8, 0u8] + post);
    assert(b =~= pre + u16_bytes(c) + post);
    lemma_checksum_field(pre, post, 0);
    assert(b.subrange(4, 8) =~= rest@);
    assert(b.subrange(8, b.len() as int) =~= payload);
}

} // verus!
