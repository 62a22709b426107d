//! ARP packets for IPv4 over Ethernet.
use vstd::prelude::*;
use crate::MacAddr;
use crate::bytes::{mac_at, ip_at, lemma_mac_at, lemma_ip_at, read_mac, read_ip, be16_at, u16_bytes, read_be16, push_be16, push_all, lemma_u16_bytes_roundtrip};

verus! {

pub const PACKET_LEN: usize = 28;
pub const REQUEST: u16 = 1;
pub const REPLY: u16 = 2;

/// An ARP packet for Ethernet hardware and IPv4 protocol addresses.
#[derive(Debug, Clone, Copy, PartialEq, Eq)]
pub struct Packet {
    pub operation: u16,
    pub sender_mac: MacAddr,
    pub sender_ip: [u8; 4],
    pub target_mac: MacAddr,
    pub target_ip: [u8; 4],
}

/// The fixed prefix: hardware type 1 (Ethernet), protocol type 0x0800 (IPv4),
/// address lengths 6 and 4.
pub open spec fn arp_prefix() -> Seq<u8> {
    seq![0u8, 1u8, 8u8, 0u8, 6u8, 4u8]
}

/// The wire bytes of an ARP packet.
pub open spec fn packet_bytes(p: Packet) -> Seq<u8> {
    arp_prefix() + u16_bytes(p.operation) + p.sender_mac@ + p.sender_ip@ + p.target_mac@
        + p.target_ip@
}

/// The packet that the first 28 bytes of `b` describe.
pub open spec fn packet_of(b: Seq<u8>) -> Packet {
    Packet {
        operation: be16_at(b, 6),
        sender_mac: mac_at(b, 8),
        sender_ip: ip_at(b, 14),
        target_mac: mac_at(b, 18),
        target_ip: ip_at(b, 24),
    }
}

/// Whether `b` starts with a well-formed ARP header for Ethernet/IPv4.
pub open spec fn is_arp(b: Seq<u8>) -> bool {
    &&& b.len() >= PACKET_LEN
    &&& b.subrange(0, 6) == arp_prefix()
}

impl Packet {
    /// Parses the first 28 bytes; fails unless they carry an Ethernet/IPv4 ARP header.
    pub fn parse(bytes: &[u8]) -> (r: Option<Self>)
        ensures
            r is Some <==> is_arp(bytes@),
            r matches Some(p) ==> p == packet_of(bytes@) && packet_bytes(p) == bytes@.subrange(0, PACKET_LEN as int),
    {
        if bytes.len() < PACKET_LEN || read_be16(bytes, 0) != 1 || read_be16(bytes, 2) != 0x0800
            || bytes[4] != 6 || bytes[5] != 4 {
            proof {
                if bytes@.len() >= PACKET_LEN && bytes@.subrange(0, 6) == arp_prefix() {
                    assert(bytes@[0] == bytes@.subrange(0, 6)[0]);
                    assert(bytes@[1] == bytes@.subrange(0, 6)[1]);
                    assert(bytes@[2] == bytes@.subrange(0, 6)[2]);
                    assert(bytes@[3] == bytes@.subrange(0, 6)[3]);
                    assert(bytes@[4] == bytes@.subrange(0, 6)[4]);
                    assert(bytes@[5] == bytes@.subrange(0, 6)[5]);
                }
            }
            return None;
        }
        let p = Packet {
            operation: read_be16(bytes, 6),
            sender_mac: read_mac(bytes, 8),
            sender_ip: read_ip(bytes, 14),
            target_mac: read_mac(bytes, 18),
            target_ip: read_ip(bytes, 24),
        };
        proof {
            lemma_mac_at(p.sender_mac, bytes@, 8);
            lemma_ip_at(p.sender_ip, bytes@, 14);
            lemma_mac_at(p.target_mac, bytes@, 18);
            lemma_ip_at(p.target_ip, bytes@, 24);
        }
        assert(bytes@.subrange(0, 6) =~= arp_prefix());
        assert(u16_bytes(p.operation) =~= bytes@.subrange(6, 8));
        assert(packet_bytes(p) =~= bytes@.subrange(0, PACKET_LEN as int));
        Some(p)
    }

    /// Builds the 28 wire bytes of the packet.
    pub fn serialize(&self) -> (bytes: Vec<u8>)
        ensures
            bytes@ == packet_bytes(*self),
    {
        let mut bytes: Vec<u8> = Vec::new();
        push_be16(&mut bytes, 1);
        push_be16(&mut bytes, 0x0800);
        bytes.push(6);
        bytes.push(4);
        push_be16(&mut bytes, self.operation);
        push_all(&mut bytes, &self.sender_mac);
        push_all(&mut bytes, &self.sender_ip);
        push_all(&mut bytes, &self.target_mac);
        push_all(&mut bytes, &self.target_ip);
        assert(bytes@ =~= packet_bytes(*self));
        bytes
    }
}

/// Reading the fields back from the bytes of a packet gives the packet.
pub proof fn lemma_packet_of_bytes(p: Packet)
    ensures
        is_arp(packet_bytes(p)),
        packet_of(packet_bytes(p)) == p,
{
    let b = packet_bytes(p);
    lemma_u16_bytes_roundtrip(p.operation);
    assert(b.subrange(0, 6) =~= arp_prefix());
    assert(be16_at(b, 6) == be16_at(u16_bytes(p.operation), 0));
    assert(b.subrange(8, 14) =~= p.sender_mac@);
    assert(b.subrange(14, 18) =~= p.sender_ip@);
    assert(b.subrange(18, 24) =~= p.target_mac@);
    assert(b.subrange(24, 28) =~= p.target_ip@);
    lemma_mac_at(p.sender_mac, b, 8);
    lemma_ip_at(p.sender_ip, b, 14);
    lemma_mac_at(p.target_mac, b, 18);
    lemma_ip_at(p.target_ip, b, 24);
}

} // verus!
