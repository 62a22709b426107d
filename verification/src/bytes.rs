//! Big-endian byte encodings shared by the protocol modules.
use vstd::prelude::*;
use crate::MacAddr;

verus! {

/// The big-endian 16-bit value of two bytes.
pub open spec fn be16(hi: u8, lo: u8) -> nat {
    (hi as nat) * 256 + (lo as nat)
}

/// The big-endian 16-bit value stored at `i` in `s`.
pub open spec fn be16_at(s: Seq<u8>, i: int) -> u16 {
    be16(s[i], s[i + 1]) as u16
}

/// The big-endian 32-bit value stored at `i` in `s`.
pub open spec fn be32_at(s: Seq<u8>, i: int) -> u32 {
    ((s[i] as nat) * 0x100_0000 + (s[i + 1] as nat) * 0x1_0000 + (s[i + 2] as nat) * 0x100
        + (s[i + 3] as nat)) as u32
}

/// The two bytes of `v`, most significant first.
pub open spec fn u16_bytes(v: u16) -> Seq<u8> {
    seq![(v / 256) as u8, (v % 256) as u8]
}

/// The four bytes of `v`, most significant first.
pub open spec fn u32_bytes(v: u32) -> Seq<u8> {
    seq![
        (v / 0x100_0000) as u8,
        (v / 0x1_0000 % 256) as u8,
        (v / 0x100 % 256) as u8,
        (v % 256) as u8,
    ]
}

/// Reading back the bytes of a 16-bit value gives the value.
pub proof fn lemma_u16_bytes_roundtrip(v: u16)
    ensures
        u16_bytes(v).len() == 2,
        be16_at(u16_bytes(v), 0) == v,
{
}

/// Reading back the bytes of a 32-bit value gives the value.
pub proof fn lemma_u32_bytes_roundtrip(v: u32)
    ensures
        u32_bytes(v).len() == 4,
        be32_at(u32_bytes(v), 0) == v,
{
    let a = v / 0x100_0000;
    let b = v / 0x1_0000 % 256;
    let c = v / 0x100 % 256;
    let d = v % 256;
    assert(a * 0x100_0000 + b * 0x1_0000 + c * 0x100 + d == v) by (nonlinear_arith)
        requires
            a == v / 0x100_0000,
            b == v / 0x1_0000 % 256,
            c == v / 0x100 % 256,
            d == v % 256,
    ;
}

/// Reads the big-endian 16-bit value at `i`.
pub fn read_be16(bytes: &[u8], i: usize) -> (v: u16)
    requires
        i + 2 <= bytes@.len(),
    ensures
        v == be16_at(bytes@, i as int),
{
    (bytes[i] as u16) * 256 + (bytes[i + 1] as u16)
}

/// Reads the big-endian 32-bit value at `i`.
pub fn read_be32(bytes: &[u8], i: usize) -> (v: u32)
    requires
        i + 4 <= bytes@.len(),
    ensures
        v == be32_at(bytes@, i as int),
{
    (bytes[i] as u32) * 0x100_0000 + (bytes[i + 1] as u32) * 0x1_0000 + (bytes[i + 2] as u32)
        * 0x100 + (bytes[i + 3] as u32)
}

/// Appends the two bytes of `v`, most significant first.
pub fn push_be16(out: &mut Vec<u8>, v: u16)
    ensures
        final(out)@ == old(out)@ + u16_bytes(v),
{
    out.push((v / 256) as u8);
    out.push((v % 256) as u8);
}

/// Appends the four bytes of `v`, most significant first.
pub fn push_be32(out: &mut Vec<u8>, v: u32)
    ensures
        final(out)@ == old(out)@ + u32_bytes(v),
{
    out.push((v / 0x100_0000) as u8);
    out.push((v / 0x1_0000 % 256) as u8);
    out.push((v / 0x100 % 256) as u8);
    out.push((v % 256) as u8);
}

/// Appends every byte of `data`.
pub fn push_all(out: &mut Vec<u8>, data: &[u8])
    ensures
        final(out)@ == old(out)@ + data@,
{
    out.extend_from_slice(data);
    assert(out@ =~= old(out)@ + data@);
}

/// Copies six bytes starting at `i` into an address.
pub fn read_mac(bytes: &[u8], i: usize) -> (mac: MacAddr)
    requires
        i + 6 <= bytes@.len(),
    ensures
        mac@ == bytes@.subrange(i as int, i + 6),
{
    let mac = [bytes[i], bytes[i + 1], bytes[i + 2], bytes[i + 3], bytes[i + 4], bytes[i + 5]];
    assert(mac@ =~= bytes@.subrange(i as int, i + 6));
    mac
}

/// Copies four bytes starting at `i` into an IPv4 address.
pub fn read_ip(bytes: &[u8], i: usize) -> (ip: [u8; 4])
    requires
        i + 4 <= bytes@.len(),
    ensures
        ip@ == bytes@.subrange(i as int, i + 4),
{
    let ip = [bytes[i], bytes[i + 1], bytes[i + 2], bytes[i + 3]];
    assert(ip@ =~= bytes@.subrange(i as int, i + 4));
    ip
}

/// The address stored at `i` in `s`.
pub open spec fn mac_at(s: Seq<u8>, i: int) -> MacAddr {
    [s[i], s[i + 1], s[i + 2], s[i + 3], s[i + 4], s[i + 5]]
}

/// The IPv4 address stored at `i` in `s`.
pub open spec fn ip_at(s: Seq<u8>, i: int) -> [u8; 4] {
    [s[i], s[i + 1], s[i + 2], s[i + 3]]
}

/// An address is determined by its bytes.
pub proof fn lemma_mac_at(m: MacAddr, s: Seq<u8>, i: int)
    requires
        0 <= i,
        i + 6 <= s.len(),
        m@ == s.subrange(i, i + 6),
    ensures
        m == mac_at(s, i),
{
    assert(m@[0] == s[i]);
    assert(m@[1] == s[i + 1]);
    assert(m@[2] == s[i + 2]);
    assert(m@[3] == s[i + 3]);
    assert(m@[4] == s[i + 4]);
    assert(m@[5] == s[i + 5]);
    assert(m =~= mac_at(s, i));
}

/// An IPv4 address is determined by its bytes.
pub proof fn lemma_ip_at(a: [u8; 4], s: Seq<u8>, i: int)
    requires
        0 <= i,
        i + 4 <= s.len(),
        a@ == s.subrange(i, i + 4),
    ensures
        a == ip_at(s, i),
{
    assert(a@[0] == s[i]);
    assert(a@[1] == s[i + 1]);
    assert(a@[2] == s[i + 2]);
    assert(a@[3] == s[i + 3]);
    assert(a =~= ip_at(s, i));
}

/// Whether two hardware addresses are equal.
pub fn same_mac(a: &MacAddr, b: &MacAddr) -> (r: bool)
    ensures
        r == (*a == *b),
{
    let r = a[0] == b[0] && a[1] == b[1] && a[2] == b[2] && a[3] == b[3] && a[4] == b[4] && a[5]
        == b[5];
    proof {
        if r {
            assert(*a =~= *b);
        }
    }
    r
}

/// Whether two IPv4 addresses are equal.
pub fn same_ip(a: &[u8; 4], b: &[u8; 4]) -> (r: bool)
    ensures
        r == (*a == *b),
{
    let r = a[0] == b[0] && a[1] == b[1] && a[2] == b[2] && a[3] == b[3];
    proof {
        if r {
            assert(*a =~= *b);
        }
    }
    r
}

} // verus!
