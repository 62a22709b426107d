//! The Internet checksum of RFC 1071.
use vstd::prelude::*;
use vstd::arithmetic::div_mod::{lemma_fundamental_div_mod, lemma_mod_multiples_vanish, lemma_small_mod};
use crate::bytes::{be16, u16_bytes};

verus! {

/// The sum of the big-endian 16-bit words of `s`; an odd last byte is padded with zero.
pub open spec fn word_sum(s: Seq<u8>) -> nat
    decreases s.len(),
{
    if s.len() == 0 {
        0
    } else if s.len() == 1 {
        (s[0] as nat) * 256
    } else {
        be16(s[0], s[1]) + word_sum(s.subrange(2, s.len() as int))
    }
}

/// Adds the carries above bit 16 back in until the value fits 16 bits
/// (the ones-complement sum of `n`).
pub open spec fn fold16(n: int) -> int
    decreases n,
{
    if n < 0x10000 {
        n
    } else {
        fold16(n % 0x10000 + n / 0x10000)
    }
}

/// The checksum field for a ones-complement sum `n`: the complement of its fold.
pub open spec fn complement(n: int) -> u16 {
    (0xffff - fold16(n)) as u16
}

/// The Internet checksum of `s`.
pub open spec fn internet_spec(s: Seq<u8>) -> u16 {
    complement(word_sum(s) as int)
}

/// The ones-complement sum of the IPv4 pseudo-header: both addresses, the
/// protocol and the segment length (taken modulo 2^32).
pub open spec fn pseudo_sum(src: [u8; 4], dst: [u8; 4], protocol: u8, len: nat) -> int {
    be16(src[0], src[1]) + be16(src[2], src[3]) + be16(dst[0], dst[1]) + be16(dst[2], dst[3])
        + protocol + len % 0x1_0000_0000
}

/// The checksum of a transport segment under the IPv4 pseudo-header.
pub open spec fn pseudo_header_spec(src: [u8; 4], dst: [u8; 4], protocol: u8, segment: Seq<u8>) -> u16 {
    complement(pseudo_sum(src, dst, protocol, segment.len()) + word_sum(segment))
}

/// The fold of `n` in closed form: 0 for 0, else the residue of `n` modulo 65535 in `1..=65535`.
pub proof fn lemma_fold16_closed(n: int)
    requires
        n >= 0,
    ensures
        fold16(n) == if n == 0 { 0 } else { (n - 1) % 65535 + 1 },
        0 <= fold16(n),
        fold16(n) <= 0xffff,
    decreases n,
{
    if n >= 0x10000 {
        let q = n / 0x10000;
        let r = n % 0x10000;
        lemma_fundamental_div_mod(n, 0x10000);
        let m = q + r;
        assert(m < n);
        lemma_fold16_closed(m);
        assert(n - 1 == 65535 * q + (m - 1));
        lemma_mod_multiples_vanish(q, m - 1, 65535);
    } else if n > 0 {
        lemma_small_mod((n - 1) as nat, 65535);
    }
}

/// Replacing a summand by one congruent to it modulo 65535 (and zero exactly when it is)
/// does not change the fold.
pub proof fn lemma_fold16_congruent(a: int, b: int, r: int)
    requires
        a >= 0,
        b >= 0,
        r >= 0,
        a % 65535 == b % 65535,
        (a == 0) == (b == 0),
    ensures
        fold16(a + r) == fold16(b + r),
{
    lemma_fold16_closed(a + r);
    lemma_fold16_closed(b + r);
    if a + r > 0 {
        lemma_fundamental_div_mod(a, 65535);
        lemma_fundamental_div_mod(b, 65535);
        let k = a / 65535 - b / 65535;
        assert(a + r - 1 == 65535 * k + (b + r - 1));
        lemma_mod_multiples_vanish(k, b + r - 1, 65535);
    }
}

/// One folding step keeps the value's residue modulo 65535, and keeps it zero exactly when it was.
pub proof fn lemma_fold_step(a: int)
    requires
        a >= 0,
    ensures
        (a % 0x10000 + a / 0x10000) % 65535 == a % 65535,
        (a % 0x10000 + a / 0x10000 == 0) == (a == 0),
{
    let q = a / 0x10000;
    let r = a % 0x10000;
    lemma_fundamental_div_mod(a, 0x10000);
    assert(a == 65535 * q + (q + r));
    lemma_mod_multiples_vanish(q, q + r, 65535);
}

/// A sum to which its own checksum has been added folds to 0xffff, so its checksum is zero.
pub proof fn lemma_complement_cancels(n: int)
    requires
        n >= 0,
    ensures
        fold16(n + complement(n)) == 0xffff,
        complement(n + complement(n)) == 0,
{
    lemma_fold16_closed(n);
    let c = complement(n);
    let x = n + c;
    lemma_fold16_closed(x);
    if n > 0 {
        lemma_fundamental_div_mod(n - 1, 65535);
        let q = (n - 1) / 65535;
        assert(x - 1 == 65535 * q + 65534);
        lemma_mod_multiples_vanish(q, 65534, 65535);
        lemma_small_mod(65534, 65535);
    } else {
        lemma_small_mod(65534, 65535);
    }
}

/// The word sum of a concatenation whose first part has even length.
pub proof fn lemma_word_sum_concat(a: Seq<u8>, b: Seq<u8>)
    requires
        a.len() % 2 == 0,
    ensures
        word_sum(a + b) == word_sum(a) + word_sum(b),
    decreases a.len(),
{
    if a.len() == 0 {
        assert(a + b == b);
    } else {
        let rest = a.subrange(2, a.len() as int);
        lemma_word_sum_concat(rest, b);
        assert((a + b).subrange(2, (a + b).len() as int) == rest + b);
    }
}

/// The word sum of two bytes.
pub proof fn lemma_word_sum_pair(x: u8, y: u8)
    ensures
        word_sum(seq![x, y]) == be16(x, y),
{
    let s = seq![x, y];
    assert(s.subrange(2, 2) == Seq::<u8>::empty());
    assert(word_sum(s.subrange(2, 2)) == 0);
}

/// The word sum of the two bytes of a 16-bit value is the value.
pub proof fn lemma_word_sum_u16(v: u16)
    ensures
        word_sum(u16_bytes(v)) == v,
{
    lemma_word_sum_pair((v / 256) as u8, (v % 256) as u8);
}

/// The pseudo-header checksum equals the Internet checksum of the pseudo-header bytes
/// (source, destination, zero, protocol, 16-bit length) followed by the segment.
pub proof fn lemma_pseudo_header_is_concatenation(
    src: [u8; 4],
    dst: [u8; 4],
    protocol: u8,
    segment: Seq<u8>,
)
    requires
        segment.len() <= 0xffff,
    ensures
        pseudo_header_spec(src, dst, protocol, segment) == internet_spec(
            src@ + dst@ + seq![0u8, protocol] + u16_bytes(segment.len() as u16) + segment,
        ),
{
    let len16 = segment.len() as u16;
    let s1 = seq![src[0], src[1]];
    let s2 = seq![src[2], src[3]];
    let d1 = seq![dst[0], dst[1]];
    let d2 = seq![dst[2], dst[3]];
    let p = seq![0u8, protocol];
    let l = u16_bytes(len16);
    assert(src@ == s1 + s2);
    assert(dst@ == d1 + d2);
    let whole = src@ + dst@ + p + l + segment;
    assert(whole == s1 + (s2 + (d1 + (d2 + (p + (l + segment))))));
    lemma_word_sum_concat(l, segment);
    lemma_word_sum_concat(p, l + segment);
    lemma_word_sum_concat(d2, p + (l + segment));
    lemma_word_sum_concat(d1, d2 + (p + (l + segment)));
    lemma_word_sum_concat(s2, d1 + (d2 + (p + (l + segment))));
    lemma_word_sum_concat(s1, s2 + (d1 + (d2 + (p + (l + segment)))));
    lemma_word_sum_pair(src[0], src[1]);
    lemma_word_sum_pair(src[2], src[3]);
    lemma_word_sum_pair(dst[0], dst[1]);
    lemma_word_sum_pair(dst[2], dst[3]);
    lemma_word_sum_pair(0u8, protocol);
    lemma_word_sum_u16(len16);
    lemma_small_mod(segment.len(), 0x1_0000_0000);
}

/// A checksum field at an even offset, filled with the checksum of the bytes around it
/// (with the field zeroed, plus an extra sum such as a pseudo-header's), makes the
/// checksum of the whole zero.
pub proof fn lemma_checksum_field(pre: Seq<u8>, post: Seq<u8>, extra: int)
    requires
        pre.len() % 2 == 0,
        extra >= 0,
    ensures
        ({
            let c = complement(extra + word_sum(pre + seq![0u8, 0u8] + post));
            complement(extra + word_sum(pre + u16_bytes(c) + post)) == 0
        }),
{
    let zero = seq![0u8, 0u8];
    let c = complement(extra + word_sum(pre + zero + post));
    let cb = u16_bytes(c);
    assert(pre + zero + post == pre + (zero + post));
    assert(pre + cb + post == pre + (cb + post));
    lemma_word_sum_concat(pre, zero + post);
    lemma_word_sum_concat(zero, post);
    lemma_word_sum_concat(pre, cb + post);
    lemma_word_sum_concat(cb, post);
    lemma_word_sum_pair(0u8, 0u8);
    lemma_word_sum_u16(c);
    lemma_complement_cancels(extra + word_sum(pre) + word_sum(post));
}

/// Changing one byte changes the word sum by the difference, weighted by the byte's
/// place in its word.
pub proof fn lemma_word_sum_update(s: Seq<u8>, j: int, v: u8)
    requires
        0 <= j < s.len(),
    ensures
        word_sum(s.update(j, v)) == word_sum(s) + (v - s[j]) * (if j % 2 == 0 { 256int } else { 1int }),
    decreases s.len(),
{
    let t = s.update(j, v);
    if j >= 2 {
        let rest = s.subrange(2, s.len() as int);
        lemma_word_sum_update(rest, j - 2, v);
        assert(t.subrange(2, t.len() as int) == rest.update(j - 2, v));
    } else if s.len() >= 2 {
        assert(t.subrange(2, t.len() as int) == s.subrange(2, s.len() as int));
    }
}

/// Any single changed byte in a message whose checksum checks out (with or without a
/// pseudo-header's sum) makes the check fail.
pub proof fn lemma_single_byte_change_detected(s: Seq<u8>, extra: int, j: int, v: u8)
    requires
        extra >= 0,
        0 <= j < s.len(),
        v != s[j],
        complement(extra + word_sum(s)) == 0,
    ensures
        complement(extra + word_sum(s.update(j, v))) != 0,
{
    let w = extra + word_sum(s);
    let d = (v - s[j]) * (if j % 2 == 0 { 256int } else { 1int });
    lemma_word_sum_update(s, j, v);
    let w2 = extra + word_sum(s.update(j, v));
    assert(w2 == w + d);
    lemma_fold16_closed(w);
    lemma_fold16_closed(w2);
    assert(w > 0);
    lemma_fundamental_div_mod(w - 1, 65535);
    let q = (w - 1) / 65535;
    assert(w == 65535 * (q + 1));
    assert(-65535 < d < 65535 && d != 0);
    if w2 > 0 {
        lemma_fundamental_div_mod(w2 - 1, 65535);
        let q2 = (w2 - 1) / 65535;
        let r2 = (w2 - 1) % 65535;
        if r2 == 65534 {
            assert(w2 == 65535 * (q2 + 1));
            assert(d == 65535 * (q2 - q));
            assert(false);
        }
    }
}

/// Computes the Internet checksum from RFC 1071.
pub fn internet(data: &[u8]) -> (sum: u16)
    ensures
        sum == internet_spec(data@),
{
    let total = sum_words(0, data);
    finish(total)
}

/// Adds the words of `data` to `sum`, folding carries so the accumulator stays bounded;
/// the result folds to the same value as the exact sum.
fn sum_words(sum: u64, data: &[u8]) -> (r: u64)
    requires
        sum <= 0x1_0000_0000_0000,
    ensures
        fold16(r as int) == fold16(sum + word_sum(data@)),
{
    let mut acc: u64 = sum;
    let mut i: usize = 0;
    let len = data.len();
    assert(data@.subrange(0, len as int) == data@);
    while len - i >= 2
        invariant
            len == data@.len(),
            i <= len,
            acc <= 0x1_0000_0000_0000,
            fold16(acc + word_sum(data@.subrange(i as int, len as int))) == fold16(
                sum + word_sum(data@),
            ),
        decreases len - i,
    {
        let ghost rest = data@.subrange(i as int, len as int);
        assert(rest.subrange(2, rest.len() as int) == data@.subrange(i + 2, len as int));
        acc = acc + (data[i] as u64) * 256 + (data[i + 1] as u64);
        i = i + 2;
        if acc > 0xffff_ffff_ffff {
            proof {
                lemma_fold_step(acc as int);
                lemma_fold16_congruent(
                    acc as int,
                    acc % 0x10000 + acc / 0x10000,
                    word_sum(data@.subrange(i as int, len as int)) as int,
                );
            }
            acc = acc % 0x10000 + acc / 0x10000;
        }
    }
    if i < len {
        let ghost rest = data@.subrange(i as int, len as int);
        assert(rest.len() == 1);
        acc = acc + (data[i] as u64) * 256;
    } else {
        assert(data@.subrange(i as int, len as int).len() == 0);
    }
    acc
}

/// Folds the carries of `sum` and complements the result.
fn finish(sum: u64) -> (r: u16)
    ensures
        r == complement(sum as int),
{
    let mut s: u64 = sum;
    while s >= 0x10000
        invariant
            fold16(s as int) == fold16(sum as int),
        decreases s,
    {
        s = s % 0x10000 + s / 0x10000;
    }
    0xffff - (s as u16)
}

/// Computes the checksum of a TCP or UDP segment under the IPv4 pseudo-header.
pub fn pseudo_header(src: [u8; 4], dst: [u8; 4], protocol: u8, segment: &[u8]) -> (sum: u16)
    ensures
        sum == pseudo_header_spec(src, dst, protocol, segment@),
{
    let len = segment.len() as u64 % 0x1_0000_0000;
    let start: u64 = (src[0] as u64) * 256 + (src[1] as u64) + (src[2] as u64) * 256 + (src[3] as u64)
        + (dst[0] as u64) * 256 + (dst[1] as u64) + (dst[2] as u64) * 256 + (dst[3] as u64)
        + (protocol as u64) + len;
    let total = sum_words(start, segment);
    finish(total)
}

} // verus!
