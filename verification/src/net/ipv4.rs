//! Minimal IPv4: header build/parse and the internet checksum.

use vstd::prelude::*;
use vstd::arithmetic::div_mod::lemma_mod_multiples_vanish;
use super::wire::{be16, put16, push_be16, push_all, set_be16};

verus! {

pub const PROTO_ICMP: u8 = 1;
pub const PROTO_TCP: u8 = 6;
pub const PROTO_UDP: u8 = 17;
pub const HDR_LEN: usize = 20;

/// Sum of the big-endian 16-bit words of `s`; an odd trailing byte is
/// padded with a zero low byte (RFC 1071).
pub open spec fn word_sum(s: Seq<u8>) -> nat
    decreases s.len(),
{
    if s.len() == 0 {
        0
    } else if s.len() == 1 {
        s[0] as nat * 256
    } else {
        be16(s[0], s[1]) + word_sum(s.subrange(2, s.len() as int))
    }
}

/// End-around-carry folding of a sum down to 16 bits.
pub open spec fn fold16(n: nat) -> nat
    decreases n,
{
    if n < 65536 {
        n
    } else {
        fold16(n % 65536 + n / 65536)
    }
}

/// The internet checksum of `s`: one's complement of the folded word sum.
pub open spec fn internet_checksum(s: Seq<u8>) -> u16 {
    (65535 - fold16(word_sum(s))) as u16
}

proof fn lemma_fold16(n: nat)
    ensures
        fold16(n) <= 65535,
        fold16(n) % 65535 == n % 65535,
        n > 0 ==> fold16(n) > 0,
    decreases n,
{
    if n >= 65536 {
        let q = n / 65536;
        let r = n % 65536;
        assert(n == 65536 * q + r);
        assert(q >= 1);
        let m = (r + q) as nat;
        assert(m < n);
        assert(n == 65535 * q + m);
        lemma_mod_multiples_vanish(q as int, m as int, 65535);
        lemma_fold16(m);
    }
}

proof fn lemma_word_sum_split(s: Seq<u8>, i: int)
    requires
        0 <= i,
        i + 2 <= s.len(),
    ensures
        word_sum(s.subrange(i, s.len() as int)) == be16(s[i], s[i + 1]) + word_sum(
            s.subrange(i + 2, s.len() as int),
        ),
{
    let t = s.subrange(i, s.len() as int);
    assert(t.subrange(2, t.len() as int) =~= s.subrange(i + 2, s.len() as int));
}

/// Replacing the word at an even offset changes the word sum by the
/// difference of the two words.
proof fn lemma_word_sum_update(s: Seq<u8>, k: int, hi: u8, lo: u8)
    requires
        0 <= k,
        k % 2 == 0,
        k + 2 <= s.len(),
    ensures
        word_sum(s.update(k, hi).update(k + 1, lo)) + be16(s[k], s[k + 1]) == word_sum(s) + be16(
            hi,
            lo,
        ),
    decreases s.len(),
{
    let t = s.update(k, hi).update(k + 1, lo);
    if k == 0 {
        assert(t.subrange(2, t.len() as int) =~= s.subrange(2, s.len() as int));
    } else {
        let s2 = s.subrange(2, s.len() as int);
        lemma_word_sum_update(s2, k - 2, hi, lo);
        assert(t.subrange(2, t.len() as int) =~= s2.update(k - 2, hi).update(k - 1, lo));
    }
}

/// Law (RFC 1071): storing the checksum of a buffer into a zeroed,
/// word-aligned checksum field makes the buffer's checksum zero. The
/// value 0xffff, which UDP sends in place of a zero checksum, works too.
pub proof fn lemma_checksum_verifies(s: Seq<u8>, k: int, v: u16)
    requires
        0 <= k,
        k % 2 == 0,
        k + 2 <= s.len(),
        s[k] == 0,
        s[k + 1] == 0,
        v == internet_checksum(s) || (internet_checksum(s) == 0 && v == 0xffff),
    ensures
        internet_checksum(put16(s, k, v)) == 0,
{
    let c = internet_checksum(s);
    let w = word_sum(s);
    lemma_fold16(w);
    let hi = (v / 256) as u8;
    let lo = (v % 256) as u8;
    assert(be16(hi, lo) == v);
    lemma_word_sum_update(s, k, hi, lo);
    let t = put16(s, k, v);
    let w2 = word_sum(t);
    assert(w2 == w + v);
    assert(c == 65535 - fold16(w));
    lemma_fold16(w2);
    if w == 0 {
        assert(fold16(0) == 0);
        assert(w2 == 65535);
        assert(fold16(w2) == 65535);
    } else {
        assert(w2 > 0);
        let f = fold16(w);
        let e: int = if v == c { 0 } else { 1 };
        assert(v == 65535 - f + 65535 * e);
        assert(w2 % 65535 == 0) by {
            assert(w == 65535 * (w / 65535) + w % 65535);
            assert(f == 65535 * (f / 65535) + f % 65535);
            assert(w2 == 65535 * (w / 65535 - f / 65535 + 1 + e) + w % 65535 - f % 65535);
            lemma_mod_multiples_vanish(w / 65535 - f / 65535 + 1 + e, 0, 65535);
        }
        assert(fold16(w2) == 65535);
    }
}

/// Internet checksum (RFC 1071): one's-complement sum of 16-bit words.
pub fn checksum(data: &[u8]) -> (r: u16)
    requires
        data@.len() <= 131072,
    ensures
        r == internet_checksum(data@),
{
    let mut sum: u32 = 0;
    let mut i: usize = 0;
    proof {
        assert(data@.subrange(0, data@.len() as int) =~= data@);
    }
    while i + 1 < data.len()
        invariant
            i <= data@.len(),
            i % 2 == 0,
            data@.len() <= 131072,
            sum as nat + word_sum(data@.subrange(i as int, data@.len() as int)) == word_sum(data@),
            sum as nat <= (i as nat / 2) * 65535,
        decreases data@.len() - i,
    {
        proof {
            lemma_word_sum_split(data@, i as int);
        }
        let w: u32 = data[i] as u32 * 256 + data[i + 1] as u32;
        sum = sum + w;
        i = i + 2;
    }
    if i < data.len() {
        proof {
            let t = data@.subrange(i as int, data@.len() as int);
            assert(t.len() == 1);
        }
        sum = sum + data[i] as u32 * 256;
    } else {
        proof {
            assert(data@.subrange(i as int, data@.len() as int).len() == 0);
        }
    }
    assert(sum as nat == word_sum(data@));
    while sum >> 16 != 0
        invariant
            fold16(sum as nat) == fold16(word_sum(data@)),
        decreases sum,
    {
        let s = sum;
        assert(s >> 16 == s / 65536) by (bit_vector);
        assert(s & 0xffff == s % 65536) by (bit_vector);
        sum = (sum & 0xffff) + (sum >> 16);
    }
    let s = sum;
    assert(s >> 16 == s / 65536) by (bit_vector);
    assert(sum < 65536);
    let r: u16 = 65535 - sum as u16;
    r
}


/// The 20-byte IPv4 header with a zero checksum field.
pub open spec fn header_template(src: Seq<u8>, dst: Seq<u8>, proto: u8, total: u16, ident: u16) -> Seq<u8> {
    seq![
        0x45u8,
        0u8,
        (total / 256) as u8,
        (total % 256) as u8,
        (ident / 256) as u8,
        (ident % 256) as u8,
        0x40u8,
        0u8,
        64u8,
        proto,
        0u8,
        0u8,
    ] + src + dst
}

/// The IPv4 header with its checksum filled in.
pub open spec fn header(src: Seq<u8>, dst: Seq<u8>, proto: u8, total: u16, ident: u16) -> Seq<u8> {
    let t = header_template(src, dst, proto, total, ident);
    put16(t, 10, internet_checksum(t))
}

/// Total-length field value for a payload of `len` bytes (truncated to 16 bits).
pub open spec fn total_len(len: nat) -> u16 {
    ((HDR_LEN + len) % 65536) as u16
}

/// The packet `build` produces: header followed by the payload.
pub open spec fn spec_build(src: Seq<u8>, dst: Seq<u8>, proto: u8, payload: Seq<u8>, ident: u16) -> Seq<u8> {
    header(src, dst, proto, total_len(payload.len()), ident) + payload
}

/// What `parse` extracts from `pkt`: (src, dst, proto, payload).
pub open spec fn spec_parse(pkt: Seq<u8>) -> Option<(Seq<u8>, Seq<u8>, u8, Seq<u8>)> {
    if pkt.len() < HDR_LEN || pkt[0] / 16 != 4 {
        None
    } else {
        let ihl = (pkt[0] % 16) as int * 4;
        let total = be16(pkt[2], pkt[3]) as int;
        let end = if total < pkt.len() { total } else { pkt.len() as int };
        if ihl < HDR_LEN || pkt.len() < ihl || end < ihl {
            None
        } else {
            Some((pkt.subrange(12, 16), pkt.subrange(16, 20), pkt[9], pkt.subrange(ihl, end)))
        }
    }
}

/// Law: every header `build` writes carries a valid checksum.
pub proof fn lemma_header_checksum_valid(src: Seq<u8>, dst: Seq<u8>, proto: u8, total: u16, ident: u16)
    requires
        src.len() == 4,
        dst.len() == 4,
    ensures
        internet_checksum(header(src, dst, proto, total, ident)) == 0,
{
    let t = header_template(src, dst, proto, total, ident);
    lemma_checksum_verifies(t, 10, internet_checksum(t));
}

/// Law: parsing a packet that `build` produced gives back its fields,
/// whenever the total length fits the 16-bit field.
pub proof fn lemma_parse_build(src: Seq<u8>, dst: Seq<u8>, proto: u8, payload: Seq<u8>, ident: u16)
    requires
        src.len() == 4,
        dst.len() == 4,
        payload.len() + HDR_LEN <= 65535,
    ensures
        spec_parse(spec_build(src, dst, proto, payload, ident)) == Some((src, dst, proto, payload)),
{
    let pkt = spec_build(src, dst, proto, payload, ident);
    let total = total_len(payload.len());
    assert(total == 20 + payload.len());
    assert(be16(pkt[2], pkt[3]) == total);
    assert(pkt.subrange(12, 16) =~= src);
    assert(pkt.subrange(16, 20) =~= dst);
    assert(pkt.subrange(20, pkt.len() as int) =~= payload);
}

/// Law: bytes after the end that the total-length field gives (such as
/// link-layer padding) change nothing that `parse` returns.
pub proof fn lemma_parse_ignores_trailing(pkt: Seq<u8>, extra: Seq<u8>)
    requires
        HDR_LEN <= pkt.len(),
        be16(pkt[2], pkt[3]) as int <= pkt.len(),
    ensures
        spec_parse(pkt + extra) == spec_parse(pkt),
{
    let q = pkt + extra;
    assert(q[0] == pkt[0] && q[2] == pkt[2] && q[3] == pkt[3] && q[9] == pkt[9]);
    let ihl = (pkt[0] % 16) as int * 4;
    let total = be16(pkt[2], pkt[3]) as int;
    assert(q.subrange(12, 16) =~= pkt.subrange(12, 16));
    assert(q.subrange(16, 20) =~= pkt.subrange(16, 20));
    if ihl <= total {
        assert(q.subrange(ihl, total) =~= pkt.subrange(ihl, total));
    }
}

/// Law: a packet that `build` produced, followed by any trailing bytes,
/// parses back to exactly the fields and payload it was built from.
pub proof fn lemma_parse_build_padded(src: Seq<u8>, dst: Seq<u8>, proto: u8, payload: Seq<u8>, ident: u16, extra: Seq<u8>)
    requires
        src.len() == 4,
        dst.len() == 4,
        payload.len() + HDR_LEN <= 65535,
    ensures
        spec_parse(spec_build(src, dst, proto, payload, ident) + extra) == Some((src, dst, proto, payload)),
{
    let pkt = spec_build(src, dst, proto, payload, ident);
    lemma_parse_build(src, dst, proto, payload, ident);
    assert(be16(pkt[2], pkt[3]) == total_len(payload.len()));
    lemma_parse_ignores_trailing(pkt, extra);
}

/// A parsed IPv4 packet: (src, dst, proto, payload).
pub struct Ipv4<'a> {
    pub src: [u8; 4],
    pub dst: [u8; 4],
    pub proto: u8,
    pub payload: &'a [u8],
}

impl<'a> View for Ipv4<'a> {
    type V = (Seq<u8>, Seq<u8>, u8, Seq<u8>);

    open spec fn view(&self) -> Self::V {
        (self.src@, self.dst@, self.proto, self.payload@)
    }
}

/// Build an IPv4 header + payload for `proto`.
pub fn build(src: [u8; 4], dst: [u8; 4], proto: u8, payload: &[u8], ident: u16) -> (r: Vec<u8>)
    requires
        payload@.len() + HDR_LEN <= usize::MAX,
    ensures
        r@ == spec_build(src@, dst@, proto, payload@, ident),
{
    let total: u16 = ((HDR_LEN + payload.len()) % 65536) as u16;
    let mut h: Vec<u8> = Vec::with_capacity(HDR_LEN + payload.len());
    h.push(0x45);
    h.push(0x00);
    push_be16(&mut h, total);
    push_be16(&mut h, ident);
    push_be16(&mut h, 0x4000);
    h.push(64);
    h.push(proto);
    push_be16(&mut h, 0);
    push_all(&mut h, &src);
    push_all(&mut h, &dst);
    assert(h@ =~= header_template(src@, dst@, proto, total, ident));
    let csum = checksum(h.as_slice());
    set_be16(&mut h, 10, csum);
    push_all(&mut h, payload);
    h
}

/// Parse an IPv4 packet; `None` unless it is a well-formed version-4 header.
pub fn parse<'a>(pkt: &'a [u8]) -> (r: Option<Ipv4<'a>>)
    ensures
        match r {
            Some(p) => spec_parse(pkt@) == Some(p@),
            None => spec_parse(pkt@) is None,
        },
{
    if pkt.len() < HDR_LEN || pkt[0] / 16 != 4 {
        return None;
    }
    let ihl: usize = (pkt[0] % 16) as usize * 4;
    if ihl < HDR_LEN || pkt.len() < ihl {
        return None;
    }
    let total: usize = pkt[2] as usize * 256 + pkt[3] as usize;
    let end: usize = if total < pkt.len() { total } else { pkt.len() };
    if end < ihl {
        return None;
    }
    let src = [pkt[12], pkt[13], pkt[14], pkt[15]];
    let dst = [pkt[16], pkt[17], pkt[18], pkt[19]];
    assert(src@ =~= pkt@.subrange(12, 16));
    assert(dst@ =~= pkt@.subrange(16, 20));
    Some(Ipv4 { src, dst, proto: pkt[9], payload: vstd::slice::slice_subrange(pkt, ihl, end) })
}

} // verus!
