//! UDP datagram build/parse, with the IPv4 pseudo-header checksum.

use vstd::prelude::*;
use super::ipv4::{self, internet_checksum, lemma_checksum_verifies};
use super::wire::{be16, put16, push_be16, push_all, set_be16, read_be16};

verus! {

pub const HDR_LEN: usize = 8;

/// Length field value for a payload of `n` bytes (truncated to 16 bits).
pub open spec fn length_field(n: nat) -> u16 {
    ((HDR_LEN + n) % 65536) as u16
}

/// The 12-byte IPv4 pseudo-header that the checksum covers.
pub open spec fn pseudo_header(src_ip: Seq<u8>, dst_ip: Seq<u8>, proto: u8, len: u16) -> Seq<u8> {
    src_ip + dst_ip + seq![0u8, proto, (len / 256) as u8, (len % 256) as u8]
}

/// The datagram with a zero checksum field.
pub open spec fn template(src_port: u16, dst_port: u16, payload: Seq<u8>) -> Seq<u8> {
    let len = length_field(payload.len());
    seq![
        (src_port / 256) as u8,
        (src_port % 256) as u8,
        (dst_port / 256) as u8,
        (dst_port % 256) as u8,
        (len / 256) as u8,
        (len % 256) as u8,
        0u8,
        0u8,
    ] + payload
}

/// The checksum `build` stores: the pseudo-header checksum, with 0
/// replaced by its one's-complement twin 0xffff.
pub open spec fn stored_checksum(src_ip: Seq<u8>, dst_ip: Seq<u8>, src_port: u16, dst_port: u16, payload: Seq<u8>) -> u16 {
    let c = internet_checksum(
        pseudo_header(src_ip, dst_ip, ipv4::PROTO_UDP, length_field(payload.len())) + template(
            src_port,
            dst_port,
            payload,
        ),
    );
    if c == 0 {
        0xffff
    } else {
        c
    }
}

/// The datagram `build` produces.
pub open spec fn spec_build(src_ip: Seq<u8>, dst_ip: Seq<u8>, src_port: u16, dst_port: u16, payload: Seq<u8>) -> Seq<u8> {
    put16(
        template(src_port, dst_port, payload),
        6,
        stored_checksum(src_ip, dst_ip, src_port, dst_port, payload),
    )
}

/// What `parse` extracts: (src_port, dst_port, payload), the payload
/// bounded by the length field clamped into `[8, data.len()]`.
pub open spec fn spec_parse(d: Seq<u8>) -> Option<(u16, u16, Seq<u8>)> {
    if d.len() < HDR_LEN {
        None
    } else {
        let len = be16(d[4], d[5]) as int;
        let end = if len < HDR_LEN {
            HDR_LEN as int
        } else if len > d.len() {
            d.len() as int
        } else {
            len
        };
        Some((be16(d[0], d[1]) as u16, be16(d[2], d[3]) as u16, d.subrange(8, end)))
    }
}

/// Law: the pseudo-header checksum over a datagram `build` produced is zero.
pub proof fn lemma_build_checksum_valid(src_ip: Seq<u8>, dst_ip: Seq<u8>, src_port: u16, dst_port: u16, payload: Seq<u8>)
    requires
        src_ip.len() == 4,
        dst_ip.len() == 4,
    ensures
        internet_checksum(
            pseudo_header(src_ip, dst_ip, ipv4::PROTO_UDP, length_field(payload.len())) + spec_build(
                src_ip,
                dst_ip,
                src_port,
                dst_port,
                payload,
            ),
        ) == 0,
{
    let ph = pseudo_header(src_ip, dst_ip, ipv4::PROTO_UDP, length_field(payload.len()));
    let t = template(src_port, dst_port, payload);
    let v = stored_checksum(src_ip, dst_ip, src_port, dst_port, payload);
    lemma_checksum_verifies(ph + t, 18, v);
    assert(put16(ph + t, 18, v) =~= ph + spec_build(src_ip, dst_ip, src_port, dst_port, payload));
}

/// Law: parsing what `build` produced gives back ports and payload,
/// whenever the length fits the 16-bit field.
pub proof fn lemma_parse_build(src_ip: Seq<u8>, dst_ip: Seq<u8>, src_port: u16, dst_port: u16, payload: Seq<u8>)
    requires
        payload.len() + HDR_LEN <= 65535,
    ensures
        spec_parse(spec_build(src_ip, dst_ip, src_port, dst_port, payload)) == Some(
            (src_port, dst_port, payload),
        ),
{
    let d = spec_build(src_ip, dst_ip, src_port, dst_port, payload);
    assert(be16(d[4], d[5]) == payload.len() + 8);
    assert(d.subrange(8, d.len() as int) =~= payload);
}

/// Law: bytes after the end that the UDP length field gives change
/// nothing that `parse` returns.
pub proof fn lemma_parse_ignores_trailing(d: Seq<u8>, extra: Seq<u8>)
    requires
        HDR_LEN <= d.len(),
        be16(d[4], d[5]) as int <= d.len(),
    ensures
        spec_parse(d + extra) == spec_parse(d),
{
    let q = d + extra;
    assert(q[0] == d[0] && q[1] == d[1] && q[2] == d[2] && q[3] == d[3] && q[4] == d[4] && q[5] == d[5]);
    let len = be16(d[4], d[5]) as int;
    let end = if len < HDR_LEN { HDR_LEN as int } else { len };
    assert(q.subrange(8, end) =~= d.subrange(8, end));
}

/// Law: a datagram that `build` produced, followed by any trailing bytes,
/// parses back to exactly its ports and payload.
pub proof fn lemma_parse_build_padded(
    src_ip: Seq<u8>,
    dst_ip: Seq<u8>,
    src_port: u16,
    dst_port: u16,
    payload: Seq<u8>,
    extra: Seq<u8>,
)
    requires
        payload.len() + HDR_LEN <= 65535,
    ensures
        spec_parse(spec_build(src_ip, dst_ip, src_port, dst_port, payload) + extra) == Some((src_port, dst_port, payload)),
{
    let d = spec_build(src_ip, dst_ip, src_port, dst_port, payload);
    lemma_parse_build(src_ip, dst_ip, src_port, dst_port, payload);
    assert(be16(d[4], d[5]) == payload.len() + 8);
    lemma_parse_ignores_trailing(d, extra);
}

/// Build a UDP datagram (header + payload) with a correct checksum.
pub fn build(src_ip: [u8; 4], dst_ip: [u8; 4], src_port: u16, dst_port: u16, payload: &[u8]) -> (r: Vec<u8>)
    requires
        payload@.len() + HDR_LEN + 12 <= 131072,
    ensures
        r@ == spec_build(src_ip@, dst_ip@, src_port, dst_port, payload@),
{
    let len: u16 = ((HDR_LEN + payload.len()) % 65536) as u16;
    let mut dgram: Vec<u8> = Vec::with_capacity(HDR_LEN + payload.len());
    push_be16(&mut dgram, src_port);
    push_be16(&mut dgram, dst_port);
    push_be16(&mut dgram, len);
    push_be16(&mut dgram, 0);
    push_all(&mut dgram, payload);
    assert(dgram@ =~= template(src_port, dst_port, payload@));

    let mut buf: Vec<u8> = Vec::with_capacity(12 + dgram.len());
    push_all(&mut buf, &src_ip);
    push_all(&mut buf, &dst_ip);
    buf.push(0);
    buf.push(ipv4::PROTO_UDP);
    push_be16(&mut buf, len);
    push_all(&mut buf, dgram.as_slice());
    assert(buf@ =~= pseudo_header(src_ip@, dst_ip@, ipv4::PROTO_UDP, len) + dgram@);
    let mut csum = ipv4::checksum(buf.as_slice());
    if csum == 0 {
        csum = 0xffff;
    }
    set_be16(&mut dgram, 6, csum);
    dgram
}

/// A parsed UDP datagram: (src_port, dst_port, payload).
pub struct Udp<'a> {
    pub src_port: u16,
    pub dst_port: u16,
    pub payload: &'a [u8],
}

impl<'a> View for Udp<'a> {
    type V = (u16, u16, Seq<u8>);

    open spec fn view(&self) -> Self::V {
        (self.src_port, self.dst_port, self.payload@)
    }
}

/// Parse a UDP datagram; `None` when shorter than the header.
pub fn parse<'a>(data: &'a [u8]) -> (r: Option<Udp<'a>>)
    ensures
        match r {
            Some(u) => spec_parse(data@) == Some(u@),
            None => spec_parse(data@) is None,
        },
{
    if data.len() < HDR_LEN {
        return None;
    }
    let len = read_be16(data, 4) as usize;
    let end = if len < HDR_LEN {
        HDR_LEN
    } else if len > data.len() {
        data.len()
    } else {
        len
    };
    Some(
        Udp {
            src_port: read_be16(data, 0),
            dst_port: read_be16(data, 2),
            payload: vstd::slice::slice_subrange(data, HDR_LEN, end),
        },
    )
}

} // verus!
