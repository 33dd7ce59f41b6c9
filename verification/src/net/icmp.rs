//! ICMP echo (ping) build/parse.

use vstd::prelude::*;
use super::ipv4::{self, internet_checksum, lemma_checksum_verifies};
use super::wire::{be16, put16, push_be16, push_all, set_be16, read_be16};

verus! {

pub const TYPE_ECHO_REQUEST: u8 = 8;
pub const TYPE_ECHO_REPLY: u8 = 0;

/// The message with a zero checksum field.
pub open spec fn template(msg_type: u8, id: u16, seq: u16, payload: Seq<u8>) -> Seq<u8> {
    seq![
        msg_type,
        0u8,
        0u8,
        0u8,
        (id / 256) as u8,
        (id % 256) as u8,
        (seq / 256) as u8,
        (seq % 256) as u8,
    ] + payload
}

/// The message `build` produces: the template with its checksum stored.
pub open spec fn spec_build(msg_type: u8, id: u16, seq: u16, payload: Seq<u8>) -> Seq<u8> {
    let t = template(msg_type, id, seq, payload);
    put16(t, 2, internet_checksum(t))
}

/// What `parse` extracts: (type, id, seq, payload).
pub open spec fn spec_parse(d: Seq<u8>) -> Option<(u8, u16, u16, Seq<u8>)> {
    if d.len() < 8 {
        None
    } else {
        Some((d[0], be16(d[4], d[5]) as u16, be16(d[6], d[7]) as u16, d.subrange(8, d.len() as int)))
    }
}

/// Law: every message `build` writes carries a valid checksum.
pub proof fn lemma_build_checksum_valid(msg_type: u8, id: u16, seq: u16, payload: Seq<u8>)
    ensures
        internet_checksum(spec_build(msg_type, id, seq, payload)) == 0,
{
    let t = template(msg_type, id, seq, payload);
    lemma_checksum_verifies(t, 2, internet_checksum(t));
}

/// Law: parsing what `build` produced gives back type, id, seq and payload.
pub proof fn lemma_parse_build(msg_type: u8, id: u16, seq: u16, payload: Seq<u8>)
    ensures
        spec_parse(spec_build(msg_type, id, seq, payload)) == Some((msg_type, id, seq, payload)),
{
    let m = spec_build(msg_type, id, seq, payload);
    assert(m.subrange(8, m.len() as int) =~= payload);
}

/// Build an ICMP message (type/code + id/seq + payload) with checksum.
pub fn build(msg_type: u8, id: u16, seq: u16, payload: &[u8]) -> (r: Vec<u8>)
    requires
        payload@.len() + 8 <= 131072,
    ensures
        r@ == spec_build(msg_type, id, seq, payload@),
{
    let mut m: Vec<u8> = Vec::with_capacity(8 + payload.len());
    m.push(msg_type);
    m.push(0);
    push_be16(&mut m, 0);
    push_be16(&mut m, id);
    push_be16(&mut m, seq);
    push_all(&mut m, payload);
    assert(m@ =~= template(msg_type, id, seq, payload@));
    let csum = ipv4::checksum(m.as_slice());
    set_be16(&mut m, 2, csum);
    m
}

/// A parsed ICMP message: (type, id, seq, payload).
pub struct Icmp<'a> {
    pub msg_type: u8,
    pub id: u16,
    pub seq: u16,
    pub payload: &'a [u8],
}

impl<'a> View for Icmp<'a> {
    type V = (u8, u16, u16, Seq<u8>);

    open spec fn view(&self) -> Self::V {
        (self.msg_type, self.id, self.seq, self.payload@)
    }
}

/// Parse an ICMP message; `None` when shorter than 8 bytes.
pub fn parse<'a>(data: &'a [u8]) -> (r: Option<Icmp<'a>>)
    ensures
        match r {
            Some(m) => spec_parse(data@) == Some(m@),
            None => spec_parse(data@) is None,
        },
{
    if data.len() < 8 {
        return None;
    }
    Some(
        Icmp {
            msg_type: data[0],
            id: read_be16(data, 4),
            seq: read_be16(data, 6),
            payload: vstd::slice::slice_subrange(data, 8, data.len()),
        },
    )
}

} // verus!
