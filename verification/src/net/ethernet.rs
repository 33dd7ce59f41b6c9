//! Ethernet II framing.

use vstd::prelude::*;
use super::wire::{be16, push_be16, push_all, read_be16};

verus! {

pub const ETHERTYPE_IPV4: u16 = 0x0800;
pub const ETHERTYPE_ARP: u16 = 0x0806;
pub const BROADCAST: [u8; 6] = [0xff, 0xff, 0xff, 0xff, 0xff, 0xff];

pub const HDR_LEN: usize = 14;

/// The frame `build` produces: dst, src, ethertype (big-endian), payload.
pub open spec fn spec_build(dst: Seq<u8>, src: Seq<u8>, ethertype: u16, payload: Seq<u8>) -> Seq<u8> {
    dst + src + seq![(ethertype / 256) as u8, (ethertype % 256) as u8] + payload
}

/// What `parse` extracts from `frame`: (dst, src, ethertype, payload).
pub open spec fn spec_parse(frame: Seq<u8>) -> Option<(Seq<u8>, Seq<u8>, u16, Seq<u8>)> {
    if frame.len() < HDR_LEN {
        None
    } else {
        Some(
            (
                frame.subrange(0, 6),
                frame.subrange(6, 12),
                be16(frame[12], frame[13]) as u16,
                frame.subrange(14, frame.len() as int),
            ),
        )
    }
}

/// Law: parsing a frame that `build` produced gives back its fields.
pub proof fn lemma_parse_build(dst: Seq<u8>, src: Seq<u8>, ethertype: u16, payload: Seq<u8>)
    requires
        dst.len() == 6,
        src.len() == 6,
    ensures
        spec_parse(spec_build(dst, src, ethertype, payload)) == Some((dst, src, ethertype, payload)),
{
    let f = spec_build(dst, src, ethertype, payload);
    assert(f.subrange(0, 6) =~= dst);
    assert(f.subrange(6, 12) =~= src);
    assert(f.subrange(14, f.len() as int) =~= payload);
}

/// Build an Ethernet frame: dst, src, ethertype, then payload.
pub fn build(dst: [u8; 6], src: [u8; 6], ethertype: u16, payload: &[u8]) -> (r: Vec<u8>)
    requires
        payload@.len() + HDR_LEN <= usize::MAX,
    ensures
        r@ == spec_build(dst@, src@, ethertype, payload@),
{
    let mut f: Vec<u8> = Vec::with_capacity(HDR_LEN + payload.len());
    push_all(&mut f, &dst);
    push_all(&mut f, &src);
    push_be16(&mut f, ethertype);
    push_all(&mut f, payload);
    f
}

/// A parsed Ethernet frame.
pub struct Frame<'a> {
    pub dst: [u8; 6],
    pub src: [u8; 6],
    pub ethertype: u16,
    pub payload: &'a [u8],
}

impl<'a> View for Frame<'a> {
    type V = (Seq<u8>, Seq<u8>, u16, Seq<u8>);

    open spec fn view(&self) -> Self::V {
        (self.dst@, self.src@, self.ethertype, self.payload@)
    }
}

/// Parse an Ethernet II frame; `None` when shorter than the header.
pub fn parse<'a>(frame: &'a [u8]) -> (r: Option<Frame<'a>>)
    ensures
        match r {
            Some(f) => spec_parse(frame@) == Some(f@),
            None => spec_parse(frame@) is None,
        },
{
    if frame.len() < HDR_LEN {
        return None;
    }
    let dst = [frame[0], frame[1], frame[2], frame[3], frame[4], frame[5]];
    let src = [frame[6], frame[7], frame[8], frame[9], frame[10], frame[11]];
    assert(dst@ =~= frame@.subrange(0, 6));
    assert(src@ =~= frame@.subrange(6, 12));
    Some(
        Frame {
            dst,
            src,
            ethertype: read_be16(frame, 12),
            payload: vstd::slice::slice_subrange(frame, HDR_LEN, frame.len()),
        },
    )
}

} // verus!
