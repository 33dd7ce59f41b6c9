//! ARP (IPv4-over-Ethernet) packet build/parse. The cache lives in the
//! interface (net/mod.rs); these are pure helpers.

use vstd::prelude::*;
use super::wire::{be16, push_be16, push_all, read_be16};

verus! {

pub const OP_REQUEST: u16 = 1;
pub const OP_REPLY: u16 = 2;
pub const HTYPE_ETHERNET: u16 = 1;
pub const PTYPE_IPV4: u16 = 0x0800;

/// A decoded ARP packet.
pub struct Arp {
    pub op: u16,
    pub sender_mac: [u8; 6],
    pub sender_ip: [u8; 4],
    pub target_ip: [u8; 4],
}

impl View for Arp {
    type V = (u16, Seq<u8>, Seq<u8>, Seq<u8>);

    open spec fn view(&self) -> Self::V {
        (self.op, self.sender_mac@, self.sender_ip@, self.target_ip@)
    }
}

/// The 28-byte payload `build` produces.
pub open spec fn spec_build(
    op: u16,
    sender_mac: Seq<u8>,
    sender_ip: Seq<u8>,
    target_mac: Seq<u8>,
    target_ip: Seq<u8>,
) -> Seq<u8> {
    seq![0u8, 1u8, 8u8, 0u8, 6u8, 4u8, (op / 256) as u8, (op % 256) as u8] + sender_mac + sender_ip
        + target_mac + target_ip
}

/// What `parse` extracts: (op, sender_mac, sender_ip, target_ip), for
/// Ethernet/IPv4 ARP of at least 28 bytes.
pub open spec fn spec_parse(p: Seq<u8>) -> Option<(u16, Seq<u8>, Seq<u8>, Seq<u8>)> {
    if p.len() < 28 || be16(p[0], p[1]) != HTYPE_ETHERNET || be16(p[2], p[3]) != PTYPE_IPV4 {
        None
    } else {
        Some((be16(p[6], p[7]) as u16, p.subrange(8, 14), p.subrange(14, 18), p.subrange(24, 28)))
    }
}

/// Law: parsing what `build` produced gives back op, sender and target IP.
pub proof fn lemma_parse_build(
    op: u16,
    sender_mac: Seq<u8>,
    sender_ip: Seq<u8>,
    target_mac: Seq<u8>,
    target_ip: Seq<u8>,
)
    requires
        sender_mac.len() == 6,
        sender_ip.len() == 4,
        target_mac.len() == 6,
        target_ip.len() == 4,
    ensures
        spec_parse(spec_build(op, sender_mac, sender_ip, target_mac, target_ip)) == Some(
            (op, sender_mac, sender_ip, target_ip),
        ),
{
    let p = spec_build(op, sender_mac, sender_ip, target_mac, target_ip);
    assert(p.subrange(8, 14) =~= sender_mac);
    assert(p.subrange(14, 18) =~= sender_ip);
    assert(p.subrange(24, 28) =~= target_ip);
}

/// Build an ARP request/reply (28-byte payload for an Ethernet frame).
pub fn build(
    op: u16,
    sender_mac: [u8; 6],
    sender_ip: [u8; 4],
    target_mac: [u8; 6],
    target_ip: [u8; 4],
) -> (r: Vec<u8>)
    ensures
        r@ == spec_build(op, sender_mac@, sender_ip@, target_mac@, target_ip@),
        r@.len() == 28,
{
    let mut p: Vec<u8> = Vec::with_capacity(28);
    push_be16(&mut p, HTYPE_ETHERNET);
    push_be16(&mut p, PTYPE_IPV4);
    p.push(6);
    p.push(4);
    push_be16(&mut p, op);
    push_all(&mut p, &sender_mac);
    push_all(&mut p, &sender_ip);
    push_all(&mut p, &target_mac);
    push_all(&mut p, &target_ip);
    assert(p@ =~= spec_build(op, sender_mac@, sender_ip@, target_mac@, target_ip@));
    p
}

/// Parse an ARP payload (from an Ethernet frame with ethertype 0x0806).
pub fn parse(payload: &[u8]) -> (r: Option<Arp>)
    ensures
        match r {
            Some(a) => spec_parse(payload@) == Some(a@),
            None => spec_parse(payload@) is None,
        },
{
    if payload.len() < 28 {
        return None;
    }
    if read_be16(payload, 0) != HTYPE_ETHERNET || read_be16(payload, 2) != PTYPE_IPV4 {
        return None;
    }
    let op = read_be16(payload, 6);
    let sender_mac = [payload[8], payload[9], payload[10], payload[11], payload[12], payload[13]];
    let sender_ip = [payload[14], payload[15], payload[16], payload[17]];
    let target_ip = [payload[24], payload[25], payload[26], payload[27]];
    assert(sender_mac@ =~= payload@.subrange(8, 14));
    assert(sender_ip@ =~= payload@.subrange(14, 18));
    assert(target_ip@ =~= payload@.subrange(24, 28));
    Some(Arp { op, sender_mac, sender_ip, target_ip })
}

} // verus!
