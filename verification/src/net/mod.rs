//! Network interface: a tiny Ethernet/ARP/IPv4/ICMP stack over the
//! codecs below, the UDP socket table and the TCP connection table.
//!
//! Static configuration matches QEMU's SLIRP defaults (10.0.2.0/24,
//! guest 10.0.2.15, gateway 10.0.2.2). The driver side (receiving and
//! transmitting frames) is the caller's: received frames go in, frames
//! to transmit come out.

pub mod arp;
pub mod ethernet;
pub mod icmp;
pub mod ipv4;
pub mod socket;
pub mod tcp;
pub mod udp;
pub mod wire;

use vstd::prelude::*;
use vstd::wrapping::u16_specs;
use self::socket::{SocketModel, SocketTable, find_port, spec_enqueue};
use self::tcp::{TcpTable, ip_eq};

verus! {

pub const OUR_IP: [u8; 4] = [10, 0, 2, 15];
pub const GATEWAY_IP: [u8; 4] = [10, 0, 2, 2];
pub const ARP_CACHE_LEN: usize = 8;

/// Interface state.
pub struct Iface {
    pub mac: [u8; 6],
    pub ip: [u8; 4],
    pub gateway: [u8; 4],
    pub arp_cache: [([u8; 4], [u8; 6]); ARP_CACHE_LEN],
    pub arp_len: usize,
    pub gateway_mac: Option<[u8; 6]>,
    pub ping_replies: usize,
}

/// Model of the interface: the ARP cache as its `arp_len` live entries.
#[verifier::ext_equal]
pub struct IfaceModel {
    pub mac: Seq<u8>,
    pub ip: Seq<u8>,
    pub gateway: Seq<u8>,
    pub arp: Seq<(Seq<u8>, Seq<u8>)>,
    pub gateway_mac: Option<Seq<u8>>,
    pub ping_replies: nat,
}

impl View for Iface {
    type V = IfaceModel;

    open spec fn view(&self) -> IfaceModel {
        IfaceModel {
            mac: self.mac@,
            ip: self.ip@,
            gateway: self.gateway@,
            arp: self.arp_cache@.take(self.arp_len as int).map_values(|e: ([u8; 4], [u8; 6])| (e.0@, e.1@)),
            gateway_mac: match self.gateway_mac {
                Some(m) => Some(m@),
                None => None,
            },
            ping_replies: self.ping_replies as nat,
        }
    }
}

impl Iface {
    pub open spec fn wf(&self) -> bool {
        self.arp_len <= ARP_CACHE_LEN
    }
}

/// Position of the first cache entry for `ip`, if any.
pub open spec fn arp_find(arp: Seq<(Seq<u8>, Seq<u8>)>, ip: Seq<u8>) -> Option<int> {
    if exists|i: int| 0 <= i < arp.len() && arp[i].0 == ip {
        Some(choose|i: int| 0 <= i < arp.len() && arp[i].0 == ip && forall|j: int| 0 <= j < i ==> arp[j].0 != ip)
    } else {
        None
    }
}

/// The cache after learning `ip -> mac`: the first entry for `ip` is
/// updated; otherwise the pair is appended while there is room.
pub open spec fn spec_arp_insert(arp: Seq<(Seq<u8>, Seq<u8>)>, ip: Seq<u8>, mac: Seq<u8>) -> Seq<(Seq<u8>, Seq<u8>)> {
    match arp_find(arp, ip) {
        Some(i) => arp.update(i, (ip, mac)),
        None => if arp.len() < ARP_CACHE_LEN { arp.push((ip, mac)) } else { arp },
    }
}

/// The MAC the cache holds for `ip`.
pub open spec fn arp_lookup(arp: Seq<(Seq<u8>, Seq<u8>)>, ip: Seq<u8>) -> Option<Seq<u8>> {
    match arp_find(arp, ip) {
        Some(i) => Some(arp[i].1),
        None => None,
    }
}

proof fn lemma_arp_find_first(arp: Seq<(Seq<u8>, Seq<u8>)>, ip: Seq<u8>, i: int)
    requires
        0 <= i < arp.len(),
        arp[i].0 == ip,
        forall|j: int| 0 <= j < i ==> arp[j].0 != ip,
    ensures
        arp_find(arp, ip) == Some(i),
{
    let k = choose|k: int| 0 <= k < arp.len() && arp[k].0 == ip && forall|j: int| 0 <= j < k ==> arp[j].0 != ip;
    assert(0 <= k < arp.len() && arp[k].0 == ip);
    if k < i {
        assert(arp[k].0 != ip);
    } else if k > i {
        assert(arp[i].0 != ip);
    }
}

proof fn lemma_arp_first_exists(arp: Seq<(Seq<u8>, Seq<u8>)>, ip: Seq<u8>, n: int)
    requires
        0 <= n <= arp.len(),
        exists|i: int| 0 <= i < n && arp[i].0 == ip,
    ensures
        exists|i: int| 0 <= i < n && arp[i].0 == ip && forall|j: int| 0 <= j < i ==> arp[j].0 != ip,
    decreases n,
{
    if exists|i: int| 0 <= i < n - 1 && arp[i].0 == ip {
        lemma_arp_first_exists(arp, ip, n - 1);
        let i = choose|i: int| 0 <= i < n - 1 && arp[i].0 == ip && forall|j: int| 0 <= j < i ==> arp[j].0 != ip;
        assert(0 <= i < n && arp[i].0 == ip && forall|j: int| 0 <= j < i ==> arp[j].0 != ip);
    } else {
        assert(arp[n - 1].0 == ip);
        assert(forall|j: int| 0 <= j < n - 1 ==> arp[j].0 != ip);
    }
}

/// What `arp_find` returns when an entry matches: the first match.
proof fn lemma_arp_find_some(arp: Seq<(Seq<u8>, Seq<u8>)>, ip: Seq<u8>)
    requires
        arp_find(arp, ip) is Some,
    ensures
        ({
            let i = arp_find(arp, ip)->0;
            &&& 0 <= i < arp.len()
            &&& arp[i].0 == ip
            &&& forall|j: int| 0 <= j < i ==> arp[j].0 != ip
        }),
{
    lemma_arp_first_exists(arp, ip, arp.len() as int);
}

/// Law: after learning `ip -> mac`, the cache answers `mac` for `ip`,
/// unless the cache was full and did not know `ip` yet.
pub proof fn lemma_arp_insert_lookup(arp: Seq<(Seq<u8>, Seq<u8>)>, ip: Seq<u8>, mac: Seq<u8>)
    requires
        arp_find(arp, ip) is Some || arp.len() < ARP_CACHE_LEN,
    ensures
        arp_lookup(spec_arp_insert(arp, ip, mac), ip) == Some(mac),
{
    match arp_find(arp, ip) {
        Some(i) => {
            lemma_arp_find_some(arp, ip);
            let a2 = arp.update(i, (ip, mac));
            assert(forall|j: int| 0 <= j < i ==> a2[j].0 != ip);
            lemma_arp_find_first(a2, ip, i);
        },
        None => {
            let a2 = arp.push((ip, mac));
            assert forall|j: int| 0 <= j < arp.len() implies a2[j].0 != ip by {
                if a2[j].0 == ip {
                    assert(arp[j].0 == ip);
                }
            }
            lemma_arp_find_first(a2, ip, arp.len() as int);
        },
    }
}

impl Iface {
    /// Learn `ip -> mac` in the ARP cache.
    pub fn arp_insert(&mut self, ip: [u8; 4], mac: [u8; 6])
        requires
            old(self).wf(),
        ensures
            final(self).wf(),
            final(self)@ == (IfaceModel { arp: spec_arp_insert(old(self)@.arp, ip@, mac@), ..old(self)@ }),
    {
        let ghost arp0 = self@.arp;
        let mut i: usize = 0;
        while i < self.arp_len
            invariant
                self.wf(),
                *self == *old(self),
                i <= self.arp_len,
                arp0 == self@.arp,
                forall|j: int| 0 <= j < i ==> arp0[j].0 != ip@,
            decreases self.arp_len - i,
        {
            if ip_eq(self.arp_cache[i].0, ip) {
                proof {
                    lemma_arp_find_first(arp0, ip@, i as int);
                }
                self.arp_cache[i].1 = mac;
                assert(self@.arp =~= arp0.update(i as int, (ip@, mac@)));
                return;
            }
            i = i + 1;
        }
        assert(arp_find(arp0, ip@) is None);
        if self.arp_len < ARP_CACHE_LEN {
            self.arp_cache[self.arp_len] = (ip, mac);
            self.arp_len = self.arp_len + 1;
            assert(self@.arp =~= arp0.push((ip@, mac@)));
        }
    }
}


/// The whole network state: interface, IP identification counter,
/// UDP socket table and TCP connection table.
pub struct Net {
    pub iface: Option<Iface>,
    pub ip_ident: u16,
    pub sockets: SocketTable,
    pub tcp: TcpTable,
}

/// Model of the state `handle_frame` reads and writes.
#[verifier::ext_equal]
pub struct NetModel {
    pub iface: Option<IfaceModel>,
    pub ip_ident: u16,
    pub sockets: Seq<Option<SocketModel>>,
}

impl View for Net {
    type V = NetModel;

    open spec fn view(&self) -> NetModel {
        NetModel {
            iface: match self.iface {
                Some(i) => Some(i@),
                None => None,
            },
            ip_ident: self.ip_ident,
            sockets: self.sockets@,
        }
    }
}

impl Net {
    pub open spec fn wf(&self) -> bool {
        &&& self.sockets.wf()
        &&& self.tcp.wf()
        &&& (self.iface matches Some(i) ==> i.wf())
    }

    /// Interface down, empty tables.
    pub fn new() -> (n: Net)
        ensures
            n.wf(),
            n.iface is None,
            n.ip_ident == 1,
            forall|i: int| 0 <= i < socket::MAX_SOCKETS ==> #[trigger] n.sockets@[i] is None,
            forall|i: int| 0 <= i < tcp::MAX_TCP ==> #[trigger] n.tcp@[i] is None,
    {
        Net { iface: None, ip_ident: 1, sockets: SocketTable::new(), tcp: TcpTable::new() }
    }
}

/// The socket table after a datagram for `port` arrives.
pub open spec fn spec_socket_deliver(s: Seq<Option<SocketModel>>, port: u16, ip: Seq<u8>, sport: u16, data: Seq<u8>) -> Seq<Option<SocketModel>> {
    match find_port(s, port) {
        None => s,
        Some(i) => s.update(i, Some(spec_enqueue(s[i]->0, (ip, sport, data)))),
    }
}

/// The interface's answer to an ARP packet (and what it learns from it).
pub open spec fn spec_handle_arp(i: IfaceModel, p: Seq<u8>) -> Option<(IfaceModel, Option<Seq<u8>>)> {
    match arp::spec_parse(p) {
        None => None,
        Some((op, smac, sip, tip)) => {
            let i1 = IfaceModel { arp: spec_arp_insert(i.arp, sip, smac), ..i };
            if op == arp::OP_REQUEST && tip == i.ip {
                Some(
                    (
                        i1,
                        Some(
                            ethernet::spec_build(
                                smac,
                                i.mac,
                                ethernet::ETHERTYPE_ARP,
                                arp::spec_build(arp::OP_REPLY, i.mac, i.ip, smac, sip),
                            ),
                        ),
                    ),
                )
            } else if op == arp::OP_REPLY && sip == i.gateway {
                Some((IfaceModel { gateway_mac: Some(smac), ..i1 }, None))
            } else {
                Some((i1, None))
            }
        },
    }
}

/// What one received frame does: the new state and the frame to send
/// in reply (ARP reply / ICMP echo reply), if any.
pub open spec fn spec_handle_frame(n: NetModel, frame: Seq<u8>) -> (NetModel, Option<Seq<u8>>) {
    match ethernet::spec_parse(frame) {
        None => (n, None),
        Some((_edst, esrc, etype, epay)) => match n.iface {
            None => (n, None),
            Some(i) => {
                if etype == ethernet::ETHERTYPE_ARP {
                    match spec_handle_arp(i, epay) {
                        None => (n, None),
                        Some((i2, reply)) => (NetModel { iface: Some(i2), ..n }, reply),
                    }
                } else if etype == ethernet::ETHERTYPE_IPV4 {
                    match ipv4::spec_parse(epay) {
                        None => (n, None),
                        Some((src, dst, proto, ipay)) => {
                            if dst != i.ip {
                                (n, None)
                            } else if proto == ipv4::PROTO_ICMP {
                                match icmp::spec_parse(ipay) {
                                    None => (n, None),
                                    Some((t, id, sq, ipl)) => {
                                        if t == icmp::TYPE_ECHO_REQUEST {
                                            (
                                                NetModel { ip_ident: u16_specs::wrapping_add(n.ip_ident, 1), ..n },
                                                Some(
                                                    ethernet::spec_build(
                                                        esrc,
                                                        i.mac,
                                                        ethernet::ETHERTYPE_IPV4,
                                                        ipv4::spec_build(
                                                            i.ip,
                                                            src,
                                                            ipv4::PROTO_ICMP,
                                                            icmp::spec_build(icmp::TYPE_ECHO_REPLY, id, sq, ipl),
                                                            n.ip_ident,
                                                        ),
                                                    ),
                                                ),
                                            )
                                        } else if t == icmp::TYPE_ECHO_REPLY && src == i.gateway {
                                            (
                                                NetModel {
                                                    iface: Some(IfaceModel { ping_replies: i.ping_replies + 1, ..i }),
                                                    ..n
                                                },
                                                None,
                                            )
                                        } else {
                                            (n, None)
                                        }
                                    },
                                }
                            } else if proto == ipv4::PROTO_UDP {
                                match udp::spec_parse(ipay) {
                                    None => (n, None),
                                    Some((sp, dp, upl)) => (
                                        NetModel { sockets: spec_socket_deliver(n.sockets, dp, src, sp, upl), ..n },
                                        None,
                                    ),
                                }
                            } else {
                                (n, None)
                            }
                        },
                    }
                } else {
                    (n, None)
                }
            },
        },
    }
}

/// `frame` is an ICMP echo request to `ip`: its sender's MAC and IP, and
/// the request's id, sequence number and payload.
pub open spec fn echo_request(frame: Seq<u8>, ip: Seq<u8>) -> Option<(Seq<u8>, Seq<u8>, u16, u16, Seq<u8>)> {
    match ethernet::spec_parse(frame) {
        Some((_d, esrc, t, epay)) => if t != ethernet::ETHERTYPE_IPV4 {
            None
        } else {
            match ipv4::spec_parse(epay) {
                Some((src, dst, proto, ipay)) => if dst != ip || proto != ipv4::PROTO_ICMP {
                    None
                } else {
                    match icmp::spec_parse(ipay) {
                        Some((ty, id, sq, pl)) => if ty != icmp::TYPE_ECHO_REQUEST { None } else { Some((esrc, src, id, sq, pl)) },
                        None => None,
                    }
                },
                None => None,
            }
        },
        None => None,
    }
}

/// `reply` parses as an ICMP echo reply from `mac`/`ip` to `dst_mac`/`dst_ip`
/// with id `id`, sequence number `sq` and payload `pl`.
pub open spec fn is_echo_reply(reply: Seq<u8>, mac: Seq<u8>, ip: Seq<u8>, dst_mac: Seq<u8>, dst_ip: Seq<u8>, id: u16, sq: u16, pl: Seq<u8>) -> bool {
    match ethernet::spec_parse(reply) {
        Some((d, s, t, p)) => {
            &&& d == dst_mac
            &&& s == mac
            &&& t == ethernet::ETHERTYPE_IPV4
            &&& match ipv4::spec_parse(p) {
                Some((src, dst, proto, m)) => src == ip && dst == dst_ip && proto == ipv4::PROTO_ICMP && icmp::spec_parse(m)
                    == Some((icmp::TYPE_ECHO_REPLY, id, sq, pl)),
                None => false,
            }
        },
        None => false,
    }
}

/// Law: an echo request addressed to us is answered by a frame back to
/// the sender's MAC that parses as an IPv4 packet from us to the sender,
/// carrying an echo reply with the request's id, sequence number and
/// payload.
pub proof fn lemma_echo_reply_parses(n: NetModel, frame: Seq<u8>)
    requires
        n.iface is Some,
        n.iface->0.mac.len() == 6,
        n.iface->0.ip.len() == 4,
        echo_request(frame, n.iface->0.ip) is Some,
    ensures
        ({
            let (esrc, src, id, sq, pl) = echo_request(frame, n.iface->0.ip)->0;
            &&& spec_handle_frame(n, frame).1 is Some
            &&& is_echo_reply(spec_handle_frame(n, frame).1->0, n.iface->0.mac, n.iface->0.ip, esrc, src, id, sq, pl)
        }),
{
    let (esrc, src, id, sq, pl) = echo_request(frame, n.iface->0.ip)->0;
    let i = n.iface->0;
    let m2 = icmp::spec_build(icmp::TYPE_ECHO_REPLY, id, sq, pl);
    icmp::lemma_parse_build(icmp::TYPE_ECHO_REPLY, id, sq, pl);
    ipv4::lemma_parse_build(i.ip, src, ipv4::PROTO_ICMP, m2, n.ip_ident);
    ethernet::lemma_parse_build(esrc, i.mac, ethernet::ETHERTYPE_IPV4, ipv4::spec_build(i.ip, src, ipv4::PROTO_ICMP, m2, n.ip_ident));
}

/// Handle an ARP payload: learn the sender, answer requests for our IP,
/// record the gateway's MAC from replies.
fn handle_arp(iface: &mut Iface, payload: &[u8]) -> (r: Option<Vec<u8>>)
    requires
        old(iface).wf(),
    ensures
        final(iface).wf(),
        match spec_handle_arp(old(iface)@, payload@) {
            None => r is None && final(iface)@ == old(iface)@,
            Some((i2, reply)) => final(iface)@ == i2 && match r {
                Some(f) => reply == Some(f@),
                None => reply is None,
            },
        },
{
    let a = match arp::parse(payload) {
        Some(a) => a,
        None => {
            return None;
        },
    };
    iface.arp_insert(a.sender_ip, a.sender_mac);
    if a.op == arp::OP_REQUEST && ip_eq(a.target_ip, iface.ip) {
        let reply = arp::build(arp::OP_REPLY, iface.mac, iface.ip, a.sender_mac, a.sender_ip);
        return Some(ethernet::build(a.sender_mac, iface.mac, ethernet::ETHERTYPE_ARP, reply.as_slice()));
    }
    if a.op == arp::OP_REPLY {
        if ip_eq(a.sender_ip, iface.gateway) {
            iface.gateway_mac = Some(a.sender_mac);
        }
    }
    None
}

/// Process one received frame; returns an Ethernet frame to transmit
/// in response (ARP reply / ICMP echo reply), if any. UDP datagrams
/// for our address are queued on the owning socket.
pub fn handle_frame(net: &mut Net, frame: &[u8]) -> (r: Option<Vec<u8>>)
    requires
        old(net).wf(),
        frame@.len() <= 131000,
        old(net).iface matches Some(i) ==> i.ping_replies < usize::MAX,
    ensures
        final(net).wf(),
        final(net).tcp == old(net).tcp,
        final(net).sockets.next_ephemeral == old(net).sockets.next_ephemeral,
        final(net)@ == spec_handle_frame(old(net)@, frame@).0,
        match r {
            Some(f) => spec_handle_frame(old(net)@, frame@).1 == Some(f@),
            None => spec_handle_frame(old(net)@, frame@).1 is None,
        },
{
    let eth = match ethernet::parse(frame) {
        Some(e) => e,
        None => {
            return None;
        },
    };
    if net.iface.is_none() {
        return None;
    }
    if eth.ethertype == ethernet::ETHERTYPE_ARP {
        let mut r: Option<Vec<u8>> = None;
        let ghost i0 = net@.iface->0;
        match &mut net.iface {
            Some(iface) => {
                r = handle_arp(iface, eth.payload);
            },
            None => {},
        }
        assert(net@ =~= spec_handle_frame(old(net)@, frame@).0);
        return r;
    }
    if eth.ethertype != ethernet::ETHERTYPE_IPV4 {
        return None;
    }
    let pkt = match ipv4::parse(eth.payload) {
        Some(p) => p,
        None => {
            return None;
        },
    };
    let (our_mac, our_ip, gateway) = match &net.iface {
        Some(i) => (i.mac, i.ip, i.gateway),
        None => {
            return None;
        },
    };
    if !ip_eq(pkt.dst, our_ip) {
        return None;
    }
    if pkt.proto == ipv4::PROTO_ICMP {
        let msg = match icmp::parse(pkt.payload) {
            Some(m) => m,
            None => {
                return None;
            },
        };
        if msg.msg_type == icmp::TYPE_ECHO_REQUEST {
            // Reply, swapping src/dst.
            let reply = icmp::build(icmp::TYPE_ECHO_REPLY, msg.id, msg.seq, msg.payload);
            let ident = net.ip_ident;
            net.ip_ident = net.ip_ident.wrapping_add(1);
            let ip = ipv4::build(our_ip, pkt.src, ipv4::PROTO_ICMP, reply.as_slice(), ident);
            let out = ethernet::build(eth.src, our_mac, ethernet::ETHERTYPE_IPV4, ip.as_slice());
            assert(net@ =~= spec_handle_frame(old(net)@, frame@).0);
            return Some(out);
        }
        if msg.msg_type == icmp::TYPE_ECHO_REPLY {
            if ip_eq(pkt.src, gateway) {
                match &mut net.iface {
                    Some(i) => {
                        i.ping_replies = i.ping_replies + 1;
                    },
                    None => {},
                }
                assert(net@ =~= spec_handle_frame(old(net)@, frame@).0);
            }
        }
        return None;
    }
    if pkt.proto == ipv4::PROTO_UDP {
        match udp::parse(pkt.payload) {
            Some(d) => {
                socket::deliver(&mut net.sockets, d.dst_port, pkt.src, d.src_port, d.payload);
                assert(net@ =~= spec_handle_frame(old(net)@, frame@).0);
            },
            None => {},
        }
        return None;
    }
    None
}


/// The interface as `init` brings it up with the device's MAC.
pub open spec fn fresh_iface(mac: Seq<u8>) -> IfaceModel {
    IfaceModel {
        mac,
        ip: OUR_IP@,
        gateway: GATEWAY_IP@,
        arp: Seq::empty(),
        gateway_mac: None,
        ping_replies: 0,
    }
}

/// Bring up the interface with the MAC the network device reports
/// (`None` when there is no device). Returns false without a device.
pub fn init(net: &mut Net, mac: Option<[u8; 6]>) -> (r: bool)
    requires
        old(net).wf(),
    ensures
        final(net).wf(),
        final(net).tcp == old(net).tcp,
        final(net).sockets == old(net).sockets,
        final(net).ip_ident == old(net).ip_ident,
        r == mac is Some,
        r ==> final(net)@.iface == Some(fresh_iface(mac->0@)),
        !r ==> final(net)@ == old(net)@,
{
    let mac = match mac {
        Some(m) => m,
        None => {
            return false;
        },
    };
    net.iface = Some(
        Iface {
            mac,
            ip: OUR_IP,
            gateway: GATEWAY_IP,
            arp_cache: [([0; 4], [0; 6]); ARP_CACHE_LEN],
            arp_len: 0,
            gateway_mac: None,
            ping_replies: 0,
        },
    );
    assert(net@.iface->0 =~= fresh_iface(mac@));
    true
}

/// Handling a batch of received frames in order: final state and the
/// replies to transmit.
pub open spec fn spec_poll(n: NetModel, frames: Seq<Seq<u8>>) -> (NetModel, Seq<Seq<u8>>)
    decreases frames.len(),
{
    if frames.len() == 0 {
        (n, Seq::empty())
    } else {
        let prev = spec_poll(n, frames.drop_last());
        let step = spec_handle_frame(prev.0, frames.last());
        (
            step.0,
            match step.1 {
                Some(f) => prev.1.push(f),
                None => prev.1,
            },
        )
    }
}

/// Handle received frames in order; returns the frames to transmit in
/// response (ARP replies, ICMP echo replies).
pub fn poll(net: &mut Net, frames: &Vec<Vec<u8>>) -> (replies: Vec<Vec<u8>>)
    requires
        old(net).wf(),
        forall|k: int| 0 <= k < frames@.len() ==> (#[trigger] frames@[k])@.len() <= 131000,
        old(net).iface matches Some(i) ==> i.ping_replies + frames@.len() < usize::MAX,
    ensures
        final(net).wf(),
        final(net).tcp == old(net).tcp,
        final(net)@ == spec_poll(old(net)@, frames@.map_values(|f: Vec<u8>| f@)).0,
        replies@.map_values(|f: Vec<u8>| f@) == spec_poll(old(net)@, frames@.map_values(|f: Vec<u8>| f@)).1,
{
    let ghost fs = frames@.map_values(|f: Vec<u8>| f@);
    let mut replies: Vec<Vec<u8>> = Vec::new();
    let mut k: usize = 0;
    while k < frames.len()
        invariant
            net.wf(),
            net.tcp == old(net).tcp,
            k <= frames@.len(),
            fs == frames@.map_values(|f: Vec<u8>| f@),
            forall|j: int| 0 <= j < frames@.len() ==> (#[trigger] frames@[j])@.len() <= 131000,
            net.iface matches Some(i) ==> i.ping_replies + (frames@.len() - k) < usize::MAX,
            old(net).iface is Some ==> net.iface is Some,
            (net@, replies@.map_values(|f: Vec<u8>| f@)) == spec_poll(old(net)@, fs.take(k as int)),
        decreases frames@.len() - k,
    {
        let ghost before = net@;
        assert(fs.take(k as int + 1).drop_last() =~= fs.take(k as int));
        assert(fs.take(k as int + 1).last() == frames@[k as int]@);
        match handle_frame(net, frames[k].as_slice()) {
            Some(f) => {
                assert(replies@.push(f).map_values(|x: Vec<u8>| x@) =~= replies@.map_values(
                    |x: Vec<u8>| x@,
                ).push(f@));
                replies.push(f);
            },
            None => {},
        }
        k = k + 1;
    }
    assert(fs.take(k as int) =~= fs);
    replies
}

/// Our configured IPv4 address, if the interface is up.
pub fn our_ip(net: &Net) -> (r: Option<[u8; 4]>)
    ensures
        match r {
            Some(ip) => net@.iface is Some && ip@ == net@.iface->0.ip,
            None => net@.iface is None,
        },
{
    match &net.iface {
        Some(i) => Some(i.ip),
        None => None,
    }
}

/// The gateway's MAC once ARP has resolved it.
pub fn gateway_mac(net: &Net) -> (r: Option<[u8; 6]>)
    ensures
        match r {
            Some(m) => net@.iface is Some && net@.iface->0.gateway_mac == Some(m@),
            None => net@.iface is None || net@.iface->0.gateway_mac is None,
        },
{
    match &net.iface {
        Some(i) => i.gateway_mac,
        None => None,
    }
}

/// Echo replies received from the gateway so far (0 when down).
pub fn ping_replies(net: &Net) -> (r: usize)
    ensures
        r == match net@.iface {
            Some(i) => i.ping_replies,
            None => 0,
        },
{
    match &net.iface {
        Some(i) => i.ping_replies,
        None => 0,
    }
}

/// The broadcast ARP request for `target` (None when the interface is down).
pub fn send_arp_request(net: &Net, target: [u8; 4]) -> (r: Option<Vec<u8>>)
    ensures
        match r {
            None => net@.iface is None,
            Some(f) => net@.iface is Some && f@ == ethernet::spec_build(
                ethernet::BROADCAST@,
                net@.iface->0.mac,
                ethernet::ETHERTYPE_ARP,
                arp::spec_build(
                    arp::OP_REQUEST,
                    net@.iface->0.mac,
                    net@.iface->0.ip,
                    seq![0u8, 0u8, 0u8, 0u8, 0u8, 0u8],
                    target@,
                ),
            ),
        },
{
    let (mac, ip) = match &net.iface {
        Some(i) => (i.mac, i.ip),
        None => {
            return None;
        },
    };
    let zero: [u8; 6] = [0; 6];
    assert(zero@ =~= seq![0u8, 0u8, 0u8, 0u8, 0u8, 0u8]);
    let req = arp::build(arp::OP_REQUEST, mac, ip, zero, target);
    Some(ethernet::build(ethernet::BROADCAST, mac, ethernet::ETHERTYPE_ARP, req.as_slice()))
}

/// Payload of the self-test echo request.
pub const PING_PAYLOAD: [u8; 12] = [0x6c, 0x69, 0x67, 0x68, 0x74, 0x6f, 0x73, 0x2d, 0x70, 0x69, 0x6e, 0x67];

/// Identifier of the self-test echo request.
pub const PING_ID: u16 = 0x4c4f;

/// One ICMP echo request to `target` at `target_mac` (None when the
/// interface is down); consumes one IP identification value.
pub fn send_ping(net: &mut Net, target: [u8; 4], target_mac: [u8; 6], seq: u16) -> (r: Option<Vec<u8>>)
    requires
        old(net).wf(),
    ensures
        final(net).wf(),
        final(net).tcp == old(net).tcp,
        match r {
            None => old(net)@.iface is None && final(net)@ == old(net)@,
            Some(f) => {
                &&& old(net)@.iface is Some
                &&& final(net)@ == (NetModel { ip_ident: u16_specs::wrapping_add(old(net).ip_ident, 1), ..old(net)@ })
                &&& f@ == ethernet::spec_build(
                    target_mac@,
                    old(net)@.iface->0.mac,
                    ethernet::ETHERTYPE_IPV4,
                    ipv4::spec_build(
                        old(net)@.iface->0.ip,
                        target@,
                        ipv4::PROTO_ICMP,
                        icmp::spec_build(icmp::TYPE_ECHO_REQUEST, PING_ID, seq, PING_PAYLOAD@),
                        old(net).ip_ident,
                    ),
                )
            },
        },
{
    let (mac, ip) = match &net.iface {
        Some(i) => (i.mac, i.ip),
        None => {
            return None;
        },
    };
    let payload = PING_PAYLOAD;
    let echo = icmp::build(icmp::TYPE_ECHO_REQUEST, PING_ID, seq, &payload);
    let ident = net.ip_ident;
    net.ip_ident = net.ip_ident.wrapping_add(1);
    let pkt = ipv4::build(ip, target, ipv4::PROTO_ICMP, echo.as_slice(), ident);
    let frame = ethernet::build(target_mac, mac, ethernet::ETHERTYPE_IPV4, pkt.as_slice());
    assert(net@ =~= (NetModel { ip_ident: u16_specs::wrapping_add(old(net).ip_ident, 1), ..old(net)@ }));
    Some(frame)
}

/// Polls the self-test waits for an answer before it gives up.
pub const SELF_TEST_ROUNDS: usize = 2000;

/// Where the boot-time self-test stands.
#[derive(Clone, Copy, Debug, PartialEq, Eq, Structural)]
pub enum SelfTest {
    /// Nothing sent yet.
    Start,
    /// The gateway's ARP request is out; polls checked so far.
    Resolving(usize),
    /// The echo request is out: replies counted before it, polls
    /// checked so far.
    Pinging(usize, usize),
    /// Over.
    Finished,
}

/// What a step of the self-test has to report.
#[derive(Clone, Copy, Debug)]
pub enum SelfTestNote {
    Nothing,
    /// ARP resolved the gateway to this MAC; the echo request goes out.
    GatewayAt([u8; 6]),
    ArpTimedOut,
    PingReplied,
    PingTimedOut,
}

/// The gateway's MAC as the model knows it.
pub open spec fn spec_gateway_mac(n: NetModel) -> Option<Seq<u8>> {
    match n.iface {
        Some(i) => i.gateway_mac,
        None => None,
    }
}

/// Echo replies counted in the model (0 when down).
pub open spec fn spec_ping_replies(n: NetModel) -> nat {
    match n.iface {
        Some(i) => i.ping_replies,
        None => 0,
    }
}

/// One step of the boot-time self-test: ARP-resolve the gateway, then
/// ping it. Called first with `Start`, then after each poll of the
/// device; gives the next state, the frame to transmit and what to
/// report. Each wait ends after `SELF_TEST_ROUNDS` polls.
pub fn self_test(net: &mut Net, st: SelfTest) -> (r: (SelfTest, Option<Vec<u8>>, SelfTestNote))
    requires
        old(net).wf(),
    ensures
        final(net).wf(),
        final(net).tcp == old(net).tcp,
        match st {
            SelfTest::Start => {
                &&& final(net)@ == old(net)@
                &&& r.0 == SelfTest::Resolving(0)
                &&& r.2 is Nothing
                &&& match r.1 {
                    None => old(net)@.iface is None,
                    Some(f) => old(net)@.iface is Some && f@ == ethernet::spec_build(
                        ethernet::BROADCAST@,
                        old(net)@.iface->0.mac,
                        ethernet::ETHERTYPE_ARP,
                        arp::spec_build(
                            arp::OP_REQUEST,
                            old(net)@.iface->0.mac,
                            old(net)@.iface->0.ip,
                            seq![0u8, 0u8, 0u8, 0u8, 0u8, 0u8],
                            GATEWAY_IP@,
                        ),
                    ),
                }
            },
            SelfTest::Resolving(n) => match spec_gateway_mac(old(net)@) {
                Some(gw) => {
                    &&& r.0 matches SelfTest::Pinging(b, z) && b == spec_ping_replies(old(net)@) && z == 0
                    &&& r.2 matches SelfTestNote::GatewayAt(m) && m@ == gw
                    &&& final(net)@ == (NetModel { ip_ident: u16_specs::wrapping_add(old(net).ip_ident, 1), ..old(net)@ })
                    &&& r.1 matches Some(f) && f@ == ethernet::spec_build(
                        gw,
                        old(net)@.iface->0.mac,
                        ethernet::ETHERTYPE_IPV4,
                        ipv4::spec_build(
                            old(net)@.iface->0.ip,
                            GATEWAY_IP@,
                            ipv4::PROTO_ICMP,
                            icmp::spec_build(icmp::TYPE_ECHO_REQUEST, PING_ID, 1, PING_PAYLOAD@),
                            old(net).ip_ident,
                        ),
                    )
                },
                None => {
                    &&& final(net)@ == old(net)@
                    &&& r.1 is None
                    &&& if n + 1 >= SELF_TEST_ROUNDS {
                        r.0 == SelfTest::Finished && r.2 is ArpTimedOut
                    } else {
                        r.0 matches SelfTest::Resolving(m) && m == n + 1 && r.2 is Nothing
                    }
                },
            },
            SelfTest::Pinging(before, n) => {
                &&& final(net)@ == old(net)@
                &&& r.1 is None
                &&& if spec_ping_replies(old(net)@) > before {
                    r.0 == SelfTest::Finished && r.2 is PingReplied
                } else if n + 1 >= SELF_TEST_ROUNDS {
                    r.0 == SelfTest::Finished && r.2 is PingTimedOut
                } else {
                    r.0 matches SelfTest::Pinging(b, m) && b == before && m == n + 1 && r.2 is Nothing
                }
            },
            SelfTest::Finished => final(net)@ == old(net)@ && r.0 == SelfTest::Finished && r.1 is None && r.2 is Nothing,
        },
{
    match st {
        SelfTest::Start => {
            let req = send_arp_request(net, GATEWAY_IP);
            (SelfTest::Resolving(0), req, SelfTestNote::Nothing)
        },
        SelfTest::Resolving(n) => match gateway_mac(net) {
            Some(gw) => {
                let before = ping_replies(net);
                let ping = send_ping(net, GATEWAY_IP, gw, 1);
                (SelfTest::Pinging(before, 0), ping, SelfTestNote::GatewayAt(gw))
            },
            None => {
                if n >= SELF_TEST_ROUNDS - 1 {
                    (SelfTest::Finished, None, SelfTestNote::ArpTimedOut)
                } else {
                    (SelfTest::Resolving(n + 1), None, SelfTestNote::Nothing)
                }
            },
        },
        SelfTest::Pinging(before, n) => {
            if ping_replies(net) > before {
                (SelfTest::Finished, None, SelfTestNote::PingReplied)
            } else if n >= SELF_TEST_ROUNDS - 1 {
                (SelfTest::Finished, None, SelfTestNote::PingTimedOut)
            } else {
                (SelfTest::Pinging(before, n + 1), None, SelfTestNote::Nothing)
            }
        },
        SelfTest::Finished => (SelfTest::Finished, None, SelfTestNote::Nothing),
    }
}

/// The UDP frame to `dst_ip:dst_port` from `src_port`, routed via the
/// (ARP-resolved) gateway, which matches QEMU SLIRP. Fails when the
/// interface is down or the gateway MAC isn't known yet; the caller
/// transmits the frame.
pub fn send_udp(net: &mut Net, dst_ip: [u8; 4], dst_port: u16, src_port: u16, payload: &[u8]) -> (r: Result<Vec<u8>, &'static str>)
    requires
        old(net).wf(),
        payload@.len() + 40 <= 131072,
    ensures
        final(net).wf(),
        final(net).tcp == old(net).tcp,
        old(net)@.iface is None ==> r == Err::<Vec<u8>, &'static str>("net: interface down") && final(net)@ == old(net)@,
        old(net)@.iface is Some && old(net)@.iface->0.gateway_mac is None ==> r == Err::<Vec<u8>, &'static str>(
            "net: gateway not resolved",
        ) && final(net)@ == old(net)@,
        old(net)@.iface is Some && old(net)@.iface->0.gateway_mac is Some ==> {
            let i = old(net)@.iface->0;
            &&& r is Ok
            &&& final(net)@ == (NetModel { ip_ident: u16_specs::wrapping_add(old(net).ip_ident, 1), ..old(net)@ })
            &&& r->Ok_0@ == ethernet::spec_build(
                i.gateway_mac->0,
                i.mac,
                ethernet::ETHERTYPE_IPV4,
                ipv4::spec_build(
                    i.ip,
                    dst_ip@,
                    ipv4::PROTO_UDP,
                    udp::spec_build(i.ip, dst_ip@, src_port, dst_port, payload@),
                    old(net).ip_ident,
                ),
            )
        },
{
    let (mac, ip, gw_mac) = match &net.iface {
        Some(i) => (i.mac, i.ip, i.gateway_mac),
        None => {
            return Err("net: interface down");
        },
    };
    let gw_mac = match gw_mac {
        Some(m) => m,
        None => {
            return Err("net: gateway not resolved");
        },
    };
    let dgram = udp::build(ip, dst_ip, src_port, dst_port, payload);
    let ident = net.ip_ident;
    net.ip_ident = net.ip_ident.wrapping_add(1);
    let pkt = ipv4::build(ip, dst_ip, ipv4::PROTO_UDP, dgram.as_slice(), ident);
    let frame = ethernet::build(gw_mac, mac, ethernet::ETHERTYPE_IPV4, pkt.as_slice());
    assert(net@ =~= (NetModel { ip_ident: u16_specs::wrapping_add(old(net).ip_ident, 1), ..old(net)@ }));
    Ok(frame)
}


/// The frame carrying TCP segment `seg` to `dst_ip`, routed via the
/// gateway like `send_udp`. Fails when the interface is down or the
/// gateway MAC isn't known yet; the caller transmits the frame.
pub fn send_tcp(net: &mut Net, dst_ip: [u8; 4], seg: &[u8]) -> (r: Result<Vec<u8>, &'static str>)
    requires
        old(net).wf(),
        seg@.len() + 40 <= 131072,
    ensures
        final(net).wf(),
        final(net).tcp == old(net).tcp,
        final(net).sockets == old(net).sockets,
        old(net)@.iface is None ==> r == Err::<Vec<u8>, &'static str>("net: interface down") && final(net)@ == old(net)@,
        old(net)@.iface is Some && old(net)@.iface->0.gateway_mac is None ==> r == Err::<Vec<u8>, &'static str>(
            "net: gateway not resolved",
        ) && final(net)@ == old(net)@,
        old(net)@.iface is Some && old(net)@.iface->0.gateway_mac is Some ==> {
            let i = old(net)@.iface->0;
            &&& r is Ok
            &&& final(net)@ == (NetModel { ip_ident: u16_specs::wrapping_add(old(net).ip_ident, 1), ..old(net)@ })
            &&& r->Ok_0@ == ethernet::spec_build(
                i.gateway_mac->0,
                i.mac,
                ethernet::ETHERTYPE_IPV4,
                ipv4::spec_build(i.ip, dst_ip@, ipv4::PROTO_TCP, seg@, old(net).ip_ident),
            )
        },
{
    let (mac, ip, gw_mac) = match &net.iface {
        Some(i) => (i.mac, i.ip, i.gateway_mac),
        None => {
            return Err("net: interface down");
        },
    };
    let gw_mac = match gw_mac {
        Some(m) => m,
        None => {
            return Err("net: gateway not resolved");
        },
    };
    let ident = net.ip_ident;
    net.ip_ident = net.ip_ident.wrapping_add(1);
    let pkt = ipv4::build(ip, dst_ip, ipv4::PROTO_TCP, seg, ident);
    let frame = ethernet::build(gw_mac, mac, ethernet::ETHERTYPE_IPV4, pkt.as_slice());
    assert(net@ =~= (NetModel { ip_ident: u16_specs::wrapping_add(old(net).ip_ident, 1), ..old(net)@ }));
    Ok(frame)
}

} // verus!
