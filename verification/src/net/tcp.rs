//! Minimal client-side TCP.
//!
//! Enough of RFC 793 to be an HTTP client over QEMU SLIRP: a 3-way
//! handshake, in-order receive with cumulative ACKs, data send with ack
//! tracking, and FIN teardown. The connection table is explicit state;
//! `deliver` only mutates it and queues outgoing segments, and `pump`
//! hands the queued segments to the caller for transmission.

use vstd::prelude::*;
use vstd::wrapping::u32_specs;
use std::collections::VecDeque;
use super::ipv4::{self, internet_checksum, lemma_checksum_verifies};
use super::wire::{be16, be32, be32_bytes, put16, push_be16, push_be32, push_all, set_be16, read_be16, read_be32};

verus! {

pub const MAX_TCP: usize = 16;
pub const EPHEMERAL_BASE: u16 = 49152;
/// Advertised receive window.
pub const RCV_WND: u16 = 8192;
/// Max buffered received bytes.
pub const RX_CAP: usize = 65536;
/// Pump ticks before the unacknowledged segment is sent again.
pub const RTX_TICKS: u32 = 400;

// TCP flags.
pub const FIN: u8 = 0x01;
pub const SYN: u8 = 0x02;
pub const RST: u8 = 0x04;
pub const PSH: u8 = 0x08;
pub const ACK: u8 = 0x10;
pub const PSH_ACK: u8 = 0x18;
pub const FIN_ACK: u8 = 0x11;

#[derive(Clone, Copy, PartialEq, Eq, Debug, Structural)]
pub enum State {
    Closed,
    SynSent,
    Established,
    FinWait1,
    CloseWait,
    LastAck,
}

// ---------------------------------------------------------------------
// Segment wire format.
// ---------------------------------------------------------------------

/// The 20-byte header plus payload, checksum field zero.
pub open spec fn seg_template(src_port: u16, dst_port: u16, seq: u32, ack: u32, flags: u8, payload: Seq<u8>) -> Seq<u8> {
    seq![(src_port / 256) as u8, (src_port % 256) as u8, (dst_port / 256) as u8, (dst_port % 256) as u8]
        + be32_bytes(seq) + be32_bytes(ack) + seq![0x50u8, flags, 0x20u8, 0x00u8, 0u8, 0u8, 0u8, 0u8]
        + payload
}

/// Segment length as carried in the pseudo-header (truncated to 16 bits).
pub open spec fn seg_len_field(payload_len: nat) -> u16 {
    ((20 + payload_len) % 65536) as u16
}

/// The pseudo-header the checksum covers.
pub open spec fn pseudo(our_ip: Seq<u8>, remote_ip: Seq<u8>, len: u16) -> Seq<u8> {
    our_ip + remote_ip + seq![0u8, ipv4::PROTO_TCP, (len / 256) as u8, (len % 256) as u8]
}

/// The segment `build_segment` produces.
pub open spec fn spec_build_segment(
    our_ip: Seq<u8>,
    remote_ip: Seq<u8>,
    src_port: u16,
    dst_port: u16,
    seq: u32,
    ack: u32,
    flags: u8,
    payload: Seq<u8>,
) -> Seq<u8> {
    let t = seg_template(src_port, dst_port, seq, ack, flags, payload);
    put16(t, 16, internet_checksum(pseudo(our_ip, remote_ip, seg_len_field(payload.len())) + t))
}

/// What `parse` extracts: (src_port, dst_port, seq, ack, flags, payload).
pub open spec fn spec_parse(d: Seq<u8>) -> Option<(u16, u16, u32, u32, u8, Seq<u8>)> {
    if d.len() < 20 {
        None
    } else {
        let off = (d[12] / 16) as int * 4;
        if off < 20 || d.len() < off {
            None
        } else {
            Some(
                (
                    be16(d[0], d[1]) as u16,
                    be16(d[2], d[3]) as u16,
                    be32(d[4], d[5], d[6], d[7]) as u32,
                    be32(d[8], d[9], d[10], d[11]) as u32,
                    d[13],
                    d.subrange(off, d.len() as int),
                ),
            )
        }
    }
}

proof fn lemma_be32_roundtrip(x: u32)
    ensures
        be32(be32_bytes(x)[0], be32_bytes(x)[1], be32_bytes(x)[2], be32_bytes(x)[3]) == x,
{
    let b = be32_bytes(x);
    assert(b[0] == x / 0x100_0000);
    assert(b[1] == x / 0x1_0000 % 256);
    assert(b[2] == x / 256 % 256);
    assert(b[3] == x % 256);
    assert(((x / 0x100_0000 * 256 + x / 0x1_0000 % 256) * 256 + x / 256 % 256) * 256 + x % 256 == x)
        by (nonlinear_arith);
}

/// Law: parsing a segment that `build_segment` produced gives back its
/// ports, sequence numbers, flags and payload.
pub proof fn lemma_parse_build_segment(
    our_ip: Seq<u8>,
    remote_ip: Seq<u8>,
    src_port: u16,
    dst_port: u16,
    seq: u32,
    ack: u32,
    flags: u8,
    payload: Seq<u8>,
)
    ensures
        spec_parse(spec_build_segment(our_ip, remote_ip, src_port, dst_port, seq, ack, flags, payload))
            == Some((src_port, dst_port, seq, ack, flags, payload)),
{
    let d = spec_build_segment(our_ip, remote_ip, src_port, dst_port, seq, ack, flags, payload);
    lemma_be32_roundtrip(seq);
    lemma_be32_roundtrip(ack);
    assert(d[4] == be32_bytes(seq)[0] && d[5] == be32_bytes(seq)[1] && d[6] == be32_bytes(seq)[2]
        && d[7] == be32_bytes(seq)[3]);
    assert(d[8] == be32_bytes(ack)[0] && d[9] == be32_bytes(ack)[1] && d[10] == be32_bytes(ack)[2]
        && d[11] == be32_bytes(ack)[3]);
    assert(d.subrange(20, d.len() as int) =~= payload);
}

/// Law: the pseudo-header checksum over any segment `build_segment`
/// produced is zero.
pub proof fn lemma_segment_checksum_valid(
    our_ip: Seq<u8>,
    remote_ip: Seq<u8>,
    src_port: u16,
    dst_port: u16,
    seq: u32,
    ack: u32,
    flags: u8,
    payload: Seq<u8>,
)
    requires
        our_ip.len() == 4,
        remote_ip.len() == 4,
    ensures
        internet_checksum(
            pseudo(our_ip, remote_ip, seg_len_field(payload.len())) + spec_build_segment(
                our_ip,
                remote_ip,
                src_port,
                dst_port,
                seq,
                ack,
                flags,
                payload,
            ),
        ) == 0,
{
    let p = pseudo(our_ip, remote_ip, seg_len_field(payload.len()));
    let t = seg_template(src_port, dst_port, seq, ack, flags, payload);
    lemma_checksum_verifies(p + t, 28, internet_checksum(p + t));
    assert(put16(p + t, 28, internet_checksum(p + t)) =~= p + spec_build_segment(
        our_ip,
        remote_ip,
        src_port,
        dst_port,
        seq,
        ack,
        flags,
        payload,
    ));
}

/// Build a TCP segment (header + payload) with the pseudo-header
/// checksum filled in.
pub fn build_segment(
    our_ip: [u8; 4],
    remote_ip: [u8; 4],
    src_port: u16,
    dst_port: u16,
    seq: u32,
    ack: u32,
    flags: u8,
    payload: &[u8],
) -> (r: Vec<u8>)
    requires
        payload@.len() + 32 <= 131072,
    ensures
        r@ == spec_build_segment(our_ip@, remote_ip@, src_port, dst_port, seq, ack, flags, payload@),
{
    let mut seg: Vec<u8> = Vec::with_capacity(20 + payload.len());
    push_be16(&mut seg, src_port);
    push_be16(&mut seg, dst_port);
    push_be32(&mut seg, seq);
    push_be32(&mut seg, ack);
    seg.push(5 * 16);
    seg.push(flags);
    push_be16(&mut seg, RCV_WND);
    push_be16(&mut seg, 0);
    push_be16(&mut seg, 0);
    push_all(&mut seg, payload);
    assert(seg@ =~= seg_template(src_port, dst_port, seq, ack, flags, payload@));

    let len: u16 = (seg.len() % 65536) as u16;
    let mut buf: Vec<u8> = Vec::with_capacity(12 + seg.len());
    push_all(&mut buf, &our_ip);
    push_all(&mut buf, &remote_ip);
    buf.push(0);
    buf.push(ipv4::PROTO_TCP);
    push_be16(&mut buf, len);
    push_all(&mut buf, seg.as_slice());
    assert(buf@ =~= pseudo(our_ip@, remote_ip@, seg_len_field(payload@.len())) + seg@);
    let csum = ipv4::checksum(buf.as_slice());
    set_be16(&mut seg, 16, csum);
    seg
}

/// A parsed TCP segment view.
pub struct Segment<'a> {
    pub src_port: u16,
    pub dst_port: u16,
    pub seq: u32,
    pub ack: u32,
    pub flags: u8,
    pub payload: &'a [u8],
}

impl<'a> View for Segment<'a> {
    type V = (u16, u16, u32, u32, u8, Seq<u8>);

    open spec fn view(&self) -> Self::V {
        (self.src_port, self.dst_port, self.seq, self.ack, self.flags, self.payload@)
    }
}

/// Parse a TCP segment; `None` when the header is short or malformed.
pub fn parse<'a>(data: &'a [u8]) -> (r: Option<Segment<'a>>)
    ensures
        match r {
            Some(s) => spec_parse(data@) == Some(s@),
            None => spec_parse(data@) is None,
        },
{
    if data.len() < 20 {
        return None;
    }
    let data_off: usize = (data[12] / 16) as usize * 4;
    if data_off < 20 || data.len() < data_off {
        return None;
    }
    Some(
        Segment {
            src_port: read_be16(data, 0),
            dst_port: read_be16(data, 2),
            seq: read_be32(data, 4),
            ack: read_be32(data, 8),
            flags: data[13],
            payload: vstd::slice::slice_subrange(data, data_off, data.len()),
        },
    )
}


// ---------------------------------------------------------------------
// Connection state.
// ---------------------------------------------------------------------

/// Transmission control block.
pub struct Tcb {
    pub state: State,
    pub local_port: u16,
    pub remote_ip: [u8; 4],
    pub remote_port: u16,
    pub our_ip: [u8; 4],
    /// Send sequence space.
    pub snd_una: u32,
    pub snd_nxt: u32,
    /// Next sequence number expected from the peer.
    pub rcv_nxt: u32,
    /// In-order received bytes waiting for recv().
    pub rx: VecDeque<u8>,
    /// Fully-built TCP segments queued for transmission.
    pub out: VecDeque<Vec<u8>>,
    /// Last unacked (seq, segment) for retransmission.
    pub retransmit: Option<(u32, Vec<u8>)>,
    /// Pump ticks since the retransmit segment was last (re)sent.
    pub rtx_ticks: u32,
    pub peer_fin: bool,
    pub reset: bool,
}

/// Mathematical model of a TCB: byte queues as sequences.
#[verifier::ext_equal]
pub struct TcbModel {
    pub state: State,
    pub local_port: u16,
    pub remote_ip: Seq<u8>,
    pub remote_port: u16,
    pub our_ip: Seq<u8>,
    pub snd_una: u32,
    pub snd_nxt: u32,
    pub rcv_nxt: u32,
    pub rx: Seq<u8>,
    pub out: Seq<Seq<u8>>,
    pub retransmit: Option<(u32, Seq<u8>)>,
    pub rtx_ticks: u32,
    pub peer_fin: bool,
    pub reset: bool,
}

impl View for Tcb {
    type V = TcbModel;

    open spec fn view(&self) -> TcbModel {
        TcbModel {
            state: self.state,
            local_port: self.local_port,
            remote_ip: self.remote_ip@,
            remote_port: self.remote_port,
            our_ip: self.our_ip@,
            snd_una: self.snd_una,
            snd_nxt: self.snd_nxt,
            rcv_nxt: self.rcv_nxt,
            rx: self.rx@,
            out: self.out@.map_values(|v: Vec<u8>| v@),
            retransmit: match self.retransmit {
                Some(r) => Some((r.0, r.1@)),
                None => None,
            },
            rtx_ticks: self.rtx_ticks,
            peer_fin: self.peer_fin,
            reset: self.reset,
        }
    }
}

/// The connection table.
pub struct TcpTable {
    pub slots: Vec<Option<Tcb>>,
    pub next_ephemeral: u16,
    pub iss: u32,
}

impl View for TcpTable {
    type V = Seq<Option<TcbModel>>;

    open spec fn view(&self) -> Seq<Option<TcbModel>> {
        self.slots@.map_values(|s: Option<Tcb>| match s {
            Some(c) => Some(c@),
            None => None,
        })
    }
}

/// Invariants every connection keeps.
pub open spec fn tcb_wf(m: TcbModel) -> bool {
    &&& m.rx.len() <= RX_CAP
    &&& m.rtx_ticks < RTX_TICKS
    &&& m.remote_ip.len() == 4
    &&& m.our_ip.len() == 4
}

impl TcpTable {
    /// Table invariant: `MAX_TCP` slots, ephemeral cursor in range,
    /// every connection well formed.
    pub open spec fn wf(&self) -> bool {
        &&& self.slots@.len() == MAX_TCP
        &&& EPHEMERAL_BASE <= self.next_ephemeral <= u16::MAX - 1
        &&& forall|i: int| 0 <= i < MAX_TCP && #[trigger] self@[i] is Some ==> tcb_wf(self@[i]->0)
    }

    /// An empty table.
    pub fn new() -> (t: TcpTable)
        ensures
            t.wf(),
            forall|i: int| 0 <= i < MAX_TCP ==> #[trigger] t@[i] is None,
            t.next_ephemeral == EPHEMERAL_BASE,
            t.iss == 0x1000,
    {
        let mut slots: Vec<Option<Tcb>> = Vec::new();
        let mut i: usize = 0;
        while i < MAX_TCP
            invariant
                i <= MAX_TCP,
                slots@.len() == i,
                forall|j: int| 0 <= j < i ==> #[trigger] slots@[j] is None,
            decreases MAX_TCP - i,
        {
            slots.push(None);
            i = i + 1;
        }
        TcpTable { slots, next_ephemeral: EPHEMERAL_BASE, iss: 0x1000 }
    }
}

/// The ephemeral port handed out after `port`.
pub open spec fn next_port(port: u16) -> u16 {
    if port >= u16::MAX - 1 {
        EPHEMERAL_BASE
    } else {
        (port + 1) as u16
    }
}

/// A freshly allocated connection bound to `port`.
pub open spec fn fresh_tcb(port: u16) -> TcbModel {
    TcbModel {
        state: State::Closed,
        local_port: port,
        remote_ip: seq![0u8, 0u8, 0u8, 0u8],
        remote_port: 0,
        our_ip: seq![0u8, 0u8, 0u8, 0u8],
        snd_una: 0,
        snd_nxt: 0,
        rcv_nxt: 0,
        rx: Seq::empty(),
        out: Seq::empty(),
        retransmit: None,
        rtx_ticks: 0,
        peer_fin: false,
        reset: false,
    }
}

/// Index of the first free slot, if any.
pub open spec fn first_free(s: Seq<Option<TcbModel>>) -> Option<int> {
    if exists|i: int| 0 <= i < s.len() && s[i] is None {
        Some(choose|i: int| 0 <= i < s.len() && s[i] is None && forall|j: int| 0 <= j < i ==> s[j] is Some)
    } else {
        None
    }
}

proof fn lemma_first_free(s: Seq<Option<TcbModel>>, i: int)
    requires
        0 <= i < s.len(),
        s[i] is None,
        forall|j: int| 0 <= j < i ==> s[j] is Some,
    ensures
        first_free(s) == Some(i),
{
    let k = choose|k: int| 0 <= k < s.len() && s[k] is None && forall|j: int| 0 <= j < k ==> s[j] is Some;
    assert(0 <= k < s.len() && s[k] is None && forall|j: int| 0 <= j < k ==> s[j] is Some);
    if k < i {
        assert(s[k] is Some);
    } else if k > i {
        assert(s[i] is Some);
    }
}

/// Allocate a new TCB on the next ephemeral port; returns its index.
pub fn allocate(t: &mut TcpTable) -> (r: Option<usize>)
    requires
        old(t).wf(),
    ensures
        final(t).wf(),
        final(t).iss == old(t).iss,
        match r {
            None => {
                &&& first_free(old(t)@) is None
                &&& final(t)@ == old(t)@
                &&& final(t).next_ephemeral == old(t).next_ephemeral
            },
            Some(idx) => {
                &&& first_free(old(t)@) == Some(idx as int)
                &&& final(t)@ == old(t)@.update(idx as int, Some(fresh_tcb(old(t).next_ephemeral)))
                &&& final(t).next_ephemeral == next_port(old(t).next_ephemeral)
            },
        },
{
    let mut i: usize = 0;
    while i < t.slots.len() && t.slots[i].is_some()
        invariant
            t.wf(),
            i <= MAX_TCP,
            forall|j: int| 0 <= j < i ==> #[trigger] t@[j] is Some,
        decreases MAX_TCP - i,
    {
        i = i + 1;
    }
    if i == t.slots.len() {
        assert(first_free(t@) is None) by {
            if exists|k: int| 0 <= k < t@.len() && t@[k] is None {
                let k = choose|k: int| 0 <= k < t@.len() && t@[k] is None;
                assert(t@[k] is Some);
            }
        }
        return None;
    }
    proof {
        lemma_first_free(t@, i as int);
    }
    let port = t.next_ephemeral;
    t.next_ephemeral = if port >= u16::MAX - 1 { EPHEMERAL_BASE } else { port + 1 };
    let tcb = Tcb {
        state: State::Closed,
        local_port: port,
        remote_ip: [0; 4],
        remote_port: 0,
        our_ip: [0; 4],
        snd_una: 0,
        snd_nxt: 0,
        rcv_nxt: 0,
        rx: VecDeque::new(),
        out: VecDeque::new(),
        retransmit: None,
        rtx_ticks: 0,
        peer_fin: false,
        reset: false,
    };
    assert(tcb@ =~= fresh_tcb(port));
    t.slots.set(i, Some(tcb));
    assert(t@ =~= old(t)@.update(i as int, Some(fresh_tcb(port))));
    Some(i)
}

/// Release a TCB (no-op for an out-of-range index).
pub fn free(t: &mut TcpTable, idx: usize)
    requires
        old(t).wf(),
    ensures
        final(t).wf(),
        final(t).next_ephemeral == old(t).next_ephemeral,
        final(t).iss == old(t).iss,
        final(t)@ == if idx < MAX_TCP { old(t)@.update(idx as int, None) } else { old(t)@ },
{
    if idx < t.slots.len() {
        t.slots.set(idx, None);
        assert(t@ =~= old(t)@.update(idx as int, None));
    }
}


// ---------------------------------------------------------------------
// Transitions of one connection (the TCB model).
// ---------------------------------------------------------------------

/// `a + b` modulo 2^32 (sequence-number arithmetic).
pub open spec fn wadd(a: u32, b: u32) -> u32 {
    u32_specs::wrapping_add(a, b)
}

/// Queue a pure ACK for the current `rcv_nxt`.
pub open spec fn spec_ack(m: TcbModel) -> TcbModel {
    TcbModel {
        out: m.out.push(
            spec_build_segment(
                m.our_ip,
                m.remote_ip,
                m.local_port,
                m.remote_port,
                m.snd_nxt,
                m.rcv_nxt,
                ACK,
                Seq::empty(),
            ),
        ),
        ..m
    }
}

/// Active open: record the peer, queue the SYN (kept for retransmission).
pub open spec fn spec_connect(m: TcbModel, iss: u32, our_ip: Seq<u8>, remote_ip: Seq<u8>, remote_port: u16) -> TcbModel {
    let syn = spec_build_segment(our_ip, remote_ip, m.local_port, remote_port, iss, 0, SYN, Seq::empty());
    TcbModel {
        remote_ip,
        remote_port,
        our_ip,
        snd_una: iss,
        snd_nxt: wadd(iss, 1),
        state: State::SynSent,
        retransmit: Some((iss, syn)),
        rtx_ticks: 0,
        out: m.out.push(syn),
        ..m
    }
}

/// Queue `data` as one PSH|ACK segment (Established connections only).
pub open spec fn spec_send(m: TcbModel, data: Seq<u8>) -> TcbModel {
    let seg = spec_build_segment(
        m.our_ip,
        m.remote_ip,
        m.local_port,
        m.remote_port,
        m.snd_nxt,
        m.rcv_nxt,
        PSH_ACK,
        data,
    );
    TcbModel {
        snd_nxt: wadd(m.snd_nxt, data.len() as u32),
        retransmit: Some((m.snd_nxt, seg)),
        rtx_ticks: 0,
        out: m.out.push(seg),
        ..m
    }
}

/// Begin closing: Established -> FinWait1, CloseWait -> LastAck, queue a FIN.
pub open spec fn spec_close(m: TcbModel) -> TcbModel {
    if m.state != State::Established && m.state != State::CloseWait {
        m
    } else {
        let fin = spec_build_segment(
            m.our_ip,
            m.remote_ip,
            m.local_port,
            m.remote_port,
            m.snd_nxt,
            m.rcv_nxt,
            FIN_ACK,
            Seq::empty(),
        );
        TcbModel {
            state: if m.state == State::Established { State::FinWait1 } else { State::LastAck },
            snd_nxt: wadd(m.snd_nxt, 1),
            out: m.out.push(fin),
            ..m
        }
    }
}

/// Accept in-order data (if it fits) and ACK; re-ACK out-of-order data.
pub open spec fn spec_data(m: TcbModel, seq: u32, payload: Seq<u8>) -> TcbModel {
    if payload.len() > 0 && seq == m.rcv_nxt {
        if m.rx.len() + payload.len() <= RX_CAP {
            spec_ack(
                TcbModel {
                    rx: m.rx + payload,
                    rcv_nxt: wadd(m.rcv_nxt, payload.len() as u32),
                    ..m
                },
            )
        } else {
            spec_ack(m)
        }
    } else if payload.len() > 0 {
        spec_ack(m)
    } else {
        m
    }
}

/// Accept the peer's FIN when it is next in sequence.
pub open spec fn spec_fin(m: TcbModel, seq: u32, flags: u8, payload: Seq<u8>) -> TcbModel {
    if flags & FIN != 0 && wadd(seq, payload.len() as u32) == m.rcv_nxt {
        spec_ack(
            TcbModel {
                rcv_nxt: wadd(m.rcv_nxt, 1),
                peer_fin: true,
                state: if m.state == State::Established { State::CloseWait } else { m.state },
                ..m
            },
        )
    } else {
        m
    }
}

/// The state-dependent part of handling a segment.
pub open spec fn spec_on_state(m: TcbModel, remote_ip: Seq<u8>, seg: (u16, u16, u32, u32, u8, Seq<u8>)) -> TcbModel {
    let (src_port, _dst, seq, _ack, flags, payload) = seg;
    match m.state {
        State::SynSent => {
            if flags & SYN != 0 && flags & ACK != 0 {
                spec_ack(
                    TcbModel {
                        remote_ip,
                        remote_port: src_port,
                        rcv_nxt: wadd(seq, 1),
                        state: State::Established,
                        retransmit: None,
                        ..m
                    },
                )
            } else {
                m
            }
        },
        State::Established | State::FinWait1 | State::CloseWait => {
            spec_fin(spec_data(m, seq, payload), seq, flags, payload)
        },
        State::LastAck => {
            if flags & ACK != 0 {
                TcbModel { state: State::Closed, ..m }
            } else {
                m
            }
        },
        State::Closed => m,
    }
}

/// Handling of one inbound segment by its connection.
pub open spec fn spec_deliver(m: TcbModel, our_ip: Seq<u8>, remote_ip: Seq<u8>, seg: (u16, u16, u32, u32, u8, Seq<u8>)) -> TcbModel {
    let (src_port, _dst, _seq, ack, flags, _payload) = seg;
    if m.state != State::SynSent && (remote_ip != m.remote_ip || src_port != m.remote_port) {
        m
    } else {
        let m1 = TcbModel { our_ip, ..m };
        if flags & RST != 0 {
            TcbModel { reset: true, state: State::Closed, ..m1 }
        } else {
            let m2 = if flags & ACK != 0 {
                TcbModel {
                    snd_una: ack,
                    retransmit: match m1.retransmit {
                        Some(r) => if ack != r.0 { None } else { m1.retransmit },
                        None => None,
                    },
                    ..m1
                }
            } else {
                m1
            };
            spec_on_state(m2, remote_ip, seg)
        }
    }
}

/// Whether a slot holds a live connection on `port`.
pub open spec fn conn_matches(o: Option<TcbModel>, port: u16) -> bool {
    o is Some && o->0.local_port == port && o->0.state != State::Closed
}

/// Index of the first live connection on `port`, if any.
pub open spec fn find_conn(s: Seq<Option<TcbModel>>, port: u16) -> Option<int> {
    if exists|i: int| 0 <= i < s.len() && conn_matches(s[i], port) {
        Some(
            choose|i: int|
                0 <= i < s.len() && conn_matches(s[i], port) && forall|j: int|
                    0 <= j < i ==> !conn_matches(s[j], port),
        )
    } else {
        None
    }
}

proof fn lemma_find_conn(s: Seq<Option<TcbModel>>, port: u16, i: int)
    requires
        0 <= i < s.len(),
        conn_matches(s[i], port),
        forall|j: int| 0 <= j < i ==> !conn_matches(s[j], port),
    ensures
        find_conn(s, port) == Some(i),
{
    let k = choose|k: int|
        0 <= k < s.len() && conn_matches(s[k], port) && forall|j: int|
            0 <= j < k ==> !conn_matches(s[j], port);
    assert(0 <= k < s.len() && conn_matches(s[k], port));
    if k < i {
        assert(!conn_matches(s[k], port));
    } else if k > i {
        assert(!conn_matches(s[i], port));
    }
}

proof fn lemma_find_conn_none(s: Seq<Option<TcbModel>>, port: u16)
    requires
        forall|j: int| 0 <= j < s.len() ==> !conn_matches(s[j], port),
    ensures
        find_conn(s, port) is None,
{
}

/// Law: the state changes `deliver` makes follow the TCP state diagram:
/// RST closes, SYN+ACK establishes a SynSent connection, the peer's FIN
/// moves Established to CloseWait, an ACK in LastAck closes; nothing
/// else changes the state.
pub proof fn lemma_deliver_state_edges(m: TcbModel, our_ip: Seq<u8>, remote_ip: Seq<u8>, seg: (u16, u16, u32, u32, u8, Seq<u8>))
    ensures
        ({
            let s1 = m.state;
            let s2 = spec_deliver(m, our_ip, remote_ip, seg).state;
            ||| s2 == s1
            ||| s2 == State::Closed
            ||| (s1 == State::SynSent && s2 == State::Established)
            ||| (s1 == State::Established && s2 == State::CloseWait)
        }),
{
}

/// Law: in-order data a connection accepts is what a following read
/// returns, byte for byte (for a connection with nothing buffered).
pub proof fn lemma_deliver_then_read(m: TcbModel, our_ip: Seq<u8>, remote_ip: Seq<u8>, seg: (u16, u16, u32, u32, u8, Seq<u8>))
    requires
        m.state == State::Established,
        m.rx.len() == 0,
        remote_ip == m.remote_ip,
        seg.0 == m.remote_port,
        seg.4 & RST == 0,
        seg.2 == m.rcv_nxt,
        0 < seg.5.len() <= RX_CAP,
    ensures
        spec_deliver(m, our_ip, remote_ip, seg).rx == seg.5,
        spec_deliver(m, our_ip, remote_ip, seg).rx.take(seg.5.len() as int) == seg.5,
{
    assert(seq![] + seg.5 =~= seg.5);
    assert(seg.5.take(seg.5.len() as int) =~= seg.5);
}


/// Law: an in-order segment whose payload fits is appended to the receive
/// buffer, whatever the buffer already holds, and `rcv_nxt` moves past it.
pub proof fn lemma_deliver_appends(m: TcbModel, our_ip: Seq<u8>, remote_ip: Seq<u8>, seg: (u16, u16, u32, u32, u8, Seq<u8>))
    requires
        m.state == State::Established || m.state == State::FinWait1 || m.state == State::CloseWait,
        remote_ip == m.remote_ip,
        seg.0 == m.remote_port,
        seg.4 & RST == 0,
        seg.2 == m.rcv_nxt,
        0 < seg.5.len(),
        m.rx.len() + seg.5.len() <= RX_CAP,
    ensures
        spec_deliver(m, our_ip, remote_ip, seg).rx == m.rx + seg.5,
        seg.4 & FIN == 0 ==> spec_deliver(m, our_ip, remote_ip, seg).rcv_nxt == wadd(m.rcv_nxt, seg.5.len() as u32),
        seg.4 & FIN == 0 ==> acks_with(m, spec_deliver(m, our_ip, remote_ip, seg), wadd(m.rcv_nxt, seg.5.len() as u32)),
{
    let m2 = spec_deliver(m, our_ip, remote_ip, seg);
    if seg.4 & FIN == 0 {
        lemma_parse_build_segment(m2.our_ip, m2.remote_ip, m.local_port, m.remote_port, m.snd_nxt, m2.rcv_nxt, ACK, Seq::empty());
        assert(m2.out.take(m.out.len() as int) =~= m.out);
    }
}

/// `after` has queued exactly one segment more than `before`: a pure ACK
/// from the connection's port to the peer's, at `snd_nxt`, acknowledging
/// everything before `ack`.
pub open spec fn acks_with(before: TcbModel, after: TcbModel, ack: u32) -> bool {
    &&& after.out.len() == before.out.len() + 1
    &&& after.out.take(before.out.len() as int) == before.out
    &&& spec_parse(after.out.last()) == Some((before.local_port, before.remote_port, before.snd_nxt, ack, ACK, Seq::<u8>::empty()))
}

/// Law: a data segment that is out of order, or does not fit in the
/// receive buffer, leaves the buffer and `rcv_nxt` as they were and is
/// answered by an ACK of the unchanged `rcv_nxt`.
pub proof fn lemma_deliver_rejects(m: TcbModel, our_ip: Seq<u8>, remote_ip: Seq<u8>, seg: (u16, u16, u32, u32, u8, Seq<u8>))
    requires
        m.state == State::Established || m.state == State::FinWait1 || m.state == State::CloseWait,
        remote_ip == m.remote_ip,
        seg.0 == m.remote_port,
        seg.4 & RST == 0,
        seg.4 & FIN == 0,
        0 < seg.5.len(),
        seg.2 != m.rcv_nxt || m.rx.len() + seg.5.len() > RX_CAP,
    ensures
        spec_deliver(m, our_ip, remote_ip, seg).rx == m.rx,
        spec_deliver(m, our_ip, remote_ip, seg).rcv_nxt == m.rcv_nxt,
        acks_with(m, spec_deliver(m, our_ip, remote_ip, seg), m.rcv_nxt),
{
    let m2 = spec_deliver(m, our_ip, remote_ip, seg);
    lemma_parse_build_segment(m2.our_ip, m2.remote_ip, m.local_port, m.remote_port, m.snd_nxt, m.rcv_nxt, ACK, Seq::empty());
    assert(m2.out.take(m.out.len() as int) =~= m.out);
}

/// Law: delivering any segment never alters what is already buffered:
/// the receive buffer is either unchanged or extended by the segment's
/// payload, and only when the segment is the next one in sequence.
pub proof fn lemma_deliver_rx_grows(m: TcbModel, our_ip: Seq<u8>, remote_ip: Seq<u8>, seg: (u16, u16, u32, u32, u8, Seq<u8>))
    ensures
        ({
            let r = spec_deliver(m, our_ip, remote_ip, seg).rx;
            ||| r == m.rx
            ||| (seg.2 == m.rcv_nxt && r == m.rx + seg.5)
        }),
{
}

/// Law: the stream read from a connection is the concatenation of the
/// in-order payloads it was sent: two in-order data segments delivered one
/// after the other leave the old buffer followed by both payloads.
pub proof fn lemma_deliver_two_in_order(
    m: TcbModel,
    our_ip: Seq<u8>,
    remote_ip: Seq<u8>,
    seg1: (u16, u16, u32, u32, u8, Seq<u8>),
    seg2: (u16, u16, u32, u32, u8, Seq<u8>),
)
    requires
        m.state == State::Established || m.state == State::FinWait1 || m.state == State::CloseWait,
        remote_ip == m.remote_ip,
        seg1.0 == m.remote_port,
        seg2.0 == m.remote_port,
        seg1.4 & RST == 0,
        seg1.4 & FIN == 0,
        seg2.4 & RST == 0,
        seg1.2 == m.rcv_nxt,
        seg2.2 == wadd(seg1.2, seg1.5.len() as u32),
        0 < seg1.5.len(),
        0 < seg2.5.len(),
        m.rx.len() + seg1.5.len() + seg2.5.len() <= RX_CAP,
    ensures
        spec_deliver(spec_deliver(m, our_ip, remote_ip, seg1), our_ip, remote_ip, seg2).rx == m.rx + seg1.5 + seg2.5,
{
    let m1 = spec_deliver(m, our_ip, remote_ip, seg1);
    lemma_deliver_appends(m, our_ip, remote_ip, seg1);
    assert(m1.state == m.state);
    lemma_deliver_appends(m1, our_ip, remote_ip, seg2);
}


// ---------------------------------------------------------------------
// Executable operations.
// ---------------------------------------------------------------------

/// Whether two IPv4 addresses are equal.
pub fn ip_eq(a: [u8; 4], b: [u8; 4]) -> (r: bool)
    ensures
        r == (a@ == b@),
{
    let r = a[0] == b[0] && a[1] == b[1] && a[2] == b[2] && a[3] == b[3];
    if r {
        assert(a@ =~= b@);
    }
    r
}

/// A copy of the bytes in `v`.
pub fn copy_bytes(v: &Vec<u8>) -> (r: Vec<u8>)
    ensures
        r@ == v@,
{
    let mut r: Vec<u8> = Vec::new();
    push_all(&mut r, v.as_slice());
    assert(r@ =~= v@);
    r
}

proof fn lemma_out_push(old_out: Seq<Vec<u8>>, v: Vec<u8>)
    ensures
        old_out.push(v).map_values(|x: Vec<u8>| x@) =~= old_out.map_values(|x: Vec<u8>| x@).push(v@),
{
}

/// Queue a pure ACK for the current rcv_nxt.
fn queue_ack(tcb: &mut Tcb)
    requires
        tcb_wf(old(tcb)@),
    ensures
        final(tcb)@ == spec_ack(old(tcb)@),
        tcb_wf(final(tcb)@),
{
    let empty: [u8; 0] = [];
    let ack = build_segment(
        tcb.our_ip,
        tcb.remote_ip,
        tcb.local_port,
        tcb.remote_port,
        tcb.snd_nxt,
        tcb.rcv_nxt,
        ACK,
        &empty,
    );
    assert(empty@ =~= Seq::<u8>::empty());
    proof {
        lemma_out_push(tcb.out@, ack);
    }
    tcb.out.push_back(ack);
    assert(tcb@ =~= spec_ack(old(tcb)@));
}

/// Begin an active open (connect). Queues the initial SYN. The initial
/// sequence number advances even when `idx` names no connection.
pub fn connect_begin(t: &mut TcpTable, idx: usize, our_ip: [u8; 4], remote_ip: [u8; 4], remote_port: u16) -> (r: bool)
    requires
        old(t).wf(),
    ensures
        final(t).wf(),
        final(t).next_ephemeral == old(t).next_ephemeral,
        final(t).iss == wadd(old(t).iss, 0x2718),
        r == (idx < MAX_TCP && old(t)@[idx as int] is Some),
        r ==> final(t)@ == old(t)@.update(
            idx as int,
            Some(spec_connect(old(t)@[idx as int]->0, final(t).iss, our_ip@, remote_ip@, remote_port)),
        ),
        !r ==> final(t)@ == old(t)@,
{
    t.iss = t.iss.wrapping_add(0x2718);
    let iss = t.iss;
    if idx >= t.slots.len() {
        return false;
    }
    if t.slots[idx].is_none() {
        return false;
    }
    let ghost m = t@[idx as int];
    match &mut t.slots[idx] {
        None => {},
        Some(tcb) => {
            tcb.remote_ip = remote_ip;
            tcb.remote_port = remote_port;
            tcb.our_ip = our_ip;
            tcb.snd_una = iss;
            tcb.snd_nxt = iss.wrapping_add(1);
            tcb.state = State::SynSent;
            let empty: [u8; 0] = [];
            let syn = build_segment(our_ip, remote_ip, tcb.local_port, remote_port, iss, 0, SYN, &empty);
            assert(empty@ =~= Seq::<u8>::empty());
            tcb.retransmit = Some((iss, copy_bytes(&syn)));
            tcb.rtx_ticks = 0;
            proof {
                lemma_out_push(tcb.out@, syn);
            }
            tcb.out.push_back(syn);
            assert(tcb@ =~= spec_connect(m->0, iss, our_ip@, remote_ip@, remote_port));
        },
    }
    assert(t@ =~= old(t)@.update(
        idx as int,
        Some(spec_connect(m->0, iss, our_ip@, remote_ip@, remote_port)),
    ));
    true
}

/// Queue application data for sending (must be Established).
pub fn send_data(t: &mut TcpTable, idx: usize, data: &[u8]) -> (r: bool)
    requires
        old(t).wf(),
        data@.len() + 32 <= 131072,
    ensures
        final(t).wf(),
        final(t).next_ephemeral == old(t).next_ephemeral,
        final(t).iss == old(t).iss,
        r == (idx < MAX_TCP && old(t)@[idx as int] is Some && old(t)@[idx as int]->0.state
            == State::Established),
        r ==> final(t)@ == old(t)@.update(idx as int, Some(spec_send(old(t)@[idx as int]->0, data@))),
        !r ==> final(t)@ == old(t)@,
{
    if idx >= t.slots.len() {
        return false;
    }
    match &t.slots[idx] {
        None => {
            return false;
        },
        Some(c) => {
            if c.state != State::Established {
                return false;
            }
        },
    }
    let ghost m = t@[idx as int];
    match &mut t.slots[idx] {
        None => {},
        Some(tcb) => {
            let seq = tcb.snd_nxt;
            let seg = build_segment(
                tcb.our_ip,
                tcb.remote_ip,
                tcb.local_port,
                tcb.remote_port,
                seq,
                tcb.rcv_nxt,
                PSH | ACK,
                data,
            );
            assert(PSH | ACK == PSH_ACK) by (bit_vector);
            tcb.snd_nxt = tcb.snd_nxt.wrapping_add(data.len() as u32);
            tcb.retransmit = Some((seq, copy_bytes(&seg)));
            tcb.rtx_ticks = 0;
            proof {
                lemma_out_push(tcb.out@, seg);
            }
            tcb.out.push_back(seg);
            assert(tcb@ =~= spec_send(m->0, data@));
        },
    }
    assert(t@ =~= old(t)@.update(idx as int, Some(spec_send(m->0, data@))));
    true
}

/// Queue a FIN to begin closing.
pub fn close_begin(t: &mut TcpTable, idx: usize)
    requires
        old(t).wf(),
    ensures
        final(t).wf(),
        final(t).next_ephemeral == old(t).next_ephemeral,
        final(t).iss == old(t).iss,
        final(t)@ == if idx < MAX_TCP && old(t)@[idx as int] is Some {
            old(t)@.update(idx as int, Some(spec_close(old(t)@[idx as int]->0)))
        } else {
            old(t)@
        },
{
    if idx >= t.slots.len() {
        return;
    }
    match &t.slots[idx] {
        None => {
            return;
        },
        Some(c) => {
            if c.state != State::Established && c.state != State::CloseWait {
                return;
            }
        },
    }
    let ghost m = t@[idx as int];
    match &mut t.slots[idx] {
        None => {},
        Some(tcb) => {
            if tcb.state == State::Established {
                tcb.state = State::FinWait1;
            } else {
                tcb.state = State::LastAck;
            }
            let seq = tcb.snd_nxt;
            let empty: [u8; 0] = [];
            let fin = build_segment(
                tcb.our_ip,
                tcb.remote_ip,
                tcb.local_port,
                tcb.remote_port,
                seq,
                tcb.rcv_nxt,
                FIN | ACK,
                &empty,
            );
            assert(empty@ =~= Seq::<u8>::empty());
            assert(FIN | ACK == FIN_ACK) by (bit_vector);
            tcb.snd_nxt = tcb.snd_nxt.wrapping_add(1);
            proof {
                lemma_out_push(tcb.out@, fin);
            }
            tcb.out.push_back(fin);
            assert(tcb@ =~= spec_close(m->0));
        },
    }
    assert(t@ =~= old(t)@.update(idx as int, Some(spec_close(m->0))));
}


/// Append all of `payload` to the byte queue.
fn append_bytes(q: &mut VecDeque<u8>, payload: &[u8])
    ensures
        final(q)@ == old(q)@ + payload@,
{
    let mut k: usize = 0;
    while k < payload.len()
        invariant
            k <= payload@.len(),
            q@ == old(q)@ + payload@.subrange(0, k as int),
        decreases payload@.len() - k,
    {
        q.push_back(payload[k]);
        k = k + 1;
        assert(q@ =~= old(q)@ + payload@.subrange(0, k as int));
    }
    assert(payload@.subrange(0, k as int) =~= payload@);
}

/// Accept in-order payload bytes and ACK them (re-ACK otherwise).
fn receive_data(tcb: &mut Tcb, seq: u32, payload: &[u8])
    requires
        tcb_wf(old(tcb)@),
    ensures
        final(tcb)@ == spec_data(old(tcb)@, seq, payload@),
        tcb_wf(final(tcb)@),
{
    if payload.len() > 0 && seq == tcb.rcv_nxt {
        if payload.len() <= RX_CAP - tcb.rx.len() {
            append_bytes(&mut tcb.rx, payload);
            tcb.rcv_nxt = tcb.rcv_nxt.wrapping_add(payload.len() as u32);
        }
        queue_ack(tcb);
    } else if payload.len() > 0 {
        queue_ack(tcb);
    }
}

/// Accept the peer's FIN when it is next in sequence.
fn receive_fin(tcb: &mut Tcb, seq: u32, flags: u8, payload: &[u8])
    requires
        tcb_wf(old(tcb)@),
    ensures
        final(tcb)@ == spec_fin(old(tcb)@, seq, flags, payload@),
        tcb_wf(final(tcb)@),
{
    if flags & FIN != 0 && seq.wrapping_add(payload.len() as u32) == tcb.rcv_nxt {
        tcb.rcv_nxt = tcb.rcv_nxt.wrapping_add(1);
        tcb.peer_fin = true;
        if tcb.state == State::Established {
            tcb.state = State::CloseWait;
        }
        queue_ack(tcb);
    }
}

/// Handle one segment for this connection.
fn deliver_tcb(tcb: &mut Tcb, our_ip: [u8; 4], remote_ip: [u8; 4], seg: &Segment)
    requires
        tcb_wf(old(tcb)@),
    ensures
        final(tcb)@ == spec_deliver(old(tcb)@, our_ip@, remote_ip@, seg@),
        tcb_wf(final(tcb)@),
{
    // Only accept segments from our peer.
    if tcb.state != State::SynSent && (!ip_eq(remote_ip, tcb.remote_ip) || seg.src_port != tcb.remote_port) {
        return;
    }
    tcb.our_ip = our_ip;
    if seg.flags & RST != 0 {
        tcb.reset = true;
        tcb.state = State::Closed;
        assert(tcb@ =~= spec_deliver(old(tcb)@, our_ip@, remote_ip@, seg@));
        return;
    }
    if seg.flags & ACK != 0 {
        tcb.snd_una = seg.ack;
        let clear = match &tcb.retransmit {
            Some(r) => seg.ack.wrapping_sub(r.0) > 0 && seg.ack != r.0,
            None => false,
        };
        if clear {
            tcb.retransmit = None;
        }
    }
    let ghost m2 = tcb@;
    assert(m2 =~= ({
        let m1 = TcbModel { our_ip: our_ip@, ..old(tcb)@ };
        if seg.flags & ACK != 0 {
            TcbModel {
                snd_una: seg.ack,
                retransmit: match m1.retransmit {
                    Some(r) => if seg.ack != r.0 { None } else { m1.retransmit },
                    None => None,
                },
                ..m1
            }
        } else {
            m1
        }
    }));
    match tcb.state {
        State::SynSent => {
            if seg.flags & SYN != 0 && seg.flags & ACK != 0 {
                tcb.remote_ip = remote_ip;
                tcb.remote_port = seg.src_port;
                tcb.rcv_nxt = seg.seq.wrapping_add(1);
                tcb.state = State::Established;
                tcb.retransmit = None;
                queue_ack(tcb);
            }
        },
        State::Established | State::FinWait1 | State::CloseWait => {
            receive_data(tcb, seg.seq, seg.payload);
            receive_fin(tcb, seg.seq, seg.flags, seg.payload);
        },
        State::LastAck => {
            if seg.flags & ACK != 0 {
                tcb.state = State::Closed;
            }
        },
        State::Closed => {},
    }
    assert(tcb@ =~= spec_on_state(m2, remote_ip@, seg@));
}

/// Whether `slot` holds a live connection on `port`.
fn slot_matches(slot: &Option<Tcb>, port: u16) -> (r: bool)
    ensures
        r == conn_matches(
            match slot {
                Some(c) => Some(c@),
                None => None,
            },
            port,
        ),
{
    match slot {
        Some(c) => c.local_port == port && c.state != State::Closed,
        None => false,
    }
}

/// Handle an inbound segment for the matching connection (the first
/// live connection on the segment's destination port); only mutates
/// state and queues output.
pub fn deliver(t: &mut TcpTable, our_ip: [u8; 4], remote_ip: [u8; 4], seg: &Segment)
    requires
        old(t).wf(),
    ensures
        final(t).wf(),
        final(t).next_ephemeral == old(t).next_ephemeral,
        final(t).iss == old(t).iss,
        match find_conn(old(t)@, seg.dst_port) {
            None => final(t)@ == old(t)@,
            Some(i) => final(t)@ == old(t)@.update(
                i,
                Some(spec_deliver(old(t)@[i]->0, our_ip@, remote_ip@, seg@)),
            ),
        },
{
    let mut i: usize = 0;
    while i < t.slots.len() && !slot_matches(&t.slots[i], seg.dst_port)
        invariant
            t.wf(),
            *t == *old(t),
            i <= MAX_TCP,
            forall|j: int| 0 <= j < i ==> !conn_matches(#[trigger] t@[j], seg.dst_port),
        decreases MAX_TCP - i,
    {
        i = i + 1;
    }
    if i == t.slots.len() {
        proof {
            lemma_find_conn_none(t@, seg.dst_port);
        }
        return;
    }
    proof {
        lemma_find_conn(t@, seg.dst_port, i as int);
    }
    let ghost m = t@[i as int]->0;
    match &mut t.slots[i] {
        None => {},
        Some(tcb) => {
            deliver_tcb(tcb, our_ip, remote_ip, seg);
        },
    }
    assert(t@ =~= old(t)@.update(i as int, Some(spec_deliver(m, our_ip@, remote_ip@, seg@))));
}

/// What `pump` takes from a connection: its queued segments, plus the
/// retransmit copy when the retransmit timer fires.
pub open spec fn pump_segments(m: TcbModel) -> Seq<Seq<u8>> {
    match m.retransmit {
        Some(r) => if m.rtx_ticks + 1 >= RTX_TICKS { m.out.push(r.1) } else { m.out },
        None => m.out,
    }
}

/// The connection after `pump`: queue drained, retransmit timer advanced.
pub open spec fn spec_pump(m: TcbModel) -> TcbModel {
    TcbModel {
        out: Seq::empty(),
        rtx_ticks: match m.retransmit {
            Some(_) => if m.rtx_ticks + 1 >= RTX_TICKS { 0 } else { (m.rtx_ticks + 1) as u32 },
            None => m.rtx_ticks,
        },
        ..m
    }
}

/// Take the outgoing queue (and the periodic retransmission) of one
/// connection: returns the peer address and the segments to transmit,
/// or `None` when `idx` names no connection.
pub fn pump(t: &mut TcpTable, idx: usize) -> (r: Option<([u8; 4], Vec<Vec<u8>>)>)
    requires
        old(t).wf(),
    ensures
        final(t).wf(),
        final(t).next_ephemeral == old(t).next_ephemeral,
        final(t).iss == old(t).iss,
        match r {
            None => {
                &&& !(idx < MAX_TCP && old(t)@[idx as int] is Some)
                &&& final(t)@ == old(t)@
            },
            Some(res) => {
                &&& idx < MAX_TCP && old(t)@[idx as int] is Some
                &&& res.0@ == old(t)@[idx as int]->0.remote_ip
                &&& res.1@.map_values(|v: Vec<u8>| v@) == pump_segments(old(t)@[idx as int]->0)
                &&& final(t)@ == old(t)@.update(idx as int, Some(spec_pump(old(t)@[idx as int]->0)))
            },
        },
{
    if idx >= t.slots.len() || t.slots[idx].is_none() {
        return None;
    }
    let ghost m = t@[idx as int]->0;
    let mut segs: Vec<Vec<u8>> = Vec::new();
    let mut remote: [u8; 4] = [0; 4];
    match &mut t.slots[idx] {
        None => {},
        Some(tcb) => {
            let ghost out0 = tcb.out@;
            while tcb.out.len() > 0
                invariant
                    tcb@ == (TcbModel { out: tcb@.out, ..m }),
                    out0.map_values(|v: Vec<u8>| v@) == m.out,
                    out0 == segs@ + tcb.out@,
                decreases tcb.out@.len(),
            {
                match tcb.out.pop_front() {
                    Some(seg) => {
                        segs.push(seg);
                    },
                    None => {},
                }
                assert(tcb@ =~= (TcbModel { out: tcb@.out, ..m }));
            }
            assert(segs@ =~= out0);
            assert(segs@.map_values(|v: Vec<u8>| v@) =~= m.out);
            let mut resend: Option<Vec<u8>> = None;
            match &tcb.retransmit {
                Some(r) => {
                    tcb.rtx_ticks = tcb.rtx_ticks + 1;
                    if tcb.rtx_ticks >= RTX_TICKS {
                        tcb.rtx_ticks = 0;
                        resend = Some(copy_bytes(&r.1));
                    }
                },
                None => {},
            }
            match resend {
                Some(v) => {
                    proof {
                        lemma_out_push(segs@, v);
                    }
                    segs.push(v);
                },
                None => {},
            }
            remote = tcb.remote_ip;
            assert(tcb@ =~= spec_pump(m));
        },
    }
    assert(segs@.map_values(|v: Vec<u8>| v@) =~= pump_segments(m));
    assert(t@ =~= old(t)@.update(idx as int, Some(spec_pump(m))));
    Some((remote, segs))
}

/// Drain up to `out.len()` received bytes into `out`; returns the count.
pub fn recv_buffered(t: &mut TcpTable, idx: usize, out: &mut [u8]) -> (n: usize)
    requires
        old(t).wf(),
    ensures
        final(t).wf(),
        final(t).next_ephemeral == old(t).next_ephemeral,
        final(t).iss == old(t).iss,
        final(out)@.len() == old(out)@.len(),
        !(idx < MAX_TCP && old(t)@[idx as int] is Some) ==> n == 0 && final(t)@ == old(t)@ && final(out)@
            == old(out)@,
        idx < MAX_TCP && old(t)@[idx as int] is Some ==> {
            let m = old(t)@[idx as int]->0;
            &&& n as int == if old(out)@.len() < m.rx.len() { old(out)@.len() as int } else { m.rx.len() as int }
            &&& final(out)@ == m.rx.take(n as int) + old(out)@.skip(n as int)
            &&& final(t)@ == old(t)@.update(idx as int, Some(TcbModel { rx: m.rx.skip(n as int), ..m }))
        },
{
    if idx >= t.slots.len() || t.slots[idx].is_none() {
        assert(out@ =~= old(out)@);
        return 0;
    }
    let ghost m = t@[idx as int]->0;
    let mut n: usize = 0;
    match &mut t.slots[idx] {
        None => {},
        Some(tcb) => {
            n = if out.len() < tcb.rx.len() { out.len() } else { tcb.rx.len() };
            let mut k: usize = 0;
            while k < n
                invariant
                    k <= n,
                    n <= out@.len(),
                    n <= m.rx.len(),
                    out@.len() == old(out)@.len(),
                    tcb@ == (TcbModel { rx: m.rx.skip(k as int), ..m }),
                    out@ == m.rx.take(k as int) + old(out)@.skip(k as int),
                decreases n - k,
            {
                match tcb.rx.pop_front() {
                    Some(b) => {
                        out[k] = b;
                    },
                    None => {},
                }
                k = k + 1;
                assert(tcb@ =~= (TcbModel { rx: m.rx.skip(k as int), ..m }));
                assert(out@ =~= m.rx.take(k as int) + old(out)@.skip(k as int));
            }
        },
    }
    assert(t@ =~= old(t)@.update(idx as int, Some(TcbModel { rx: m.rx.skip(n as int), ..m })));
    n
}

/// True once every byte queued for send has been acknowledged (and for
/// a missing connection).
pub fn send_complete(t: &TcpTable, idx: usize) -> (r: bool)
    requires
        t.wf(),
    ensures
        r == (!(idx < MAX_TCP && t@[idx as int] is Some) || t@[idx as int]->0.snd_una == t@[idx
            as int]->0.snd_nxt),
{
    if idx >= t.slots.len() {
        return true;
    }
    match &t.slots[idx] {
        Some(c) => c.snd_una == c.snd_nxt,
        None => true,
    }
}

/// The connection's state (Closed for a missing connection).
pub fn state(t: &TcpTable, idx: usize) -> (r: State)
    requires
        t.wf(),
    ensures
        r == if idx < MAX_TCP && t@[idx as int] is Some { t@[idx as int]->0.state } else { State::Closed },
{
    if idx >= t.slots.len() {
        return State::Closed;
    }
    match &t.slots[idx] {
        Some(c) => c.state,
        None => State::Closed,
    }
}

/// Whether the peer reset the connection.
pub fn was_reset(t: &TcpTable, idx: usize) -> (r: bool)
    requires
        t.wf(),
    ensures
        r == (idx < MAX_TCP && t@[idx as int] is Some && t@[idx as int]->0.reset),
{
    if idx >= t.slots.len() {
        return false;
    }
    match &t.slots[idx] {
        Some(c) => c.reset,
        None => false,
    }
}

/// True once the peer has sent FIN and all its data has been read (and
/// for a missing connection).
pub fn at_eof(t: &TcpTable, idx: usize) -> (r: bool)
    requires
        t.wf(),
    ensures
        r == (!(idx < MAX_TCP && t@[idx as int] is Some) || (t@[idx as int]->0.peer_fin && t@[idx
            as int]->0.rx.len() == 0)),
{
    if idx >= t.slots.len() {
        return true;
    }
    match &t.slots[idx] {
        Some(c) => c.peer_fin && c.rx.len() == 0,
        None => true,
    }
}

} // verus!
