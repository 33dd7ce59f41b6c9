//! UDP socket table. Datagrams received by the interface are queued
//! here per bound local port; `recv` drains them.

use vstd::prelude::*;
use std::collections::VecDeque;
use super::wire::push_all;

verus! {

pub const MAX_SOCKETS: usize = 32;
/// Cap the per-socket backlog so a chatty peer can't exhaust the heap.
pub const MAX_BACKLOG: usize = 16;
/// Ephemeral local ports are handed out from here upward.
pub const EPHEMERAL_BASE: u16 = 49152;
/// How many ports the ephemeral search examines.
pub const EPHEMERAL_TRIES: u16 = 16383;

/// One received datagram waiting to be read.
pub struct Datagram {
    pub src_ip: [u8; 4],
    pub src_port: u16,
    pub data: Vec<u8>,
}

impl View for Datagram {
    type V = (Seq<u8>, u16, Seq<u8>);

    open spec fn view(&self) -> Self::V {
        (self.src_ip@, self.src_port, self.data@)
    }
}

pub struct UdpSocket {
    pub local_port: u16,
    pub rx: VecDeque<Datagram>,
}

/// Model of a socket: its port and queued datagrams.
#[verifier::ext_equal]
pub struct SocketModel {
    pub local_port: u16,
    pub rx: Seq<(Seq<u8>, u16, Seq<u8>)>,
}

impl View for UdpSocket {
    type V = SocketModel;

    open spec fn view(&self) -> SocketModel {
        SocketModel { local_port: self.local_port, rx: self.rx@.map_values(|d: Datagram| d@) }
    }
}

pub struct SocketTable {
    pub slots: Vec<Option<UdpSocket>>,
    pub next_ephemeral: u16,
}

impl View for SocketTable {
    type V = Seq<Option<SocketModel>>;

    open spec fn view(&self) -> Seq<Option<SocketModel>> {
        self.slots@.map_values(|s: Option<UdpSocket>| match s {
            Some(k) => Some(k@),
            None => None,
        })
    }
}

impl SocketTable {
    /// `MAX_SOCKETS` slots, ephemeral cursor in range, bounded backlogs.
    pub open spec fn wf(&self) -> bool {
        &&& self.slots@.len() == MAX_SOCKETS
        &&& EPHEMERAL_BASE <= self.next_ephemeral <= u16::MAX - 1
        &&& forall|i: int| 0 <= i < MAX_SOCKETS && #[trigger] self@[i] is Some ==> self@[i]->0.rx.len() <= MAX_BACKLOG
    }

    /// An empty table.
    pub fn new() -> (t: SocketTable)
        ensures
            t.wf(),
            forall|i: int| 0 <= i < MAX_SOCKETS ==> #[trigger] t@[i] is None,
            t.next_ephemeral == EPHEMERAL_BASE,
    {
        let mut slots: Vec<Option<UdpSocket>> = Vec::new();
        let mut i: usize = 0;
        while i < MAX_SOCKETS
            invariant
                i <= MAX_SOCKETS,
                slots@.len() == i,
                forall|j: int| 0 <= j < i ==> #[trigger] slots@[j] is None,
            decreases MAX_SOCKETS - i,
        {
            slots.push(None);
            i = i + 1;
        }
        SocketTable { slots, next_ephemeral: EPHEMERAL_BASE }
    }
}

/// Index of the first free slot, if any.
pub open spec fn first_free(s: Seq<Option<SocketModel>>) -> Option<int> {
    if exists|i: int| 0 <= i < s.len() && s[i] is None {
        Some(choose|i: int| 0 <= i < s.len() && s[i] is None && forall|j: int| 0 <= j < i ==> s[j] is Some)
    } else {
        None
    }
}

/// Allocate a new unbound UDP socket; returns its table index.
pub fn allocate(t: &mut SocketTable) -> (r: Option<usize>)
    requires
        old(t).wf(),
    ensures
        final(t).wf(),
        final(t).next_ephemeral == old(t).next_ephemeral,
        match r {
            None => first_free(old(t)@) is None && final(t)@ == old(t)@,
            Some(idx) => {
                &&& first_free(old(t)@) == Some(idx as int)
                &&& final(t)@ == old(t)@.update(
                    idx as int,
                    Some(SocketModel { local_port: 0, rx: Seq::empty() }),
                )
            },
        },
{
    let mut i: usize = 0;
    while i < t.slots.len() && t.slots[i].is_some()
        invariant
            t.wf(),
            i <= MAX_SOCKETS,
            forall|j: int| 0 <= j < i ==> #[trigger] t@[j] is Some,
        decreases MAX_SOCKETS - i,
    {
        i = i + 1;
    }
    if i == t.slots.len() {
        assert(first_free(t@) is None) by {
            if exists|k: int| 0 <= k < t@.len() && t@[k] is None {
                let k = choose|k: int| 0 <= k < t@.len() && t@[k] is None;
                assert(t@[k] is Some);
            }
        }
        return None;
    }
    proof {
        let s = t@;
        let k = choose|k: int| 0 <= k < s.len() && s[k] is None && forall|j: int| 0 <= j < k ==> s[j] is Some;
        assert(s[i as int] is None);
        assert(0 <= k < s.len() && s[k] is None && forall|j: int| 0 <= j < k ==> s[j] is Some);
        if k < i {
            assert(s[k] is Some);
        } else if k > i {
            assert(s[i as int] is Some);
        }
    }
    let sock = UdpSocket { local_port: 0, rx: VecDeque::new() };
    assert(sock@ =~= SocketModel { local_port: 0, rx: Seq::empty() });
    t.slots.set(i, Some(sock));
    assert(t@ =~= old(t)@.update(i as int, Some(SocketModel { local_port: 0, rx: Seq::empty() })));
    Some(i)
}

/// Free a socket (on close); no-op for an out-of-range index.
pub fn free(t: &mut SocketTable, idx: usize)
    requires
        old(t).wf(),
    ensures
        final(t).wf(),
        final(t).next_ephemeral == old(t).next_ephemeral,
        final(t)@ == if idx < MAX_SOCKETS { old(t)@.update(idx as int, None) } else { old(t)@ },
{
    if idx < t.slots.len() {
        t.slots.set(idx, None);
        assert(t@ =~= old(t)@.update(idx as int, None));
    }
}

/// Whether some socket (bound or not; unbound sockets hold port 0) uses `port`.
pub open spec fn port_used(s: Seq<Option<SocketModel>>, port: u16) -> bool {
    exists|i: int| 0 <= i < s.len() && s[i] is Some && s[i]->0.local_port == port
}

/// Whether some socket holds `port`.
pub fn port_in_use(t: &SocketTable, port: u16) -> (r: bool)
    requires
        t.wf(),
    ensures
        r == port_used(t@, port),
{
    let mut i: usize = 0;
    while i < t.slots.len()
        invariant
            t.wf(),
            i <= MAX_SOCKETS,
            forall|j: int| 0 <= j < i ==> !(#[trigger] t@[j] is Some && t@[j]->0.local_port == port),
        decreases MAX_SOCKETS - i,
    {
        match &t.slots[i] {
            Some(s) => {
                if s.local_port == port {
                    assert(t@[i as int] is Some && t@[i as int]->0.local_port == port);
                    return true;
                }
            },
            None => {},
        }
        i = i + 1;
    }
    false
}

/// The ephemeral port handed out after `port`.
pub open spec fn next_port(port: u16) -> u16 {
    if port >= u16::MAX - 1 {
        EPHEMERAL_BASE
    } else {
        (port + 1) as u16
    }
}

/// The ephemeral search: from `p`, the first free port within `fuel`
/// steps, or where the search stops.
pub open spec fn scan(s: Seq<Option<SocketModel>>, p: u16, fuel: nat) -> u16
    decreases fuel,
{
    if fuel == 0 || !port_used(s, p) {
        p
    } else {
        scan(s, next_port(p), (fuel - 1) as nat)
    }
}

/// The port `bind` picks: `port`, or an ephemeral one for port 0.
pub open spec fn chosen_port(t: SocketTable, port: u16) -> u16 {
    if port == 0 {
        scan(t@, t.next_ephemeral, EPHEMERAL_TRIES as nat)
    } else {
        port
    }
}

/// Bind a socket to `port` (0 = pick an ephemeral port). Returns the
/// bound port, or None on conflict / bad index. Picking an ephemeral
/// port advances the cursor even when `idx` names no socket.
pub fn bind(t: &mut SocketTable, idx: usize, port: u16) -> (r: Option<u16>)
    requires
        old(t).wf(),
    ensures
        final(t).wf(),
        final(t).next_ephemeral == if port == 0 {
            next_port(chosen_port(*old(t), 0))
        } else {
            old(t).next_ephemeral
        },
        r == if (port != 0 && port_used(old(t)@, port)) || !(idx < MAX_SOCKETS && old(t)@[idx as int] is Some) {
            None::<u16>
        } else {
            Some(chosen_port(*old(t), port))
        },
        r is Some ==> final(t)@ == old(t)@.update(
            idx as int,
            Some(SocketModel { local_port: r->0, ..old(t)@[idx as int]->0 }),
        ),
        r is None ==> final(t)@ == old(t)@,
{
    let chosen: u16;
    if port == 0 {
        let mut p = t.next_ephemeral;
        let mut k: u16 = 0;
        while k < EPHEMERAL_TRIES && port_in_use(t, p)
            invariant
                t.wf(),
                *t == *old(t),
                k <= EPHEMERAL_TRIES,
                EPHEMERAL_BASE <= p <= u16::MAX - 1,
                scan(t@, p, (EPHEMERAL_TRIES - k) as nat) == scan(t@, t.next_ephemeral, EPHEMERAL_TRIES as nat),
            decreases EPHEMERAL_TRIES - k,
        {
            p = if p >= u16::MAX - 1 { EPHEMERAL_BASE } else { p + 1 };
            k = k + 1;
        }
        assert(p == scan(t@, t.next_ephemeral, EPHEMERAL_TRIES as nat));
        t.next_ephemeral = if p >= u16::MAX - 1 { EPHEMERAL_BASE } else { p + 1 };
        chosen = p;
    } else {
        if port_in_use(t, port) {
            return None;
        }
        chosen = port;
    }
    if idx >= t.slots.len() || t.slots[idx].is_none() {
        return None;
    }
    let ghost m = t@[idx as int]->0;
    match &mut t.slots[idx] {
        None => {},
        Some(s) => {
            s.local_port = chosen;
        },
    }
    assert(t@ =~= old(t)@.update(idx as int, Some(SocketModel { local_port: chosen, ..m })));
    Some(chosen)
}

/// The local port a socket is bound to (0 if unbound or missing).
pub fn local_port(t: &SocketTable, idx: usize) -> (r: u16)
    requires
        t.wf(),
    ensures
        r == if idx < MAX_SOCKETS && t@[idx as int] is Some { t@[idx as int]->0.local_port } else { 0 },
{
    if idx >= t.slots.len() {
        return 0;
    }
    match &t.slots[idx] {
        Some(s) => s.local_port,
        None => 0,
    }
}

/// Index of the first socket on `port`, if any.
pub open spec fn find_port(s: Seq<Option<SocketModel>>, port: u16) -> Option<int> {
    if port_used(s, port) {
        Some(
            choose|i: int|
                0 <= i < s.len() && s[i] is Some && s[i]->0.local_port == port && forall|j: int|
                    0 <= j < i ==> !(s[j] is Some && s[j]->0.local_port == port),
        )
    } else {
        None
    }
}

/// The socket after a datagram arrives: queued unless the backlog is full.
pub open spec fn spec_enqueue(m: SocketModel, d: (Seq<u8>, u16, Seq<u8>)) -> SocketModel {
    if m.rx.len() < MAX_BACKLOG {
        SocketModel { rx: m.rx.push(d), ..m }
    } else {
        m
    }
}

/// Deliver an inbound datagram to whichever socket owns `dst_port`
/// (the first one in table order); dropped when none does or its
/// backlog is full.
pub fn deliver(t: &mut SocketTable, dst_port: u16, src_ip: [u8; 4], src_port: u16, data: &[u8])
    requires
        old(t).wf(),
    ensures
        final(t).wf(),
        final(t).next_ephemeral == old(t).next_ephemeral,
        match find_port(old(t)@, dst_port) {
            None => final(t)@ == old(t)@,
            Some(i) => final(t)@ == old(t)@.update(
                i,
                Some(spec_enqueue(old(t)@[i]->0, (src_ip@, src_port, data@))),
            ),
        },
{
    let mut i: usize = 0;
    while i < t.slots.len() && !slot_on_port(&t.slots[i], dst_port)
        invariant
            t.wf(),
            *t == *old(t),
            i <= MAX_SOCKETS,
            forall|j: int| 0 <= j < i ==> !(#[trigger] t@[j] is Some && t@[j]->0.local_port == dst_port),
        decreases MAX_SOCKETS - i,
    {
        i = i + 1;
    }
    if i == t.slots.len() {
        assert(!port_used(t@, dst_port));
        return;
    }
    proof {
        let s = t@;
        assert(port_used(s, dst_port));
        let k = choose|k: int|
            0 <= k < s.len() && s[k] is Some && s[k]->0.local_port == dst_port && forall|j: int|
                0 <= j < k ==> !(s[j] is Some && s[j]->0.local_port == dst_port);
        assert(0 <= k < s.len() && s[k] is Some && s[k]->0.local_port == dst_port);
        if k < i {
            assert(!(s[k] is Some && s[k]->0.local_port == dst_port));
        } else if k > i {
            assert(!(s[i as int] is Some && s[i as int]->0.local_port == dst_port));
        }
        assert(find_port(s, dst_port) == Some(i as int));
    }
    let ghost m = t@[i as int]->0;
    let mut copy: Vec<u8> = Vec::new();
    push_all(&mut copy, data);
    match &mut t.slots[i] {
        None => {},
        Some(s) => {
            if s.rx.len() < MAX_BACKLOG {
                let d = Datagram { src_ip, src_port, data: copy };
                assert(d@ =~= (src_ip@, src_port, data@));
                assert(s.rx@.push(d).map_values(|x: Datagram| x@) =~= s.rx@.map_values(|x: Datagram| x@).push(d@));
                s.rx.push_back(d);
            }
            assert(s@ =~= spec_enqueue(m, (src_ip@, src_port, data@)));
        },
    }
    assert(t@ =~= old(t)@.update(i as int, Some(spec_enqueue(m, (src_ip@, src_port, data@)))));
}

/// Whether `slot` holds a socket on `port`.
fn slot_on_port(slot: &Option<UdpSocket>, port: u16) -> (r: bool)
    ensures
        r == (slot is Some && slot->0.local_port == port),
{
    match slot {
        Some(s) => s.local_port == port,
        None => false,
    }
}

/// Pop the next datagram queued on socket `idx`, if any.
pub fn recv(t: &mut SocketTable, idx: usize) -> (r: Option<Datagram>)
    requires
        old(t).wf(),
    ensures
        final(t).wf(),
        final(t).next_ephemeral == old(t).next_ephemeral,
        !(idx < MAX_SOCKETS && old(t)@[idx as int] is Some && old(t)@[idx as int]->0.rx.len() > 0) ==> r is None
            && final(t)@ == old(t)@,
        idx < MAX_SOCKETS && old(t)@[idx as int] is Some && old(t)@[idx as int]->0.rx.len() > 0 ==> {
            let m = old(t)@[idx as int]->0;
            &&& r is Some
            &&& r->0@ == m.rx[0]
            &&& final(t)@ == old(t)@.update(idx as int, Some(SocketModel { rx: m.rx.drop_first(), ..m }))
        },
{
    if idx >= t.slots.len() || t.slots[idx].is_none() {
        return None;
    }
    let ghost m = t@[idx as int]->0;
    let mut r: Option<Datagram> = None;
    match &mut t.slots[idx] {
        None => {},
        Some(s) => {
            r = s.rx.pop_front();
            assert(s@ =~= (if m.rx.len() > 0 { SocketModel { rx: m.rx.drop_first(), ..m } } else { m }));
        },
    }
    proof {
        if m.rx.len() > 0 {
            assert(t@ =~= old(t)@.update(idx as int, Some(SocketModel { rx: m.rx.drop_first(), ..m })));
        } else {
            assert(t@ =~= old(t)@);
        }
    }
    r
}

/// Law: a datagram delivered to a socket with an empty queue is the one
/// the next receive on that socket returns.
pub proof fn lemma_deliver_then_recv(m: SocketModel, d: (Seq<u8>, u16, Seq<u8>))
    requires
        m.rx.len() == 0,
    ensures
        spec_enqueue(m, d).rx.len() > 0,
        spec_enqueue(m, d).rx[0] == d,
{
}

} // verus!
