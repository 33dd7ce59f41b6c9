//! Blocking network syscalls: connect, TCP send and receive, UDP receive
//! and the drain of a closed TCP connection wait on the network a bounded
//! number of polls. The caller polls the device and hands each round to
//! these steps, which decide when the wait is over and what it answers.

use vstd::prelude::*;
use super::Kernel;
use super::posix::{
    self, NetWait, ETIMEDOUT, EAGAIN, connect_poll, connect_result, tcp_ack_poll, ack_result, flush_tcp, flushed,
    pumped, tcp_send_chunk, tcp_send_chunk_post, tcp_recv_poll, tcp_recv_poll_post, udp_recv_poll, udp_recv_poll_post,
    close_tcp,
};
use crate::net::tcp;

verus! {

/// Polls a blocked TCP call spends on one wait (the handshake, an
/// acknowledgment, stream bytes) before it gives up.
pub const TCP_POLL_BUDGET: usize = 20000;

/// Polls recvfrom on a UDP socket spends waiting for a datagram.
pub const UDP_POLL_BUDGET: usize = 4000;

/// Rounds a closed TCP connection is drained before it is freed.
pub const CLOSE_DRAIN_ROUNDS: usize = 2000;

/// A blocked network syscall: what it waits on, the polls its current
/// wait has taken, and for a send the bytes acknowledged so far and the
/// size of the segment in flight (0 while none is).
pub struct Blocked {
    pub wait: NetWait,
    pub polls: usize,
    pub sent: usize,
    pub chunk: usize,
}

impl Blocked {
    /// A wait that has just begun.
    pub fn new(wait: NetWait) -> (b: Blocked)
        ensures
            b == (Blocked { wait, polls: 0, sent: 0, chunk: 0 }),
            b.wf(),
    {
        Blocked { wait, polls: 0, sent: 0, chunk: 0 }
    }

    /// A send never has more in flight than is left to send.
    pub open spec fn wf(&self) -> bool {
        self.wait matches NetWait::Sending { len, .. } ==> self.sent + self.chunk <= len
    }
}

/// How many polls a wait may take.
pub open spec fn budget_of(w: NetWait) -> nat {
    match w {
        NetWait::ReceivingUdp { .. } => UDP_POLL_BUDGET as nat,
        _ => TCP_POLL_BUDGET as nat,
    }
}

/// What a wait answers when its budget runs out.
pub open spec fn timeout_value(w: NetWait) -> isize {
    match w {
        NetWait::Done(v) => v,
        NetWait::Connecting { .. } => ETIMEDOUT,
        NetWait::Sending { .. } => ETIMEDOUT,
        NetWait::ReceivingTcp { .. } => EAGAIN,
        NetWait::ReceivingUdp { .. } => EAGAIN,
    }
}

/// One more poll without an answer: the wait goes on, or it has spent
/// its budget and answers its timeout value.
pub open spec fn waited(b0: Blocked, b1: Blocked, r: Option<isize>) -> bool {
    if b0.polls + 1 >= budget_of(b0.wait) {
        r == Some(timeout_value(b0.wait)) && b1 == b0
    } else {
        r is None && b1 == (Blocked { polls: (b0.polls + 1) as usize, ..b0 })
    }
}

/// Sending the segment after the first `sent` bytes: an error answers
/// the call; otherwise the segment is in flight and its wait begins.
pub open spec fn next_segment(
    k0: Kernel,
    k1: Kernel,
    b0: Blocked,
    idx: usize,
    buf: usize,
    len: usize,
    sent: usize,
    b1: Blocked,
    r: Option<isize>,
) -> bool {
    exists|c: Result<usize, isize>| #[trigger] tcp_send_chunk_post(k0, k1, idx, buf, len, sent, c) && match c {
        Err(e) => r == Some(e) && b1 == (Blocked { sent, chunk: 0, ..b0 }),
        Ok(n) => r is None && b1 == (Blocked { sent, chunk: n, polls: 0, ..b0 }),
    }
}

/// One round of a blocked network syscall, after the caller has polled
/// the device: connection `idx` of a TCP wait is pumped, then the wait is
/// checked. Its answer for a0 once it has one, else `None`.
pub fn net_wait_step(k: &mut Kernel, b: &mut Blocked) -> (r: Option<isize>)
    requires
        old(k).ready(),
        old(b).wf(),
    ensures
        final(k).ready(),
        final(k).procs == old(k).procs,
        final(b).wf(),
        match old(b).wait {
            NetWait::Done(v) => r == Some(v) && *final(k) == *old(k) && *final(b) == *old(b),
            NetWait::Connecting { idx } => flushed(*old(k), *final(k), idx) && match connect_result(pumped(old(k).net.tcp@, idx), idx) {
                Some(v) => r == Some(v) && *final(b) == *old(b),
                None => waited(*old(b), *final(b), r),
            },
            NetWait::ReceivingUdp { idx, buf, len, src_addr } => exists|v: Option<isize>|
                #[trigger] udp_recv_poll_post(*old(k), *final(k), idx, buf, len, src_addr, v) && match v {
                Some(x) => r == Some(x) && *final(b) == *old(b),
                None => waited(*old(b), *final(b), r),
            },
            NetWait::ReceivingTcp { idx, buf, len } => exists|k1: Kernel, v: Option<isize>|
                flushed(*old(k), k1, idx) && #[trigger] tcp_recv_poll_post(k1, *final(k), idx, buf, len, v) && match v {
                Some(x) => r == Some(x) && *final(b) == *old(b),
                None => waited(*old(b), *final(b), r),
            },
            NetWait::Sending { idx, buf, len } => if old(b).chunk == 0 {
                if old(b).sent >= len {
                    r == Some(old(b).sent as isize) && *final(k) == *old(k) && *final(b) == *old(b)
                } else {
                    next_segment(*old(k), *final(k), *old(b), idx, buf, len, old(b).sent, *final(b), r)
                }
            } else {
                exists|k1: Kernel| #[trigger] flushed(*old(k), k1, idx) && match ack_result(k1.net.tcp@, idx) {
                    None => *final(k) == k1 && waited(*old(b), *final(b), r),
                    Some(a) => if a != 0 {
                        r == Some(a) && *final(k) == k1 && *final(b) == *old(b)
                    } else if old(b).sent + old(b).chunk >= len {
                        r == Some((old(b).sent + old(b).chunk) as isize) && *final(k) == k1
                            && *final(b) == (Blocked { sent: (old(b).sent + old(b).chunk) as usize, chunk: 0, ..*old(b) })
                    } else {
                        next_segment(k1, *final(k), *old(b), idx, buf, len, (old(b).sent + old(b).chunk) as usize, *final(b), r)
                    },
                }
            },
        },
{
    match b.wait {
        NetWait::Done(v) => Some(v),
        NetWait::Connecting { idx } => {
            flush_tcp(k, idx);
            match connect_poll(k, idx) {
                Some(v) => Some(v),
                None => wait_more(b),
            }
        },
        NetWait::ReceivingUdp { idx, buf, len, src_addr } => {
            let v = udp_recv_poll(k, idx, buf, len, src_addr);
            match v {
                Some(x) => Some(x),
                None => wait_more(b),
            }
        },
        NetWait::ReceivingTcp { idx, buf, len } => {
            flush_tcp(k, idx);
            let ghost k1 = *k;
            let v = tcp_recv_poll(k, idx, buf, len);
            assert(tcp_recv_poll_post(k1, *k, idx, buf, len, v));
            match v {
                Some(x) => Some(x),
                None => wait_more(b),
            }
        },
        NetWait::Sending { idx, buf, len } => {
            if b.chunk == 0 {
                if b.sent >= len {
                    return Some(b.sent as isize);
                }
                let sent = b.sent;
                return send_segment(k, b, idx, buf, len, sent);
            }
            flush_tcp(k, idx);
            let ghost k1 = *k;
            match tcp_ack_poll(k, idx) {
                None => wait_more(b),
                Some(a) => {
                    if a != 0 {
                        return Some(a);
                    }
                    let sent = b.sent + b.chunk;
                    if sent >= len {
                        b.sent = sent;
                        b.chunk = 0;
                        return Some(sent as isize);
                    }
                    send_segment(k, b, idx, buf, len, sent)
                },
            }
        },
    }
}

/// Count one more poll of the current wait; its timeout value once the
/// budget is spent.
fn wait_more(b: &mut Blocked) -> (r: Option<isize>)
    ensures
        waited(*old(b), *final(b), r),
{
    let budget = match b.wait {
        NetWait::ReceivingUdp { .. } => UDP_POLL_BUDGET,
        _ => TCP_POLL_BUDGET,
    };
    if b.polls >= budget - 1 {
        let v = match b.wait {
            NetWait::Done(v) => v,
            NetWait::Connecting { .. } => ETIMEDOUT,
            NetWait::Sending { .. } => ETIMEDOUT,
            NetWait::ReceivingTcp { .. } => EAGAIN,
            NetWait::ReceivingUdp { .. } => EAGAIN,
        };
        return Some(v);
    }
    b.polls = b.polls + 1;
    None
}

/// Send the segment of a TCP send that follows its first `sent` bytes.
fn send_segment(k: &mut Kernel, b: &mut Blocked, idx: usize, buf: usize, len: usize, sent: usize) -> (r: Option<isize>)
    requires
        old(k).ready(),
        old(b).wait == (NetWait::Sending { idx, buf, len }),
        sent < len,
    ensures
        final(k).ready(),
        final(k).procs == old(k).procs,
        final(b).wf(),
        next_segment(*old(k), *final(k), *old(b), idx, buf, len, sent, *final(b), r),
{
    let c = tcp_send_chunk(k, idx, buf, len, sent);
    assert(tcp_send_chunk_post(*old(k), *k, idx, buf, len, sent, c));
    b.sent = sent;
    match c {
        Err(e) => {
            b.chunk = 0;
            assert(*b == (Blocked { sent, chunk: 0, ..*old(b) }));
            Some(e)
        },
        Ok(n) => {
            b.chunk = n;
            b.polls = 0;
            assert(*b == (Blocked { sent, chunk: n, polls: 0, ..*old(b) }));
            None
        },
    }
}

/// One round of draining closed TCP connection `idx`, after the caller
/// has polled the device: the connection is pumped, and in the last of
/// `CLOSE_DRAIN_ROUNDS` rounds also freed. Whether the drain is over.
pub fn drain_step(k: &mut Kernel, idx: usize, round: usize) -> (done: bool)
    requires
        old(k).ready(),
    ensures
        final(k).ready(),
        final(k).procs == old(k).procs,
        final(k).mem == old(k).mem,
        final(k).net.sockets == old(k).net.sockets,
        done == (round + 1 >= CLOSE_DRAIN_ROUNDS),
        !done ==> flushed(*old(k), *final(k), idx),
        done ==> final(k).net.tcp@ == if idx < tcp::MAX_TCP { old(k).net.tcp@.update(idx as int, None) } else { old(k).net.tcp@ },
{
    if round >= CLOSE_DRAIN_ROUNDS - 1 {
        close_tcp(k, idx);
        return true;
    }
    flush_tcp(k, idx);
    false
}

} // verus!
