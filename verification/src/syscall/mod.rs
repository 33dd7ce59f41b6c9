//! Syscall dispatch: `ecall` from U-mode lands here with the syscall
//! number in a7 (Linux riscv64 ABI numbering).
//!
//! The whole kernel state is one value (`Kernel`). A syscall either
//! completes, leaving its result in the caller's a0, or parks the
//! caller (its result is written by whoever wakes it); the caller of
//! `dispatch` then resumes the current process or runs the scheduler.

pub mod posix;
pub mod wait;

use vstd::prelude::*;
use crate::sched::process::{self, ProcTable, MAX_PROCS, NO_PROC};
use posix::{NetWait, arg, cur};
use crate::mem::mmu::Mem;
use crate::mem::uaccess::{range_error, readable, phys_distinct, user_bytes};
use crate::fs::Vfs;
use crate::nce::Nce;
use crate::net::Net;

verus! {

pub const SYS_OPENAT: usize = 56;
pub const SYS_CLOSE: usize = 57;
pub const SYS_GETDENTS64: usize = 61;
pub const SYS_READ: usize = 63;
pub const SYS_WRITE: usize = 64;
pub const SYS_EXIT: usize = 93;
pub const SYS_SCHED_SETAFFINITY: usize = 122;
pub const SYS_SCHED_GETAFFINITY: usize = 123;
pub const SYS_GETPID: usize = 172;
pub const SYS_MUNMAP: usize = 215;
pub const SYS_CLONE: usize = 220;
pub const SYS_EXECVE: usize = 221;
pub const SYS_MMAP: usize = 222;
pub const SYS_WAIT4: usize = 260;
pub const SYS_REBOOT: usize = 142;
pub const SYS_SYSINFO: usize = 179;
pub const SYS_SOCKET: usize = 198;
pub const SYS_BIND: usize = 200;
pub const SYS_CONNECT: usize = 203;
pub const SYS_SENDTO: usize = 206;
pub const SYS_RECVFROM: usize = 207;
pub const SYS_PROCLIST: usize = 500;

pub const ENOSYS: isize = -38;

/// Everything the syscalls read and change.
pub struct Kernel {
    pub procs: ProcTable,
    pub mem: Mem,
    pub vfs: Vfs,
    pub nces: Vec<Nce>,
    pub net: Net,
    /// Timer ticks since boot (100 per second).
    pub ticks: u64,
    /// Bytes received on the console and not yet read.
    pub console_in: Vec<u8>,
    /// Bytes written to the console and not yet transmitted.
    pub console_out: Vec<u8>,
    /// NCE doorbell writes `(register address, value)` to perform.
    pub doorbells: Vec<(usize, u32)>,
    /// Ethernet frames to transmit.
    pub net_out: Vec<Vec<u8>>,
}

impl Kernel {
    pub open spec fn wf(&self) -> bool {
        &&& self.procs.wf()
        &&& self.mem.booted()
        &&& self.net.wf()
    }

    /// Ready to run a syscall for the current process.
    pub open spec fn ready(&self) -> bool {
        &&& self.wf()
        &&& self.procs.has_current()
    }
}


/// What the trap path does after a syscall.
pub enum Dispatch {
    /// Return to the caller; its a0 holds the result.
    Resume,
    /// The caller left the CPU: run the scheduler.
    Schedule,
    /// Return to the caller once TCP connection `idx`, closed by the
    /// caller, has been drained (poll the network, `flush_tcp`) and
    /// released (`close_tcp`).
    Drain { idx: usize },
    /// The caller waits on the network: drive `wait` with `net_wait_step`
    /// until it is done, then put its value in a0.
    Wait { wait: NetWait },
    /// reboot(0): power the machine off.
    PowerOff,
    /// reboot(cmd != 0): reset the machine.
    Reboot,
}

/// Write `v` to the current process's a0.
pub fn set_ret(k: &mut Kernel, v: isize)
    requires
        old(k).ready(),
    ensures
        final(k).ready(),
        resumed(*old(k), *final(k), v),
{
    let c = k.procs.current;
    let mut f = k.procs.frames[c];
    f.set_a0(v as usize);
    k.procs.frames.set(c, f);
    proof {
        assert(k.procs.frames@ =~= old(k).procs.frames@.update(c as int, k.procs.frames@[c as int]));
    }
}

/// `k2` is `k1` with `v` in the current process's a0.
pub open spec fn resumed(k1: Kernel, k2: Kernel, v: isize) -> bool {
    let c = k1.procs.current as int;
    &&& k2 == (Kernel { procs: k2.procs, ..k1 })
    &&& k2.procs.slots == k1.procs.slots
    &&& k2.procs.current == k1.procs.current
    &&& k2.procs.next_pid == k1.procs.next_pid
    &&& k2.procs.last_run == k1.procs.last_run
    &&& k2.procs.frames@ =~= k1.procs.frames@.update(c, k2.procs.frames@[c])
    &&& k2.procs.frames@[c].regs@ =~= k1.procs.frames@[c].regs@.update(10, v as usize)
}

/// The syscall number the current process asked for.
pub open spec fn syscall_nr(k: Kernel) -> usize {
    k.procs.frames@[k.procs.current as int].regs@[17]
}

/// A handler's plain result: the caller resumes with it in a0.
pub open spec fn answered(k1: Kernel, k2: Kernel, v: isize, r: Dispatch) -> bool {
    r == Dispatch::Resume && resumed(k1, k2, v)
}

/// What a network handler's wait state turns into: a finished call
/// resumes with its value, anything else waits.
pub open spec fn net_answered(k1: Kernel, k2: Kernel, w: NetWait, r: Dispatch) -> bool {
    match w {
        NetWait::Done(v) => answered(k1, k2, v, r),
        _ => r == (Dispatch::Wait { wait: w }) && k2 == k1,
    }
}

/// The pending receive that recvfrom(fd, buf, len, flags, src_addr) asks for.
pub open spec fn recvfrom_wait(k: Kernel) -> NetWait {
    match posix::tcp_of(k, arg(k, 0)) {
        Some(t) => NetWait::ReceivingTcp { idx: t, buf: arg(k, 1), len: arg(k, 2) },
        None => match posix::udp_of(k, arg(k, 0)) {
            Some(u) => NetWait::ReceivingUdp { idx: u, buf: arg(k, 1), len: arg(k, 2), src_addr: arg(k, 4) },
            None => NetWait::Done(posix::EBADF),
        },
    }
}

/// Where `dispatch` sends syscall number `nr`: the handler's own
/// postcondition, then its value in a0 (or the wait, the reschedule or
/// the power action that it asks for). Other numbers answer ENOSYS.
pub open spec fn routed(k0: Kernel, k2: Kernel, r: Dispatch) -> bool {
    let nr = syscall_nr(k0);
    if nr == SYS_WRITE {
        exists|k1: Kernel, v: isize| #[trigger] posix::sys_write_post(k0, k1, v) && answered(k1, k2, v, r)
    } else if nr == SYS_READ {
        exists|k1: Kernel, v: Option<isize>| #[trigger] posix::sys_read_post(k0, k1, v) && match v {
            Some(x) => answered(k1, k2, x, r),
            None => r == Dispatch::Schedule && k2 == k1,
        }
    } else if nr == SYS_OPENAT {
        if cur(k0).files@.len() >= 0x1000_0000 {
            answered(k0, k2, posix::EMFILE, r)
        } else {
            exists|k1: Kernel, v: isize| #[trigger] posix::sys_openat_post(k0, k1, v) && answered(k1, k2, v, r)
        }
    } else if nr == SYS_CLOSE {
        exists|k1: Kernel, v: (isize, Option<usize>)| #[trigger] posix::sys_close_post(k0, k1, v) && match v.1 {
            Some(idx) => r == (Dispatch::Drain { idx }) && resumed(k1, k2, v.0),
            None => answered(k1, k2, v.0, r),
        }
    } else if nr == SYS_GETDENTS64 {
        exists|k1: Kernel, v: isize| #[trigger] posix::sys_getdents64_post(k0, k1, v) && answered(k1, k2, v, r)
    } else if nr == SYS_SCHED_SETAFFINITY {
        exists|k1: Kernel, v: isize| #[trigger] posix::sys_sched_setaffinity_post(k0, k1, v) && answered(k1, k2, v, r)
    } else if nr == SYS_SCHED_GETAFFINITY {
        exists|k1: Kernel, v: isize| #[trigger] posix::sys_sched_getaffinity_post(k0, k1, v) && answered(k1, k2, v, r)
    } else if nr == SYS_EXIT {
        posix::sys_exit_post(k0, k2) && r == Dispatch::Schedule
    } else if nr == SYS_GETPID {
        answered(k0, k2, cur(k0).pid as isize, r)
    } else if nr == SYS_CLONE {
        if k0.procs.next_pid >= 0x7fff_ffff {
            answered(k0, k2, posix::EAGAIN, r)
        } else {
            exists|k1: Kernel, v: isize| #[trigger] posix::sys_fork_post(k0, k1, v) && answered(k1, k2, v, r)
        }
    } else if nr == SYS_EXECVE {
        exists|k1: Kernel, v: isize| #[trigger] posix::sys_execve_post(k0, k1, v) && answered(k1, k2, v, r)
    } else if nr == SYS_WAIT4 {
        posix::sys_wait4_post(k0, k2) && r == Dispatch::Schedule
    } else if nr == SYS_MMAP {
        exists|k1: Kernel, v: isize| #[trigger] posix::sys_mmap_post(k0, k1, v) && answered(k1, k2, v, r)
    } else if nr == SYS_MUNMAP {
        exists|k1: Kernel, v: isize| #[trigger] posix::sys_munmap_post(k0, k1, v) && answered(k1, k2, v, r)
    } else if nr == SYS_REBOOT {
        k2 == k0 && r == (if arg(k0, 0) == 0 { Dispatch::PowerOff } else { Dispatch::Reboot })
    } else if nr == SYS_SYSINFO {
        exists|k1: Kernel, v: isize| #[trigger] posix::sys_sysinfo_post(k0, k1, v) && answered(k1, k2, v, r)
    } else if nr == SYS_PROCLIST {
        exists|k1: Kernel, v: isize| #[trigger] posix::sys_proclist_post(k0, k1, v) && answered(k1, k2, v, r)
    } else if nr == SYS_SOCKET {
        if cur(k0).files@.len() >= 0x1000_0000 {
            answered(k0, k2, posix::EMFILE, r)
        } else {
            exists|k1: Kernel, v: isize| #[trigger] posix::sys_socket_post(k0, k1, v) && answered(k1, k2, v, r)
        }
    } else if nr == SYS_BIND {
        exists|k1: Kernel, v: isize| #[trigger] posix::sys_bind_post(k0, k1, v) && answered(k1, k2, v, r)
    } else if nr == SYS_CONNECT {
        exists|k1: Kernel, w: NetWait| #[trigger] posix::sys_connect_post(k0, k1, w) && net_answered(k1, k2, w, r)
    } else if nr == SYS_SENDTO {
        exists|k1: Kernel, w: NetWait| #[trigger] posix::sys_sendto_post(k0, k1, w) && net_answered(k1, k2, w, r)
    } else if nr == SYS_RECVFROM {
        net_answered(k0, k2, recvfrom_wait(k0), r)
    } else {
        answered(k0, k2, ENOSYS, r)
    }
}

/// Handle the syscall in the current process's trap frame: the handler
/// that the number names runs and its value goes to a0. Syscalls outside
/// the table answer ENOSYS.
#[verifier::spinoff_prover]
#[verifier::rlimit(100)]
pub fn dispatch(k: &mut Kernel) -> (r: Dispatch)
    requires
        old(k).ready(),
        syscall_nr(*old(k)) == SYS_EXIT ==> cur(*old(k)).pid != 1,
    ensures
        final(k).wf(),
        r == Dispatch::Resume || r is Drain || r is Wait ==> final(k).procs.has_current() && final(k).procs.current
            == old(k).procs.current,
        r == Dispatch::Schedule ==> final(k).procs.current == NO_PROC,
        routed(*old(k), *final(k), r),
{
    let c = k.procs.current;
    let nr = k.procs.frames[c].a7();
    if nr == SYS_WRITE {
        let v = posix::sys_write(k);
        let ghost k1 = *k;
        set_ret(k, v);
        assert(posix::sys_write_post(*old(k), k1, v));
        return Dispatch::Resume;
    } else if nr == SYS_READ {
        let v = posix::sys_read(k);
        let ghost k1 = *k;
        assert(posix::sys_read_post(*old(k), k1, v));
        match v {
            Some(x) => {
                set_ret(k, x);
                return Dispatch::Resume;
            },
            None => {
                return Dispatch::Schedule;
            },
        }
    } else if nr == SYS_OPENAT {
        if posix::file_count(k) >= 0x1000_0000 {
            set_ret(k, posix::EMFILE);
            return Dispatch::Resume;
        }
        let v = posix::sys_openat(k);
        let ghost k1 = *k;
        set_ret(k, v);
        assert(posix::sys_openat_post(*old(k), k1, v));
        return Dispatch::Resume;
    } else if nr == SYS_CLOSE {
        let v = posix::sys_close(k);
        let ghost k1 = *k;
        assert(posix::sys_close_post(*old(k), k1, v));
        set_ret(k, v.0);
        if let Some(idx) = v.1 {
            return Dispatch::Drain { idx };
        }
        return Dispatch::Resume;
    } else if nr == SYS_GETDENTS64 {
        let v = posix::sys_getdents64(k);
        let ghost k1 = *k;
        set_ret(k, v);
        assert(posix::sys_getdents64_post(*old(k), k1, v));
        return Dispatch::Resume;
    } else if nr == SYS_SCHED_SETAFFINITY {
        let v = posix::sys_sched_setaffinity(k);
        let ghost k1 = *k;
        set_ret(k, v);
        assert(posix::sys_sched_setaffinity_post(*old(k), k1, v));
        return Dispatch::Resume;
    } else if nr == SYS_SCHED_GETAFFINITY {
        let v = posix::sys_sched_getaffinity(k);
        let ghost k1 = *k;
        set_ret(k, v);
        assert(posix::sys_sched_getaffinity_post(*old(k), k1, v));
        return Dispatch::Resume;
    } else if nr == SYS_EXIT {
        posix::sys_exit(k);
        return Dispatch::Schedule;
    } else if nr == SYS_GETPID {
        let v = posix::sys_getpid(k);
        set_ret(k, v);
        return Dispatch::Resume;
    } else if nr == SYS_CLONE {
        if k.procs.next_pid >= 0x7fff_ffff {
            set_ret(k, posix::EAGAIN);
            return Dispatch::Resume;
        }
        let v = posix::sys_fork(k);
        let ghost k1 = *k;
        set_ret(k, v);
        assert(posix::sys_fork_post(*old(k), k1, v));
        return Dispatch::Resume;
    } else if nr == SYS_EXECVE {
        let v = posix::sys_execve(k);
        let ghost k1 = *k;
        set_ret(k, v);
        assert(posix::sys_execve_post(*old(k), k1, v));
        return Dispatch::Resume;
    } else if nr == SYS_WAIT4 {
        posix::sys_wait4(k);
        return Dispatch::Schedule;
    } else if nr == SYS_MMAP {
        let v = posix::sys_mmap(k);
        let ghost k1 = *k;
        set_ret(k, v);
        assert(posix::sys_mmap_post(*old(k), k1, v));
        return Dispatch::Resume;
    } else if nr == SYS_MUNMAP {
        let v = posix::sys_munmap(k);
        let ghost k1 = *k;
        set_ret(k, v);
        assert(posix::sys_munmap_post(*old(k), k1, v));
        return Dispatch::Resume;
    } else if nr == SYS_REBOOT {
        if posix::sys_reboot(k) {
            return Dispatch::PowerOff;
        }
        return Dispatch::Reboot;
    } else if nr == SYS_SYSINFO {
        let v = posix::sys_sysinfo(k);
        let ghost k1 = *k;
        set_ret(k, v);
        assert(posix::sys_sysinfo_post(*old(k), k1, v));
        return Dispatch::Resume;
    } else if nr == SYS_PROCLIST {
        let v = posix::sys_proclist(k);
        let ghost k1 = *k;
        set_ret(k, v);
        assert(posix::sys_proclist_post(*old(k), k1, v));
        return Dispatch::Resume;
    } else if nr == SYS_SOCKET {
        if posix::file_count(k) >= 0x1000_0000 {
            set_ret(k, posix::EMFILE);
            return Dispatch::Resume;
        }
        let v = posix::sys_socket(k);
        let ghost k1 = *k;
        set_ret(k, v);
        assert(posix::sys_socket_post(*old(k), k1, v));
        return Dispatch::Resume;
    } else if nr == SYS_BIND {
        let v = posix::sys_bind(k);
        let ghost k1 = *k;
        set_ret(k, v);
        assert(posix::sys_bind_post(*old(k), k1, v));
        return Dispatch::Resume;
    } else if nr == SYS_CONNECT {
        let w = posix::sys_connect(k);
        let ghost k1 = *k;
        assert(posix::sys_connect_post(*old(k), k1, w));
        return wait_or_answer(k, w);
    } else if nr == SYS_SENDTO {
        let w = posix::sys_sendto(k);
        let ghost k1 = *k;
        assert(posix::sys_sendto_post(*old(k), k1, w));
        return wait_or_answer(k, w);
    } else if nr == SYS_RECVFROM {
        let w = posix::sys_recvfrom(k);
        return wait_or_answer(k, w);
    }
    set_ret(k, ENOSYS);
    Dispatch::Resume
}

/// A finished network call resumes with its value in a0; a pending one
/// becomes a wait.
fn wait_or_answer(k: &mut Kernel, w: NetWait) -> (r: Dispatch)
    requires
        old(k).ready(),
    ensures
        final(k).ready(),
        net_answered(*old(k), *final(k), w, r),
{
    match w {
        NetWait::Done(v) => {
            set_ret(k, v);
            Dispatch::Resume
        },
        _ => Dispatch::Wait { wait: w },
    }
}

/// Console input arrived (already appended to `console_in`): complete a
/// blocked read(0) with what is buffered.
pub fn console_arrived(k: &mut Kernel)
    requires
        old(k).wf(),
    ensures
        final(k).wf(),
        final(k).procs.current == old(k).procs.current,
        final(k).procs.next_pid == old(k).procs.next_pid,
        final(k).procs.last_run == old(k).procs.last_run,
        final(k).vfs == old(k).vfs,
        final(k).nces == old(k).nces,
        final(k).net == old(k).net,
        final(k).ticks == old(k).ticks,
        final(k).console_out == old(k).console_out,
        final(k).doorbells == old(k).doorbells,
        final(k).net_out == old(k).net_out,
        final(k).mem.alloc == old(k).mem.alloc,
        old(k).mem.same_entries(&final(k).mem),
        (forall|s: int| 0 <= s < MAX_PROCS ==> !#[trigger] process::is_first_sleeper(old(k).procs.slots@, s)) ==> final(k).procs
            == old(k).procs && final(k).mem == old(k).mem && final(k).console_in@ == old(k).console_in@,
        forall|s: int| #[trigger] process::is_first_sleeper(old(k).procs.slots@, s) ==> {
            let p = old(k).procs.slots@[s]->0;
            let n = process::console_take(p.read_len, old(k).console_in@.len());
            let ok = range_error(p.read_buf_uva, n) is None && readable(old(k).mem, p.root_pa as int, p.read_buf_uva, n);
            &&& final(k).console_in@ == old(k).console_in@.skip(n as int)
            &&& n == 0 ==> final(k).procs == old(k).procs && final(k).mem == old(k).mem
            &&& n > 0 ==> {
                &&& final(k).procs.slots@ == old(k).procs.slots@.update(s, Some(process::Process { state: process::ProcState::Ready, ..p }))
                &&& final(k).procs.frames@ == old(k).procs.frames@.update(s, final(k).procs.frames@[s])
                &&& final(k).procs.frames@[s].regs@ == old(k).procs.frames@[s].regs@.update(10, if ok { n as usize } else { (-14isize) as usize })
                &&& ok && phys_distinct(old(k).mem, p.root_pa as int, p.read_buf_uva, n) ==> user_bytes(final(k).mem, p.root_pa as int, p.read_buf_uva, n)
                    == old(k).console_in@.take(n as int)
            }
        },
{
    let n = process::wake_console_reader(&mut k.procs, &mut k.mem, k.console_in.as_slice());
    if n <= k.console_in.len() {
        let _ = posix::drain_front(&mut k.console_in, n);
    }
    proof {
        if n == 0 {
            assert(k.console_in@ =~= old(k).console_in@);
        }
    }
}

} // verus!
