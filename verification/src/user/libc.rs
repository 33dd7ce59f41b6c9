//! The C-library shim: system call numbers and the byte layouts that
//! programs hand to the kernel or get back from it.
use vstd::prelude::*;
use vstd::string::StringSliceAdditionalSpecFns;
use crate::syscall::posix::{le_bytes, le_value};

verus! {

pub const SYS_OPENAT: usize = 56;
pub const SYS_CLOSE: usize = 57;
pub const SYS_GETDENTS64: usize = 61;
pub const SYS_READ: usize = 63;
pub const SYS_WRITE: usize = 64;
pub const SYS_EXIT: usize = 93;
pub const SYS_SCHED_SETAFFINITY: usize = 122;
pub const SYS_SCHED_GETAFFINITY: usize = 123;
pub const SYS_REBOOT: usize = 142;
pub const SYS_GETPID: usize = 172;
pub const SYS_SYSINFO: usize = 179;
pub const SYS_SOCKET: usize = 198;
pub const SYS_BIND: usize = 200;
pub const SYS_CONNECT: usize = 203;
pub const SYS_SENDTO: usize = 206;
pub const SYS_RECVFROM: usize = 207;
pub const SYS_MUNMAP: usize = 215;
/// Plain fork semantics on this kernel.
pub const SYS_CLONE: usize = 220;
pub const SYS_EXECVE: usize = 221;
pub const SYS_MMAP: usize = 222;
pub const SYS_WAIT4: usize = 260;
/// The `ps` listing, specific to this kernel.
pub const SYS_PROCLIST: usize = 500;

/// openat flag: fail unless the path is a directory.
pub const O_DIRECTORY: usize = 0o200000;

pub const AF_INET: usize = 2;
pub const SOCK_STREAM: usize = 1;
pub const SOCK_DGRAM: usize = 2;

/// Size of the buffer a path is copied into before open or exec.
pub const PATH_BUF: usize = 128;

/// The longest path prefix copied; the rest of the buffer stays zero,
/// so the copy is always NUL-terminated.
pub const PATH_MAX_COPY: usize = 126;

/// The NUL-terminated buffer that open and exec pass for `path`: its
/// first (at most 126) bytes, then zeros up to 128 bytes.
pub open spec fn path_arg(path: Seq<u8>) -> Seq<u8> {
    let n = if path.len() < PATH_MAX_COPY { path.len() } else { PATH_MAX_COPY as nat };
    path.take(n as int) + Seq::new((PATH_BUF - n) as nat, |i: int| 0u8)
}

/// Builds the buffer that open and exec pass for `path`.
pub fn path_buffer(path: &str) -> (r: Vec<u8>)
    ensures
        r@ == path_arg(path.spec_bytes()),
        r@.len() == PATH_BUF,
{
    let b = path.as_bytes();
    let n = if b.len() < PATH_MAX_COPY { b.len() } else { PATH_MAX_COPY };
    let mut r: Vec<u8> = Vec::new();
    let mut i: usize = 0;
    while i < n
        invariant
            n <= b@.len(),
            n <= PATH_MAX_COPY,
            i <= n,
            r@ == b@.take(i as int),
        decreases n - i,
    {
        r.push(b[i]);
        i = i + 1;
        assert(r@ =~= b@.take(i as int));
    }
    let ghost head = r@;
    while i < PATH_BUF
        invariant
            n <= i <= PATH_BUF,
            head == b@.take(n as int),
            r@ == head + Seq::new((i - n) as nat, |k: int| 0u8),
        decreases PATH_BUF - i,
    {
        r.push(0u8);
        i = i + 1;
        assert(r@ =~= head + Seq::new((i - n) as nat, |k: int| 0u8));
    }
    assert(r@ =~= path_arg(b@));
    r
}

/// The 16-byte `sockaddr_in` for `ip`:`port`: family AF_INET
/// (little-endian), the port in network order, then the address.
pub open spec fn sockaddr(ip: Seq<u8>, port: u16) -> Seq<u8> {
    seq![AF_INET as u8, 0u8, (port >> 8u16) as u8, (port & 0xff) as u8] + ip + Seq::new(8, |i: int| 0u8)
}

/// Builds a 16-byte `sockaddr_in` for `ip`:`port`.
pub fn sockaddr_in(ip: [u8; 4], port: u16) -> (sa: [u8; 16])
    ensures
        sa@ == sockaddr(ip@, port),
{
    let sa = [
        AF_INET as u8,
        0u8,
        (port >> 8u16) as u8,
        (port & 0xff) as u8,
        ip[0],
        ip[1],
        ip[2],
        ip[3],
        0u8,
        0u8,
        0u8,
        0u8,
        0u8,
        0u8,
        0u8,
        0u8,
    ];
    assert(sa@ =~= sockaddr(ip@, port));
    sa
}

/// The sender's address and port in the `sockaddr_in` that recvfrom
/// filled.
pub fn sockaddr_peer(sa: &[u8]) -> (r: ([u8; 4], u16))
    requires
        sa@.len() >= 8,
    ensures
        r.0@ == sa@.subrange(4, 8),
        r.1 == sa@[2] as nat * 256 + sa@[3] as nat,
{
    let ip = [sa[4], sa[5], sa[6], sa[7]];
    assert(ip@ =~= sa@.subrange(4, 8));
    (ip, sa[2] as u16 * 256 + sa[3] as u16)
}

/// System information as sysinfo reports it: uptime in seconds, total
/// and free RAM in bytes, and the number of processes.
#[derive(Clone, Copy, Debug, PartialEq, Eq, Structural)]
pub struct SysInfo {
    pub uptime_secs: u64,
    pub total_ram: u64,
    pub free_ram: u64,
    pub procs: u64,
}

/// Little-endian u64 at `b[off..off + 8]`.
fn read_le64(b: &[u8], off: usize) -> (r: u64)
    requires
        off + 8 <= b@.len(),
    ensures
        r == le_value(b@.subrange(off as int, off + 8)),
{
    let ghost s = b@.subrange(off as int, off + 8);
    assert(s[0] == b@[off as int] && s[1] == b@[off + 1] && s[2] == b@[off + 2] && s[3] == b@[off + 3]);
    assert(s[4] == b@[off + 4] && s[5] == b@[off + 5] && s[6] == b@[off + 6] && s[7] == b@[off + 7]);
    (b[off] as u64) | ((b[off + 1] as u64) << 8u64) | ((b[off + 2] as u64) << 16u64) | ((b[off + 3] as u64) << 24u64)
        | ((b[off + 4] as u64) << 32u64) | ((b[off + 5] as u64) << 40u64) | ((b[off + 6] as u64) << 48u64) | ((
    b[off + 7] as u64) << 56u64)
}

impl SysInfo {
    /// Decodes the 32-byte record sysinfo fills.
    pub fn from_bytes(buf: &[u8]) -> (r: SysInfo)
        requires
            buf@.len() >= 32,
        ensures
            r.uptime_secs == le_value(buf@.subrange(0, 8)),
            r.total_ram == le_value(buf@.subrange(8, 16)),
            r.free_ram == le_value(buf@.subrange(16, 24)),
            r.procs == le_value(buf@.subrange(24, 32)),
    {
        SysInfo {
            uptime_secs: read_le64(buf, 0),
            total_ram: read_le64(buf, 8),
            free_ram: read_le64(buf, 16),
            procs: read_le64(buf, 24),
        }
    }
}

/// Reading back a little-endian u64 gives the value that was written.
pub proof fn lemma_le_roundtrip(x: u64)
    ensures
        le_value(le_bytes(x)) == x,
{
    let b = le_bytes(x);
    assert(b[0] == ((x >> 0u64) & 0xff) as u8);
    assert(b[1] == ((x >> 8u64) & 0xff) as u8);
    assert(b[2] == ((x >> 16u64) & 0xff) as u8);
    assert(b[3] == ((x >> 24u64) & 0xff) as u8);
    assert(b[4] == ((x >> 32u64) & 0xff) as u8);
    assert(b[5] == ((x >> 40u64) & 0xff) as u8);
    assert(b[6] == ((x >> 48u64) & 0xff) as u8);
    assert(b[7] == ((x >> 56u64) & 0xff) as u8);
    assert((((x >> 0u64) & 0xff) as u8 as u64) | ((((x >> 8u64) & 0xff) as u8 as u64) << 8u64) | ((((x >> 16u64)
        & 0xff) as u8 as u64) << 16u64) | ((((x >> 24u64) & 0xff) as u8 as u64) << 24u64) | ((((x >> 32u64) & 0xff)
        as u8 as u64) << 32u64) | ((((x >> 40u64) & 0xff) as u8 as u64) << 40u64) | ((((x >> 48u64) & 0xff) as u8
        as u64) << 48u64) | ((((x >> 56u64) & 0xff) as u8 as u64) << 56u64) == x) by (bit_vector);
}

/// Decoding the four little-endian words that the kernel writes for
/// sysinfo gives back the four values.
pub proof fn lemma_sysinfo_roundtrip(uptime: u64, total: u64, free: u64, procs: u64)
    ensures
        ({
            let rec = le_bytes(uptime) + le_bytes(total) + le_bytes(free) + le_bytes(procs);
            &&& le_value(rec.subrange(0, 8)) == uptime
            &&& le_value(rec.subrange(8, 16)) == total
            &&& le_value(rec.subrange(16, 24)) == free
            &&& le_value(rec.subrange(24, 32)) == procs
        }),
{
    let rec = le_bytes(uptime) + le_bytes(total) + le_bytes(free) + le_bytes(procs);
    assert(rec.subrange(0, 8) =~= le_bytes(uptime));
    assert(rec.subrange(8, 16) =~= le_bytes(total));
    assert(rec.subrange(16, 24) =~= le_bytes(free));
    assert(rec.subrange(24, 32) =~= le_bytes(procs));
    lemma_le_roundtrip(uptime);
    lemma_le_roundtrip(total);
    lemma_le_roundtrip(free);
    lemma_le_roundtrip(procs);
}

} // verus!
