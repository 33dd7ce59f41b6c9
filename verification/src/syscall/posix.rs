//! POSIX-flavoured syscall implementations.
//!
//! Arguments come from the current process's trap frame (a0..a5); the
//! result is the value the caller finds in a0.

use vstd::prelude::*;
use vstd::string::StringSliceAdditionalSpecFns;
use vstd::utf8::valid_utf8;
use super::Kernel;
use crate::mem::layout::{PAGE_SIZE, RAM_SIZE};
use crate::mem::page::MAX_FRAMES;
use crate::mem::mmu::{Mem, PageTable, PTE_R, PTE_U, PTE_W, table_at, keeps_used, lemma_keeps_used_trans, lemma_booted_kept, lemma_same_entries_walk, only_frees, spec_leaf, spec_walk, lemma_zero_write_leaf,
    user_tree, keeps_links, lemma_keeps_links_trans, spec_translate, frame_of, lemma_frame_range, lemma_leaf_page, lemma_user_sound, user_slot_va};
use crate::mem::page::count_free;
use crate::mem::uaccess::{copy_in, copy_out, copy_in_cstr, range_error, readable, user_bytes, user_loc, user_byte, phys_distinct, scan_cstr, loaded_byte,
    lemma_loaded_stable, hits, lemma_loc_range};
use crate::sched::process::{self, ProcTable, Process, OpenFile, FdKind, MAX_PROCS, NO_PROC, replace_slot, live_count,
    LISTING_HEADER, listing_lines};
use crate::text::str_from_utf8;
use crate::fs::minix3::{spec_lookup, model_is_dir, spec_inode};
use crate::net::{socket, tcp};
use crate::nce::power::{PowerState, state_of_name, str_trim};
use crate::fs::minix3::{want, bytes_ok, file_byte, ino_in_range, spec_readdir, InodeModel};
use crate::drivers::virtio::blk::BlkDev;
use vstd::utf8::{encode_utf8, decode_utf8, encode_utf8_decode_utf8};

verus! {

pub const EBADF: isize = -9;
pub const ENOMEM: isize = -12;
pub const EFAULT: isize = -14;
pub const EINVAL: isize = -22;
pub const ENOENT: isize = -2;
pub const ENOTDIR: isize = -20;
pub const EISDIR: isize = -21;
pub const EIO: isize = -5;
pub const EROFS: isize = -30;
pub const ESRCH: isize = -3;

/// Syscall argument `i` (a0 + i) of the current process.
pub open spec fn arg(k: Kernel, i: int) -> usize {
    k.procs.frames@[k.procs.current as int].regs@[10 + i]
}

/// The current process.
pub open spec fn cur(k: Kernel) -> Process {
    k.procs.cur()
}

/// Arguments a0..a5 of the current process.
fn args(k: &Kernel) -> (r: [usize; 6])
    requires
        k.ready(),
    ensures
        forall|i: int| 0 <= i < 6 ==> #[trigger] r@[i] == arg(*k, i),
{
    let f = &k.procs.frames[k.procs.current];
    [f.a0(), f.a1(), f.a2(), f.a3(), f.a4(), f.a5()]
}

/// Root table of the current process.
fn cur_root(k: &Kernel) -> (r: PageTable)
    requires
        k.ready(),
    ensures
        r.pa == cur(*k).root_pa,
{
    let (root_pa, _) = process::current_info(&k.procs);
    table_at(root_pa)
}

/// getpid(): the current process's pid.
pub fn sys_getpid(k: &Kernel) -> (r: isize)
    requires
        k.ready(),
    ensures
        r == cur(*k).pid as isize,
{
    let (_, pid) = process::current_info(&k.procs);
    pid as isize
}

/// What `sys_fork` leaves: the kernel before (`k0`) and after (`k1`), and its result.
pub open spec fn sys_fork_post(k0: Kernel, k1: Kernel, r: isize) -> bool {
    &&& k1.ready()
    &&& k1.procs.current == k0.procs.current
    &&& k1.vfs == k0.vfs
    &&& k1.net == k0.net
    &&& r == -11 || r == -12 || r == k0.procs.next_pid
    &&& (forall|j: int| 0 <= j < MAX_PROCS ==> #[trigger] k0.procs.slots@[j] is Some) ==> r == -11
    &&& r == k0.procs.next_pid ==> k1.procs.next_pid == k0.procs.next_pid + 1
}

/// fork(): see `process::fork_current`.
pub fn sys_fork(k: &mut Kernel) -> (r: isize)
    requires
        old(k).ready(),
        old(k).procs.next_pid < 0x7fff_ffff,
    ensures
        sys_fork_post(*old(k), *final(k), r),
{
    process::fork_current(&mut k.procs, &mut k.mem)
}

/// What `sys_execve` leaves: the kernel before (`k0`) and after (`k1`), and its result.
pub open spec fn sys_execve_post(k0: Kernel, k1: Kernel, r: isize) -> bool {
    &&& k1.wf()
    &&& k1.procs.has_current()
    &&& k1.procs.current == k0.procs.current
    &&& k1.vfs == k0.vfs
    &&& k1.net == k0.net
    &&& match scan_cstr(k0.mem, cur(k0).root_pa as int, arg(k0, 0), 128, 0) {
            Err(_) => r == EFAULT && k1.procs == k0.procs,
            Ok(n) => {
                let name = user_bytes(k0.mem, cur(k0).root_pa as int, arg(k0, 0), n);
                &&& !valid_utf8(name) ==> r == EFAULT && k1.procs == k0.procs
                &&& valid_utf8(name) ==> (r == 0 || r == ENOENT || r == ENOMEM)
                &&& valid_utf8(name) ==> (r == ENOENT <==> process::program_image(k0.vfs, name) is None)
            },
        }
}

/// execve(path): replace the current image; EFAULT when the path cannot
/// be read from the caller.
pub fn sys_execve(k: &mut Kernel) -> (r: isize)
    requires
        old(k).ready(),
    ensures
        sys_execve_post(*old(k), *final(k), r),
{
    let a = args(k);
    let root = cur_root(k);
    let mut buf = [0u8; 128];
    match copy_in_cstr(&k.mem, &root, a[0], &mut buf) {
        Ok(bytes) => match str_from_utf8(bytes.as_slice()) {
            Some(name) => process::exec_current(&mut k.procs, &mut k.mem, &k.vfs, name),
            None => EFAULT,
        },
        Err(_) => EFAULT,
    }
}

/// What `sys_exit` leaves: the kernel before (`k0`) and after (`k1`).
pub open spec fn sys_exit_post(k0: Kernel, k1: Kernel) -> bool {
    &&& k1.wf()
    &&& k1.procs.current == NO_PROC
    &&& k1.vfs == k0.vfs
    &&& k1.net == k0.net
}

/// exit(code): the current process exits (see `process::exit_current`).
pub fn sys_exit(k: &mut Kernel)
    requires
        old(k).ready(),
        cur(*old(k)).pid != 1,
    ensures
        sys_exit_post(*old(k), *final(k)),
{
    let a = args(k);
    process::exit_current(&mut k.procs, &mut k.mem, a[0] as i32);
}

/// What `sys_wait4` leaves: the kernel before (`k0`) and after (`k1`).
pub open spec fn sys_wait4_post(k0: Kernel, k1: Kernel) -> bool {
    &&& k1.wf()
    &&& k1.procs.current == NO_PROC
    &&& k1.vfs == k0.vfs
    &&& k1.net == k0.net
}

/// wait4(pid, *wstatus): only "any child" is supported; see
/// `process::wait_current`.
pub fn sys_wait4(k: &mut Kernel)
    requires
        old(k).ready(),
    ensures
        sys_wait4_post(*old(k), *final(k)),
{
    let a = args(k);
    process::wait_current(&mut k.procs, &mut k.mem, a[1]);
}

/// The 8 little-endian bytes of `x`.
pub open spec fn le_bytes(x: u64) -> Seq<u8> {
    Seq::new(8, |i: int| ((x >> ((8 * i) as u64)) & 0xff) as u8)
}

pub fn u64_le(x: u64) -> (r: Vec<u8>)
    ensures
        r@ == le_bytes(x),
{
    let mut v: Vec<u8> = Vec::new();
    let mut i: u64 = 0;
    while i < 8
        invariant
            i <= 8,
            v@.len() == i,
            forall|j: int| 0 <= j < i ==> #[trigger] v@[j] == ((x >> ((8 * j) as u64)) & 0xff) as u8,
        decreases 8 - i,
    {
        v.push(((x >> (8 * i)) & 0xff) as u8);
        i = i + 1;
    }
    assert(v@ =~= le_bytes(x));
    v
}

/// The little-endian number in the 8 bytes `b`.
pub open spec fn le_value(b: Seq<u8>) -> u64 {
    (b[0] as u64) | ((b[1] as u64) << 8u64) | ((b[2] as u64) << 16u64) | ((b[3] as u64) << 24u64) | ((b[4] as u64)
        << 32u64) | ((b[5] as u64) << 40u64) | ((b[6] as u64) << 48u64) | ((b[7] as u64) << 56u64)
}

fn le_u64(b: &[u8; 8]) -> (r: u64)
    ensures
        r == le_value(b@),
{
    (b[0] as u64) | ((b[1] as u64) << 8u64) | ((b[2] as u64) << 16u64) | ((b[3] as u64) << 24u64) | ((b[4] as u64)
        << 32u64) | ((b[5] as u64) << 40u64) | ((b[6] as u64) << 48u64) | ((b[7] as u64) << 56u64)
}

/// The record sysinfo fills: uptime in seconds, total RAM, free RAM and
/// the number of processes, each a little-endian u64.
pub open spec fn sysinfo_record(k: Kernel) -> Seq<u8> {
    le_bytes((k.ticks / 100) as u64) + le_bytes(RAM_SIZE as u64) + le_bytes((count_free(k.mem.alloc@) * PAGE_SIZE) as u64)
        + le_bytes(live_count(k.procs.slots@, MAX_PROCS as int) as u64)
}

/// What `sys_sysinfo` leaves: the kernel before (`k0`) and after (`k1`), and its result.
pub open spec fn sys_sysinfo_post(k0: Kernel, k1: Kernel, r: isize) -> bool {
    &&& k1.wf()
    &&& k1.procs == k0.procs
    &&& k1.mem.alloc == k0.mem.alloc
    &&& k0.mem.same_entries(&k1.mem)
    &&& ({
            let root = cur(k0).root_pa as int;
            let uva = arg(k0, 0);
            let ok = range_error(uva, 32) is None && readable(k0.mem, root, uva, 32);
            &&& r == if ok { 0 } else { EFAULT }
            &&& ok && phys_distinct(k0.mem, root, uva, 32) ==> user_bytes(k1.mem, root, uva, 32) =~= sysinfo_record(k0)
        })
}

/// sysinfo(*info): fill the 32-byte record at `info`.
pub fn sys_sysinfo(k: &mut Kernel) -> (r: isize)
    requires
        old(k).ready(),
    ensures
        sys_sysinfo_post(*old(k), *final(k), r),
{
    let a = args(k);
    let root = cur_root(k);
    let uptime = k.ticks / 100;
    let total = RAM_SIZE as u64;
    let free = crate::mem::page::free_frames(&k.mem.alloc) as u64 * PAGE_SIZE as u64;
    let nprocs = process::count_active(&k.procs) as u64;
    let mut buf = u64_le(uptime);
    let b2 = u64_le(total);
    let b3 = u64_le(free);
    let b4 = u64_le(nprocs);
    crate::text::push_bytes(&mut buf, b2.as_slice());
    crate::text::push_bytes(&mut buf, b3.as_slice());
    crate::text::push_bytes(&mut buf, b4.as_slice());
    assert(buf@ =~= sysinfo_record(*old(k)));
    match copy_out(&mut k.mem, &root, a[0], buf.as_slice()) {
        Ok(()) => 0,
        Err(_) => EFAULT,
    }
}

/// What `sys_proclist` leaves: the kernel before (`k0`) and after (`k1`), and its result.
pub open spec fn sys_proclist_post(k0: Kernel, k1: Kernel, r: isize) -> bool {
    &&& k1.wf()
    &&& k1.procs == k0.procs
    &&& k1.mem.alloc == k0.mem.alloc
    &&& k0.mem.same_entries(&k1.mem)
    &&& ({
            let root = cur(k0).root_pa as int;
            let uva = arg(k0, 0);
            let text = LISTING_HEADER@ + listing_lines(k0.procs.slots@, MAX_PROCS as int);
            let n = if arg(k0, 1) < text.len() { arg(k0, 1) as nat } else { text.len() };
            let ok = range_error(uva, n) is None && readable(k0.mem, root, uva, n);
            &&& r == if ok { n as isize } else { EFAULT }
            &&& ok && phys_distinct(k0.mem, root, uva, n) ==> user_bytes(k1.mem, root, uva, n) =~= text.subrange(0, n as int)
        })
}

/// proclist(buf, len): copy the `ps` listing into the caller's buffer,
/// truncated to `len`; the number of bytes written.
pub fn sys_proclist(k: &mut Kernel) -> (r: isize)
    requires
        old(k).ready(),
    ensures
        sys_proclist_post(*old(k), *final(k), r),
{
    let a = args(k);
    let root = cur_root(k);
    let text = process::listing(&k.procs);
    let n = if a[1] < text.len() { a[1] } else { text.len() };
    let mut part: Vec<u8> = Vec::new();
    let mut i: usize = 0;
    while i < n
        invariant
            i <= n,
            n <= text@.len(),
            part@ == text@.subrange(0, i as int),
        decreases n - i,
    {
        part.push(text[i]);
        i = i + 1;
        assert(part@ =~= text@.subrange(0, i as int));
    }
    match copy_out(&mut k.mem, &root, a[0], part.as_slice()) {
        Ok(()) => n as isize,
        Err(_) => EFAULT,
    }
}

/// reboot(cmd): whether to power off (cmd 0) rather than reboot.
pub fn sys_reboot(k: &Kernel) -> (r: bool)
    requires
        k.ready(),
    ensures
        r == (arg(*k, 0) == 0),
{
    let a = args(k);
    a[0] == 0
}


/// What descriptor `fd` of the current process refers to, if open.
pub open spec fn fd_entry(k: Kernel, fd: usize) -> Option<OpenFile> {
    let files = cur(k).files@;
    if fd >= 3 && fd - 3 < files.len() {
        files[fd - 3]
    } else {
        None
    }
}

/// The open file behind `fd` of the current process.
fn cur_file(k: &Kernel, fd: usize) -> (r: Option<OpenFile>)
    requires
        k.ready(),
    ensures
        r == fd_entry(*k, fd),
{
    match &k.procs.slots[k.procs.current] {
        Some(p) => if fd >= 3 && fd - 3 < p.files.len() {
            p.files[fd - 3]
        } else {
            None
        },
        None => None,
    }
}

/// Replace descriptor slot `i` of the current process.
fn set_fd(k: &mut Kernel, i: usize, f: Option<OpenFile>)
    requires
        old(k).ready(),
        i < cur(*old(k)).files@.len(),
    ensures
        final(k).ready(),
        *final(k) == (Kernel { procs: final(k).procs, ..*old(k) }),
        final(k).mem == old(k).mem,
        final(k).vfs == old(k).vfs,
        final(k).net == old(k).net,
        final(k).nces == old(k).nces,
        final(k).procs.current == old(k).procs.current,
        final(k).procs.frames == old(k).procs.frames,
        final(k).procs.next_pid == old(k).procs.next_pid,
        final(k).procs.last_run == old(k).procs.last_run,
        final(k).procs.slots@ == old(k).procs.slots@.update(old(k).procs.current as int, final(k).procs.slots@[old(k).procs.current as int]),
        ({
            let q = cur(*final(k));
            let p = cur(*old(k));
            &&& q.files@ == p.files@.update(i as int, f)
            &&& q == Process { files: q.files, ..p }
        }),
{
    let c = k.procs.current;
    let mut p = replace_slot(&mut k.procs.slots, c, None).unwrap();
    p.files.set(i, f);
    replace_slot(&mut k.procs.slots, c, Some(p));
}

/// `after` is `before` with `f` put in slot `i`: the first closed
/// slot, or a new one at the end when none is closed.
pub open spec fn installed(before: Seq<Option<OpenFile>>, after: Seq<Option<OpenFile>>, i: int, f: Option<OpenFile>) -> bool {
    &&& 0 <= i <= before.len()
    &&& forall|j: int| 0 <= j < i ==> #[trigger] before[j] is Some
    &&& i < before.len() ==> before[i] is None && after == before.update(i, f)
    &&& i == before.len() ==> after == before.push(f)
}

/// Install a new descriptor of `kind` in the current process; its fd.
fn install_fd(k: &mut Kernel, kind: FdKind) -> (r: isize)
    requires
        old(k).ready(),
        cur(*old(k)).files@.len() < 0x1000_0000,
    ensures
        final(k).ready(),
        *final(k) == (Kernel { procs: final(k).procs, ..*old(k) }),
        final(k).mem == old(k).mem,
        final(k).vfs == old(k).vfs,
        final(k).net == old(k).net,
        final(k).nces == old(k).nces,
        final(k).procs.current == old(k).procs.current,
        final(k).procs.frames == old(k).procs.frames,
        final(k).procs.next_pid == old(k).procs.next_pid,
        final(k).procs.last_run == old(k).procs.last_run,
        final(k).procs.slots@ == old(k).procs.slots@.update(old(k).procs.current as int, final(k).procs.slots@[old(k).procs.current as int]),
        ({
            let p = cur(*old(k));
            let q = cur(*final(k));
            &&& q == Process { files: q.files, ..p }
            &&& installed(p.files@, q.files@, r - 3, Some(OpenFile { kind, pos: 0 }))
        }),
{
    let c = k.procs.current;
    let mut p = replace_slot(&mut k.procs.slots, c, None).unwrap();
    let ghost fs = p.files@;
    let file = OpenFile { kind, pos: 0 };
    let mut i: usize = 0;
    while i < p.files.len() && p.files[i].is_some()
        invariant
            i <= p.files@.len(),
            p.files@ == fs,
            forall|j: int| 0 <= j < i ==> #[trigger] fs[j] is Some,
        decreases p.files@.len() - i,
    {
        i = i + 1;
    }
    if i < p.files.len() {
        p.files.set(i, Some(file));
    } else {
        p.files.push(Some(file));
    }
    replace_slot(&mut k.procs.slots, c, Some(p));
    (i + 3) as isize
}


/// Value of the decimal digits `b`.
pub open spec fn digits_value(b: Seq<u8>) -> nat
    decreases b.len(),
{
    if b.len() == 0 {
        0
    } else {
        digits_value(b.drop_last()) * 10 + (b.last() - 48) as nat
    }
}

pub open spec fn all_digits(b: Seq<u8>) -> bool {
    forall|i: int| 0 <= i < b.len() ==> 48 <= #[trigger] b[i] <= 57
}

/// `usize::from_str` on the text `b`: an optional '+', then at least one
/// decimal digit, and nothing else; `None` also when the value does not
/// fit.
pub open spec fn parse_usize(b: Seq<u8>) -> Option<usize> {
    let d = if b.len() > 0 && b[0] == 43 { b.drop_first() } else { b };
    if d.len() > 0 && all_digits(d) && digits_value(d) <= usize::MAX {
        Some(digits_value(d) as usize)
    } else {
        None
    }
}

proof fn lemma_digits_prefix_le(b: Seq<u8>, i: int)
    requires
        all_digits(b),
        0 <= i <= b.len(),
    ensures
        digits_value(b.take(i)) <= digits_value(b),
    decreases b.len() - i,
{
    if i < b.len() {
        lemma_digits_prefix_le(b, i + 1);
        assert(b.take(i + 1).drop_last() =~= b.take(i));
    } else {
        assert(b.take(i) =~= b);
    }
}

/// Parse a decimal `usize` as `str::parse` does.
pub fn parse_decimal(b: &[u8]) -> (r: Option<usize>)
    ensures
        r == parse_usize(b@),
{
    let mut i: usize = 0;
    if b.len() > 0 && b[0] == 43 {
        i = 1;
    }
    let ghost d = if b@.len() > 0 && b@[0] == 43 { b@.drop_first() } else { b@ };
    let start = i;
    if start >= b.len() {
        assert(d.len() == 0);
        return None;
    }
    let mut acc: usize = 0;
    while i < b.len()
        invariant
            start <= i <= b@.len(),
            start == 0 || start == 1,
            d == b@.skip(start as int),
            d == (if b@.len() > 0 && b@[0] == 43 { b@.drop_first() } else { b@ }),
            d.len() > 0,
            all_digits(d.take(i - start)),
            acc == digits_value(d.take(i - start)),
        decreases b@.len() - i,
    {
        let c = b[i];
        assert(d[i - start] == c);
        if c < 48 || c > 57 {
            assert(!all_digits(d));
            return None;
        }
        assert(d.take(i - start + 1).drop_last() =~= d.take(i - start));
        assert(all_digits(d.take(i - start + 1)));
        let next = match acc.checked_mul(10) {
            Some(x) => x.checked_add((c - 48) as usize),
            None => None,
        };
        match next {
            Some(v) => {
                acc = v;
            },
            None => {
                proof {
                    if all_digits(d) {
                        lemma_digits_prefix_le(d, i - start + 1);
                    }
                }
                return None;
            },
        }
        i = i + 1;
    }
    assert(d.take(i - start) =~= d);
    Some(acc)
}

pub const O_DIRECTORY: usize = 0o200000;

/// "/dev/nce", the prefix of NCE device paths.
pub open spec fn nce_prefix() -> Seq<u8> {
    seq![47u8, 100, 101, 118, 47, 110, 99, 101]
}

fn has_nce_prefix(b: &[u8]) -> (r: bool)
    ensures
        r == (b@.len() >= 8 && b@.take(8) == nce_prefix()),
{
    let yes = b.len() >= 8 && b[0] == 47 && b[1] == 100 && b[2] == 101 && b[3] == 118 && b[4] == 47 && b[5] == 110
        && b[6] == 99 && b[7] == 101;
    proof {
        if b@.len() >= 8 {
            if yes {
                assert(b@.take(8) =~= nce_prefix());
            } else {
                if b@.take(8) == nce_prefix() {
                    assert(b@.take(8)[0] == 47);
                    assert(b@.take(8)[7] == 101);
                }
            }
        }
    }
    yes
}

/// What opening path `p` with `flags` refers to, or the error.
pub open spec fn open_target(k: Kernel, p: Seq<u8>, flags: usize) -> Result<FdKind, isize> {
    if p.len() >= 8 && p.take(8) == nce_prefix() {
        match parse_usize(p.skip(8)) {
            None => Err(ENOENT),
            Some(slot) => if slot >= k.nces@.len() {
                Err(ENOENT)
            } else if flags & O_DIRECTORY != 0 {
                Err(ENOTDIR)
            } else {
                Ok(FdKind::Nce { slot })
            },
        }
    } else {
        match k.vfs.root {
            None => Err(ENOENT),
            Some(fs) => match spec_lookup(fs, k.vfs.dev, p) {
                Some(Some(i)) => if flags & O_DIRECTORY != 0 && !model_is_dir(i) {
                    Err(ENOTDIR)
                } else {
                    Ok(FdKind::File { ino: i.ino })
                },
                _ => Err(ENOENT),
            },
        }
    }
}

/// The bytes of `b` from `from` on.
fn tail(b: &[u8], from: usize) -> (r: Vec<u8>)
    requires
        from <= b@.len(),
    ensures
        r@ == b@.skip(from as int),
{
    let mut v: Vec<u8> = Vec::new();
    let mut i = from;
    while i < b.len()
        invariant
            from <= i <= b@.len(),
            v@ == b@.subrange(from as int, i as int),
        decreases b@.len() - i,
    {
        v.push(b[i]);
        i = i + 1;
        assert(v@ =~= b@.subrange(from as int, i as int));
    }
    assert(v@ =~= b@.skip(from as int));
    v
}

/// Resolve what `path` opens.
fn resolve_open(k: &Kernel, path: &str, flags: usize) -> (r: Result<FdKind, isize>)
    requires
        k.ready(),
    ensures
        r == open_target(*k, path.spec_bytes(), flags),
{
    let b = path.as_bytes();
    if has_nce_prefix(b) {
        let rest = tail(b, 8);
        match parse_decimal(rest.as_slice()) {
            None => Err(ENOENT),
            Some(slot) => if slot >= crate::nce::count(&k.nces) {
                Err(ENOENT)
            } else if flags & O_DIRECTORY != 0 {
                Err(ENOTDIR)
            } else {
                Ok(FdKind::Nce { slot })
            },
        }
    } else {
        match crate::fs::lookup(&k.vfs.root, &k.vfs.dev, path) {
            Ok(Some(inode)) => if flags & O_DIRECTORY != 0 && !inode.is_dir() {
                Err(ENOTDIR)
            } else {
                Ok(FdKind::File { ino: inode.ino })
            },
            _ => Err(ENOENT),
        }
    }
}

/// What `sys_openat` leaves: the kernel before (`k0`) and after (`k1`), and its result.
pub open spec fn sys_openat_post(k0: Kernel, k1: Kernel, r: isize) -> bool {
    &&& k1.ready()
    &&& k1.mem == k0.mem
    &&& k1.vfs == k0.vfs
    &&& k1.net == k0.net
    &&& k1.procs.current == k0.procs.current
    &&& k1.procs.frames == k0.procs.frames
    &&& match scan_cstr(k0.mem, cur(k0).root_pa as int, arg(k0, 1), 128, 0) {
            Err(_) => r == EFAULT && k1.procs == k0.procs,
            Ok(n) => {
                let p = user_bytes(k0.mem, cur(k0).root_pa as int, arg(k0, 1), n);
                &&& !valid_utf8(p) ==> r == EFAULT && k1.procs == k0.procs
                &&& valid_utf8(p) ==> match open_target(k0, p, arg(k0, 2)) {
                    Err(e) => r == e && k1.procs == k0.procs,
                    Ok(kind) => {
                        let q = cur(k1);
                        &&& q == Process { files: q.files, ..cur(k0) }
                        &&& installed(cur(k0).files@, q.files@, r - 3, Some(OpenFile { kind, pos: 0 }))
                        &&& k1.procs.slots@ =~= k0.procs.slots@.update(k0.procs.current as int, k1.procs.slots@[k0.procs.current as int])
                    },
                }
            },
        }
}

/// openat(dirfd, path, flags): dirfd is ignored, every path resolves from
/// the root (processes track their own cwd in userspace). "/dev/nceN"
/// paths open NCE character devices.
pub fn sys_openat(k: &mut Kernel) -> (r: isize)
    requires
        old(k).ready(),
        cur(*old(k)).files@.len() < 0x1000_0000,
    ensures
        sys_openat_post(*old(k), *final(k), r),
{
    let a = args(k);
    let root = cur_root(k);
    let mut buf = [0u8; 128];
    let bytes = match copy_in_cstr(&k.mem, &root, a[1], &mut buf) {
        Ok(b) => b,
        Err(_) => {
            return EFAULT;
        },
    };
    let path = match str_from_utf8(bytes.as_slice()) {
        Some(p) => p,
        None => {
            return EFAULT;
        },
    };
    match resolve_open(k, path, a[2]) {
        Err(e) => e,
        Ok(kind) => install_fd(k, kind),
    }
}


/// What `sys_close` leaves: the kernel before (`k0`) and after (`k1`), and its result.
pub open spec fn sys_close_post(k0: Kernel, k1: Kernel, r: (isize, Option<usize>)) -> bool {
    &&& k1.ready()
    &&& k1.mem == k0.mem
    &&& k1.vfs == k0.vfs
    &&& k1.procs.current == k0.procs.current
    &&& k1.procs.frames == k0.procs.frames
    &&& k1.net.iface == k0.net.iface
    &&& ({
            let fd = arg(k0, 0);
            if (fd as isize) < 3 {
                r == (0isize, None::<usize>) && k1.procs == k0.procs && k1.net == k0.net
            } else {
                match fd_entry(k0, fd) {
                    None => r == (EBADF, None::<usize>) && k1.procs == k0.procs && k1.net == k0.net,
                    Some(f) => {
                        &&& r.0 == 0
                        &&& cur(k1).files@ =~= cur(k0).files@.update(fd - 3, None)
                        &&& match f.kind {
                            FdKind::Socket { idx } => r.1 is None && k1.net.sockets@ =~= (if idx < socket::MAX_SOCKETS {
                                k0.net.sockets@.update(idx as int, None)
                            } else {
                                k0.net.sockets@
                            }) && k1.net.tcp == k0.net.tcp,
                            FdKind::TcpSocket { idx } => r.1 == Some(idx) && k1.net.tcp@ =~= (if idx < tcp::MAX_TCP
                                && k0.net.tcp@[idx as int] is Some {
                                k0.net.tcp@.update(idx as int, Some(tcp::spec_close(k0.net.tcp@[idx as int]->0)))
                            } else {
                                k0.net.tcp@
                            }) && k1.net.sockets == k0.net.sockets,
                            _ => r.1 is None && k1.net == k0.net,
                        }
                    },
                }
            }
        })
}

/// close(fd): console fds are never really closed (0). Closing a UDP
/// socket frees it; closing a TCP socket starts the FIN exchange, and
/// the connection index comes back for the caller to drain the
/// connection and free it. EBADF for an fd that is not open.
pub fn sys_close(k: &mut Kernel) -> (r: (isize, Option<usize>))
    requires
        old(k).ready(),
    ensures
        sys_close_post(*old(k), *final(k), r),
{
    let a = args(k);
    if (a[0] as isize) < 3 {
        return (0, None);
    }
    let fd = a[0];
    let f = match cur_file(k, fd) {
        Some(f) => f,
        None => {
            return (EBADF, None);
        },
    };
    let mut pending: Option<usize> = None;
    match f.kind {
        FdKind::Socket { idx } => {
            socket::free(&mut k.net.sockets, idx);
        },
        FdKind::TcpSocket { idx } => {
            tcp::close_begin(&mut k.net.tcp, idx);
            pending = Some(idx);
        },
        _ => {},
    }
    set_fd(k, fd - 3, None);
    (0, pending)
}

/// The UDP socket index behind `fd`, if it is one.
pub open spec fn udp_of(k: Kernel, fd: usize) -> Option<usize> {
    match fd_entry(k, fd) {
        Some(f) => match f.kind {
            FdKind::Socket { idx } => Some(idx),
            _ => None,
        },
        None => None,
    }
}

/// The TCP connection index behind `fd`, if it is one.
pub open spec fn tcp_of(k: Kernel, fd: usize) -> Option<usize> {
    match fd_entry(k, fd) {
        Some(f) => match f.kind {
            FdKind::TcpSocket { idx } => Some(idx),
            _ => None,
        },
        None => None,
    }
}

pub fn socket_idx(k: &Kernel, fd: usize) -> (r: Option<usize>)
    requires
        k.ready(),
    ensures
        r == udp_of(*k, fd),
{
    match cur_file(k, fd) {
        Some(f) => match f.kind {
            FdKind::Socket { idx } => Some(idx),
            _ => None,
        },
        None => None,
    }
}

pub fn tcp_idx(k: &Kernel, fd: usize) -> (r: Option<usize>)
    requires
        k.ready(),
    ensures
        r == tcp_of(*k, fd),
{
    match cur_file(k, fd) {
        Some(f) => match f.kind {
            FdKind::TcpSocket { idx } => Some(idx),
            _ => None,
        },
        None => None,
    }
}

pub const AF_INET: usize = 2;
pub const SOCK_STREAM: usize = 1;
pub const SOCK_DGRAM: usize = 2;
pub const EPROTONOSUPPORT: isize = -93;
pub const EADDRINUSE: isize = -98;
pub const ENETUNREACH: isize = -101;
pub const EAGAIN: isize = -11;
pub const EMSGSIZE: isize = -90;
pub const ENFILE: isize = -23;
pub const ENOTCONN: isize = -107;
pub const ECONNREFUSED: isize = -111;
pub const ECONNRESET: isize = -104;
pub const ETIMEDOUT: isize = -110;

/// What `sys_socket` leaves: the kernel before (`k0`) and after (`k1`), and its result.
pub open spec fn sys_socket_post(k0: Kernel, k1: Kernel, r: isize) -> bool {
    &&& k1.ready()
    &&& k1.mem == k0.mem
    &&& k1.vfs == k0.vfs
    &&& k1.procs.current == k0.procs.current
    &&& k1.net.iface == k0.net.iface
    &&& arg(k0, 0) != AF_INET ==> r == EPROTONOSUPPORT && k1 == k0
    &&& arg(k0, 0) == AF_INET && arg(k0, 1) & 0xff == SOCK_DGRAM ==> match socket::first_free(k0.net.sockets@) {
            None => r == ENFILE && k1.procs == k0.procs,
            Some(idx) => installed(cur(k0).files@, cur(k1).files@, r - 3, Some(OpenFile { kind: FdKind::Socket { idx: idx as usize }, pos: 0 })),
        }
    &&& arg(k0, 0) == AF_INET && arg(k0, 1) & 0xff == SOCK_STREAM ==> match tcp::first_free(k0.net.tcp@) {
            None => r == ENFILE && k1.procs == k0.procs,
            Some(idx) => installed(cur(k0).files@, cur(k1).files@, r - 3, Some(OpenFile { kind: FdKind::TcpSocket { idx: idx as usize }, pos: 0 })),
        }
    &&& arg(k0, 0) == AF_INET && arg(k0, 1) & 0xff != SOCK_DGRAM && arg(k0, 1) & 0xff != SOCK_STREAM
            ==> r == EPROTONOSUPPORT && k1 == k0
}

/// socket(domain, type, proto): AF_INET with SOCK_DGRAM (UDP) or
/// SOCK_STREAM (TCP); the new fd.
pub fn sys_socket(k: &mut Kernel) -> (r: isize)
    requires
        old(k).ready(),
        cur(*old(k)).files@.len() < 0x1000_0000,
    ensures
        sys_socket_post(*old(k), *final(k), r),
{
    let a = args(k);
    if a[0] != AF_INET {
        return EPROTONOSUPPORT;
    }
    let ty = a[1] & 0xff;
    let ghost files0 = cur(*k).files@;
    if ty == SOCK_DGRAM {
        match socket::allocate(&mut k.net.sockets) {
            Some(idx) => {
                assert(cur(*k).files@ == files0);
                install_fd(k, FdKind::Socket { idx })
            },
            None => ENFILE,
        }
    } else if ty == SOCK_STREAM {
        match tcp::allocate(&mut k.net.tcp) {
            Some(idx) => {
                assert(cur(*k).files@ == files0);
                install_fd(k, FdKind::TcpSocket { idx })
            },
            None => ENFILE,
        }
    } else {
        EPROTONOSUPPORT
    }
}

/// Port (big-endian at bytes 2..4) of a `sockaddr_in`.
pub open spec fn sa_port(sa: Seq<u8>) -> u16 {
    (sa[2] as nat * 256 + sa[3] as nat) as u16
}

/// What `sys_bind` leaves: the kernel before (`k0`) and after (`k1`), and its result.
pub open spec fn sys_bind_post(k0: Kernel, k1: Kernel, r: isize) -> bool {
    &&& k1.ready()
    &&& k1.mem == k0.mem
    &&& k1.vfs == k0.vfs
    &&& k1.procs == k0.procs
    &&& k1.net.tcp == k0.net.tcp
    &&& k1.net.iface == k0.net.iface
    &&& ({
            let root = cur(k0).root_pa as int;
            let uva = arg(k0, 1);
            let ok = range_error(uva, 8) is None && readable(k0.mem, root, uva, 8);
            let port = sa_port(user_bytes(k0.mem, root, uva, 8));
            match udp_of(k0, arg(k0, 0)) {
                None => r == EBADF && k1.net == k0.net,
                Some(idx) => if arg(k0, 2) < 8 {
                    r == EINVAL && k1.net == k0.net
                } else if !ok {
                    r == EFAULT && k1.net == k0.net
                } else {
                    r == (if (port != 0 && socket::port_used(k0.net.sockets@, port)) || !(idx < socket::MAX_SOCKETS
                        && k0.net.sockets@[idx as int] is Some) {
                        EADDRINUSE
                    } else {
                        0
                    })
                },
            }
        })
}

/// bind(fd, sockaddr_in, len): bind the local port (0 = ephemeral).
pub fn sys_bind(k: &mut Kernel) -> (r: isize)
    requires
        old(k).ready(),
    ensures
        sys_bind_post(*old(k), *final(k), r),
{
    let a = args(k);
    let idx = match socket_idx(k, a[0]) {
        Some(i) => i,
        None => {
            return EBADF;
        },
    };
    if a[2] < 8 {
        return EINVAL;
    }
    let root = cur_root(k);
    let mut sa = [0u8; 8];
    if copy_in(&k.mem, &root, a[1], &mut sa).is_err() {
        return EFAULT;
    }
    let port = sa[2] as u16 * 256 + sa[3] as u16;
    match socket::bind(&mut k.net.sockets, idx, port) {
        Some(_) => 0,
        None => EADDRINUSE,
    }
}

/// What `sys_sched_setaffinity` leaves: the kernel before (`k0`) and after (`k1`), and its result.
pub open spec fn sys_sched_setaffinity_post(k0: Kernel, k1: Kernel, r: isize) -> bool {
    &&& k1.ready()
    &&& k1.mem == k0.mem
    &&& k1.vfs == k0.vfs
    &&& k1.net == k0.net
    &&& k1.procs.current == k0.procs.current
    &&& k1.procs.frames == k0.procs.frames
    &&& ({
            let root = cur(k0).root_pa as int;
            let len = if arg(k0, 1) < 8 { arg(k0, 1) as nat } else { 8nat };
            let uva = arg(k0, 2);
            let ok = range_error(uva, len) is None && readable(k0.mem, root, uva, len);
            let mask = le_value(user_bytes(k0.mem, root, uva, len) + Seq::new((8 - len) as nat, |i: int| 0u8));
            if arg(k0, 0) != 0 {
                r == ESRCH && k1.procs == k0.procs
            } else if !ok {
                r == EFAULT && k1.procs == k0.procs
            } else {
                &&& r == 0
                &&& k1.procs.slots@ =~= k0.procs.slots@.update(
                    k0.procs.current as int,
                    Some(Process { nce_affinity: mask as usize, ..cur(k0) }),
                )
            }
        })
}

/// sched_setaffinity(pid = 0, len, *mask): store the NCE affinity hint
/// (up to 8 little-endian bytes of `mask`) for the calling process.
pub fn sys_sched_setaffinity(k: &mut Kernel) -> (r: isize)
    requires
        old(k).ready(),
    ensures
        sys_sched_setaffinity_post(*old(k), *final(k), r),
{
    let a = args(k);
    if a[0] != 0 {
        return ESRCH;
    }
    let len = if a[1] < 8 { a[1] } else { 8 };
    let root = cur_root(k);
    let mut part: Vec<u8> = vec![0u8; len];
    if copy_in(&k.mem, &root, a[2], part.as_mut_slice()).is_err() {
        return EFAULT;
    }
    let mut buf = [0u8; 8];
    let mut i: usize = 0;
    while i < len
        invariant
            i <= len,
            len <= 8,
            part@.len() == len,
            buf@.len() == 8,
            forall|j: int| 0 <= j < i ==> #[trigger] buf@[j] == part@[j],
            forall|j: int| i <= j < 8 ==> #[trigger] buf@[j] == 0,
        decreases len - i,
    {
        buf[i] = part[i];
        i = i + 1;
    }
    assert(buf@ =~= part@ + Seq::new((8 - len) as nat, |i: int| 0u8));
    let mask = le_u64(&buf) as usize;
    crate::nce::affinity::set_current(&mut k.procs, mask)
}

/// What `sys_sched_getaffinity` leaves: the kernel before (`k0`) and after (`k1`), and its result.
pub open spec fn sys_sched_getaffinity_post(k0: Kernel, k1: Kernel, r: isize) -> bool {
    &&& k1.ready()
    &&& k1.procs == k0.procs
    &&& k1.vfs == k0.vfs
    &&& k1.net == k0.net
    &&& k1.mem.alloc == k0.mem.alloc
    &&& k0.mem.same_entries(&k1.mem)
    &&& ({
            let root = cur(k0).root_pa as int;
            let len = if arg(k0, 1) < 8 { arg(k0, 1) as nat } else { 8nat };
            let uva = arg(k0, 2);
            let ok = range_error(uva, len) is None && readable(k0.mem, root, uva, len);
            if arg(k0, 0) != 0 {
                r == ESRCH && k1.mem == k0.mem
            } else {
                &&& r == if ok { len as isize } else { EFAULT }
                &&& ok && phys_distinct(k0.mem, root, uva, len) ==> user_bytes(k1.mem, root, uva, len)
                    == le_bytes(cur(k0).nce_affinity as u64).subrange(0, len as int)
            }
        })
}

/// sched_getaffinity(pid = 0, len, *mask): write back up to 8
/// little-endian bytes of the stored hint; the number written.
pub fn sys_sched_getaffinity(k: &mut Kernel) -> (r: isize)
    requires
        old(k).ready(),
    ensures
        sys_sched_getaffinity_post(*old(k), *final(k), r),
{
    let a = args(k);
    if a[0] != 0 {
        return ESRCH;
    }
    let mask = crate::nce::affinity::get_current(&k.procs);
    let bytes = u64_le(mask as u64);
    let len = if a[1] < 8 { a[1] } else { 8 };
    let mut part: Vec<u8> = Vec::new();
    let mut i: usize = 0;
    while i < len
        invariant
            i <= len,
            len <= 8,
            bytes@.len() == 8,
            part@ == bytes@.subrange(0, i as int),
        decreases len - i,
    {
        part.push(bytes[i]);
        i = i + 1;
        assert(part@ =~= bytes@.subrange(0, i as int));
    }
    let root = cur_root(k);
    match copy_out(&mut k.mem, &root, a[2], part.as_slice()) {
        Ok(()) => len as isize,
        Err(_) => EFAULT,
    }
}


/// Pages needed for `len` bytes.
pub open spec fn pages_for(len: usize) -> nat {
    (len as nat + (PAGE_SIZE - 1) as nat) / (PAGE_SIZE as nat)
}

fn page_count(len: usize) -> (r: usize)
    ensures
        r == pages_for(len),
{
    len / PAGE_SIZE + if len % PAGE_SIZE != 0 { 1 } else { 0 }
}

/// Every byte of `[va, va + len)` is mapped to an allocated frame and
/// reads zero.
pub open spec fn zero_filled(m: Mem, root: int, va: usize, len: int) -> bool {
    forall|j: int| 0 <= j < len ==> #[trigger] loaded_byte(m, root, (va + j) as usize, 0u8)
}

/// What `sys_mmap` leaves: the kernel before (`k0`) and after (`k1`), and its result.
pub open spec fn sys_mmap_post(k0: Kernel, k1: Kernel, r: isize) -> bool {
    &&& k1.ready()
    &&& k1.vfs == k0.vfs
    &&& k1.net == k0.net
    &&& k1.procs.current == k0.procs.current
    &&& k1.procs.frames == k0.procs.frames
    &&& keeps_used(k0.mem, k1.mem)
    &&& arg(k0, 1) == 0 ==> r == EINVAL && k1 == k0
    &&& arg(k0, 1) != 0 ==> {
            let p = cur(k0);
            let next = p.next_mmap + pages_for(arg(k0, 1)) * PAGE_SIZE;
            if next > usize::MAX {
                r == ENOMEM && k1.procs == k0.procs
            } else {
                &&& k1.procs.slots@ =~= k0.procs.slots@.update(
                    k0.procs.current as int,
                    Some(Process { next_mmap: next as usize, ..p }),
                )
                &&& r == p.next_mmap as isize || r == ENOMEM
                &&& r == p.next_mmap as isize && user_tree(k0.mem, p.root_pa as int)
                    && 0x4000_0000 <= p.next_mmap && next <= 0x8000_0000
                    ==> zero_filled(k1.mem, p.root_pa as int, p.next_mmap, pages_for(arg(k0, 1)) * PAGE_SIZE)
            }
        }
}

/// mmap(addr = 0, len, ...): an anonymous read-write mapping at an
/// address the kernel chooses (a bump region per process); its address.
/// EINVAL for an empty mapping, ENOMEM when memory or address space runs
/// out.
pub fn sys_mmap(k: &mut Kernel) -> (r: isize)
    requires
        old(k).ready(),
    ensures
        sys_mmap_post(*old(k), *final(k), r),
{
    let a = args(k);
    let len = a[1];
    if len == 0 {
        return EINVAL;
    }
    let pages = page_count(len);
    let root = cur_root(k);
    let c = k.procs.current;
    let va = match &k.procs.slots[c] {
        Some(p) => p.next_mmap,
        None => 0,
    };
    let span = match pages.checked_mul(PAGE_SIZE) {
        Some(x) => x,
        None => {
            return ENOMEM;
        },
    };
    let next = match va.checked_add(span) {
        Some(x) => x,
        None => {
            return ENOMEM;
        },
    };
    let mut p = replace_slot(&mut k.procs.slots, c, None).unwrap();
    p.next_mmap = next;
    replace_slot(&mut k.procs.slots, c, Some(p));
    let ghost m0 = k.mem;
    let ghost k1 = *k;
    let ghost rt = root.pa as int;
    let ghost ut = user_tree(m0, rt) && 0x4000_0000 <= va && va + pages * PAGE_SIZE <= 0x8000_0000;
    let mut i: usize = 0;
    while i < pages
        invariant
            rt == root.pa,
            rt == cur(*old(k)).root_pa,
            va == cur(*old(k)).next_mmap,
            pages == pages_for(len),
            ut == (user_tree(m0, rt) && 0x4000_0000 <= va && va + pages * PAGE_SIZE <= 0x8000_0000),
            keeps_links(m0, k.mem),
            ut ==> user_tree(k.mem, rt),
            ut ==> zero_filled(k.mem, rt, va, i * PAGE_SIZE),
            k.mem.booted(),
            k.procs == k1.procs,
            k.vfs == old(k).vfs,
            k.net == old(k).net,
            k1.procs.has_current(),
            k.ready(),
            m0.booted(),
            k.mem.kernel_root == m0.kernel_root,
            len == arg(*old(k), 1),
            len != 0,
            next as int == cur(*old(k)).next_mmap + pages_for(len) * PAGE_SIZE,
            k1.procs.current == old(k).procs.current,
            k1.procs.frames == old(k).procs.frames,
            k1.procs.slots@ == old(k).procs.slots@.update(old(k).procs.current as int, Some(Process { next_mmap: next, ..cur(*old(k)) })),
            k1.net.wf(),
            keeps_used(m0, k.mem),
            m0 == old(k).mem,
            i <= pages,
            va % PAGE_SIZE == 0,
            va + pages * PAGE_SIZE <= usize::MAX,
        decreases pages - i,
    {
        let ghost before = k.mem;
        let frame = match k.mem.alloc_frame() {
            Some(f) => f,
            None => {
                return ENOMEM;
            },
        };
        let flags = PTE_U | PTE_R | PTE_W;
        assert(flags < 1024) by (bit_vector)
            requires
                flags == PTE_U | PTE_R | PTE_W,
        ;
        let ghost before_map = k.mem;
        let at = va + i * PAGE_SIZE;
        proof {
            lemma_frame_range(frame as int);
            assert(keeps_links(before, before_map));
            assert(at % PAGE_SIZE == 0) by (nonlinear_arith)
                requires
                    at == va + i * 4096,
                    va % 4096 == 0,
            ;
            assert(i * PAGE_SIZE + PAGE_SIZE <= pages * PAGE_SIZE) by (nonlinear_arith)
                requires
                    i < pages,
            ;
            if ut {
                assert(user_tree(before_map, rt)) by {
                    assert(before_map.entry(frame_of(rt), 1) == before.entry(frame_of(rt), 1));
                }
            }
        }
        let res = root.map(&mut k.mem, at, frame, flags);
        proof {
            lemma_keeps_used_trans(before, before_map, k.mem);
            lemma_keeps_used_trans(m0, before, k.mem);
            lemma_booted_kept(m0, k.mem);
            lemma_keeps_links_trans(before, before_map, k.mem);
            lemma_keeps_links_trans(m0, before, k.mem);
        }
        if res.is_err() {
            return ENOMEM;
        }
        proof {
            if ut {
                let f = frame_of(frame as int);
                lemma_user_sound(before_map, rt, at);
                assert forall|j: int| 0 <= j < (i + 1) * PAGE_SIZE implies #[trigger] loaded_byte(k.mem, rt, (va + j) as usize, 0u8) by {
                    if j < i * PAGE_SIZE {
                        assert(user_slot_va((va + j) as usize as int));
                        assert(loaded_byte(before, rt, (va + j) as usize, 0u8));
                        lemma_loaded_stable(before, k.mem, rt, (va + j) as usize, 0u8);
                    } else {
                        let off = (j - i * PAGE_SIZE) as usize;
                        lemma_leaf_page(k.mem, rt, at, off);
                        assert((va + j) as usize == (at + off) as usize);
                        assert(spec_translate(k.mem, rt, (at + off) as usize) == Some(frame + off));
                        assert(user_loc(k.mem, rt, (at + off) as usize) == Some((f, off as int)));
                        assert(before_map.alloc@[f]);
                        assert(before_map.byte(f, off as int) == 0);
                        assert(before_map.byte(f, off as int) == k.mem.byte(f, off as int));
                    }
                }
            }
        }
        i = i + 1;
    }
    va as isize
}

/// What `sys_munmap` leaves: the kernel before (`k0`) and after (`k1`), and its result.
pub open spec fn sys_munmap_post(k0: Kernel, k1: Kernel, r: isize) -> bool {
    &&& k1.ready()
    &&& k1.procs == k0.procs
    &&& k1.vfs == k0.vfs
    &&& k1.net == k0.net
    &&& r == if arg(k0, 0) % PAGE_SIZE != 0 || arg(k0, 1) == 0 { EINVAL } else { 0 }
    &&& r == EINVAL ==> k1.mem == k0.mem
    &&& only_frees(k0.mem, k1.mem)
    &&& k0.mem.same_bytes(&k1.mem)
    &&& r == 0 ==> forall|x: usize|
            arg(k0, 0) <= x < arg(k0, 0) + pages_for(arg(k0, 1)) * PAGE_SIZE
                ==> #[trigger] spec_leaf(k1.mem, cur(k0).root_pa as int, x) is None
}

/// munmap(addr, len): unmap the pages of `[addr, addr + len)` and free
/// their frames. EINVAL for an unaligned address or an empty range.
pub fn sys_munmap(k: &mut Kernel) -> (r: isize)
    requires
        old(k).ready(),
    ensures
        sys_munmap_post(*old(k), *final(k), r),
{
    let a = args(k);
    let va = a[0];
    let len = a[1];
    if va % PAGE_SIZE != 0 || len == 0 {
        return EINVAL;
    }
    let root = cur_root(k);
    let pages = page_count(len);
    let ghost rt = root.pa as int;
    let mut i: usize = 0;
    while i < pages
        invariant
            k.mem.booted(),
            k.procs == old(k).procs,
            k.vfs == old(k).vfs,
            k.net == old(k).net,
            k.ready(),
            va == arg(*old(k), 0),
            len == arg(*old(k), 1),
            va % PAGE_SIZE == 0,
            len != 0,
            i <= pages,
            pages == pages_for(len),
            rt == root.pa,
            rt == cur(*old(k)).root_pa,
            only_frees(old(k).mem, k.mem),
            old(k).mem.same_bytes(&k.mem),
            forall|x: usize| va <= x < va + i * PAGE_SIZE ==> #[trigger] spec_leaf(k.mem, rt, x) is None,
        decreases pages - i,
    {
        let off = match i.checked_mul(PAGE_SIZE) {
            Some(x) => x,
            None => {
                return 0;
            },
        };
        let at = match va.checked_add(off) {
            Some(x) => x,
            None => {
                return 0;
            },
        };
        let ghost before = k.mem;
        let res = root.unmap(&mut k.mem, at);
        let ghost unmapped = k.mem;
        proof {
            assert(at % PAGE_SIZE == 0) by (nonlinear_arith)
                requires
                    at == va + i * 4096,
                    va % 4096 == 0,
            ;
            assert forall|x: usize| va <= x < va + (i + 1) * PAGE_SIZE implies #[trigger] spec_leaf(unmapped, rt, x) is None by {
                if x < at {
                    if spec_leaf(unmapped, rt, x) is Some {
                        let (f, j) = spec_walk(before, rt, at)->0;
                        lemma_zero_write_leaf(before, unmapped, rt, x, f, j);
                    }
                } else {
                    lemma_leaf_page(unmapped, rt, at, (x - at) as usize);
                    assert((at + (x - at) as usize) as usize == x);
                }
            }
        }
        if let Some(pa) = res {
            proof {
                assert(k.mem.booted());
            }
            k.mem.release(pa as u64);
            proof {
                assert forall|x: usize| va <= x < va + (i + 1) * PAGE_SIZE implies #[trigger] spec_leaf(k.mem, rt, x) is None by {
                    lemma_same_entries_walk(unmapped, k.mem, rt, x);
                }
            }
        }
        i = i + 1;
    }
    0
}

/// Take the first `n` bytes of `v`.
pub fn drain_front(v: &mut Vec<u8>, n: usize) -> (r: Vec<u8>)
    requires
        n <= old(v)@.len(),
    ensures
        r@ == old(v)@.take(n as int),
        final(v)@ == old(v)@.skip(n as int),
{
    let mut head: Vec<u8> = Vec::new();
    let mut rest: Vec<u8> = Vec::new();
    let mut i: usize = 0;
    while i < v.len()
        invariant
            i <= v@.len(),
            v@ == old(v)@,
            n <= v@.len(),
            i <= n ==> head@ == v@.take(i as int) && rest@.len() == 0,
            i > n ==> head@ == v@.take(n as int) && rest@ == v@.subrange(n as int, i as int),
        decreases v@.len() - i,
    {
        if i < n {
            head.push(v[i]);
            assert(head@ =~= v@.take(i as int + 1));
        } else {
            rest.push(v[i]);
            assert(rest@ =~= v@.subrange(n as int, i as int + 1));
        }
        i = i + 1;
    }
    proof {
        if i <= n {
            assert(head@ =~= v@.take(n as int));
        }
        assert(rest@ =~= v@.skip(n as int));
    }
    *v = rest;
    head
}

/// The bytes `v[from .. from + n]`.
fn slice_of(v: &[u8], from: usize, n: usize) -> (r: Vec<u8>)
    requires
        from + n <= v@.len(),
    ensures
        r@ == v@.subrange(from as int, from + n),
{
    let _len = v.len();
    let mut out: Vec<u8> = Vec::new();
    let mut i: usize = 0;
    while i < n
        invariant
            i <= n,
            from + n <= v@.len(),
            _len == v@.len(),
            out@ == v@.subrange(from as int, from + i),
        decreases n - i,
    {
        out.push(v[from + i]);
        i = i + 1;
        assert(out@ =~= v@.subrange(from as int, from + i));
    }
    out
}

/// What `sys_read` leaves: the kernel before (`k0`) and after (`k1`), and its result.
pub open spec fn sys_read_post(k0: Kernel, k1: Kernel, r: Option<isize>) -> bool {
    &&& k1.wf()
    &&& k1.vfs == k0.vfs
    &&& k1.net == k0.net
    &&& k1.procs.next_pid == k0.procs.next_pid
    &&& r is Some ==> k1.procs.current == k0.procs.current && k1.procs.has_current()
    &&& ({
            let fd = arg(k0, 0) as isize;
            let uva = arg(k0, 1);
            let len = arg(k0, 2);
            let root = cur(k0).root_pa as int;
            let n = process::console_take(len, k0.console_in@.len());
            if fd >= 3 {
                k1.console_in == k0.console_in && (r matches Some(v) && file_read_post(k0, k1, fd as usize, uva, len, v))
            } else if fd != 0 {
                r == Some(EBADF) && k1 == k0
            } else if len == 0 {
                r == Some(0isize) && k1 == k0
            } else if n == 0 {
                &&& r is None
                &&& k1.procs.current == NO_PROC
                &&& k1.procs.slots@ =~= k0.procs.slots@.update(
                    k0.procs.current as int,
                    Some(Process { state: process::ProcState::SleepConsole, read_buf_uva: uva, read_len: len, ..cur(k0) }),
                )
                &&& k1.console_in == k0.console_in
            } else {
                let ok = range_error(uva, n) is None && readable(k0.mem, root, uva, n);
                &&& r == Some(if ok { n as isize } else { EFAULT })
                &&& k1.console_in@ =~= k0.console_in@.skip(n as int)
                &&& k1.procs == k0.procs
                &&& ok && phys_distinct(k0.mem, root, uva, n) ==> user_bytes(k1.mem, root, uva, n) =~= k0.console_in@.take(n as int)
            }
        })
}

/// read(fd, buf, len): fd 0 reads the console, returning as soon as one
/// byte is available and parking the caller (`None`) when none is; fds
/// from 3 read files and NCE devices. EBADF for other fds.
pub fn sys_read(k: &mut Kernel) -> (r: Option<isize>)
    requires
        old(k).ready(),
    ensures
        sys_read_post(*old(k), *final(k), r),
{
    let a = args(k);
    let fd = a[0] as isize;
    let uva = a[1];
    let len = a[2];
    if fd >= 3 {
        return Some(file_read(k, fd as usize, uva, len));
    }
    if fd != 0 {
        return Some(EBADF);
    }
    if len == 0 {
        return Some(0);
    }
    let cap = if len < 128 { len } else { 128 };
    let n = if cap < k.console_in.len() { cap } else { k.console_in.len() };
    if n == 0 {
        process::block_on_console(&mut k.procs, uva, len);
        proof {
            assert(k.wf());
            assert(k.vfs == old(k).vfs);
            assert(k.net == old(k).net);
            assert(k.procs.next_pid == old(k).procs.next_pid);
            assert(k.procs.current == NO_PROC);
            assert(k.console_in == old(k).console_in);
            assert(k.procs.slots@ == old(k).procs.slots@.update(
                    old(k).procs.current as int,
                    Some(Process { state: process::ProcState::SleepConsole, read_buf_uva: uva, read_len: len, ..cur(*old(k)) }),
                ));
        }
        return None;
    }
    let bytes = drain_front(&mut k.console_in, n);
    let root = cur_root(k);
    match copy_out(&mut k.mem, &root, uva, bytes.as_slice()) {
        Ok(()) => Some(n as isize),
        Err(_) => Some(EFAULT),
    }
}

/// Move the current process's fd `fd` to position `pos`.
fn set_pos(k: &mut Kernel, fd: usize, pos: usize)
    requires
        old(k).ready(),
        fd_entry(*old(k), fd) is Some,
    ensures
        final(k).ready(),
        final(k).mem == old(k).mem,
        final(k).vfs == old(k).vfs,
        final(k).net == old(k).net,
        final(k).nces == old(k).nces,
        final(k).console_in == old(k).console_in,
        final(k).console_out == old(k).console_out,
        final(k).procs.current == old(k).procs.current,
        final(k).procs.frames == old(k).procs.frames,
        final(k).procs.next_pid == old(k).procs.next_pid,
        final(k).procs.last_run == old(k).procs.last_run,
        final(k).procs.slots@ == old(k).procs.slots@.update(old(k).procs.current as int, final(k).procs.slots@[old(k).procs.current as int]),
        ({
            let q = cur(*final(k));
            let p = cur(*old(k));
            &&& q.files@ == p.files@.update(fd - 3, Some(OpenFile { pos, ..fd_entry(*old(k), fd)->0 }))
            &&& q == Process { files: q.files, ..p }
        }),
{
    let f = cur_file(k, fd).unwrap();
    set_fd(k, fd - 3, Some(OpenFile { pos, ..f }));
}

/// What `file_read` leaves: the kernel before (`k0`) and after (`k1`), and its result.
pub open spec fn file_read_post(k0: Kernel, k1: Kernel, fd: usize, uva: usize, len: usize, r: isize) -> bool {
    &&& k1.ready()
    &&& k1.vfs == k0.vfs
    &&& k1.net == k0.net
    &&& k1.nces == k0.nces
    &&& k1.console_in == k0.console_in
    &&& k1.procs.current == k0.procs.current
    &&& k1.procs.frames == k0.procs.frames
    &&& k1.procs.next_pid == k0.procs.next_pid
    &&& k1.procs.last_run == k0.procs.last_run
    &&& k1.mem.alloc == k0.mem.alloc
    &&& k0.mem.same_entries(&k1.mem)
    &&& match fd_entry(k0, fd) {
            None => r == EBADF && k1.procs == k0.procs,
            Some(f) => match f.kind {
                FdKind::Nce { slot } => if slot >= k0.nces@.len() {
                    r == EBADF && k1.procs == k0.procs
                } else {
                    let text = crate::nce::descriptor_line(k0.nces@[slot as int]);
                    let root = cur(k0).root_pa as int;
                    if f.pos >= text.len() {
                        r == 0 && k1.procs == k0.procs
                    } else {
                        let n = if len < text.len() - f.pos { len as nat } else { (text.len() - f.pos) as nat };
                        let ok = range_error(uva, n) is None && readable(k0.mem, root, uva, n);
                        if ok {
                            &&& r == n as isize
                            &&& cur(k1).files@ =~= cur(k0).files@.update(fd - 3, Some(OpenFile { pos: (f.pos + n) as usize, ..f }))
                            &&& phys_distinct(k0.mem, root, uva, n) ==> user_bytes(k1.mem, root, uva, n) == text.subrange(f.pos as int, f.pos + n)
                        } else {
                            r == EFAULT && k1.procs == k0.procs
                        }
                    }
                },
                FdKind::File { ino } => file_read_result(k0, k1, fd, ino, f.pos, uva, len, r),
                _ => r == EBADF && k1.procs == k0.procs,
            },
        }
}

/// Read from a file- or device-backed fd; the count read (0 at the end).
/// Reading /dev/nceN yields its one-line descriptor. Sockets are read
/// with recvfrom, not read: EBADF.
pub fn file_read(k: &mut Kernel, fd: usize, uva: usize, len: usize) -> (r: isize)
    requires
        old(k).ready(),
    ensures
        file_read_post(*old(k), *final(k), fd, uva, len, r),
{
    let f = match cur_file(k, fd) {
        Some(f) => f,
        None => {
            return EBADF;
        },
    };
    let pos = f.pos;
    match f.kind {
        FdKind::Nce { slot } => {
            let text = match crate::nce::describe(&k.nces, slot) {
                Some(t) => t,
                None => {
                    return EBADF;
                },
            };
            if pos >= text.len() {
                return 0;
            }
            let n = if len < text.len() - pos { len } else { text.len() - pos };
            let part = slice_of(text.as_slice(), pos, n);
            let root = cur_root(k);
            if copy_out(&mut k.mem, &root, uva, part.as_slice()).is_err() {
                return EFAULT;
            }
            set_pos(k, fd, pos + n);
            n as isize
        },
        FdKind::File { ino } => file_read_inode(k, fd, ino, pos, uva, len),
        _ => EBADF,
    }
}

/// What reading file `i` from `pos` into `[uva, uva + len)` gives once
/// `done` bytes are in: the file is read in chunks of at most 512 bytes
/// (EIO when a chunk cannot be read) and each is copied out (EFAULT when
/// the buffer is not mapped there), until the file or the buffer ends;
/// then the count.
pub open spec fn read_outcome(dev: Option<BlkDev>, i: InodeModel, pos: nat, m: Mem, root: int, uva: usize, len: nat, done: nat) -> int
    decreases len - done,
{
    if done >= len {
        done as int
    } else {
        let n: nat = if 512 < len - done { 512 } else { (len - done) as nat };
        let w = want(i, pos + done, n);
        if pos + done > usize::MAX {
            EIO as int
        } else if !bytes_ok(dev, i, pos + done, w) {
            EIO as int
        } else if w == 0 {
            done as int
        } else if uva + done > usize::MAX || range_error((uva + done) as usize, w) is Some || !readable(
            m,
            root,
            (uva + done) as usize,
            w,
        ) {
            EFAULT as int
        } else if w < n {
            (done + w) as int
        } else {
            read_outcome(dev, i, pos, m, root, uva, len, done + w)
        }
    }
}

/// Copying the chunk `[done, done + w)` of a read keeps the bytes already
/// in place and puts the chunk's after them, when the whole buffer's
/// bytes are physically distinct.
proof fn lemma_read_chunk(
    o: Mem,
    before: Mem,
    after: Mem,
    rt: int,
    uva: usize,
    total: nat,
    done: nat,
    w: nat,
    part: Seq<u8>,
    dev: Option<BlkDev>,
    iv: InodeModel,
    pos: nat,
)
    requires
        o.same_entries(&before),
        o.same_entries(&after),
        phys_distinct(o, rt, uva, total),
        done + w <= total,
        uva + done <= usize::MAX,
        part.len() == w,
        readable(before, rt, (uva + done) as usize, w),
        forall|q: int| 0 <= q < done ==> #[trigger] user_byte(before, rt, (uva + q) as usize) == file_byte(dev, iv, (pos + q) as nat),
        forall|g: int, j: int| 0 <= g < MAX_FRAMES && 0 <= j < PAGE_SIZE && !hits(before, rt, (uva + done) as usize, w, g, j)
            ==> #[trigger] after.byte(g, j) == before.byte(g, j),
        phys_distinct(before, rt, (uva + done) as usize, w) ==> user_bytes(after, rt, (uva + done) as usize, w) == part,
        forall|t: int| 0 <= t < w ==> Some(#[trigger] part[t]) == file_byte(dev, iv, (pos + done + t) as nat),
    ensures
        forall|q: int| 0 <= q < done + w ==> #[trigger] user_byte(after, rt, (uva + q) as usize) == file_byte(dev, iv, (pos + q) as nat),
{
    let at = (uva + done) as usize;
    assert forall|v: usize| #[trigger] user_loc(before, rt, v) == user_loc(o, rt, v) by {
        lemma_same_entries_walk(o, before, rt, v);
    }
    assert forall|v: usize| #[trigger] user_loc(after, rt, v) == user_loc(o, rt, v) by {
        lemma_same_entries_walk(o, after, rt, v);
    }
    assert(phys_distinct(before, rt, at, w)) by {
        assert forall|k1: int, k2: int| 0 <= k1 < w && 0 <= k2 < w && k1 != k2
            implies #[trigger] user_loc(before, rt, (at + k1) as usize) != #[trigger] user_loc(before, rt, (at + k2) as usize) by {
            assert((at + k1) as usize == (uva + (done + k1)) as usize);
            assert((at + k2) as usize == (uva + (done + k2)) as usize);
            assert(user_loc(o, rt, (uva + (done + k1)) as usize) != user_loc(o, rt, (uva + (done + k2)) as usize));
        }
    }
    assert forall|q: int| 0 <= q < done + w implies #[trigger] user_byte(after, rt, (uva + q) as usize) == file_byte(dev, iv, (pos + q) as nat) by {
        if q < done {
            assert(user_byte(before, rt, (uva + q) as usize) == file_byte(dev, iv, (pos + q) as nat));
            if user_loc(before, rt, (uva + q) as usize) is Some {
                let l = user_loc(before, rt, (uva + q) as usize)->0;
                if hits(before, rt, at, w, l.0, l.1) {
                    let t = choose|t: int| 0 <= t < w && #[trigger] user_loc(before, rt, (at + t) as usize) == Some((l.0, l.1));
                    assert((at + t) as usize == (uva + (done + t)) as usize);
                    assert(user_loc(o, rt, (uva + (done + t)) as usize) == user_loc(o, rt, (uva + q) as usize));
                }
                lemma_loc_range(before, rt, (uva + q) as usize);
                assert(after.byte(l.0, l.1) == before.byte(l.0, l.1));
            }
        } else {
            let t = q - done;
            assert((uva + q) as usize == (at + t) as usize);
            assert(user_loc(before, rt, (at + t) as usize) is Some);
            assert(user_bytes(after, rt, at, w)[t] == part[t]);
            assert(Some(part[t]) == file_byte(dev, iv, (pos + done + t) as nat));
        }
    }
}

/// A read that succeeds from `done` on counts at least `done` bytes.
proof fn lemma_outcome_grows(dev: Option<BlkDev>, i: InodeModel, pos: nat, m: Mem, root: int, uva: usize, len: nat, done: nat)
    ensures
        read_outcome(dev, i, pos, m, root, uva, len, done) >= 0 ==> read_outcome(dev, i, pos, m, root, uva, len, done) >= done,
    decreases len - done,
{
    if done < len {
        let n: nat = if 512 < len - done { 512 } else { (len - done) as nat };
        let w = want(i, pos + done, n);
        if w > 0 {
            lemma_outcome_grows(dev, i, pos, m, root, uva, len, done + w);
        }
    }
}

/// The file branch of `file_read`: read up to `len` bytes of inode `ino`
/// from `pos` into the caller's buffer, 512 bytes at a time.
fn file_read_inode(k: &mut Kernel, fd: usize, ino: u32, pos: usize, uva: usize, len: usize) -> (r: isize)
    requires
        old(k).ready(),
        fd_entry(*old(k), fd) == Some(OpenFile { kind: FdKind::File { ino }, pos }),
    ensures
        final(k).ready(),
        final(k).vfs == old(k).vfs,
        final(k).net == old(k).net,
        final(k).nces == old(k).nces,
        final(k).console_in == old(k).console_in,
        final(k).procs.current == old(k).procs.current,
        final(k).procs.frames == old(k).procs.frames,
        final(k).mem.alloc == old(k).mem.alloc,
        old(k).mem.same_entries(&final(k).mem),
        final(k).procs.next_pid == old(k).procs.next_pid,
        final(k).procs.last_run == old(k).procs.last_run,
        file_read_result(*old(k), *final(k), fd, ino, pos, uva, len, r),
{
    let inode = match crate::fs::inode(&k.vfs.root, &k.vfs.dev, ino) {
        Ok(i) => i,
        Err(_) => {
            return EBADF;
        },
    };
    if inode.is_dir() {
        return EISDIR;
    }
    let root = cur_root(k);
    let ghost rt = root.pa as int;
    let ghost iv = inode@;
    let ghost out = read_outcome(k.vfs.dev, iv, pos as nat, old(k).mem, rt, uva, len as nat, 0);
    let mut done: usize = 0;
    let mut more = true;
    while more && done < len
        invariant
            k.ready(),
            k.vfs == old(k).vfs,
            k.net == old(k).net,
            k.nces == old(k).nces,
            k.console_in == old(k).console_in,
            k.procs == old(k).procs,
            k.mem.alloc == old(k).mem.alloc,
            old(k).mem.same_entries(&k.mem),
            k.vfs.root is Some,
            iv == inode@,
            spec_inode(k.vfs.root->0, k.vfs.dev, ino) == Some(iv),
            !model_is_dir(iv),
            rt == root.pa,
            rt == cur(*old(k)).root_pa,
            out == read_outcome(k.vfs.dev, iv, pos as nat, old(k).mem, rt, uva, len as nat, 0),
            done <= len,
            done <= want(iv, pos as nat, len as nat),
            !more ==> done == want(iv, pos as nat, len as nat),
            more ==> out == read_outcome(k.vfs.dev, iv, pos as nat, old(k).mem, rt, uva, len as nat, done as nat),
            out >= 0 && phys_distinct(old(k).mem, rt, uva, out as nat) ==> forall|q: int| 0 <= q < done
                ==> #[trigger] user_byte(k.mem, rt, (uva + q) as usize) == file_byte(k.vfs.dev, iv, (pos + q) as nat),
            !more ==> out == done,
        decreases len - done + if more { 1int } else { 0int },
    {
        let n = if 512 < len - done { 512 } else { len - done };
        let mut chunk: Vec<u8> = vec![0u8; n];
        let off = match pos.checked_add(done) {
            Some(o) => o,
            None => {
                return EIO;
            },
        };
        let got = match crate::fs::read_at(&k.vfs.root, &k.vfs.dev, &inode, off, chunk.as_mut_slice()) {
            Ok(g) => g,
            Err(_) => {
                return EIO;
            },
        };
        let ghost w = want(iv, off as nat, n as nat);
        if got == 0 {
            more = false;
        } else {
            let part = slice_of(chunk.as_slice(), 0, got);
            let at = match uva.checked_add(done) {
                Some(x) => x,
                None => {
                    return EFAULT;
                },
            };
            let ghost before = k.mem;
            proof {
                assert forall|v: usize| #[trigger] user_loc(k.mem, rt, v) == user_loc(old(k).mem, rt, v) by {
                    lemma_same_entries_walk(old(k).mem, k.mem, rt, v);
                }
            }
            if copy_out(&mut k.mem, &root, at, part.as_slice()).is_err() {
                return EFAULT;
            }
            proof {
                assert forall|j: int| 0 <= j < w implies #[trigger] user_loc(old(k).mem, rt, (at + j) as usize) is Some by {
                    lemma_same_entries_walk(old(k).mem, before, rt, (at + j) as usize);
                    assert(user_loc(before, rt, (at + j) as usize) is Some);
                }
                if out >= 0 && phys_distinct(old(k).mem, rt, uva, out as nat) {
                    lemma_outcome_grows(k.vfs.dev, iv, pos as nat, old(k).mem, rt, uva, len as nat, done as nat);
                    if w >= n {
                        lemma_outcome_grows(k.vfs.dev, iv, pos as nat, old(k).mem, rt, uva, len as nat, (done + w) as nat);
                    }
                    assert forall|t: int| 0 <= t < w implies Some(#[trigger] part@[t]) == file_byte(k.vfs.dev, iv, (pos + done + t) as nat) by {
                        assert(Some(chunk@[t]) == file_byte(k.vfs.dev, iv, (off + t) as nat));
                    }
                    lemma_read_chunk(old(k).mem, before, k.mem, rt, uva, out as nat, done as nat, w, part@, k.vfs.dev, iv, pos as nat);
                }
            }
            done = done + got;
            if got < n {
                more = false;
            }
        }
    }
    proof {
        assert(done == want(iv, pos as nat, len as nat));
        if phys_distinct(old(k).mem, rt, uva, done as nat) {
            assert(user_bytes(k.mem, rt, uva, done as nat) =~= Seq::new(done as nat, |q: int| file_byte(k.vfs.dev, iv, (pos + q) as nat)->0));
        }
    }
    let newpos = match pos.checked_add(done) {
        Some(p) => p,
        None => {
            return EIO;
        },
    };
    set_pos(k, fd, newpos);
    done as isize
}

/// The result of the file branch of `file_read`: EBADF when the inode
/// cannot be read, EISDIR for a directory, else what `read_outcome`
/// gives; on success the descriptor moves past the bytes read, else the
/// process table is left alone.
pub open spec fn file_read_result(k0: Kernel, k1: Kernel, fd: usize, ino: u32, pos: usize, uva: usize, len: usize, r: isize) -> bool {
    let f = OpenFile { kind: FdKind::File { ino }, pos };
    match k0.vfs.root {
        None => r == EBADF && k1.procs == k0.procs,
        Some(fs) => match spec_inode(fs, k0.vfs.dev, ino) {
            None => r == EBADF && k1.procs == k0.procs,
            Some(i) => if model_is_dir(i) {
                r == EISDIR && k1.procs == k0.procs
            } else {
                let o = read_outcome(k0.vfs.dev, i, pos as nat, k0.mem, cur(k0).root_pa as int, uva, len as nat, 0);
                &&& r == o as isize
                &&& o >= 0 ==> {
                    &&& o == want(i, pos as nat, len as nat)
                    &&& phys_distinct(k0.mem, cur(k0).root_pa as int, uva, o as nat) ==> user_bytes(k1.mem, cur(k0).root_pa as int, uva, o as nat)
                        == Seq::new(o as nat, |q: int| file_byte(k0.vfs.dev, i, (pos + q) as nat)->0)
                    &&& cur(k1).files@ == cur(k0).files@.update(fd - 3, Some(OpenFile { pos: (pos + o) as usize, ..f }))
                }
                &&& o < 0 ==> k1.procs == k0.procs
            },
        },
    }
}

/// Length of a dirent64 record for a name of `n` bytes: header, name and
/// NUL, rounded up to 8.
pub open spec fn reclen(n: nat) -> nat {
    (19 + n + 1 + 7) / 8 * 8
}

/// The 2 little-endian bytes of `x`.
pub open spec fn le16_bytes(x: u16) -> Seq<u8> {
    seq![(x & 0xff) as u8, (x >> 8u16) as u8]
}

/// `n` zero bytes.
pub open spec fn zeros(n: nat) -> Seq<u8> {
    Seq::new(n, |i: int| 0u8)
}

/// The linux_dirent64 record of one entry: inode, position cookie,
/// record length, type (DT_DIR 4 or DT_REG 8), name, NUL and padding.
pub open spec fn dirent64(ino: u32, seq: nat, name: Seq<u8>, is_dir: bool) -> Seq<u8> {
    let rl = reclen(name.len());
    le_bytes(ino as u64) + le_bytes(seq as u64) + le16_bytes(rl as u16) + seq![if is_dir { 4u8 } else { 8u8 }] + name + zeros(
        (rl - 19 - name.len()) as nat,
    )
}

/// Inode `ino` is a directory (false when it cannot be read).
pub open spec fn ino_is_dir(k: Kernel, ino: u32) -> bool {
    match k.vfs.root {
        Some(fs) => match spec_inode(fs, k.vfs.dev, ino) {
            Some(i) => model_is_dir(i),
            None => false,
        },
        None => false,
    }
}

/// The records for entries `start + i ..` of `es` (at most 32 in all),
/// while they fit in `cap` bytes with `used` already taken: the bytes,
/// and how many entries went in.
pub open spec fn dents(k: Kernel, es: Seq<(Seq<u8>, u32)>, start: nat, cap: nat, i: nat, used: nat) -> (Seq<u8>, nat)
    decreases 32 - i,
{
    if i >= 32 || start + i >= es.len() {
        (Seq::empty(), i)
    } else {
        let (name, ino) = es[(start + i) as int];
        let rl = reclen(name.len());
        if used + rl > cap {
            (Seq::empty(), i)
        } else {
            let rest = dents(k, es, start, cap, i + 1, used + rl);
            (dirent64(ino, start + i + 1, name, ino_is_dir(k, ino)) + rest.0, rest.1)
        }
    }
}

/// The record of one entry.
fn dirent_record(k: &Kernel, ino: u32, seq: u64, name: &Vec<u8>) -> (r: Vec<u8>)
    requires
        k.wf(),
        name@.len() <= 4096,
    ensures
        r@ == dirent64(ino, seq as nat, name@, ino_is_dir(*k, ino)),
        r@.len() == reclen(name@.len()),
{
    let is_dir = match crate::fs::inode(&k.vfs.root, &k.vfs.dev, ino) {
        Ok(i) => i.is_dir(),
        Err(_) => false,
    };
    let x = 19 + name.len() + 1 + 7;
    let rl = x & !7usize;
    assert(rl == x / 8 * 8) by (bit_vector)
        requires
            rl == x & !7usize,
    ;
    let mut r = u64_le(ino as u64);
    let b2 = u64_le(seq);
    crate::text::push_bytes(&mut r, b2.as_slice());
    let rl16 = rl as u16;
    r.push((rl16 & 0xff) as u8);
    r.push((rl16 >> 8u16) as u8);
    r.push(if is_dir { 4u8 } else { 8u8 });
    crate::text::push_bytes(&mut r, name.as_slice());
    let pad = rl - 19 - name.len();
    let mut j: usize = 0;
    let ghost base = r@;
    while j < pad
        invariant
            j <= pad,
            r@ == base + zeros(j as nat),
        decreases pad - j,
    {
        r.push(0u8);
        j = j + 1;
        assert(r@ =~= base + zeros(j as nat));
    }
    assert(r@ =~= dirent64(ino, seq as nat, name@, ino_is_dir(*k, ino)));
    r
}

/// The records `dents` describes, built.
fn build_dents(k: &Kernel, es: &Vec<(Vec<u8>, u32)>, start: usize, cap: usize) -> (r: (Vec<u8>, usize))
    requires
        k.wf(),
        cap <= 512,
        forall|j: int| 0 <= j < es@.len() ==> (#[trigger] es@[j]).0@.len() <= 60,
    ensures
        (r.0@, r.1 as nat) == dents(*k, es@.map_values(|e: (Vec<u8>, u32)| (e.0@, e.1)), start as nat, cap as nat, 0, 0),
        r.1 <= 32,
        start + r.1 <= es@.len() || r.1 == 0,
{
    let ghost sv = es@.map_values(|e: (Vec<u8>, u32)| (e.0@, e.1));
    let mut out: Vec<u8> = Vec::new();
    let mut i: usize = 0;
    let mut used: usize = 0;
    let mut go = true;
    while go && i < 32 && start < es.len() && i < es.len() - start
        invariant
            k.wf(),
            cap <= 512,
            sv == es@.map_values(|e: (Vec<u8>, u32)| (e.0@, e.1)),
            forall|j: int| 0 <= j < es@.len() ==> (#[trigger] es@[j]).0@.len() <= 60,
            i <= 32,
            used <= cap,
            used == out@.len(),
            start + i <= es@.len() || i == 0,
            go ==> dents(*k, sv, start as nat, cap as nat, 0, 0) == (out@ + dents(*k, sv, start as nat, cap as nat, i as nat, used as nat).0, dents(*k, sv, start as nat, cap as nat, i as nat, used as nat).1),
            !go ==> dents(*k, sv, start as nat, cap as nat, 0, 0) == (out@, i as nat),
        decreases 33 - i - if go { 0int } else { 1int },
    {
        let entry = &es[start + i];
        let rl = (19 + entry.0.len() + 1 + 7) & !7usize;
        let x = 19 + entry.0.len() + 1 + 7;
        assert(rl == x / 8 * 8) by (bit_vector)
            requires
                rl == x & !7usize,
        ;
        assert(sv[start + i] == (entry.0@, entry.1));
        if used + rl > cap {
            go = false;
        } else {
            let rec = dirent_record(k, entry.1, (start + i + 1) as u64, &entry.0);
            let ghost before = out@;
            crate::text::push_bytes(&mut out, rec.as_slice());
            used = used + rl;
            i = i + 1;
            assert(out@ =~= before + rec@);
            proof {
                let d = dents(*k, sv, start as nat, cap as nat, (i - 1) as nat, (used - rl) as nat);
                let d2 = dents(*k, sv, start as nat, cap as nat, i as nat, used as nat);
                assert(d == (rec@ + d2.0, d2.1));
                assert(before + d.0 =~= out@ + d2.0);
            }
        }
    }
    proof {
        if go {
            assert(dents(*k, sv, start as nat, cap as nat, i as nat, used as nat) == (Seq::<u8>::empty(), i as nat));
            assert(out@ + Seq::<u8>::empty() =~= out@);
        }
    }
    (out, i)
}

/// What `sys_getdents64` leaves: the kernel before (`k0`) and after (`k1`), and its result.
pub open spec fn sys_getdents64_post(k0: Kernel, k1: Kernel, r: isize) -> bool {
    &&& k1.ready()
    &&& k1.vfs == k0.vfs
    &&& k1.net == k0.net
    &&& k1.procs.current == k0.procs.current
    &&& k1.procs.frames == k0.procs.frames
    &&& k1.mem.alloc == k0.mem.alloc
    &&& k0.mem.same_entries(&k1.mem)
    &&& ({
            let fd = arg(k0, 0);
            let uva = arg(k0, 1);
            let len = arg(k0, 2);
            let root = cur(k0).root_pa as int;
            if fd < 3 {
                r == EBADF && k1.procs == k0.procs
            } else {
                match fd_entry(k0, fd) {
                    None => r == EBADF && k1.procs == k0.procs,
                    Some(f) => match f.kind {
                        FdKind::File { ino } => match k0.vfs.root {
                            None => r == EBADF && k1.procs == k0.procs,
                            Some(fs) => match spec_inode(fs, k0.vfs.dev, ino) {
                                None => r == EBADF && k1.procs == k0.procs,
                                Some(dir) => if !model_is_dir(dir) {
                                    r == ENOTDIR && k1.procs == k0.procs
                                } else {
                                    match spec_readdir(k0.vfs.dev, dir, dir.size as nat / 64) {
                                        None => r == EIO && k1.procs == k0.procs,
                                        Some(es) => {
                                            let cap = if len < 512 { len as nat } else { 512nat };
                                            let d = dents(k0, es, f.pos as nat, cap, 0, 0);
                                            let ok = d.0.len() == 0 || (range_error(uva, d.0.len()) is None && readable(k0.mem, root, uva, d.0.len()));
                                            if ok {
                                                &&& r == d.0.len() as isize
                                                &&& cur(k1).files@ =~= cur(k0).files@.update(fd - 3, Some(OpenFile { pos: (f.pos + d.1) as usize, ..f }))
                                                &&& phys_distinct(k0.mem, root, uva, d.0.len()) ==> user_bytes(k1.mem, root, uva, d.0.len()) =~= d.0
                                            } else {
                                                r == EFAULT && k1.procs == k0.procs
                                            }
                                        },
                                    }
                                },
                            },
                        },
                        _ => r == ENOTDIR && k1.procs == k0.procs,
                    },
                }
            }
        })
}

/// getdents64(fd, buf, len): fill the caller's buffer with linux_dirent64
/// records for the directory behind `fd`, from its current entry on (at
/// most 32 entries and 512 bytes per call); the bytes written.
pub fn sys_getdents64(k: &mut Kernel) -> (r: isize)
    requires
        old(k).ready(),
    ensures
        sys_getdents64_post(*old(k), *final(k), r),
{
    let a = args(k);
    let fd = a[0];
    let uva = a[1];
    let len = a[2];
    if fd < 3 {
        return EBADF;
    }
    let f = match cur_file(k, fd) {
        Some(f) => f,
        None => {
            return EBADF;
        },
    };
    let ino = match f.kind {
        FdKind::File { ino } => ino,
        _ => {
            return ENOTDIR;
        },
    };
    let start = f.pos;
    let dir = match crate::fs::inode(&k.vfs.root, &k.vfs.dev, ino) {
        Ok(d) => d,
        Err(_) => {
            return EBADF;
        },
    };
    if !dir.is_dir() {
        return ENOTDIR;
    }
    let es = match crate::fs::readdir(&k.vfs.root, &k.vfs.dev, &dir) {
        Ok(es) => es,
        Err(_) => {
            return EIO;
        },
    };
    proof {
        crate::fs::minix3::lemma_readdir_names(k.vfs.dev, dir@, dir.size as nat / 64);
        assert forall|j: int| 0 <= j < es@.len() implies (#[trigger] es@[j]).0@.len() <= 60 by {
            assert(es@.map_values(|e: (Vec<u8>, u32)| (e.0@, e.1))[j] == (es@[j].0@, es@[j].1));
        }
    }
    let cap = if len < 512 { len } else { 512 };
    let _n = es.len();
    let (out, consumed) = build_dents(k, &es, start, cap);
    if out.len() > 0 {
        let root = cur_root(k);
        if copy_out(&mut k.mem, &root, uva, out.as_slice()).is_err() {
            return EFAULT;
        }
    }
    set_pos(k, fd, start + consumed);
    out.len() as isize
}


/// The power state that writing the bytes `b` to an NCE device asks for.
pub open spec fn requested_power(b: Seq<u8>) -> Option<PowerState> {
    state_of_name(encode_utf8(str_trim(decode_utf8(b))))
}

/// What `nce_write` leaves: the kernel before (`k0`) and after (`k1`), and its result.
pub open spec fn nce_write_post(k0: Kernel, k1: Kernel, fd: usize, uva: usize, len: usize, r: isize) -> bool {
    &&& k1.ready()
    &&& k1.procs == k0.procs
    &&& k1.mem == k0.mem
    &&& k1.vfs == k0.vfs
    &&& k1.net == k0.net
    &&& k1.console_out@ =~= k0.console_out@
    &&& k1.nces@.len() == k0.nces@.len()
    &&& match fd_entry(k0, fd) {
            None => r == EBADF && k1.nces@ =~= k0.nces@,
            Some(f) => match f.kind {
                FdKind::Nce { slot } => {
                    let n = if len < 16 { len as nat } else { 16nat };
                    let root = cur(k0).root_pa as int;
                    let b = user_bytes(k0.mem, root, uva, n);
                    if !(range_error(uva, n) is None && readable(k0.mem, root, uva, n)) {
                        r == EFAULT && k1.nces@ =~= k0.nces@
                    } else if !valid_utf8(b) || requested_power(b) is None {
                        r == EINVAL && k1.nces@ =~= k0.nces@
                    } else {
                        let st = requested_power(b)->0;
                        &&& slot < k0.nces@.len() && (k0.nces@[slot as int].state == st
                            || crate::nce::power::spec_can_transition(k0.nces@[slot as int].state, st)) ==> r == n as isize
                            && k1.nces@ =~= (if k0.nces@[slot as int].state == st { k0.nces@ } else {
                            k0.nces@.update(slot as int, crate::nce::Nce { state: st, ..k0.nces@[slot as int] })
                        })
                        &&& !(slot < k0.nces@.len() && (k0.nces@[slot as int].state == st
                            || crate::nce::power::spec_can_transition(k0.nces@[slot as int].state, st))) ==> r == EINVAL
                            && k1.nces@ =~= k0.nces@
                    }
                },
                _ => r == EROFS && k1.nces@ =~= k0.nces@,
            },
        }
}

/// Writing a power-state name ("idle", "active", "turbo") to /dev/nceN
/// requests that transition; regular files are read-only (EROFS).
pub fn nce_write(k: &mut Kernel, fd: usize, uva: usize, len: usize) -> (r: isize)
    requires
        old(k).ready(),
    ensures
        nce_write_post(*old(k), *final(k), fd, uva, len, r),
{
    let f = match cur_file(k, fd) {
        Some(f) => f,
        None => {
            return EBADF;
        },
    };
    let slot = match f.kind {
        FdKind::Nce { slot } => slot,
        _ => {
            return EROFS;
        },
    };
    let n = if len < 16 { len } else { 16 };
    let mut buf: Vec<u8> = vec![0u8; n];
    let root = cur_root(k);
    if copy_in(&k.mem, &root, uva, buf.as_mut_slice()).is_err() {
        return EFAULT;
    }
    let text = match str_from_utf8(buf.as_slice()) {
        Some(t) => t,
        None => {
            return EINVAL;
        },
    };
    proof {
        encode_utf8_decode_utf8(text@);
    }
    let state = match PowerState::parse(text) {
        Some(s) => s,
        None => {
            return EINVAL;
        },
    };
    match crate::nce::set_power(&mut k.nces, slot, state) {
        Ok(Some(db)) => {
            k.doorbells.push(db);
            n as isize
        },
        Ok(None) => n as isize,
        Err(_) => EINVAL,
    }
}

/// What `sys_write` leaves: the kernel before (`k0`) and after (`k1`), and its result.
pub open spec fn sys_write_post(k0: Kernel, k1: Kernel, r: isize) -> bool {
    &&& k1.ready()
    &&& k1.procs == k0.procs
    &&& k1.mem == k0.mem
    &&& k1.vfs == k0.vfs
    &&& k1.net == k0.net
    &&& ({
            let fd = arg(k0, 0) as isize;
            let uva = arg(k0, 1);
            let len = arg(k0, 2);
            let root = cur(k0).root_pa as int;
            if fd == 1 || fd == 2 {
                let ok = len == 0 || (range_error(uva, len as nat) is None && readable(k0.mem, root, uva, len as nat));
                &&& ok ==> r == len as isize && k1.console_out@ =~= k0.console_out@ + user_bytes(k0.mem, root, uva, len as nat)
                &&& !ok ==> r == EFAULT && exists|j: nat| {
                    &&& j % 256 == 0
                    &&& j < len
                    &&& user_readable(k0.mem, root, uva, j)
                    &&& !user_readable(k0.mem, root, uva, if j + 256 < len { (j + 256) as nat } else { len as nat })
                    &&& #[trigger] k1.console_out@ =~= k0.console_out@ + user_bytes(k0.mem, root, uva, j)
                }
                &&& k1.nces@ =~= k0.nces@
            } else if fd >= 3 {
                nce_write_post(k0, k1, fd as usize, uva, len, r)
            } else {
                r == EBADF && k1 == k0
            }
        })
}

/// write(fd, buf, len): fds 1 and 2 go to the console, 256 bytes at a
/// time (bytes already copied stay written when a later part faults);
/// fds from 3 write NCE devices. EBADF otherwise.
pub fn sys_write(k: &mut Kernel) -> (r: isize)
    requires
        old(k).ready(),
    ensures
        sys_write_post(*old(k), *final(k), r),
{
    let a = args(k);
    let fd = a[0] as isize;
    let uva = a[1];
    let len = a[2];
    if fd >= 3 {
        return nce_write(k, fd as usize, uva, len);
    }
    if fd != 1 && fd != 2 {
        return EBADF;
    }
    let root = cur_root(k);
    let ghost rt = root.pa as int;
    let ghost out0 = k.console_out@;
    let mut done: usize = 0;
    while done < len
        invariant
            k.ready(),
            k.procs == old(k).procs,
            k.mem == old(k).mem,
            k.vfs == old(k).vfs,
            k.net == old(k).net,
            k.nces == old(k).nces,
            rt == root.pa as int,
            rt == cur(*old(k)).root_pa as int,
            out0 == old(k).console_out@,
            (arg(*old(k), 0) as isize) == 1 || (arg(*old(k), 0) as isize) == 2,
            len == arg(*old(k), 2),
            uva == arg(*old(k), 1),
            done <= len,
            done < len ==> done % 256 == 0,
            done > 0 ==> range_error(uva, done as nat) is None,
            readable(k.mem, rt, uva, done as nat),
            k.console_out@ == out0 + user_bytes(k.mem, rt, uva, done as nat),
        decreases len - done,
    {
        let n = if 256 < len - done { 256 } else { len - done };
        let mut chunk: Vec<u8> = vec![0u8; n];
        let at = match uva.checked_add(done) {
            Some(x) => x,
            None => {
                return EFAULT;
            },
        };
        if copy_in(&k.mem, &root, at, chunk.as_mut_slice()).is_err() {
            proof {
                if user_readable(k.mem, rt, uva, (done + n) as nat) {
                    assert forall|j: int| 0 <= j < n implies #[trigger] crate::mem::uaccess::user_loc(k.mem, rt, (at + j) as usize) is Some by {
                        assert((at + j) as usize == (uva + (done + j)) as usize);
                        assert(crate::mem::uaccess::user_loc(k.mem, rt, (uva + (done + j)) as usize) is Some);
                    }
                }
                assert(user_readable(k.mem, rt, uva, done as nat));
                assert(k.console_out@ == out0 + user_bytes(k.mem, rt, uva, done as nat));
            }
            return EFAULT;
        }
        let ghost before = k.console_out@;
        crate::text::push_bytes(&mut k.console_out, chunk.as_slice());
        proof {
            assert forall|j: int| 0 <= j < done + n implies #[trigger] crate::mem::uaccess::user_loc(k.mem, rt, (uva + j) as usize) is Some by {
                if j >= done {
                    assert((uva + j) as usize == (at + (j - done)) as usize);
                }
            }
            assert(k.console_out@ =~= out0 + user_bytes(k.mem, rt, uva, (done + n) as nat)) by {
                assert forall|j: int| done <= j < done + n implies chunk@[j - done] == #[trigger] user_bytes(k.mem, rt, uva, (done + n) as nat)[j] by {
                    assert((uva + j) as usize == (at + (j - done)) as usize);
                }
            }
        }
        done = done + n;
    }
    len as isize
}


/// `[uva, uva + n)` lies in the user window and is mapped; always so
/// when it is empty.
pub open spec fn user_readable(m: Mem, root: int, uva: usize, n: nat) -> bool {
    n == 0 || (range_error(uva, n) is None && readable(m, root, uva, n))
}

/// What a network syscall leaves for its caller to wait on.
pub enum NetWait {
    /// Finished; the value for a0.
    Done(isize),
    /// A TCP handshake is under way on connection `idx`: poll the network
    /// and `connect_poll` until it answers, or give up with ETIMEDOUT.
    Connecting { idx: usize },
    /// Bytes `[buf, buf + len)` go out on connection `idx`, chunk by
    /// chunk (`tcp_send_chunk`, then `tcp_ack_poll` until acknowledged).
    Sending { idx: usize, buf: usize, len: usize },
    /// Waiting for stream bytes on connection `idx` (`tcp_recv_poll`).
    ReceivingTcp { idx: usize, buf: usize, len: usize },
    /// Waiting for a datagram on socket `idx` (`udp_recv_poll`).
    ReceivingUdp { idx: usize, buf: usize, len: usize, src_addr: usize },
}

/// The connections after pumping connection `idx`.
pub open spec fn pumped(t: Seq<Option<tcp::TcbModel>>, idx: usize) -> Seq<Option<tcp::TcbModel>> {
    match t[idx as int] {
        Some(c) => if idx < tcp::MAX_TCP { t.update(idx as int, Some(tcp::spec_pump(c))) } else { t },
        None => t,
    }
}

/// What `flush_tcp` leaves: connection `idx` pumped, its segments queued
/// for transmission, everything else as it was.
pub open spec fn flushed(k0: Kernel, k1: Kernel, idx: usize) -> bool {
    &&& k1.wf()
    &&& k1.procs == k0.procs
    &&& k1.mem == k0.mem
    &&& k1.vfs == k0.vfs
    &&& k1.net.sockets == k0.net.sockets
    &&& k1.net.tcp@ =~= pumped(k0.net.tcp@, idx)
}

/// Transmit what connection `idx` has queued (and its periodic
/// retransmission): the frames go to `net_out`.
pub fn flush_tcp(k: &mut Kernel, idx: usize)
    requires
        old(k).wf(),
    ensures
        flushed(*old(k), *final(k), idx),
{
    match tcp::pump(&mut k.net.tcp, idx) {
        None => {},
        Some((remote, segs)) => {
            let mut i: usize = 0;
            while i < segs.len()
                invariant
                    k.wf(),
                    k.procs == old(k).procs,
                    k.mem == old(k).mem,
                    k.vfs == old(k).vfs,
                    k.net.sockets == old(k).net.sockets,
                    k.net.tcp@ == old(k).net.tcp@.update(idx as int, Some(tcp::spec_pump(old(k).net.tcp@[idx as int]->0))),
                    idx < tcp::MAX_TCP,
                decreases segs@.len() - i,
            {
                if segs[i].len() <= 131072 - 40 {
                    match crate::net::send_tcp(&mut k.net, remote, segs[i].as_slice()) {
                        Ok(f) => {
                            k.net_out.push(f);
                        },
                        Err(_) => {},
                    }
                }
                i = i + 1;
            }
        },
    }
}

/// What `sys_connect` leaves: the kernel before (`k0`) and after (`k1`), and its result.
pub open spec fn sys_connect_post(k0: Kernel, k1: Kernel, r: NetWait) -> bool {
    &&& k1.ready()
    &&& k1.procs == k0.procs
    &&& k1.mem == k0.mem
    &&& k1.vfs == k0.vfs
    &&& k1.net.sockets == k0.net.sockets
    &&& ({
            let root = cur(k0).root_pa as int;
            let uva = arg(k0, 1);
            let sa = user_bytes(k0.mem, root, uva, 8);
            match tcp_of(k0, arg(k0, 0)) {
                None => r == NetWait::Done(EBADF),
                Some(idx) => if arg(k0, 2) < 8 {
                    r == NetWait::Done(EINVAL)
                } else if !(range_error(uva, 8) is None && readable(k0.mem, root, uva, 8)) {
                    r == NetWait::Done(EFAULT)
                } else if k0.net@.iface is None {
                    r == NetWait::Done(ENETUNREACH)
                } else if !(idx < tcp::MAX_TCP && k0.net.tcp@[idx as int] is Some) {
                    r == NetWait::Done(EBADF)
                } else {
                    &&& r == NetWait::Connecting { idx }
                    &&& k1.net.tcp@ =~= k0.net.tcp@.update(
                        idx as int,
                        Some(tcp::spec_connect(k0.net.tcp@[idx as int]->0, k1.net.tcp.iss, k0.net@.iface->0.ip, sa.subrange(4, 8), sa_port(sa))),
                    )
                }
            }
        })
}

/// connect(fd, sockaddr_in, len): start an active open of the TCP
/// connection behind `fd` to the address in the caller's sockaddr_in.
pub fn sys_connect(k: &mut Kernel) -> (r: NetWait)
    requires
        old(k).ready(),
    ensures
        sys_connect_post(*old(k), *final(k), r),
{
    let a = args(k);
    let idx = match tcp_idx(k, a[0]) {
        Some(i) => i,
        None => {
            return NetWait::Done(EBADF);
        },
    };
    if a[2] < 8 {
        return NetWait::Done(EINVAL);
    }
    let root = cur_root(k);
    let mut sa = [0u8; 8];
    if copy_in(&k.mem, &root, a[1], &mut sa).is_err() {
        return NetWait::Done(EFAULT);
    }
    let dst_port = sa[2] as u16 * 256 + sa[3] as u16;
    let dst_ip = [sa[4], sa[5], sa[6], sa[7]];
    assert(dst_ip@ =~= sa@.subrange(4, 8));
    let our = match crate::net::our_ip(&k.net) {
        Some(ip) => ip,
        None => {
            return NetWait::Done(ENETUNREACH);
        },
    };
    if !tcp::connect_begin(&mut k.net.tcp, idx, our, dst_ip, dst_port) {
        return NetWait::Done(EBADF);
    }
    NetWait::Connecting { idx }
}

/// State of connection `idx` (Closed when there is none).
pub open spec fn tcp_state_of(t: Seq<Option<tcp::TcbModel>>, idx: usize) -> tcp::State {
    if idx < tcp::MAX_TCP && t[idx as int] is Some {
        t[idx as int]->0.state
    } else {
        tcp::State::Closed
    }
}

/// Connection `idx` was reset by its peer.
pub open spec fn tcp_reset_of(t: Seq<Option<tcp::TcbModel>>, idx: usize) -> bool {
    idx < tcp::MAX_TCP && t[idx as int] is Some && t[idx as int]->0.reset
}

/// A pending connect's answer, if it has one: 0 once established,
/// ECONNREFUSED when the peer reset it, ETIMEDOUT when it closed otherwise.
pub open spec fn connect_result(t: Seq<Option<tcp::TcbModel>>, idx: usize) -> Option<isize> {
    match tcp_state_of(t, idx) {
        tcp::State::Established => Some(0isize),
        tcp::State::Closed => Some(if tcp_reset_of(t, idx) { ECONNREFUSED } else { ETIMEDOUT }),
        _ => None,
    }
}

/// One check of a pending connect: 0 once established, ECONNREFUSED
/// when the peer reset it, ETIMEDOUT when it closed otherwise.
pub fn connect_poll(k: &Kernel, idx: usize) -> (r: Option<isize>)
    requires
        k.wf(),
    ensures
        r == connect_result(k.net.tcp@, idx),
{
    match tcp::state(&k.net.tcp, idx) {
        tcp::State::Established => Some(0),
        tcp::State::Closed => Some(if tcp::was_reset(&k.net.tcp, idx) { ECONNREFUSED } else { ETIMEDOUT }),
        _ => None,
    }
}


/// What `sys_sendto` leaves: the kernel before (`k0`) and after (`k1`), and its result.
pub open spec fn sys_sendto_post(k0: Kernel, k1: Kernel, r: NetWait) -> bool {
    &&& k1.ready()
    &&& k1.procs == k0.procs
    &&& k1.mem == k0.mem
    &&& k1.vfs == k0.vfs
    &&& k1.net.tcp == k0.net.tcp
    &&& ({
            let fd = arg(k0, 0);
            let buf = arg(k0, 1);
            let len = arg(k0, 2);
            let root = cur(k0).root_pa as int;
            match tcp_of(k0, fd) {
                Some(t) => if tcp_state_of(k0.net.tcp@, t) != tcp::State::Established {
                    r == NetWait::Done(ENOTCONN)
                } else {
                    r == NetWait::Sending { idx: t, buf, len }
                },
                None => match udp_of(k0, fd) {
                    None => r == NetWait::Done(EBADF),
                    Some(idx) => if arg(k0, 5) < 8 {
                        r == NetWait::Done(EINVAL)
                    } else if len > 1472 {
                        r == NetWait::Done(EMSGSIZE)
                    } else if !(range_error(arg(k0, 4), 8) is None && readable(k0.mem, root, arg(k0, 4), 8)) {
                        r == NetWait::Done(EFAULT)
                    } else {
                        udp_sent(k0, k1, idx, r)
                    },
                },
            }
        })
}

/// The UDP datagram frame that goes out for `payload` from `src_port` to
/// `dst_ip:dst_port` through interface `i` with IP identification `ident`.
pub open spec fn udp_frame(i: crate::net::IfaceModel, dst_ip: Seq<u8>, dst_port: u16, src_port: u16, payload: Seq<u8>, ident: u16) -> Seq<u8> {
    crate::net::ethernet::spec_build(
        i.gateway_mac->0,
        i.mac,
        crate::net::ethernet::ETHERTYPE_IPV4,
        crate::net::ipv4::spec_build(
            i.ip,
            dst_ip,
            crate::net::ipv4::PROTO_UDP,
            crate::net::udp::spec_build(i.ip, dst_ip, src_port, dst_port, payload),
            ident,
        ),
    )
}

/// The UDP part of sendto once its arguments passed the checks: an
/// unbound socket is bound to an ephemeral port (EADDRINUSE when that
/// fails); the payload is read (EFAULT); one datagram to the destination
/// of the sockaddr goes to `net_out` when the interface is up with the
/// gateway resolved (ENETUNREACH otherwise), answering the length.
pub open spec fn udp_sent(k0: Kernel, k1: Kernel, idx: usize, r: NetWait) -> bool {
    let root = cur(k0).root_pa as int;
    let buf = arg(k0, 1);
    let len = arg(k0, 2);
    let sa = user_bytes(k0.mem, root, arg(k0, 4), 8);
    let dst_port = (sa[2] * 256 + sa[3]) as u16;
    let dst_ip = sa.subrange(4, 8);
    let t0 = k0.net.sockets;
    let live = idx < socket::MAX_SOCKETS && t0@[idx as int] is Some;
    let port0 = if live { t0@[idx as int]->0.local_port } else { 0u16 };
    let src = if port0 != 0 { port0 } else { socket::chosen_port(t0, 0) };
    let s1 = if port0 != 0 { t0@ } else { t0@.update(idx as int, Some(socket::SocketModel { local_port: src, ..t0@[idx as int]->0 })) };
    let payload = user_bytes(k0.mem, root, buf, len as nat);
    let iface = k0.net@.iface;
    if port0 == 0 && !live {
        r == NetWait::Done(EADDRINUSE) && k1.net.sockets@ =~= t0@ && k1.net.ip_ident == k0.net.ip_ident && k1.net_out == k0.net_out
    } else if !(range_error(buf, len as nat) is None && readable(k0.mem, root, buf, len as nat)) {
        r == NetWait::Done(EFAULT) && k1.net.sockets@ =~= s1 && k1.net_out == k0.net_out
    } else if iface is None || iface->0.gateway_mac is None {
        r == NetWait::Done(ENETUNREACH) && k1.net.sockets@ =~= s1 && k1.net.ip_ident == k0.net.ip_ident
            && k1.net_out == k0.net_out
    } else {
        &&& r == NetWait::Done(len as isize)
        &&& k1.net.sockets@ =~= s1
        &&& k1.net.ip_ident == vstd::wrapping::u16_specs::wrapping_add(k0.net.ip_ident, 1)
        &&& k1.net_out@.len() == k0.net_out@.len() + 1
        &&& k1.net_out@.take(k0.net_out@.len() as int) =~= k0.net_out@
        &&& k1.net_out@.last()@ =~= udp_frame(iface->0, dst_ip, dst_port, src, payload, k0.net.ip_ident)
    }
}

/// sendto/send(fd, buf, len, flags, dest_addr, addrlen). On a TCP socket
/// the destination is ignored (already connected) and the bytes go out
/// as `NetWait::Sending`; on UDP one datagram goes to `dest_addr`, and an
/// unbound socket is first bound to an ephemeral port.
pub fn sys_sendto(k: &mut Kernel) -> (r: NetWait)
    requires
        old(k).ready(),
    ensures
        sys_sendto_post(*old(k), *final(k), r),
{
    let a = args(k);
    if let Some(t) = tcp_idx(k, a[0]) {
        if tcp::state(&k.net.tcp, t) != tcp::State::Established {
            return NetWait::Done(ENOTCONN);
        }
        return NetWait::Sending { idx: t, buf: a[1], len: a[2] };
    }
    let idx = match socket_idx(k, a[0]) {
        Some(i) => i,
        None => {
            return NetWait::Done(EBADF);
        },
    };
    let buf = a[1];
    let len = a[2];
    if a[5] < 8 {
        return NetWait::Done(EINVAL);
    }
    if len > 1472 {
        return NetWait::Done(EMSGSIZE);
    }
    let root = cur_root(k);
    let mut sa = [0u8; 8];
    if copy_in(&k.mem, &root, a[4], &mut sa).is_err() {
        return NetWait::Done(EFAULT);
    }
    let dst_port = sa[2] as u16 * 256 + sa[3] as u16;
    let dst_ip = [sa[4], sa[5], sa[6], sa[7]];
    proof {
        assert(dst_ip@ =~= sa@.subrange(4, 8));
    }
    let mut src_port = socket::local_port(&k.net.sockets, idx);
    if src_port == 0 {
        match socket::bind(&mut k.net.sockets, idx, 0) {
            Some(p) => {
                src_port = p;
            },
            None => {
                return NetWait::Done(EADDRINUSE);
            },
        }
    }
    let mut payload: Vec<u8> = vec![0u8; len];
    if copy_in(&k.mem, &root, buf, payload.as_mut_slice()).is_err() {
        return NetWait::Done(EFAULT);
    }
    match crate::net::send_udp(&mut k.net, dst_ip, dst_port, src_port, payload.as_slice()) {
        Ok(frame) => {
            let ghost before = k.net_out@;
            k.net_out.push(frame);
            proof {
                assert(k.net_out@.take(before.len() as int) =~= before);
            }
            NetWait::Done(len as isize)
        },
        Err(_) => NetWait::Done(ENETUNREACH),
    }
}

/// What `tcp_send_chunk` leaves: the kernel before (`k0`) and after (`k1`), and its result.
pub open spec fn tcp_send_chunk_post(k0: Kernel, k1: Kernel, idx: usize, buf: usize, len: usize, sent: usize, r: Result<usize, isize>) -> bool {
    &&& k1.ready()
    &&& k1.procs == k0.procs
    &&& k1.mem == k0.mem
    &&& k1.vfs == k0.vfs
    &&& k1.net.sockets == k0.net.sockets
    &&& ({
            let chunk = if len - sent < 1024 { (len - sent) as nat } else { 1024nat };
            let root = cur(k0).root_pa as int;
            let ok = buf + sent <= usize::MAX && range_error((buf + sent) as usize, chunk) is None && readable(k0.mem, root, (buf + sent) as usize, chunk);
            if !ok {
                r == Err::<usize, isize>(EFAULT) && k1.net.tcp == k0.net.tcp
            } else if tcp_state_of(k0.net.tcp@, idx) != tcp::State::Established {
                r == Err::<usize, isize>(ENOTCONN) && k1.net.tcp@ =~= k0.net.tcp@
            } else {
                &&& r == Ok::<usize, isize>(chunk as usize)
                &&& k1.net.tcp@ =~= k0.net.tcp@.update(idx as int, Some(tcp::spec_send(k0.net.tcp@[idx as int]->0, user_bytes(k0.mem, root, (buf + sent) as usize, chunk))))
            }
        })
}

/// Queue the next chunk (up to 1024 bytes) of a TCP send: bytes
/// `[buf + sent, buf + sent + chunk)` of the caller; the chunk size, or
/// EFAULT / ENOTCONN.
pub fn tcp_send_chunk(k: &mut Kernel, idx: usize, buf: usize, len: usize, sent: usize) -> (r: Result<usize, isize>)
    requires
        old(k).ready(),
        sent < len,
    ensures
        tcp_send_chunk_post(*old(k), *final(k), idx, buf, len, sent, r),
{
    let chunk = if len - sent < 1024 { len - sent } else { 1024 };
    let at = match buf.checked_add(sent) {
        Some(x) => x,
        None => {
            return Err(EFAULT);
        },
    };
    let root = cur_root(k);
    let mut payload: Vec<u8> = vec![0u8; chunk];
    if copy_in(&k.mem, &root, at, payload.as_mut_slice()).is_err() {
        return Err(EFAULT);
    }
    if !tcp::send_data(&mut k.net.tcp, idx, payload.as_slice()) {
        return Err(ENOTCONN);
    }
    Ok(chunk)
}

/// A pending send's answer, if it has one: ECONNRESET after a reset, 0
/// once every byte sent is acknowledged.
pub open spec fn ack_result(t: Seq<Option<tcp::TcbModel>>, idx: usize) -> Option<isize> {
    if tcp_reset_of(t, idx) {
        Some(ECONNRESET)
    } else if !(idx < tcp::MAX_TCP && t[idx as int] is Some) || t[idx as int]->0.snd_una == t[idx as int]->0.snd_nxt {
        Some(0isize)
    } else {
        None
    }
}

/// One check of a pending TCP send: ECONNRESET when the peer reset the
/// connection, 0 once every byte sent is acknowledged.
pub fn tcp_ack_poll(k: &Kernel, idx: usize) -> (r: Option<isize>)
    requires
        k.wf(),
    ensures
        r == ack_result(k.net.tcp@, idx),
{
    if tcp::was_reset(&k.net.tcp, idx) {
        return Some(ECONNRESET);
    }
    if tcp::send_complete(&k.net.tcp, idx) {
        return Some(0);
    }
    None
}

/// recvfrom/recv(fd, buf, len, flags, src_addr, ...): TCP sockets wait for
/// stream bytes, UDP sockets for one datagram.
pub fn sys_recvfrom(k: &Kernel) -> (r: NetWait)
    requires
        k.ready(),
    ensures
        r == match tcp_of(*k, arg(*k, 0)) {
            Some(t) => NetWait::ReceivingTcp { idx: t, buf: arg(*k, 1), len: arg(*k, 2) },
            None => match udp_of(*k, arg(*k, 0)) {
                Some(u) => NetWait::ReceivingUdp { idx: u, buf: arg(*k, 1), len: arg(*k, 2), src_addr: arg(*k, 4) },
                None => NetWait::Done(EBADF),
            },
        },
{
    let a = args(k);
    if let Some(t) = tcp_idx(k, a[0]) {
        return NetWait::ReceivingTcp { idx: t, buf: a[1], len: a[2] };
    }
    match socket_idx(k, a[0]) {
        Some(u) => NetWait::ReceivingUdp { idx: u, buf: a[1], len: a[2], src_addr: a[4] },
        None => NetWait::Done(EBADF),
    }
}

/// What `tcp_recv_poll` leaves: the kernel before (`k0`) and after (`k1`), and its result.
pub open spec fn tcp_recv_poll_post(k0: Kernel, k1: Kernel, idx: usize, buf: usize, len: usize, r: Option<isize>) -> bool {
    &&& k1.ready()
    &&& k1.procs == k0.procs
    &&& k1.vfs == k0.vfs
    &&& k1.net.sockets == k0.net.sockets
    &&& k1.mem.alloc == k0.mem.alloc
    &&& k0.mem.same_entries(&k1.mem)
    &&& ({
            let t = k0.net.tcp@;
            let live = idx < tcp::MAX_TCP && t[idx as int] is Some;
            let cap = if len < 1024 { len as nat } else { 1024nat };
            let n = if live { if cap < t[idx as int]->0.rx.len() { cap } else { t[idx as int]->0.rx.len() } } else { 0 };
            let root = cur(k0).root_pa as int;
            if n > 0 {
                let ok = range_error(buf, n) is None && readable(k0.mem, root, buf, n);
                &&& r == Some(if ok { n as isize } else { EFAULT })
                &&& k1.net.tcp@ =~= t.update(idx as int, Some(tcp::TcbModel { rx: t[idx as int]->0.rx.skip(n as int), ..t[idx as int]->0 }))
                &&& ok && phys_distinct(k0.mem, root, buf, n) ==> user_bytes(k1.mem, root, buf, n) =~= t[idx as int]->0.rx.take(n as int)
            } else {
                &&& k1.net.tcp@ =~= t
                &&& r == if tcp_reset_of(t, idx) {
                    Some(ECONNRESET)
                } else if !live || (t[idx as int]->0.peer_fin && t[idx as int]->0.rx.len() == 0) {
                    Some(0isize)
                } else {
                    None
                }
            }
        })
}

/// One check of a pending TCP receive: the next in-order bytes (up to
/// `len` and 1024) go to the caller; ECONNRESET after a reset, 0 at the
/// end of the stream, `None` to keep waiting.
pub fn tcp_recv_poll(k: &mut Kernel, idx: usize, buf: usize, len: usize) -> (r: Option<isize>)
    requires
        old(k).ready(),
    ensures
        tcp_recv_poll_post(*old(k), *final(k), idx, buf, len, r),
{
    let cap = if len < 1024 { len } else { 1024 };
    let mut tmp: Vec<u8> = vec![0u8; cap];
    let got = tcp::recv_buffered(&mut k.net.tcp, idx, tmp.as_mut_slice());
    proof {
        if got == 0 && idx < tcp::MAX_TCP && old(k).net.tcp@[idx as int] is Some {
            let c = old(k).net.tcp@[idx as int]->0;
            assert(c.rx.skip(0) =~= c.rx);
            assert(tcp::TcbModel { rx: c.rx.skip(0), ..c } == c);
            assert(k.net.tcp@ =~= old(k).net.tcp@);
        }
    }
    if got > 0 {
        let part = slice_of(tmp.as_slice(), 0, got);
        let root = cur_root(k);
        if copy_out(&mut k.mem, &root, buf, part.as_slice()).is_err() {
            return Some(EFAULT);
        }
        return Some(got as isize);
    }
    if tcp::was_reset(&k.net.tcp, idx) {
        return Some(ECONNRESET);
    }
    if tcp::at_eof(&k.net.tcp, idx) {
        return Some(0);
    }
    None
}

/// The `sockaddr_in` for a datagram's source.
pub open spec fn source_addr(ip: Seq<u8>, port: u16) -> Seq<u8> {
    seq![AF_INET as u8, 0u8, (port / 256) as u8, (port % 256) as u8, ip[0], ip[1], ip[2], ip[3], 0u8, 0u8, 0u8, 0u8, 0u8, 0u8, 0u8, 0u8]
}

/// What `udp_recv_poll` leaves: the kernel before (`k0`) and after (`k1`), and its result.
pub open spec fn udp_recv_poll_post(k0: Kernel, k1: Kernel, idx: usize, buf: usize, len: usize, src_addr: usize, r: Option<isize>) -> bool {
    &&& k1.ready()
    &&& k1.procs == k0.procs
    &&& k1.vfs == k0.vfs
    &&& k1.net.tcp == k0.net.tcp
    &&& k1.mem.alloc == k0.mem.alloc
    &&& k0.mem.same_entries(&k1.mem)
    &&& ({
            let s = k0.net.sockets@;
            if idx < socket::MAX_SOCKETS && s[idx as int] is Some && s[idx as int]->0.rx.len() > 0 {
                let d = s[idx as int]->0.rx[0];
                let n = if len < d.2.len() { len as nat } else { d.2.len() };
                let root = cur(k0).root_pa as int;
                let ok = range_error(buf, n) is None && readable(k0.mem, root, buf, n);
                &&& k1.net.sockets@ =~= s.update(idx as int, Some(socket::SocketModel { rx: s[idx as int]->0.rx.drop_first(), ..s[idx as int]->0 }))
                &&& r == Some(if ok { n as isize } else { EFAULT })
                &&& ok && src_addr == 0 && phys_distinct(k0.mem, root, buf, n)
                    ==> user_bytes(k1.mem, root, buf, n) =~= d.2.take(n as int)
                &&& ok && src_addr != 0 && range_error(src_addr, 16) is None && readable(k0.mem, root, src_addr, 16)
                    && phys_distinct(k0.mem, root, src_addr, 16)
                    ==> user_bytes(k1.mem, root, src_addr, 16) =~= source_addr(d.0, d.1)
            } else {
                r is None && k1.net.sockets@ =~= s && k1.mem == k0.mem
            }
        })
}

/// One check of a pending UDP receive: a queued datagram (truncated to
/// `len`) goes to the caller, its source to `src_addr` when that is not
/// null; the byte count, or EFAULT; `None` when nothing is queued.
pub fn udp_recv_poll(k: &mut Kernel, idx: usize, buf: usize, len: usize, src_addr: usize) -> (r: Option<isize>)
    requires
        old(k).ready(),
    ensures
        udp_recv_poll_post(*old(k), *final(k), idx, buf, len, src_addr, r),
{
    let d = match socket::recv(&mut k.net.sockets, idx) {
        Some(d) => d,
        None => {
            return None;
        },
    };
    let n = if len < d.data.len() { len } else { d.data.len() };
    let part = slice_of(d.data.as_slice(), 0, n);
    let root = cur_root(k);
    if copy_out(&mut k.mem, &root, buf, part.as_slice()).is_err() {
        return Some(EFAULT);
    }
    if src_addr != 0 {
        let p = d.src_port;
        let sa: [u8; 16] = [AF_INET as u8, 0, (p / 256) as u8, (p % 256) as u8, d.src_ip[0], d.src_ip[1], d.src_ip[2], d.src_ip[3], 0, 0, 0, 0, 0, 0, 0, 0];
        let ghost mid = k.mem;
        proof {
            assert forall|v: usize| #[trigger] user_loc(mid, root.pa as int, v) == user_loc(old(k).mem, root.pa as int, v) by {
                lemma_same_entries_walk(old(k).mem, mid, root.pa as int, v);
            }
            assert(sa@ =~= source_addr(d.src_ip@, d.src_port));
        }
        let _ = copy_out(&mut k.mem, &root, src_addr, &sa);
    }
    Some(n as isize)
}


/// "Too many open files": the descriptor table cannot grow further.
pub const EMFILE: isize = -24;

/// Size of the current process's descriptor table.
pub fn file_count(k: &Kernel) -> (r: usize)
    requires
        k.ready(),
    ensures
        r == cur(*k).files@.len(),
{
    match &k.procs.slots[k.procs.current] {
        Some(p) => p.files.len(),
        None => 0,
    }
}

/// Finish closing TCP connection `idx` after close(): flush its FIN and
/// free it.
pub fn close_tcp(k: &mut Kernel, idx: usize)
    requires
        old(k).ready(),
    ensures
        final(k).ready(),
        final(k).procs == old(k).procs,
        final(k).mem == old(k).mem,
        final(k).vfs == old(k).vfs,
        final(k).net.sockets == old(k).net.sockets,
        final(k).net.tcp@ == if idx < tcp::MAX_TCP { old(k).net.tcp@.update(idx as int, None) } else { old(k).net.tcp@ },
{
    flush_tcp(k, idx);
    tcp::free(&mut k.net.tcp, idx);
    proof {
        if idx < tcp::MAX_TCP {
            assert(k.net.tcp@ =~= old(k).net.tcp@.update(idx as int, None));
        }
    }
}

} // verus!
