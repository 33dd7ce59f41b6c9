//! Process Control Blocks, the process table, and lifecycle operations
//! (spawn/fork/exec/exit/wait).
//!
//! Concurrency model: a single scheduling hart and a non-preemptible
//! kernel. Blocking syscalls park the process and hand the hart to the
//! scheduler; whoever unblocks them writes the syscall result directly
//! into the sleeper's trap frame. The table, the trap frames and the
//! slot of the current process are explicit state (`ProcTable`).

use vstd::prelude::*;
use vstd::string::StringSliceAdditionalSpecFns;
use crate::trap::context::TrapFrame;
use crate::mem::layout::PAGE_SIZE;
use crate::mem::uaccess::{copy_out, range_error, readable, user_bytes, phys_distinct, user_loc, user_byte};
use crate::mem::mmu::{user_tree, keeps_links, lemma_keeps_links_trans, leaves_allocated, user_slot_va, lemma_fresh_frame_keeps, grows_fresh, fresh_tree, lemma_grows_same, lemma_grows_trans, Mem, PageTable, only_frees, PTE_R, PTE_U, PTE_W, keeps_used, is_frame_pa, frame_of, new_user_root, ERR_OOM,
    ERR_MAPPED, lemma_keeps_used_trans, lemma_booted_kept};
use crate::elf::{self, header_error, scan_headers, entry_of, memory_error, segs_in_user, holds_segments, shows_segments, segs_mapped_as, phnum};
use crate::fs::{self, Vfs, disk_program};
use crate::fs::ramfs::{spec_find, files_view};
use crate::text::{dec_digits, pad_left, pad_right, push_dec, push_bytes, push_right_aligned, push_left_aligned, dec};
use vstd::utf8::valid_utf8;

verus! {

pub const MAX_PROCS: usize = 64;
/// Slot index meaning "no process".
pub const NO_PROC: usize = usize::MAX;

pub const USER_STACK_TOP: usize = 0x7fff_f000;
pub const USER_STACK_PAGES: usize = 16;
pub const MMAP_BASE: usize = 0x5000_0000;

#[derive(Clone, Copy, PartialEq, Eq, Debug, Structural)]
pub enum ProcState {
    Ready,
    Running,
    /// Blocked in wait4 until a child exits.
    SleepChild,
    /// Blocked in read(0) until console input arrives.
    SleepConsole,
    /// Exited; PCB retained until the parent reaps it.
    Zombie,
}

impl ProcState {
    /// Short label for `ps`.
    pub fn as_str(&self) -> (r: &'static str)
        ensures
            r == match *self {
                ProcState::Ready => "ready",
                ProcState::Running => "run",
                ProcState::SleepChild => "wait",
                ProcState::SleepConsole => "sleep",
                ProcState::Zombie => "zombie",
            },
    {
        match self {
            ProcState::Ready => "ready",
            ProcState::Running => "run",
            ProcState::SleepChild => "wait",
            ProcState::SleepConsole => "sleep",
            ProcState::Zombie => "zombie",
        }
    }
}

/// What an fd >= 3 refers to.
#[derive(Clone, Copy, PartialEq, Eq, Debug, Structural)]
pub enum FdKind {
    /// Regular file or directory on the root filesystem.
    File { ino: u32 },
    /// NCE character device (/dev/nceN).
    Nce { slot: usize },
    /// UDP socket (index into the socket table).
    Socket { idx: usize },
    /// TCP connection (index into the TCP table).
    TcpSocket { idx: usize },
}

/// An open descriptor (fds 0-2 are the console and have no entry
/// here; fds from 3 index this table).
#[derive(Clone, Copy, PartialEq, Eq, Debug, Structural)]
pub struct OpenFile {
    pub kind: FdKind,
    /// Byte offset for files, entry index for directories.
    pub pos: usize,
}

pub struct Process {
    pub pid: usize,
    pub state: ProcState,
    /// Slot index of the parent (NO_PROC for init).
    pub parent: usize,
    /// Physical address of this process's root page table.
    pub root_pa: usize,
    pub exit_code: i32,
    /// wait4: user address to store the wstatus at on wake-up.
    pub wait_status_uva: usize,
    /// read(0): destination buffer while blocked on console input.
    pub read_buf_uva: usize,
    pub read_len: usize,
    pub next_mmap: usize,
    pub brk: usize,
    pub name: [u8; 16],
    /// Open files, indexed by fd - 3.
    pub files: Vec<Option<OpenFile>>,
    /// NCE affinity hint mask (bit n = wants NCE slot n proximity).
    pub nce_affinity: usize,
}

pub struct ProcTable {
    pub slots: Vec<Option<Process>>,
    pub next_pid: usize,
    pub last_run: usize,
    /// Saved user registers, one frame per slot.
    pub frames: Vec<TrapFrame>,
    /// Slot of the process currently in (or headed to) user mode.
    pub current: usize,
}

/// Every parent link names a slot, or no process, and every mmap
/// cursor is page-aligned.
pub open spec fn parents_ok(slots: Seq<Option<Process>>) -> bool {
    forall|i: int| 0 <= i < slots.len() && #[trigger] slots[i] is Some ==> (slots[i]->0.parent == NO_PROC
        || slots[i]->0.parent < MAX_PROCS) && slots[i]->0.next_mmap % PAGE_SIZE == 0
}

impl ProcTable {
    pub open spec fn wf(&self) -> bool {
        &&& self.slots@.len() == MAX_PROCS
        &&& self.frames@.len() == MAX_PROCS
        &&& self.last_run < MAX_PROCS
        &&& parents_ok(self.slots@)
    }

    /// The current slot holds a process.
    pub open spec fn has_current(&self) -> bool {
        &&& self.wf()
        &&& self.current < MAX_PROCS
        &&& self.slots@[self.current as int] is Some
    }

    /// The current process.
    pub open spec fn cur(&self) -> Process {
        self.slots@[self.current as int]->0
    }

    /// An empty table: every slot free, pids from 1, nobody current.
    pub fn new() -> (t: ProcTable)
        ensures
            t.wf(),
            forall|i: int| 0 <= i < MAX_PROCS ==> #[trigger] t.slots@[i] is None,
            t.next_pid == 1,
            t.last_run == 0,
            t.current == NO_PROC,
    {
        let mut slots: Vec<Option<Process>> = Vec::new();
        let mut frames: Vec<TrapFrame> = Vec::new();
        let mut i: usize = 0;
        while i < MAX_PROCS
            invariant
                i <= MAX_PROCS,
                slots@.len() == i,
                frames@.len() == i,
                forall|j: int| 0 <= j < i ==> #[trigger] slots@[j] is None,
            decreases MAX_PROCS - i,
        {
            slots.push(None);
            frames.push(TrapFrame::zeroed());
            i = i + 1;
        }
        ProcTable { slots, next_pid: 1, last_run: 0, frames, current: NO_PROC }
    }
}

/// `name` as stored in a PCB: its first 15 bytes, then a NUL; the rest
/// of the buffer as it was.
pub open spec fn named(old: Seq<u8>, name: Seq<u8>) -> Seq<u8> {
    let n = if name.len() < 15 { name.len() } else { 15 };
    Seq::new(16, |i: int| if i < n { name[i] } else if i == n { 0u8 } else { old[i] })
}

pub fn set_name(dst: &mut [u8; 16], name: &str)
    ensures
        final(dst)@ == named(old(dst)@, name.spec_bytes()),
{
    let b = name.as_bytes();
    let n = if b.len() < 15 { b.len() } else { 15 };
    let mut i: usize = 0;
    while i < n
        invariant
            n <= 15,
            n <= b@.len(),
            b@ == name.spec_bytes(),
            i <= n,
            dst@.len() == 16,
            forall|j: int| 0 <= j < i ==> #[trigger] dst@[j] == b@[j],
            forall|j: int| i <= j < 16 ==> #[trigger] dst@[j] == old(dst)@[j],
        decreases n - i,
    {
        dst[i] = b[i];
        i = i + 1;
    }
    dst[n] = 0;
    assert(dst@ =~= named(old(dst)@, name.spec_bytes()));
}

/// Number of occupied slots among the first `n`.
pub open spec fn live_count(slots: Seq<Option<Process>>, n: int) -> nat
    decreases n,
{
    if n <= 0 {
        0
    } else {
        live_count(slots, n - 1) + if slots[n - 1] is Some { 1nat } else { 0nat }
    }
}

/// Number of live processes (any non-empty slot).
pub fn count_active(t: &ProcTable) -> (r: usize)
    requires
        t.wf(),
    ensures
        r == live_count(t.slots@, MAX_PROCS as int),
{
    let mut n: usize = 0;
    let mut i: usize = 0;
    while i < MAX_PROCS
        invariant
            t.wf(),
            i <= MAX_PROCS,
            n == live_count(t.slots@, i as int),
            n <= i,
        decreases MAX_PROCS - i,
    {
        if t.slots[i].is_some() {
            n = n + 1;
        }
        i = i + 1;
    }
    n
}

/// (root_pa, pid) of the current process.
pub fn current_info(t: &ProcTable) -> (r: (usize, usize))
    requires
        t.has_current(),
    ensures
        r == (t.cur().root_pa, t.cur().pid),
{
    match &t.slots[t.current] {
        Some(p) => (p.root_pa, p.pid),
        None => (0, 0),
    }
}

/// Block the current process on console input; it leaves the CPU.
pub fn block_on_console(t: &mut ProcTable, buf_uva: usize, len: usize)
    requires
        old(t).has_current(),
    ensures
        final(t).wf(),
        final(t).current == NO_PROC,
        final(t).next_pid == old(t).next_pid,
        final(t).last_run == old(t).last_run,
        final(t).frames == old(t).frames,
        final(t).slots@.len() == MAX_PROCS,
        forall|i: int| 0 <= i < MAX_PROCS && i != old(t).current ==> #[trigger] final(t).slots@[i] == old(t).slots@[i],
        final(t).slots@[old(t).current as int] is Some,
        ({
            let p = final(t).slots@[old(t).current as int]->0;
            let q = old(t).cur();
            &&& p.state == ProcState::SleepConsole
            &&& p.read_buf_uva == buf_uva
            &&& p.read_len == len
            &&& p == Process { state: ProcState::SleepConsole, read_buf_uva: buf_uva, read_len: len, ..q }
        }),
{
    let cur = t.current;
    let mut p = t.slots.remove(cur);
    if let Some(ref mut q) = p {
        q.state = ProcState::SleepConsole;
        q.read_buf_uva = buf_uva;
        q.read_len = len;
    }
    t.slots.insert(cur, p);
    t.current = NO_PROC;
}


/// Put `v` in slot `i`; what was there.
pub fn replace_slot(slots: &mut Vec<Option<Process>>, i: usize, v: Option<Process>) -> (r: Option<Process>)
    requires
        i < old(slots)@.len(),
    ensures
        final(slots)@ == old(slots)@.update(i as int, v),
        r == old(slots)@[i as int],
{
    let r = slots.remove(i);
    slots.insert(i, v);
    assert(slots@ =~= old(slots)@.update(i as int, v));
    r
}

/// Slot `s` holds a process ready to run.
pub open spec fn is_ready(slots: Seq<Option<Process>>, s: int) -> bool {
    slots[s] is Some && slots[s]->0.state == ProcState::Ready
}


pub const ERR_ROOT_OOM: &'static str = "proc: out of memory for root table";
pub const ERR_STACK_OOM: &'static str = "proc: out of memory for stack";
pub const ERR_NO_PROGRAM: &'static str = "proc: no such program";
pub const ERR_TABLE_FULL: &'static str = "proc: process table full";

/// Why building the address space for `image` failed, when every
/// segment lies in the user window: the root table or the stack found no
/// free frame, the image's headers or segments are wrong, two mappings
/// overlap, or the frames ran out while loading.
pub open spec fn build_failure(image: Seq<u8>, e: &'static str, m0: Mem, m1: Mem) -> bool {
    ||| e == ERR_ROOT_OOM && m0.alloc.free_frames == 0
    ||| e == ERR_STACK_OOM && m1.alloc.free_frames == 0
    ||| e == crate::mem::mmu::ERR_MAPPED
    ||| memory_error(e) && m1.alloc.free_frames == 0
    ||| header_error(image) == Some(e)
    ||| header_error(image) is None && scan_headers(image, 0, 0) == Err::<int, &'static str>(e)
}

pub open spec fn build_error(image: Seq<u8>, e: &'static str) -> bool {
    ||| e == ERR_ROOT_OOM
    ||| e == ERR_STACK_OOM
    ||| memory_error(e)
    ||| header_error(image) == Some(e)
    ||| header_error(image) is None && scan_headers(image, 0, 0) == Err::<int, &'static str>(e)
}

/// Build a fresh user address space for `image` (plus a user stack):
/// `(root_pa, entry, brk)`.
pub fn build_address_space(m: &mut Mem, image: &[u8]) -> (r: Result<(usize, usize, usize), &'static str>)
    requires
        old(m).booted(),
    ensures
        final(m).booted(),
        final(m).kernel_root == old(m).kernel_root,
        final(m).alloc.first_frame == old(m).alloc.first_frame,
        keeps_used(*old(m), *final(m)),
        keeps_links(*old(m), *final(m)),
        match r {
            Ok((root_pa, entry, brk)) => {
                &&& is_frame_pa(root_pa as int)
                &&& !old(m).alloc@[frame_of(root_pa as int)]
                &&& final(m).alloc@[frame_of(root_pa as int)]
                &&& header_error(image@) is None
                &&& entry == entry_of(image@)
                &&& scan_headers(image@, 0, 0) == Ok::<int, &'static str>(brk as int)
                &&& segs_in_user(image@) ==> holds_segments(*final(m), root_pa as int, image@, phnum(image@))
                &&& segs_in_user(image@) ==> segs_mapped_as(*final(m), root_pa as int, image@, phnum(image@))
                &&& segs_in_user(image@) ==> user_tree(*final(m), root_pa as int) && fresh_tree(*old(m), *final(m), root_pa as int)
            },
            Err(e) => build_error(image@, e) && (segs_in_user(image@) ==> build_failure(image@, e, *old(m), *final(m))),
        },
{
    let root = match new_user_root(m) {
        Some(t) => t,
        None => {
            return Err(ERR_ROOT_OOM);
        },
    };
    let ghost m1 = *m;
    proof {
        crate::mem::mmu::lemma_zero_invalid();
        assert(user_tree(m1, root.pa as int));
    }
    let loaded = match elf::load(m, image, &root) {
        Ok(l) => l,
        Err(e) => {
            proof {
                lemma_keeps_links_trans(*old(m), m1, *m);
            }
            return Err(e);
        },
    };
    proof {
        lemma_keeps_links_trans(*old(m), m1, *m);
    }
    let stack_base = USER_STACK_TOP - USER_STACK_PAGES * PAGE_SIZE;
    let ghost img = image@;
    let mut i: usize = 0;
    while i < USER_STACK_PAGES
        invariant
            img == image@,
            segs_in_user(img) ==> user_tree(*m, root.pa as int) && holds_segments(*m, root.pa as int, img, phnum(img))
                && grows_fresh(m1, *m, root.pa as int) && segs_mapped_as(*m, root.pa as int, img, phnum(img)),
            m1.entry(frame_of(root.pa as int), 1) & crate::mem::mmu::PTE_V == 0,
            keeps_used(*old(m), m1),
            keeps_links(*old(m), *m),
            m.booted(),
            old(m).booted(),
            m.kernel_root == old(m).kernel_root,
            m.alloc.first_frame == old(m).alloc.first_frame,
            keeps_used(*old(m), *m),
            keeps_used(m1, *m),
            m1.alloc@[frame_of(root.pa as int)],
            i <= USER_STACK_PAGES,
            stack_base == USER_STACK_TOP - USER_STACK_PAGES * PAGE_SIZE,
        decreases USER_STACK_PAGES - i,
    {
        let ghost before = *m;
        let frame = match m.alloc_frame() {
            Some(f) => f,
            None => {
                return Err(ERR_STACK_OOM);
            },
        };
        let va = stack_base + i * PAGE_SIZE;
        let flags = PTE_U | PTE_R | PTE_W;
        assert(flags < 1024) by (bit_vector)
            requires
                flags == PTE_U | PTE_R | PTE_W,
        ;
        assert(frame % PAGE_SIZE == 0 && frame < 0x100_0000_0000_0000);
        let ghost before_map = *m;
        let res = root.map(m, va, frame, flags);
        proof {
            lemma_keeps_used_trans(before, before_map, *m);
            lemma_keeps_used_trans(*old(m), before, *m);
            lemma_booted_kept(*old(m), *m);
            assert(keeps_links(before, before_map));
            lemma_keeps_links_trans(before, before_map, *m);
            lemma_keeps_links_trans(*old(m), before, *m);
            if segs_in_user(img) {
                assert(user_tree(before_map, root.pa as int)) by {
                    assert(before_map.entry(frame_of(root.pa as int), 1) == before.entry(frame_of(root.pa as int), 1));
                }
                elf::lemma_holds_all_stable(before, *m, root.pa as int, img);
                elf::lemma_mapped_all_stable(before, *m, root.pa as int, img);
                crate::mem::mmu::lemma_frame_range(root.pa as int);
                if before.entry(frame_of(root.pa as int), 1) & crate::mem::mmu::PTE_V != 0 {
                    crate::mem::mmu::lemma_frame_range(crate::mem::mmu::pte_pa(before.entry(frame_of(root.pa as int), 1)) as int);
                }
                lemma_grows_same(before, before_map, root.pa as int);
                lemma_grows_trans(m1, before, before_map, root.pa as int);
                lemma_grows_trans(m1, before_map, *m, root.pa as int);
            }
        }
        if let Err(e) = res {
            proof {
                if segs_in_user(img) {
                    assert(va as int == USER_STACK_TOP - USER_STACK_PAGES * PAGE_SIZE + i * PAGE_SIZE);
                    assert(crate::mem::mmu::user_slot_va(va as int));
                    crate::mem::mmu::lemma_user_sound(before_map, root.pa as int, va);
                }
            }
            return Err(e);
        }
        i = i + 1;
    }
    proof {
        if segs_in_user(img) {
            crate::mem::mmu::lemma_fresh_from_empty(*old(m), m1, *m, root.pa as int);
        }
    }
    Ok((root.pa, loaded.entry, loaded.brk))
}

/// Slot `i` is the first free one.
pub open spec fn is_first_free(slots: Seq<Option<Process>>, i: int) -> bool {
    &&& 0 <= i < slots.len()
    &&& slots[i] is None
    &&& forall|j: int| 0 <= j < i ==> #[trigger] slots[j] is Some
}

/// The first free slot, if any.
pub fn find_free(t: &ProcTable) -> (r: Option<usize>)
    requires
        t.wf(),
    ensures
        match r {
            Some(i) => is_first_free(t.slots@, i as int),
            None => forall|j: int| 0 <= j < MAX_PROCS ==> #[trigger] t.slots@[j] is Some,
        },
{
    let mut i: usize = 0;
    while i < MAX_PROCS
        invariant
            t.wf(),
            i <= MAX_PROCS,
            forall|j: int| 0 <= j < i ==> #[trigger] t.slots@[j] is Some,
        decreases MAX_PROCS - i,
    {
        if t.slots[i].is_none() {
            return Some(i);
        }
        i = i + 1;
    }
    None
}

/// The program image `spawn`/`exec` would load for `name`.
pub open spec fn program_image(vfs: Vfs, name: Seq<u8>) -> Option<Seq<u8>> {
    match disk_program(vfs.root, vfs.dev, name) {
        Some(img) => Some(img),
        None => spec_find(files_view(vfs.programs@), name),
    }
}

/// Sixteen zero bytes.
pub open spec fn zero16() -> Seq<u8> {
    Seq::new(16, |i: int| 0u8)
}

/// A fresh trap frame entering at `entry` with the user stack pointer set.
fn entry_frame(entry: usize) -> (r: TrapFrame)
    ensures
        r.sepc == entry,
        r.sstatus == 0,
        forall|i: int| 0 <= i < 32 ==> #[trigger] r.regs@[i] == if i == 2 { USER_STACK_TOP } else { 0 },
{
    let mut tf = TrapFrame::zeroed();
    tf.sepc = entry;
    tf.regs[2] = USER_STACK_TOP;
    tf
}

/// Create a new process from a program image (used for init); its pid.
pub fn spawn(t: &mut ProcTable, m: &mut Mem, vfs: &Vfs, name: &str) -> (r: Result<usize, &'static str>)
    requires
        old(t).wf(),
        old(m).booted(),
        old(t).next_pid < usize::MAX,
    ensures
        final(t).wf(),
        final(m).booted(),
        keeps_used(*old(m), *final(m)),
        keeps_links(*old(m), *final(m)),
        final(m).kernel_root == old(m).kernel_root,
        final(t).current == old(t).current,
        final(t).last_run == old(t).last_run,
        program_image(*vfs, name.spec_bytes()) is None ==> r == Err::<usize, &'static str>(ERR_NO_PROGRAM) && *final(m)
            == *old(m),
        r is Err ==> final(t).slots@ == old(t).slots@ && final(t).frames@ == old(t).frames@ && final(t).next_pid
            == old(t).next_pid,
        r is Err && r != Err::<usize, &'static str>(ERR_NO_PROGRAM) ==> {
            let img = program_image(*vfs, name.spec_bytes())->0;
            let e = r->Err_0;
            ||| e == ERR_TABLE_FULL && forall|j: int| 0 <= j < MAX_PROCS ==> #[trigger] old(t).slots@[j] is Some
            ||| build_error(img, e) && (segs_in_user(img) ==> build_failure(img, e, *old(m), *final(m)))
        },
        r is Ok ==> {
            let img = program_image(*vfs, name.spec_bytes())->0;
            exists|s: int| #![trigger final(t).slots@[s]] {
                let p = final(t).slots@[s]->0;
                &&& is_first_free(old(t).slots@, s)
                &&& final(t).slots@ == old(t).slots@.update(s, final(t).slots@[s])
                &&& final(t).slots@[s] is Some
                &&& p.pid == old(t).next_pid
                &&& p.state == ProcState::Ready
                &&& p.parent == NO_PROC
                &&& is_frame_pa(p.root_pa as int)
                &&& p.exit_code == 0
                &&& p.next_mmap == MMAP_BASE
                &&& scan_headers(img, 0, 0) == Ok::<int, &'static str>(p.brk as int)
                &&& p.name@ == named(zero16(), name.spec_bytes())
                &&& p.files@.len() == 0
                &&& p.nce_affinity == 0
                &&& final(t).frames@ == old(t).frames@.update(s, final(t).frames@[s])
                &&& final(t).frames@[s].sepc == entry_of(img)
                &&& final(t).frames@[s].regs@[2] == USER_STACK_TOP
                &&& segs_in_user(img) ==> holds_segments(*final(m), p.root_pa as int, img, phnum(img))
                &&& segs_in_user(img) ==> segs_mapped_as(*final(m), p.root_pa as int, img, phnum(img))
            }
        },
        r is Ok ==> r->Ok_0 == old(t).next_pid && final(t).next_pid == old(t).next_pid + 1,
{
    let image = match fs::load_program(&vfs.root, &vfs.dev, &vfs.programs, name) {
        Some(img) => img,
        None => {
            return Err(ERR_NO_PROGRAM);
        },
    };
    let (root_pa, entry, brk) = build_address_space(m, image.as_slice())?;
    let slot = match find_free(t) {
        Some(s) => s,
        None => {
            return Err(ERR_TABLE_FULL);
        },
    };
    let pid = t.next_pid;
    t.next_pid = t.next_pid + 1;
    let tf = entry_frame(entry);
    t.frames.set(slot, tf);
    let mut name_buf = [0u8; 16];
    assert(name_buf@ =~= zero16());
    set_name(&mut name_buf, name);
    let p = Process {
        pid,
        state: ProcState::Ready,
        parent: NO_PROC,
        root_pa,
        exit_code: 0,
        wait_status_uva: 0,
        read_buf_uva: 0,
        read_len: 0,
        next_mmap: MMAP_BASE,
        brk,
        name: name_buf,
        files: Vec::new(),
        nce_affinity: 0,
    };
    replace_slot(&mut t.slots, slot, Some(p));
    proof {
        assert(t.slots@[slot as int] is Some);
    }
    Ok(pid)
}


/// A copy of a descriptor table.
pub fn copy_files(v: &Vec<Option<OpenFile>>) -> (r: Vec<Option<OpenFile>>)
    ensures
        r@ == v@,
{
    let mut out: Vec<Option<OpenFile>> = Vec::new();
    let mut i: usize = 0;
    while i < v.len()
        invariant
            i <= v@.len(),
            out@ == v@.subrange(0, i as int),
        decreases v@.len() - i,
    {
        out.push(v[i]);
        i = i + 1;
        assert(out@ =~= v@.subrange(0, i as int));
    }
    assert(v@.subrange(0, i as int) =~= v@);
    out
}

/// fork(): duplicate the current process into the first free slot. The
/// child pid for the parent; the child resumes from the parent's trap
/// frame with a0 = 0. -11 (EAGAIN) when the table is full, -12 (ENOMEM)
/// when its address space cannot be copied.
pub fn fork_current(t: &mut ProcTable, m: &mut Mem) -> (r: isize)
    requires
        old(t).has_current(),
        old(m).booted(),
        old(t).next_pid < 0x7fff_ffff,
    ensures
        final(t).wf(),
        final(m).booted(),
        final(t).current == old(t).current,
        final(t).last_run == old(t).last_run,
        final(t).slots@[old(t).current as int] == old(t).slots@[old(t).current as int],
        (forall|j: int| 0 <= j < MAX_PROCS ==> #[trigger] old(t).slots@[j] is Some) ==> r == -11 && *final(t) == *old(t)
            && *final(m) == *old(m),
        r == -12 || r == -11 ==> final(t).slots@ == old(t).slots@ && final(t).frames@ == old(t).frames@
            && final(t).next_pid == old(t).next_pid,
        r != -12 && r != -11 ==> r == old(t).next_pid && final(t).next_pid == old(t).next_pid + 1,
        forall|s: int| #[trigger] is_first_free(old(t).slots@, s) && r != -12 ==> {
            let c = final(t).slots@[s]->0;
            let p = old(t).cur();
            let pf = old(t).frames@[old(t).current as int];
            &&& r == old(t).next_pid
            &&& final(t).slots@ == old(t).slots@.update(s, final(t).slots@[s])
            &&& final(t).slots@[s] is Some
            &&& c.pid == old(t).next_pid
            &&& c.state == ProcState::Ready
            &&& c.parent == old(t).current
            &&& is_frame_pa(c.root_pa as int)
            &&& !old(m).alloc@[frame_of(c.root_pa as int)]
            &&& c.exit_code == 0
            &&& c.wait_status_uva == 0
            &&& c.read_buf_uva == 0
            &&& c.read_len == 0
            &&& c.next_mmap == p.next_mmap
            &&& c.brk == p.brk
            &&& c.name == p.name
            &&& c.files@ == p.files@
            &&& c.nce_affinity == 0
            &&& final(t).frames@ == old(t).frames@.update(s, final(t).frames@[s])
            &&& final(t).frames@[s].regs@ == pf.regs@.update(10, 0)
            &&& final(t).frames@[s].sepc == pf.sepc
            &&& final(t).frames@[s].sstatus == pf.sstatus
            &&& user_tree(*old(m), p.root_pa as int) && leaves_allocated(*old(m), p.root_pa as int) ==> forall|va: usize|
                user_slot_va(va as int) && (#[trigger] user_loc(*old(m), p.root_pa as int, va)) is Some ==> user_byte(
                    *final(m),
                    c.root_pa as int,
                    va,
                ) == user_byte(*old(m), p.root_pa as int, va)
        },
{
    let cur = t.current;
    let slot = match find_free(t) {
        Some(s) => s,
        None => {
            return -11;
        },
    };
    let (parent_root, next_mmap, brk, name, files) = match &t.slots[cur] {
        Some(p) => (p.root_pa, p.next_mmap, p.brk, p.name, copy_files(&p.files)),
        None => {
            return -11;
        },
    };
    let child_root = match new_user_root(m) {
        Some(c) => c,
        None => {
            return -12;
        },
    };
    let ghost mid = *m;
    proof {
        if user_tree(*old(m), parent_root as int) && leaves_allocated(*old(m), parent_root as int) {
            crate::mem::mmu::lemma_frame_range(child_root.pa as int);
            lemma_fresh_frame_keeps(*old(m), mid, parent_root as int, frame_of(child_root.pa as int));
            crate::mem::mmu::lemma_zero_invalid();
            assert(user_tree(mid, child_root.pa as int));
        }
    }
    if crate::mem::mmu::clone_user_space(m, &crate::mem::mmu::table_at(parent_root), &child_root).is_err() {
        proof {
            lemma_booted_kept(*old(m), *m);
        }
        crate::mem::mmu::free_user_space(m, &child_root);
        m.release(child_root.pa as u64);
        return -12;
    }
    proof {
        lemma_booted_kept(*old(m), *m);
    }
    assert(slot != cur);
    let pid = t.next_pid;
    t.next_pid = t.next_pid + 1;
    let mut child_tf = t.frames[cur];
    child_tf.set_a0(0);
    t.frames.set(slot, child_tf);
    let child = Process {
        pid,
        state: ProcState::Ready,
        parent: cur,
        root_pa: child_root.pa,
        exit_code: 0,
        wait_status_uva: 0,
        read_buf_uva: 0,
        read_len: 0,
        next_mmap,
        brk,
        name,
        files,
        nce_affinity: 0,
    };
    replace_slot(&mut t.slots, slot, Some(child));
    proof {
        assert forall|s: int| #[trigger] is_first_free(old(t).slots@, s) implies s == slot by {
            if s < slot {
                assert(old(t).slots@[s] is Some);
            }
            if s > slot {
                assert(old(t).slots@[slot as int] is Some);
            }
        }
    }
    pid as isize
}

/// execve(): replace the current image with program `name`. The new
/// address space is built first, so a failed exec leaves the caller
/// intact: -2 (ENOENT) for an unknown program, -12 (ENOMEM) when the
/// image cannot be loaded; 0 on success.
pub fn exec_current(t: &mut ProcTable, m: &mut Mem, vfs: &Vfs, name: &str) -> (r: isize)
    requires
        old(t).has_current(),
        old(m).booted(),
    ensures
        final(t).wf(),
        final(m).booted(),
        final(t).current == old(t).current,
        final(t).last_run == old(t).last_run,
        final(t).next_pid == old(t).next_pid,
        r == 0 || r == -2 || r == -12,
        program_image(*vfs, name.spec_bytes()) is None <==> r == -2,
        r == -2 ==> *final(m) == *old(m),
        r == -12 ==> {
            let img = program_image(*vfs, name.spec_bytes())->0;
            exists|e: &'static str| #[trigger] build_error(img, e) && (segs_in_user(img) ==> build_failure(img, e, *old(m), *final(m)))
        },
        r != 0 ==> final(t).slots@ == old(t).slots@ && final(t).frames@ == old(t).frames@,
        r == 0 ==> {
            let c = old(t).current as int;
            let p = old(t).cur();
            let q = final(t).slots@[c]->0;
            let img = program_image(*vfs, name.spec_bytes())->0;
            let f = final(t).frames@[c];
            &&& final(t).slots@ == old(t).slots@.update(c, final(t).slots@[c])
            &&& final(t).slots@[c] is Some
            &&& q == Process { root_pa: q.root_pa, next_mmap: MMAP_BASE, brk: q.brk, name: q.name, ..p }
            &&& is_frame_pa(q.root_pa as int)
            &&& scan_headers(img, 0, 0) == Ok::<int, &'static str>(q.brk as int)
            &&& q.name@ == named(p.name@, name.spec_bytes())
            &&& final(t).frames@ == old(t).frames@.update(c, f)
            &&& f.sepc == entry_of(img)
            &&& f.sstatus == 0
            &&& forall|i: int| 0 <= i < 32 ==> #[trigger] f.regs@[i] == if i == 2 { USER_STACK_TOP } else { 0 }
            &&& segs_in_user(img) && is_frame_pa(p.root_pa as int) && old(m).alloc@[frame_of(p.root_pa as int)]
                ==> shows_segments(*final(m), q.root_pa as int, img) && segs_mapped_as(*final(m), q.root_pa as int, img, phnum(img))
        },
{
    let image = match fs::load_program(&vfs.root, &vfs.dev, &vfs.programs, name) {
        Some(img) => img,
        None => {
            return -2;
        },
    };
    let (new_root, entry, brk) = match build_address_space(m, image.as_slice()) {
        Ok(v) => v,
        Err(e) => {
            assert(build_error(image@, e));
            return -12;
        },
    };
    let cur = t.current;
    let mut p = replace_slot(&mut t.slots, cur, None).unwrap();
    let old_root = crate::mem::mmu::table_at(p.root_pa);
    let ghost m1 = *m;
    let ghost img = image@;
    crate::mem::mmu::free_user_space(m, &old_root);
    let ghost m2 = *m;
    m.release(p.root_pa as u64);
    proof {
        if segs_in_user(img) && is_frame_pa(p.root_pa as int) && old(m).alloc@[frame_of(p.root_pa as int)] {
            elf::lemma_shows_from_holds(m1, new_root as int, img);
            crate::mem::mmu::lemma_frame_range(p.root_pa as int);
            crate::mem::mmu::lemma_old_slot_apart(*old(m), m1, m2, new_root as int, frame_of(p.root_pa as int));
            assert forall|va: usize| user_slot_va(va as int) implies #[trigger] crate::mem::mmu::spec_leaf(*m, new_root as int, va)
                == crate::mem::mmu::spec_leaf(m1, new_root as int, va) by {
                crate::mem::mmu::lemma_same_entries_walk(m2, *m, new_root as int, va);
            }
            elf::lemma_shows_kept(m1, *m, new_root as int, img);
            elf::lemma_mapped_kept(m1, *m, new_root as int, img);
        }
    }
    p.root_pa = new_root;
    p.next_mmap = MMAP_BASE;
    p.brk = brk;
    set_name(&mut p.name, name);
    replace_slot(&mut t.slots, cur, Some(p));
    let tf = entry_frame(entry);
    t.frames.set(cur, tf);
    0
}


/// The wait status a parent receives for exit code `code`, as the four
/// little-endian bytes of `(code & 0xff) << 8`.
pub open spec fn wstatus_bytes(code: i32) -> Seq<u8> {
    seq![0u8, (code & 0xff) as u8, 0u8, 0u8]
}

/// Law: the four bytes a waiting parent receives, read as a little-endian
/// word `s`, hold the exit code's low byte in bits 8..16 and zero in bits
/// 0..8, so that WIFEXITED(s) holds and WEXITSTATUS(s) is `code & 0xff`.
pub proof fn lemma_wstatus_decodes(code: i32)
    ensures
        ({
            let b = wstatus_bytes(code);
            let s = b[0] as int + 256 * b[1] as int + 65536 * b[2] as int + 16777216 * b[3] as int;
            &&& b.len() == 4
            &&& s % 256 == 0
            &&& (s / 256) % 256 == (code & 0xff) as int
            &&& s / 65536 == 0
        }),
{
    assert(0 <= code & 0xff < 256) by (bit_vector);
    let b = wstatus_bytes(code);
    assert(b[1] as int == (code & 0xff) as int);
}

/// Set a0 of slot `s`'s trap frame.
fn set_frame_a0(t: &mut ProcTable, s: usize, v: usize)
    requires
        old(t).wf(),
        s < MAX_PROCS,
    ensures
        final(t).wf(),
        final(t).slots == old(t).slots,
        final(t).next_pid == old(t).next_pid,
        final(t).last_run == old(t).last_run,
        final(t).current == old(t).current,
        final(t).frames@ == old(t).frames@.update(s as int, final(t).frames@[s as int]),
        final(t).frames@[s as int].regs@ == old(t).frames@[s as int].regs@.update(10, v),
        final(t).frames@[s as int].sepc == old(t).frames@[s as int].sepc,
        final(t).frames@[s as int].sstatus == old(t).frames@[s as int].sstatus,
{
    let mut f = t.frames[s];
    f.set_a0(v);
    t.frames.set(s, f);
}

/// Reap `child_slot` (a zombie) on behalf of the waiting `parent_slot`:
/// deliver pid and wait status, free the child's PCB and root table.
pub fn complete_wait(t: &mut ProcTable, m: &mut Mem, parent_slot: usize, child_slot: usize)
    requires
        old(t).wf(),
        old(m).wf(),
        parent_slot < MAX_PROCS,
        child_slot < MAX_PROCS,
        old(t).slots@[parent_slot as int] is Some,
        old(t).slots@[child_slot as int] is Some,
    ensures
        final(t).wf(),
        final(m).wf(),
        old(m).booted() ==> final(m).booted(),
        old(m).same_entries(final(m)),
        only_frees(*old(m), *final(m)),
        final(t).next_pid == old(t).next_pid,
        final(t).last_run == old(t).last_run,
        final(t).current == old(t).current,
        ({
            let pp = old(t).slots@[parent_slot as int]->0;
            let c = old(t).slots@[child_slot as int]->0;
            let pf = old(t).frames@[parent_slot as int];
            &&& final(t).slots@ == old(t).slots@.update(parent_slot as int, Some(Process { state: ProcState::Ready, ..pp })).update(
                child_slot as int,
                None,
            )
            &&& final(t).frames@ == old(t).frames@.update(parent_slot as int, final(t).frames@[parent_slot as int])
            &&& final(t).frames@[parent_slot as int].regs@ == pf.regs@.update(10, c.pid)
            &&& final(t).frames@[parent_slot as int].sepc == pf.sepc
            &&& pp.wait_status_uva == 0 ==> old(m).same_bytes(final(m))
            &&& pp.wait_status_uva != 0 && range_error(pp.wait_status_uva, 4) is None && readable(*old(m), pp.root_pa as int, pp.wait_status_uva, 4)
                && phys_distinct(*old(m), pp.root_pa as int, pp.wait_status_uva, 4) ==> user_bytes(*final(m), pp.root_pa as int, pp.wait_status_uva, 4)
                == wstatus_bytes(c.exit_code)
        }),
{
    let (child_pid, code, child_root) = match &t.slots[child_slot] {
        Some(c) => (c.pid, c.exit_code, c.root_pa),
        None => (0, 0, 0),
    };
    let mut pp = replace_slot(&mut t.slots, parent_slot, None).unwrap();
    pp.state = ProcState::Ready;
    let status_uva = pp.wait_status_uva;
    let parent_root = pp.root_pa;
    replace_slot(&mut t.slots, parent_slot, Some(pp));
    let ghost m0 = *m;
    if status_uva != 0 {
        let wstatus: [u8; 4] = [0u8, (code & 0xff) as u8, 0u8, 0u8];
        assert(wstatus@ =~= wstatus_bytes(code));
        let _ = copy_out(m, &crate::mem::mmu::table_at(parent_root), status_uva, &wstatus);
    }
    let ghost m1 = *m;
    set_frame_a0(t, parent_slot, child_pid);
    m.release(child_root as u64);
    replace_slot(&mut t.slots, child_slot, None);
    proof {
        assert forall|v: usize| #[trigger] crate::mem::uaccess::user_loc(*m, parent_root as int, v) == crate::mem::uaccess::user_loc(m1, parent_root as int, v) by {
            crate::mem::mmu::lemma_same_entries_walk(m1, *m, parent_root as int, v);
        }
        if status_uva != 0 && range_error(status_uva, 4) is None && readable(m0, parent_root as int, status_uva, 4) && phys_distinct(m0, parent_root as int, status_uva, 4) {
            assert(user_bytes(*m, parent_root as int, status_uva, 4) =~= user_bytes(m1, parent_root as int, status_uva, 4));
        }
    }
}


/// Slot `i` is the first that holds init (pid 1).
pub open spec fn is_init_slot(slots: Seq<Option<Process>>, i: int) -> bool {
    &&& 0 <= i < slots.len()
    &&& slots[i] is Some
    &&& slots[i]->0.pid == 1
    &&& forall|j: int| 0 <= j < i ==> !(#[trigger] slots[j] is Some && slots[j]->0.pid == 1)
}

/// Where orphans of an exiting process go: init's slot, or no process.
pub open spec fn orphan_parent(slots: Seq<Option<Process>>, to: usize) -> bool {
    &&& (forall|i: int| #[trigger] is_init_slot(slots, i) ==> to == i)
    &&& ((forall|i: int| 0 <= i < slots.len() ==> !(#[trigger] slots[i] is Some && slots[i]->0.pid == 1)) ==> to == NO_PROC)
}

/// The slots with every child of `c` handed to `to`.
pub open spec fn reparented(slots: Seq<Option<Process>>, c: usize, to: usize) -> Seq<Option<Process>> {
    Seq::new(slots.len(), |i: int| match slots[i] {
        Some(p) => if p.parent == c { Some(Process { parent: to, ..p }) } else { Some(p) },
        None => None,
    })
}

/// The slot of init, if any.
fn find_init(t: &ProcTable) -> (r: usize)
    requires
        t.wf(),
    ensures
        orphan_parent(t.slots@, r),
        r == NO_PROC || r < MAX_PROCS,
{
    let mut i: usize = 0;
    while i < MAX_PROCS
        invariant
            t.wf(),
            i <= MAX_PROCS,
            forall|j: int| 0 <= j < i ==> !(#[trigger] t.slots@[j] is Some && t.slots@[j]->0.pid == 1),
        decreases MAX_PROCS - i,
    {
        let is_init = match &t.slots[i] {
            Some(p) => p.pid == 1,
            None => false,
        };
        if is_init {
            proof {
                assert forall|k: int| #[trigger] is_init_slot(t.slots@, k) implies i == k by {
                    if k < i {
                        assert(!(t.slots@[k] is Some && t.slots@[k]->0.pid == 1));
                    }
                    if k > i {
                        assert(t.slots@[i as int] is Some && t.slots@[i as int]->0.pid == 1);
                    }
                }
            }
            return i;
        }
        i = i + 1;
    }
    NO_PROC
}

/// Hand every child of slot `c` to `to`.
fn reparent_children(t: &mut ProcTable, c: usize, to: usize)
    requires
        old(t).wf(),
        to == NO_PROC || to < MAX_PROCS,
    ensures
        final(t).wf(),
        final(t).slots@ == reparented(old(t).slots@, c, to),
        final(t).frames == old(t).frames,
        final(t).next_pid == old(t).next_pid,
        final(t).last_run == old(t).last_run,
        final(t).current == old(t).current,
{
    let mut i: usize = 0;
    while i < MAX_PROCS
        invariant
            t.wf(),
            old(t).slots@.len() == MAX_PROCS,
            to == NO_PROC || to < MAX_PROCS,
            i <= MAX_PROCS,
            t.frames == old(t).frames,
            t.next_pid == old(t).next_pid,
            t.last_run == old(t).last_run,
            t.current == old(t).current,
            forall|j: int| 0 <= j < i ==> #[trigger] t.slots@[j] == reparented(old(t).slots@, c, to)[j],
            forall|j: int| i <= j < MAX_PROCS ==> #[trigger] t.slots@[j] == old(t).slots@[j],
        decreases MAX_PROCS - i,
    {
        let is_child = match &t.slots[i] {
            Some(p) => p.parent == c,
            None => false,
        };
        if is_child {
            let mut p = replace_slot(&mut t.slots, i, None).unwrap();
            p.parent = to;
            replace_slot(&mut t.slots, i, Some(p));
        }
        i = i + 1;
    }
    assert(t.slots@ =~= reparented(old(t).slots@, c, to));
}

/// exit(): free the address space, become a zombie, hand the children
/// to init, and complete the parent's pending wait4 if there is one.
/// The process leaves the CPU.
pub fn exit_current(t: &mut ProcTable, m: &mut Mem, code: i32)
    requires
        old(t).has_current(),
        old(t).cur().pid != 1,
        old(m).booted(),
    ensures
        final(t).wf(),
        final(m).booted(),
        final(t).current == NO_PROC,
        final(t).next_pid == old(t).next_pid,
        final(t).last_run == old(t).last_run,
        only_frees(*old(m), *final(m)),
        forall|va: usize| user_slot_va(va as int) ==> #[trigger] crate::mem::mmu::spec_leaf(*final(m), old(t).cur().root_pa as int, va)
            is None,
        ({
            let c = old(t).current;
            let p = old(t).cur();
            exists|to: usize| #![trigger reparented(old(t).slots@, c, to)] {
                let r = reparented(old(t).slots@, c, to);
                let z = r.update(c as int, Some(Process { state: ProcState::Zombie, exit_code: code, ..r[c as int]->0 }));
                let par = p.parent;
                &&& orphan_parent(old(t).slots@, to)
                &&& if par != NO_PROC && z[par as int] is Some && z[par as int]->0.state == ProcState::SleepChild {
                    &&& final(t).slots@ == z.update(par as int, Some(Process { state: ProcState::Ready, ..z[par as int]->0 })).update(
                        c as int,
                        None,
                    )
                    &&& final(t).frames@ == old(t).frames@.update(par as int, final(t).frames@[par as int])
                    &&& final(t).frames@[par as int].regs@ == old(t).frames@[par as int].regs@.update(10, p.pid)
                } else {
                    &&& final(t).slots@ == z
                    &&& final(t).frames == old(t).frames
                }
            }
        }),
{
    let cur = t.current;
    let (root_pa, parent) = match &t.slots[cur] {
        Some(p) => (p.root_pa, p.parent),
        None => (0, NO_PROC),
    };
    crate::mem::mmu::free_user_space(m, &crate::mem::mmu::table_at(root_pa));
    let ghost freed = *m;
    proof {
        assert forall|va: usize| user_slot_va(va as int) implies #[trigger] crate::mem::mmu::spec_leaf(freed, root_pa as int, va) is None by {
            crate::mem::mmu::lemma_user_slot(va);
            crate::mem::mmu::lemma_zero_invalid();
        }
    }
    let init_slot = find_init(t);
    let ghost s0 = t.slots@;
    reparent_children(t, cur, init_slot);
    let ghost r = t.slots@;
    let mut p = replace_slot(&mut t.slots, cur, None).unwrap();
    p.state = ProcState::Zombie;
    p.exit_code = code;
    replace_slot(&mut t.slots, cur, Some(p));
    let ghost z = t.slots@;
    assert(z == r.update(cur as int, Some(Process { state: ProcState::Zombie, exit_code: code, ..r[cur as int]->0 })));
    if parent != NO_PROC {
        let sleeping = match &t.slots[parent] {
            Some(pp) => pp.state == ProcState::SleepChild,
            None => false,
        };
        if sleeping {
            complete_wait(t, m, parent, cur);
        }
    }
    proof {
        assert forall|va: usize| user_slot_va(va as int) implies #[trigger] crate::mem::mmu::spec_leaf(*m, root_pa as int, va) is None by {
            crate::mem::mmu::lemma_same_entries_walk(freed, *m, root_pa as int, va);
        }
    }
    t.current = NO_PROC;
}


/// Slot `i` holds a child of slot `c`.
pub open spec fn is_child_of(slots: Seq<Option<Process>>, i: int, c: usize) -> bool {
    slots[i] is Some && slots[i]->0.parent == c
}

/// Slot `z` holds the first zombie child of slot `c`.
pub open spec fn is_first_zombie_child(slots: Seq<Option<Process>>, c: usize, z: int) -> bool {
    &&& 0 <= z < slots.len()
    &&& is_child_of(slots, z, c)
    &&& slots[z]->0.state == ProcState::Zombie
    &&& forall|j: int| 0 <= j < z ==> !(#[trigger] is_child_of(slots, j, c) && slots[j]->0.state == ProcState::Zombie)
}

/// Slot `c` has a child.
pub open spec fn has_child(slots: Seq<Option<Process>>, c: usize) -> bool {
    exists|j: int| 0 <= j < slots.len() && #[trigger] is_child_of(slots, j, c)
}

/// wait4(): reap a zombie child now, or sleep until one exits; with no
/// children at all, a0 = -10 (ECHILD). The process leaves the CPU.
pub fn wait_current(t: &mut ProcTable, m: &mut Mem, status_uva: usize)
    requires
        old(t).has_current(),
        old(m).booted(),
    ensures
        final(t).wf(),
        final(m).booted(),
        final(t).current == NO_PROC,
        final(t).next_pid == old(t).next_pid,
        final(t).last_run == old(t).last_run,
        ({
            let c = old(t).current;
            let p = old(t).cur();
            let w = Process { wait_status_uva: status_uva, ..p };
            let ss = old(t).slots@;
            &&& forall|z: int| #[trigger] is_first_zombie_child(ss, c, z) ==> {
                &&& final(t).slots@ == ss.update(c as int, Some(Process { state: ProcState::Ready, ..w })).update(z, None)
                &&& final(t).frames@ == old(t).frames@.update(c as int, final(t).frames@[c as int])
                &&& final(t).frames@[c as int].regs@ == old(t).frames@[c as int].regs@.update(10, ss[z]->0.pid)
            }
            &&& (forall|z: int| 0 <= z < MAX_PROCS ==> !#[trigger] is_first_zombie_child(ss, c, z)) ==> if has_child(ss, c) {
                &&& final(t).slots@ == ss.update(c as int, Some(Process { state: ProcState::SleepChild, ..w }))
                &&& final(t).frames == old(t).frames
            } else {
                &&& final(t).slots@ == ss.update(c as int, Some(Process { state: ProcState::Ready, ..w }))
                &&& final(t).frames@ == old(t).frames@.update(c as int, final(t).frames@[c as int])
                &&& final(t).frames@[c as int].regs@ == old(t).frames@[c as int].regs@.update(10, (-10isize) as usize)
            }
        }),
{
    let cur = t.current;
    let ghost ss = t.slots@;
    let mut have_child = false;
    let mut zombie: usize = NO_PROC;
    let mut i: usize = 0;
    while i < MAX_PROCS && zombie == NO_PROC
        invariant
            t.has_current(),
            *t == *old(t),
            ss == t.slots@,
            cur == t.current,
            i <= MAX_PROCS,
            have_child == exists|j: int| 0 <= j < i && #[trigger] is_child_of(ss, j, cur),
            zombie == NO_PROC ==> forall|j: int| 0 <= j < i ==> !(#[trigger] is_child_of(ss, j, cur) && ss[j]->0.state
                == ProcState::Zombie),
            zombie != NO_PROC ==> is_first_zombie_child(ss, cur, zombie as int) && zombie < MAX_PROCS,
        decreases MAX_PROCS - i,
    {
        let (child, dead) = match &t.slots[i] {
            Some(p) => (p.parent == cur, p.state == ProcState::Zombie),
            None => (false, false),
        };
        proof {
            if child {
                assert(is_child_of(ss, i as int, cur));
            } else {
                assert(!is_child_of(ss, i as int, cur));
            }
        }
        if child {
            have_child = true;
            if dead {
                zombie = i;
            }
        }
        i = i + 1;
    }
    let mut p = replace_slot(&mut t.slots, cur, None).unwrap();
    p.wait_status_uva = status_uva;
    if zombie != NO_PROC {
        p.state = ProcState::SleepChild;
        replace_slot(&mut t.slots, cur, Some(p));
        complete_wait(t, m, cur, zombie);
        proof {
            assert forall|z: int| #[trigger] is_first_zombie_child(ss, cur, z) implies z == zombie by {
                if z < zombie {
                    assert(!(is_child_of(ss, z, cur) && ss[z]->0.state == ProcState::Zombie));
                }
                if z > zombie {
                    assert(!(is_child_of(ss, zombie as int, cur) && ss[zombie as int]->0.state == ProcState::Zombie));
                }
            }
        }
    } else if have_child {
        p.state = ProcState::SleepChild;
        replace_slot(&mut t.slots, cur, Some(p));
        proof {
            assert(!is_first_zombie_child(ss, cur, MAX_PROCS as int + 1));
        }
    } else {
        p.state = ProcState::Ready;
        replace_slot(&mut t.slots, cur, Some(p));
        set_frame_a0(t, cur, (-10isize) as usize);
        proof {
            assert(!has_child(ss, cur));
        }
    }
    t.current = NO_PROC;
}

/// Slot `s` is the first one blocked on console input.
pub open spec fn is_first_sleeper(slots: Seq<Option<Process>>, s: int) -> bool {
    &&& 0 <= s < slots.len()
    &&& slots[s] is Some
    &&& slots[s]->0.state == ProcState::SleepConsole
    &&& forall|j: int| 0 <= j < s ==> !(#[trigger] slots[j] is Some && slots[j]->0.state == ProcState::SleepConsole)
}

/// Slot `s` is blocked on console input.
fn console_sleeper(t: &ProcTable, s: usize) -> (r: bool)
    requires
        t.wf(),
        s < MAX_PROCS,
    ensures
        r == (t.slots@[s as int] is Some && t.slots@[s as int]->0.state == ProcState::SleepConsole),
{
    match &t.slots[s] {
        Some(p) => p.state == ProcState::SleepConsole,
        None => false,
    }
}

/// How many bytes a console read of `len` takes from `avail` buffered bytes.
pub open spec fn console_take(len: usize, avail: nat) -> nat {
    let cap = if len < 128 { len as nat } else { 128nat };
    if cap < avail { cap } else { avail }
}

/// Console input arrived (`input`, the bytes the UART has buffered): if a
/// process is blocked in read(0), complete its read with as many bytes
/// as it asked for, up to 128. The number of bytes taken from `input`.
pub fn wake_console_reader(t: &mut ProcTable, m: &mut Mem, input: &[u8]) -> (n: usize)
    requires
        old(t).wf(),
        old(m).wf(),
    ensures
        final(t).wf(),
        final(m).wf(),
        final(m).alloc == old(m).alloc,
        final(m).kernel_root == old(m).kernel_root,
        old(m).same_entries(final(m)),
        final(t).current == old(t).current,
        final(t).next_pid == old(t).next_pid,
        final(t).last_run == old(t).last_run,
        (forall|s: int| 0 <= s < MAX_PROCS ==> !#[trigger] is_first_sleeper(old(t).slots@, s)) ==> n == 0 && *final(t)
            == *old(t) && *final(m) == *old(m),
        forall|s: int| #[trigger] is_first_sleeper(old(t).slots@, s) ==> {
            let p = old(t).slots@[s]->0;
            let ok = range_error(p.read_buf_uva, n as nat) is None && readable(*old(m), p.root_pa as int, p.read_buf_uva, n as nat);
            &&& n == console_take(p.read_len, input@.len())
            &&& n == 0 ==> *final(t) == *old(t) && *final(m) == *old(m)
            &&& n > 0 ==> {
                &&& final(t).slots@ == old(t).slots@.update(s, Some(Process { state: ProcState::Ready, ..p }))
                &&& final(t).frames@ == old(t).frames@.update(s, final(t).frames@[s])
                &&& final(t).frames@[s].regs@ == old(t).frames@[s].regs@.update(10, if ok { n } else { (-14isize) as usize })
                &&& ok && phys_distinct(*old(m), p.root_pa as int, p.read_buf_uva, n as nat) ==> user_bytes(*final(m), p.root_pa as int, p.read_buf_uva, n as nat)
                    == input@.subrange(0, n as int)
            }
        },
{
    let mut s: usize = 0;
    while s < MAX_PROCS && !console_sleeper(t, s)
        invariant
            t.wf(),
            *t == *old(t),
            s <= MAX_PROCS,
            forall|j: int| 0 <= j < s ==> !(#[trigger] t.slots@[j] is Some && t.slots@[j]->0.state == ProcState::SleepConsole),
        decreases MAX_PROCS - s,
    {
        s = s + 1;
    }
    if s == MAX_PROCS {
        return 0;
    }
    proof {
        assert(is_first_sleeper(old(t).slots@, s as int));
        assert forall|k: int| #[trigger] is_first_sleeper(old(t).slots@, k) implies k == s by {
            if k < s {
                assert(!(t.slots@[k] is Some && t.slots@[k]->0.state == ProcState::SleepConsole));
            }
            if k > s {
                assert(t.slots@[s as int] is Some && t.slots@[s as int]->0.state == ProcState::SleepConsole);
            }
        }
    }
    let (root_pa, buf_uva, len) = match &t.slots[s] {
        Some(p) => (p.root_pa, p.read_buf_uva, p.read_len),
        None => (0, 0, 0),
    };
    let cap = if len < 128 { len } else { 128 };
    let n = if cap < input.len() { cap } else { input.len() };
    if n == 0 {
        return 0;
    }
    let mut chunk: Vec<u8> = Vec::new();
    let mut k: usize = 0;
    while k < n
        invariant
            k <= n,
            n <= input@.len(),
            chunk@ == input@.subrange(0, k as int),
        decreases n - k,
    {
        chunk.push(input[k]);
        k = k + 1;
        assert(chunk@ =~= input@.subrange(0, k as int));
    }
    let res = copy_out(m, &crate::mem::mmu::table_at(root_pa), buf_uva, chunk.as_slice());
    if res.is_ok() {
        set_frame_a0(t, s, n);
    } else {
        set_frame_a0(t, s, (-14isize) as usize);
    }
    let mut p = replace_slot(&mut t.slots, s, None).unwrap();
    p.state = ProcState::Ready;
    replace_slot(&mut t.slots, s, Some(p));
    n
}


/// The column header of the process listing.
pub const LISTING_HEADER: [u8; 26] = [32, 32, 80, 73, 68, 32, 32, 80, 80, 73, 68, 32, 32, 83, 84, 65, 84, 69, 32, 32, 32, 78,
    65, 77, 69, 10];

/// The bytes of a state's label.
pub open spec fn state_label(s: ProcState) -> Seq<u8> {
    match s {
        ProcState::Ready => seq![114u8, 101, 97, 100, 121],
        ProcState::Running => seq![114u8, 117, 110],
        ProcState::SleepChild => seq![119u8, 97, 105, 116],
        ProcState::SleepConsole => seq![115u8, 108, 101, 101, 112],
        ProcState::Zombie => seq![122u8, 111, 109, 98, 105, 101],
    }
}

fn label(s: ProcState) -> (r: Vec<u8>)
    ensures
        r@ == state_label(s),
{
    let v = match s {
        ProcState::Ready => vec![114u8, 101, 97, 100, 121],
        ProcState::Running => vec![114u8, 117, 110],
        ProcState::SleepChild => vec![119u8, 97, 105, 116],
        ProcState::SleepConsole => vec![115u8, 108, 101, 101, 112],
        ProcState::Zombie => vec![122u8, 111, 109, 98, 105, 101],
    };
    assert(v@ =~= state_label(s));
    v
}

/// Index of the first NUL of `name` at or after `i`, or its length.
pub open spec fn nul_at(name: Seq<u8>, i: nat) -> nat
    decreases name.len() - i,
{
    if i >= name.len() {
        name.len()
    } else if name[i as int] == 0 {
        i
    } else {
        nul_at(name, i + 1)
    }
}

/// A PCB name as listed: the bytes before the first NUL when they are
/// valid UTF-8, "?" otherwise.
pub open spec fn shown_name(name: Seq<u8>) -> Seq<u8> {
    let b = name.subrange(0, nul_at(name, 0) as int);
    if valid_utf8(b) {
        b
    } else {
        seq![63u8]
    }
}

/// The parent pid shown for `p`: 0 for none.
pub open spec fn ppid_of(slots: Seq<Option<Process>>, p: Process) -> nat {
    if p.parent == NO_PROC {
        0
    } else {
        match slots[p.parent as int] {
            Some(q) => q.pid as nat,
            None => 0,
        }
    }
}

/// One line of the listing.
pub open spec fn proc_line(slots: Seq<Option<Process>>, p: Process) -> Seq<u8> {
    pad_left(dec_digits(p.pid as nat), 5) + seq![32u8] + pad_left(dec_digits(ppid_of(slots, p)), 5) + seq![32u8, 32u8]
        + pad_right(state_label(p.state), 7) + seq![32u8] + shown_name(p.name@) + seq![10u8]
}

/// The lines for the first `n` slots.
pub open spec fn listing_lines(slots: Seq<Option<Process>>, n: int) -> Seq<u8>
    decreases n,
{
    if n <= 0 {
        Seq::empty()
    } else {
        listing_lines(slots, n - 1) + match slots[n - 1] {
            Some(p) => proc_line(slots, p),
            None => Seq::empty(),
        }
    }
}

/// The bytes of `name` before its first NUL.
fn name_prefix(name: &[u8; 16]) -> (r: Vec<u8>)
    ensures
        r@ == name@.subrange(0, nul_at(name@, 0) as int),
{
    let mut i: usize = 0;
    while i < 16 && name[i] != 0
        invariant
            i <= 16,
            name@.len() == 16,
            nul_at(name@, 0) == nul_at(name@, i as nat),
        decreases 16 - i,
    {
        i = i + 1;
    }
    let mut out: Vec<u8> = Vec::new();
    let mut k: usize = 0;
    while k < i
        invariant
            k <= i,
            i <= 16,
            name@.len() == 16,
            out@ == name@.subrange(0, k as int),
        decreases i - k,
    {
        out.push(name[k]);
        k = k + 1;
        assert(out@ =~= name@.subrange(0, k as int));
    }
    out
}

/// The listing line of `p`.
fn line_of(t: &ProcTable, p: &Process) -> (r: Vec<u8>)
    requires
        t.wf(),
        p.parent == NO_PROC || p.parent < MAX_PROCS,
    ensures
        r@ == proc_line(t.slots@, *p),
{
    let ppid: usize = if p.parent == NO_PROC {
        0
    } else {
        match &t.slots[p.parent] {
            Some(q) => q.pid,
            None => 0,
        }
    };
    let mut line: Vec<u8> = Vec::new();
    let pid_digits = dec(p.pid as u64);
    push_right_aligned(&mut line, pid_digits.as_slice(), 5);
    line.push(32u8);
    let ghost a = line@;
    assert(a =~= pad_left(dec_digits(p.pid as nat), 5) + seq![32u8]);
    let ppid_digits = dec(ppid as u64);
    push_right_aligned(&mut line, ppid_digits.as_slice(), 5);
    line.push(32u8);
    line.push(32u8);
    let ghost b = line@;
    assert(b =~= a + pad_left(dec_digits(ppid_of(t.slots@, *p)), 5) + seq![32u8, 32u8]);
    let l = label(p.state);
    push_left_aligned(&mut line, l.as_slice(), 7);
    line.push(32u8);
    let ghost c = line@;
    assert(c =~= b + pad_right(state_label(p.state), 7) + seq![32u8]);
    let nm = name_prefix(&p.name);
    if crate::text::is_utf8(nm.as_slice()) {
        push_bytes(&mut line, nm.as_slice());
    } else {
        line.push(63u8);
    }
    assert(line@ =~= c + shown_name(p.name@));
    line.push(10u8);
    line
}

/// A `ps`-style listing of all processes.
pub fn listing(t: &ProcTable) -> (r: Vec<u8>)
    requires
        t.wf(),
    ensures
        r@ == LISTING_HEADER@ + listing_lines(t.slots@, MAX_PROCS as int),
{
    let mut out: Vec<u8> = Vec::new();
    push_bytes(&mut out, &LISTING_HEADER);
    let mut i: usize = 0;
    while i < MAX_PROCS
        invariant
            t.wf(),
            i <= MAX_PROCS,
            out@ == LISTING_HEADER@ + listing_lines(t.slots@, i as int),
        decreases MAX_PROCS - i,
    {
        match &t.slots[i] {
            Some(p) => {
                let line = line_of(t, p);
                push_bytes(&mut out, line.as_slice());
            },
            None => {},
        }
        assert(out@ =~= LISTING_HEADER@ + listing_lines(t.slots@, i as int + 1));
        i = i + 1;
    }
    out
}

} // verus!
