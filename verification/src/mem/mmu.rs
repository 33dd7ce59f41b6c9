//! Sv39 three-level page tables: map / unmap / walk, plus construction
//! of the kernel's identity-mapped address space and of per-process
//! user spaces.
//!
//! Physical memory is explicit state (`Mem`): the frame allocator and,
//! for every 4 KiB frame of RAM, what it holds — 512 entries when the
//! frame is a page table, 4096 bytes when it holds data. A frame with
//! no stored contents reads as zeros. A `PageTable` is the physical
//! address of a table frame, as a root table's address is in `satp`.

use vstd::prelude::*;
use super::layout::{PAGE_SIZE, RAM_START, RAM_END, page_down, page_up, spec_page_down, spec_page_up, UART0_BASE, UART0_SIZE,
    VIRTIO_BASE, VIRTIO_SIZE, CLINT_BASE, CLINT_SIZE, PLIC_BASE, PLIC_SIZE};
use super::page::{PageAllocator, MAX_FRAMES, page_alloc, run_free, mark, lemma_free_frame_exists};

use crate::mem::uaccess::{user_byte, user_loc, loaded_byte, lemma_loaded_stable};

verus! {

// PTE permission/state bits.
pub const PTE_V: u64 = 1;
pub const PTE_R: u64 = 2;
pub const PTE_W: u64 = 4;
pub const PTE_X: u64 = 8;
pub const PTE_U: u64 = 16;
pub const PTE_G: u64 = 32;
pub const PTE_A: u64 = 64;
pub const PTE_D: u64 = 128;

/// The Sv39 mode field of `satp`.
pub const SATP_MODE_SV39: u64 = 0x8000_0000_0000_0000;

/// Root-table slot for user mappings: VAs 0x4000_0000..0x8000_0000
/// (1 GiB). Every process root shares the kernel's other slots and owns
/// slot 1 alone.
pub const USER_ROOT_SLOT: usize = 1;

/// Entries per table.
pub const ENTRIES: usize = 512;

/// `pa` is the address of a frame of RAM.
pub open spec fn is_frame_pa(pa: int) -> bool {
    RAM_START <= pa < RAM_END && (pa - RAM_START) % (PAGE_SIZE as int) == 0
}

/// Frame index of the frame at `pa`.
pub open spec fn frame_of(pa: int) -> int {
    (pa - RAM_START) / (PAGE_SIZE as int)
}

/// Physical address a PTE points at.
pub open spec fn pte_pa(e: u64) -> u64 {
    (e >> 10u64) << 12u64
}

/// The PTE for physical page `pa` with `bits` set.
pub open spec fn encode(pa: u64, bits: u64) -> u64 {
    ((pa >> 12u64) << 10u64) | bits
}

/// VPN slice for `level` (2 = root) of a Sv39 virtual address.
pub open spec fn spec_vpn(va: usize, level: int) -> int {
    if level == 2 {
        ((va >> 30usize) & 0x1ff) as int
    } else if level == 1 {
        ((va >> 21usize) & 0x1ff) as int
    } else {
        ((va >> 12usize) & 0x1ff) as int
    }
}

/// A valid non-leaf entry pointing at a frame of RAM.
pub open spec fn interior(e: u64) -> bool {
    &&& e & PTE_V != 0
    &&& e & (PTE_R | PTE_W | PTE_X) == 0
    &&& is_frame_pa(pte_pa(e) as int)
}

pub struct Mem {
    pub alloc: PageAllocator,
    /// Per frame: its 512 entries, or nothing for an all-zero frame.
    pub ptes: Vec<Vec<u64>>,
    /// Per frame: its 4096 bytes, or nothing for an all-zero frame.
    pub bytes: Vec<Vec<u8>>,
    /// Physical address of the kernel's root table.
    pub kernel_root: usize,
}

impl Mem {
    pub open spec fn wf(&self) -> bool {
        &&& self.alloc.wf()
        &&& self.ptes@.len() == MAX_FRAMES
        &&& self.bytes@.len() == MAX_FRAMES
        &&& forall|f: int| 0 <= f < MAX_FRAMES ==> (#[trigger] self.ptes@[f]@.len() == 0 || self.ptes@[f]@.len() == ENTRIES)
        &&& forall|f: int| 0 <= f < MAX_FRAMES ==> (#[trigger] self.bytes@[f]@.len() == 0 || self.bytes@[f]@.len() == PAGE_SIZE)
    }

    /// The kernel's root table is installed: an allocated frame.
    pub open spec fn booted(&self) -> bool {
        &&& self.wf()
        &&& is_frame_pa(self.kernel_root as int)
        &&& self.alloc@[frame_of(self.kernel_root as int)]
    }

    /// Entry `i` of frame `f` read as a page table.
    pub open spec fn entry(&self, f: int, i: int) -> u64 {
        if self.ptes@[f]@.len() == ENTRIES {
            self.ptes@[f]@[i]
        } else {
            0
        }
    }

    /// Byte `i` of frame `f` read as data.
    pub open spec fn byte(&self, f: int, i: int) -> u8 {
        if self.bytes@[f]@.len() == PAGE_SIZE {
            self.bytes@[f]@[i]
        } else {
            0
        }
    }

    /// Only entry `(f, i)` differs between `self` and `other`, and it holds `v` there.
    pub open spec fn entry_updated(&self, other: &Mem, f: int, i: int, v: u64) -> bool {
        &&& other.entry(f, i) == v
        &&& forall|g: int, j: int| 0 <= g < MAX_FRAMES && 0 <= j < ENTRIES && !(g == f && j == i)
            ==> #[trigger] other.entry(g, j) == self.entry(g, j)
    }

    /// All bytes of all frames agree.
    pub open spec fn same_bytes(&self, other: &Mem) -> bool {
        forall|g: int, j: int| 0 <= g < MAX_FRAMES && 0 <= j < PAGE_SIZE ==> #[trigger] other.byte(g, j) == self.byte(g, j)
    }

    /// All entries of all frames agree.
    pub open spec fn same_entries(&self, other: &Mem) -> bool {
        forall|g: int, j: int| 0 <= g < MAX_FRAMES && 0 <= j < ENTRIES ==> #[trigger] other.entry(g, j) == self.entry(g, j)
    }

    /// Physical memory with every frame reserved and zero, as before the
    /// allocator is initialised.
    pub fn new() -> (m: Mem)
        ensures
            m.wf(),
            m.alloc.free_frames == 0,
            m.alloc.first_frame == 0,
            m.kernel_root == 0,
            forall|g: int, j: int| 0 <= g < MAX_FRAMES && 0 <= j < ENTRIES ==> #[trigger] m.entry(g, j) == 0,
            forall|g: int, j: int| 0 <= g < MAX_FRAMES && 0 <= j < PAGE_SIZE ==> #[trigger] m.byte(g, j) == 0,
    {
        let alloc = PageAllocator::new();
        let mut ptes: Vec<Vec<u64>> = Vec::new();
        let mut bytes: Vec<Vec<u8>> = Vec::new();
        let mut f: usize = 0;
        while f < MAX_FRAMES
            invariant
                f <= MAX_FRAMES,
                ptes@.len() == f,
                bytes@.len() == f,
                forall|g: int| 0 <= g < f ==> (#[trigger] ptes@[g])@.len() == 0,
                forall|g: int| 0 <= g < f ==> (#[trigger] bytes@[g])@.len() == 0,
            decreases MAX_FRAMES - f,
        {
            ptes.push(Vec::new());
            bytes.push(Vec::new());
            f = f + 1;
        }
        Mem { alloc, ptes, bytes, kernel_root: 0 }
    }

    pub fn get_entry(&self, f: usize, i: usize) -> (r: u64)
        requires
            self.wf(),
            f < MAX_FRAMES,
            i < ENTRIES,
        ensures
            r == self.entry(f as int, i as int),
    {
        if self.ptes[f].len() == ENTRIES {
            self.ptes[f][i]
        } else {
            0
        }
    }

    pub fn set_entry(&mut self, f: usize, i: usize, v: u64)
        requires
            old(self).wf(),
            f < MAX_FRAMES,
            i < ENTRIES,
        ensures
            final(self).wf(),
            old(self).entry_updated(final(self), f as int, i as int, v),
            old(self).same_bytes(final(self)),
            final(self).alloc == old(self).alloc,
            final(self).kernel_root == old(self).kernel_root,
    {
        let mut t: Vec<u64> = if self.ptes[f].len() == ENTRIES {
            self.ptes[f].clone()
        } else {
            vec![0u64; ENTRIES]
        };
        assert(forall|j: int| 0 <= j < ENTRIES ==> #[trigger] t@[j] == self.entry(f as int, j));
        t.set(i, v);
        self.ptes.set(f, t);
    }

    pub fn get_byte(&self, f: usize, i: usize) -> (r: u8)
        requires
            self.wf(),
            f < MAX_FRAMES,
            i < PAGE_SIZE,
        ensures
            r == self.byte(f as int, i as int),
    {
        if self.bytes[f].len() == PAGE_SIZE {
            self.bytes[f][i]
        } else {
            0
        }
    }

    /// Write `src` into frame `f` from byte `off`.
    pub fn write_bytes(&mut self, f: usize, off: usize, src: &[u8])
        requires
            old(self).wf(),
            f < MAX_FRAMES,
            off + src@.len() <= PAGE_SIZE,
        ensures
            final(self).wf(),
            forall|j: int| 0 <= j < PAGE_SIZE ==> #[trigger] final(self).byte(f as int, j)
                == if off <= j < off + src@.len() { src@[j - off] } else { old(self).byte(f as int, j) },
            forall|g: int, j: int| 0 <= g < MAX_FRAMES && g != f && 0 <= j < PAGE_SIZE
                ==> #[trigger] final(self).byte(g, j) == old(self).byte(g, j),
            old(self).same_entries(final(self)),
            final(self).alloc == old(self).alloc,
            final(self).kernel_root == old(self).kernel_root,
    {
        let mut t: Vec<u8> = if self.bytes[f].len() == PAGE_SIZE {
            self.bytes[f].clone()
        } else {
            vec![0u8; PAGE_SIZE]
        };
        assert(forall|j: int| 0 <= j < PAGE_SIZE ==> #[trigger] t@[j] == self.byte(f as int, j));
        let mut k: usize = 0;
        while k < src.len()
            invariant
                k <= src@.len(),
                off + src@.len() <= PAGE_SIZE,
                t@.len() == PAGE_SIZE,
                forall|j: int| 0 <= j < PAGE_SIZE ==> #[trigger] t@[j]
                    == if off <= j < off + k { src@[j - off] } else { old(self).byte(f as int, j) },
            decreases src@.len() - k,
        {
            t.set(off + k, src[k]);
            k = k + 1;
        }
        self.bytes.set(f, t);
    }

    /// Read `dst.len()` bytes of frame `f` from byte `off`.
    pub fn read_bytes(&self, f: usize, off: usize, dst: &mut [u8])
        requires
            self.wf(),
            f < MAX_FRAMES,
            off + old(dst)@.len() <= PAGE_SIZE,
        ensures
            final(dst)@.len() == old(dst)@.len(),
            forall|j: int| 0 <= j < old(dst)@.len() ==> #[trigger] final(dst)@[j] == self.byte(f as int, off + j),
    {
        let mut k: usize = 0;
        while k < dst.len()
            invariant
                k <= dst@.len(),
                dst@.len() == old(dst)@.len(),
                off + dst@.len() <= PAGE_SIZE,
                self.wf(),
                f < MAX_FRAMES,
                forall|j: int| 0 <= j < k ==> #[trigger] dst@[j] == self.byte(f as int, off + j),
            decreases dst@.len() - k,
        {
            let b = self.get_byte(f, off + k);
            dst[k] = b;
            k = k + 1;
        }
    }
}


/// The leaf slot `(frame, index)` for `va` under the root table at
/// `root`, when both upper levels hold valid table links. (An upper
/// entry with R, W or X set would be a superpage, which this kernel
/// never creates; the walk stops there as at an invalid entry.)
pub open spec fn spec_walk(m: Mem, root: int, va: usize) -> Option<(int, int)> {
    if !is_frame_pa(root) {
        None
    } else {
        let e2 = m.entry(frame_of(root), spec_vpn(va, 2));
        if !interior(e2) {
            None
        } else {
            let e1 = m.entry(frame_of(pte_pa(e2) as int), spec_vpn(va, 1));
            if !interior(e1) {
                None
            } else {
                Some((frame_of(pte_pa(e1) as int), spec_vpn(va, 0)))
            }
        }
    }
}

/// The valid leaf entry mapping `va`, if any.
pub open spec fn spec_leaf(m: Mem, root: int, va: usize) -> Option<u64> {
    match spec_walk(m, root, va) {
        Some((f, i)) => if m.entry(f, i) & PTE_V != 0 {
            Some(m.entry(f, i))
        } else {
            None
        },
        None => None,
    }
}

/// The physical address `va` translates to under `root`.
pub open spec fn spec_translate(m: Mem, root: int, va: usize) -> Option<int> {
    match spec_leaf(m, root, va) {
        Some(e) => Some(pte_pa(e) + va as int % (PAGE_SIZE as int)),
        None => None,
    }
}

/// The tables on `va`'s path are allocated frames, distinct from each
/// other, and every valid upper entry on it is a table link.
pub open spec fn sound_path(m: Mem, root: int, va: usize) -> bool {
    let f2 = frame_of(root);
    let e2 = m.entry(f2, spec_vpn(va, 2));
    let f1 = frame_of(pte_pa(e2) as int);
    let e1 = m.entry(f1, spec_vpn(va, 1));
    let f0 = frame_of(pte_pa(e1) as int);
    &&& is_frame_pa(root)
    &&& m.alloc@[f2]
    &&& e2 & PTE_V != 0 ==> {
        &&& interior(e2)
        &&& m.alloc@[f1]
        &&& f1 != f2
        &&& e1 & PTE_V != 0 ==> interior(e1) && m.alloc@[f0] && f0 != f1 && f0 != f2
    }
}

/// A user address: the second GiB of the address space, which slot 1
/// of the root table covers.
pub open spec fn user_slot_va(va: int) -> bool {
    0x4000_0000 <= va < 0x8000_0000
}

/// Frame a table link points at.
pub open spec fn link_frame(e: u64) -> int {
    frame_of(pte_pa(e) as int)
}

/// The user half of the tree under `root` is a proper two-level tree:
/// the root and its slot-1 table are allocated and distinct, and every
/// valid entry of that table links an allocated leaf table that is
/// neither of them.
pub open spec fn user_tree(m: Mem, root: int) -> bool {
    let r = frame_of(root);
    let e2 = m.entry(r, 1);
    let t1 = link_frame(e2);
    &&& is_frame_pa(root)
    &&& m.alloc@[r]
    &&& e2 & PTE_V != 0 ==> {
        &&& interior(e2)
        &&& m.alloc@[t1]
        &&& t1 != r
        &&& forall|k: int|
            0 <= k < ENTRIES && #[trigger] m.entry(t1, k) & PTE_V != 0 ==> {
                &&& interior(m.entry(t1, k))
                &&& m.alloc@[link_frame(m.entry(t1, k))]
                &&& link_frame(m.entry(t1, k)) != t1
                &&& link_frame(m.entry(t1, k)) != r
            }
    }
}

/// Valid entries of allocated frames are left as they were.
pub open spec fn keeps_links(old: Mem, new: Mem) -> bool {
    forall|g: int, j: int|
        0 <= g < MAX_FRAMES && 0 <= j < ENTRIES && old.alloc@[g] && #[trigger] old.entry(g, j) & PTE_V != 0
            ==> new.entry(g, j) == old.entry(g, j)
}

pub proof fn lemma_user_slot(va: usize)
    requires
        user_slot_va(va as int),
    ensures
        spec_vpn(va, 2) == 1,
{
    assert(0x4000_0000 <= va && va < 0x8000_0000 ==> (va >> 30usize) & 0x1ff == 1) by (bit_vector);
}

/// In a proper user tree every user address has a sound path.
pub proof fn lemma_user_sound(m: Mem, root: int, va: usize)
    requires
        user_tree(m, root),
        user_slot_va(va as int),
    ensures
        sound_path(m, root, va),
        spec_walk(m, root, va) matches Some((f, i)) ==> m.alloc@[f] && f != frame_of(root) && f != link_frame(
            m.entry(frame_of(root), 1),
        ),
{
    lemma_user_slot(va);
    lemma_vpn_range(va);
}

/// Steps that keep used frames used and their valid entries unchanged
/// compose.
pub proof fn lemma_keeps_links_trans(a: Mem, b: Mem, c: Mem)
    requires
        keeps_links(a, b),
        keeps_links(b, c),
        forall|g: int| 0 <= g < MAX_FRAMES && #[trigger] a.alloc@[g] ==> b.alloc@[g],
    ensures
        keeps_links(a, c),
{
    assert forall|g: int, j: int|
        0 <= g < MAX_FRAMES && 0 <= j < ENTRIES && a.alloc@[g] && #[trigger] a.entry(g, j) & PTE_V != 0 implies c.entry(
        g,
        j,
    ) == a.entry(g, j) by {
        assert(b.alloc@[g]);
        assert(b.entry(g, j) == a.entry(g, j));
    }
}

/// A mapped user address keeps its leaf across steps that keep used
/// frames used and their valid entries unchanged.
pub proof fn lemma_leaf_stable(a: Mem, b: Mem, root: int, va: usize)
    requires
        user_tree(a, root),
        user_slot_va(va as int),
        keeps_links(a, b),
        spec_leaf(a, root, va) is Some,
    ensures
        spec_leaf(b, root, va) == spec_leaf(a, root, va),
        spec_translate(b, root, va) == spec_translate(a, root, va),
{
    lemma_user_slot(va);
    lemma_vpn_range(va);
    let r = frame_of(root);
    let e2 = a.entry(r, 1);
    let t1 = link_frame(e2);
    let e1 = a.entry(t1, spec_vpn(va, 1));
    assert(b.entry(r, 1) == e2);
    assert(b.entry(t1, spec_vpn(va, 1)) == e1);
    let f0 = link_frame(e1);
    assert(a.entry(f0, spec_vpn(va, 0)) & PTE_V != 0);
    assert(b.entry(f0, spec_vpn(va, 0)) == a.entry(f0, spec_vpn(va, 0)));
}

/// Linking a fresh, zeroed table into the root's empty user slot keeps
/// the user tree proper.
proof fn lemma_tree_new_l1(o: Mem, a: Mem, b: Mem, root: int, v: u64)
    requires
        user_tree(o, root),
        o.entry(frame_of(root), 1) & PTE_V == 0,
        interior(v),
        !o.alloc@[link_frame(v)],
        a.alloc@ == o.alloc@.update(link_frame(v), true),
        forall|j: int| 0 <= j < ENTRIES ==> #[trigger] a.entry(link_frame(v), j) == 0,
        a.entry_updated(&b, frame_of(root), 1, v),
        b.alloc == a.alloc,
    ensures
        user_tree(b, root),
{
    let t = link_frame(v);
    lemma_frame_range(pte_pa(v) as int);
    assert(frame_of(root) != t);
    assert forall|k: int| 0 <= k < ENTRIES && #[trigger] b.entry(t, k) & PTE_V != 0 implies false by {
        assert(b.entry(t, k) == a.entry(t, k));
        lemma_zero_invalid();
    }
}

/// Linking a fresh table into an empty entry of the user slot's table
/// keeps the user tree proper.
proof fn lemma_tree_new_l0(o: Mem, c: Mem, d: Mem, root: int, k1: int, v: u64)
    requires
        user_tree(o, root),
        o.entry(frame_of(root), 1) & PTE_V != 0,
        0 <= k1 < ENTRIES,
        o.entry(link_frame(o.entry(frame_of(root), 1)), k1) & PTE_V == 0,
        interior(v),
        !o.alloc@[link_frame(v)],
        c.alloc@ == o.alloc@.update(link_frame(v), true),
        forall|g: int, j: int| 0 <= g < MAX_FRAMES && g != link_frame(v) && 0 <= j < ENTRIES
            ==> #[trigger] c.entry(g, j) == o.entry(g, j),
        c.entry_updated(&d, link_frame(o.entry(frame_of(root), 1)), k1, v),
        d.alloc == c.alloc,
    ensures
        user_tree(d, root),
{
    let r = frame_of(root);
    let t1 = link_frame(o.entry(r, 1));
    let t = link_frame(v);
    lemma_frame_range(pte_pa(v) as int);
    lemma_frame_range(pte_pa(o.entry(r, 1)) as int);
    lemma_frame_range(root);
    assert(t != r && t != t1);
    assert(d.entry(r, 1) == o.entry(r, 1));
    assert forall|k: int| 0 <= k < ENTRIES && #[trigger] d.entry(t1, k) & PTE_V != 0 implies {
        &&& interior(d.entry(t1, k))
        &&& d.alloc@[link_frame(d.entry(t1, k))]
        &&& link_frame(d.entry(t1, k)) != t1
        &&& link_frame(d.entry(t1, k)) != r
    } by {
        if k != k1 {
            assert(d.entry(t1, k) == o.entry(t1, k));
        }
    }
}

/// Writing an entry of a frame that is neither the root nor the user
/// slot's table keeps the user tree proper.
proof fn lemma_tree_leaf_write(a: Mem, b: Mem, root: int, f: int, i: int, v: u64)
    requires
        user_tree(a, root),
        f != frame_of(root),
        a.entry(frame_of(root), 1) & PTE_V != 0 ==> f != link_frame(a.entry(frame_of(root), 1)),
        a.entry_updated(&b, f, i, v),
        b.alloc == a.alloc,
    ensures
        user_tree(b, root),
{
    let r = frame_of(root);
    lemma_frame_range(root);
    assert(b.entry(r, 1) == a.entry(r, 1));
    if a.entry(r, 1) & PTE_V != 0 {
        let t1 = link_frame(a.entry(r, 1));
        lemma_frame_range(pte_pa(a.entry(r, 1)) as int);
        assert forall|k: int| 0 <= k < ENTRIES implies #[trigger] b.entry(t1, k) == a.entry(t1, k) by {}
    }
}

/// The whole tree under `root` is proper: the root is allocated, and
/// every valid root entry is a proper link to a table of the middle
/// level.
pub open spec fn proper_tree(m: Mem, root: int) -> bool {
    let r = frame_of(root);
    &&& is_frame_pa(root)
    &&& m.alloc@[r]
    &&& forall|a: int| 0 <= a < ENTRIES && #[trigger] m.entry(r, a) & PTE_V != 0 ==> proper_l1(m, r, m.entry(r, a))
}

/// Root entry `e` links an allocated table other than the root `r`,
/// whose valid entries link proper leaf tables.
pub open spec fn proper_l1(m: Mem, r: int, e: u64) -> bool {
    let t = link_frame(e);
    &&& interior(e)
    &&& m.alloc@[t]
    &&& t != r
    &&& forall|b: int| 0 <= b < ENTRIES && #[trigger] m.entry(t, b) & PTE_V != 0 ==> proper_leaf_table(m, r, m.entry(t, b))
}

/// Entry `e` links an allocated leaf table that is neither the root `r`
/// nor a table the root links.
pub open spec fn proper_leaf_table(m: Mem, r: int, e: u64) -> bool {
    let l = link_frame(e);
    &&& interior(e)
    &&& m.alloc@[l]
    &&& l != r
    &&& !root_links(m, r, l)
}

/// Some valid entry of the root table `r` links frame `g`.
pub open spec fn root_links(m: Mem, r: int, g: int) -> bool {
    exists|c: int| 0 <= c < ENTRIES && #[trigger] m.entry(r, c) & PTE_V != 0 && link_frame(m.entry(r, c)) == g
}

/// A root table with no valid entry is a proper tree.
pub proof fn lemma_proper_empty(m: Mem, root: int)
    requires
        is_frame_pa(root),
        m.alloc@[frame_of(root)],
        forall|j: int| 0 <= j < ENTRIES ==> #[trigger] m.entry(frame_of(root), j) == 0,
    ensures
        proper_tree(m, root),
{
    lemma_zero_invalid();
}

/// In a proper tree every address has a sound path, and the leaf table
/// it reaches is allocated, not the root, and not a middle table.
pub proof fn lemma_proper_sound(m: Mem, root: int, va: usize)
    requires
        proper_tree(m, root),
    ensures
        sound_path(m, root, va),
        spec_walk(m, root, va) matches Some((f, i)) ==> m.alloc@[f] && f != frame_of(root) && !root_links(m, frame_of(root), f),
{
    lemma_vpn_range(va);
    let r = frame_of(root);
    let e2 = m.entry(r, spec_vpn(va, 2));
    if e2 & PTE_V != 0 {
        assert(proper_l1(m, r, e2));
        let t = link_frame(e2);
        let e1 = m.entry(t, spec_vpn(va, 1));
        if e1 & PTE_V != 0 {
            assert(proper_leaf_table(m, r, e1));
            assert(root_links(m, r, t));
        }
    }
}

/// Valid paths of a proper tree survive steps that keep valid entries of
/// allocated frames.
pub proof fn lemma_proper_leaf_stable(a: Mem, b: Mem, root: int, va: usize)
    requires
        proper_tree(a, root),
        keeps_links(a, b),
        spec_leaf(a, root, va) is Some,
    ensures
        spec_leaf(b, root, va) == spec_leaf(a, root, va),
        spec_translate(b, root, va) == spec_translate(a, root, va),
{
    lemma_vpn_range(va);
    lemma_frame_range(root);
    let r = frame_of(root);
    let e2 = a.entry(r, spec_vpn(va, 2));
    assert(proper_l1(a, r, e2));
    let t = link_frame(e2);
    lemma_frame_range(pte_pa(e2) as int);
    let e1 = a.entry(t, spec_vpn(va, 1));
    assert(proper_leaf_table(a, r, e1));
    let l = link_frame(e1);
    lemma_frame_range(pte_pa(e1) as int);
    assert(b.entry(r, spec_vpn(va, 2)) == e2);
    assert(b.entry(t, spec_vpn(va, 1)) == e1);
    assert(b.entry(l, spec_vpn(va, 0)) == a.entry(l, spec_vpn(va, 0)));
}

/// Entries and allocation alike: a proper tree stays proper.
proof fn lemma_proper_same(a: Mem, b: Mem, root: int)
    requires
        proper_tree(a, root),
        a.same_entries(&b),
        a.alloc@ == b.alloc@,
    ensures
        proper_tree(b, root),
{
    let r = frame_of(root);
    lemma_frame_range(root);
    assert forall|x: int| 0 <= x < ENTRIES && #[trigger] b.entry(r, x) & PTE_V != 0 implies proper_l1(b, r, b.entry(r, x)) by {
        let e = a.entry(r, x);
        assert(proper_l1(a, r, e));
        let t = link_frame(e);
        lemma_frame_range(pte_pa(e) as int);
        assert forall|y: int| 0 <= y < ENTRIES && #[trigger] b.entry(t, y) & PTE_V != 0 implies proper_leaf_table(b, r, b.entry(t, y)) by {
            let e1 = a.entry(t, y);
            assert(proper_leaf_table(a, r, e1));
            let l = link_frame(e1);
            if root_links(b, r, l) {
                let c = choose|c: int| 0 <= c < ENTRIES && #[trigger] b.entry(r, c) & PTE_V != 0 && link_frame(b.entry(r, c)) == l;
                assert(a.entry(r, c) == b.entry(r, c));
                assert(root_links(a, r, l));
            }
        }
    }
}

/// Linking a fresh, empty table into an empty root entry keeps the tree
/// proper.
proof fn lemma_proper_new_l1(o: Mem, a: Mem, b: Mem, root: int, k2: int, v: u64)
    requires
        proper_tree(o, root),
        0 <= k2 < ENTRIES,
        o.entry(frame_of(root), k2) & PTE_V == 0,
        interior(v),
        !o.alloc@[link_frame(v)],
        a.alloc@ == o.alloc@.update(link_frame(v), true),
        forall|j: int| 0 <= j < ENTRIES ==> #[trigger] a.entry(link_frame(v), j) == 0,
        forall|g: int, j: int| 0 <= g < MAX_FRAMES && g != link_frame(v) && 0 <= j < ENTRIES
            ==> #[trigger] a.entry(g, j) == o.entry(g, j),
        a.entry_updated(&b, frame_of(root), k2, v),
        b.alloc == a.alloc,
    ensures
        proper_tree(b, root),
{
    let r = frame_of(root);
    let n = link_frame(v);
    lemma_frame_range(root);
    lemma_frame_range(pte_pa(v) as int);
    lemma_zero_invalid();
    assert(n != r);
    assert forall|x: int| 0 <= x < ENTRIES && #[trigger] b.entry(r, x) & PTE_V != 0 implies proper_l1(b, r, b.entry(r, x)) by {
        if x == k2 {
            assert forall|y: int| 0 <= y < ENTRIES && #[trigger] b.entry(n, y) & PTE_V != 0 implies proper_leaf_table(b, r, b.entry(n, y)) by {
                assert(b.entry(n, y) == a.entry(n, y));
            }
        } else {
            let e = o.entry(r, x);
            assert(b.entry(r, x) == e);
            assert(proper_l1(o, r, e));
            let t = link_frame(e);
            lemma_frame_range(pte_pa(e) as int);
            assert(t != n);
            assert forall|y: int| 0 <= y < ENTRIES && #[trigger] b.entry(t, y) & PTE_V != 0 implies proper_leaf_table(b, r, b.entry(t, y)) by {
                let e1 = o.entry(t, y);
                assert(b.entry(t, y) == a.entry(t, y));
                assert(proper_leaf_table(o, r, e1));
                let l = link_frame(e1);
                if root_links(b, r, l) {
                    let c = choose|c: int| 0 <= c < ENTRIES && #[trigger] b.entry(r, c) & PTE_V != 0 && link_frame(b.entry(r, c)) == l;
                    if c == k2 {
                        assert(l == n);
                    } else {
                        assert(o.entry(r, c) == b.entry(r, c));
                        assert(root_links(o, r, l));
                    }
                }
            }
        }
    }
}

/// Linking a fresh, empty leaf table into an empty entry of a middle
/// table keeps the tree proper.
proof fn lemma_proper_new_l0(o: Mem, c: Mem, d: Mem, root: int, t1: int, k1: int, v: u64)
    requires
        proper_tree(o, root),
        root_links(o, frame_of(root), t1),
        0 <= k1 < ENTRIES,
        o.entry(t1, k1) & PTE_V == 0,
        interior(v),
        !o.alloc@[link_frame(v)],
        c.alloc@ == o.alloc@.update(link_frame(v), true),
        forall|g: int, j: int| 0 <= g < MAX_FRAMES && g != link_frame(v) && 0 <= j < ENTRIES
            ==> #[trigger] c.entry(g, j) == o.entry(g, j),
        c.entry_updated(&d, t1, k1, v),
        d.alloc == c.alloc,
    ensures
        proper_tree(d, root),
{
    let r = frame_of(root);
    let n = link_frame(v);
    lemma_frame_range(root);
    lemma_frame_range(pte_pa(v) as int);
    let w = choose|w: int| 0 <= w < ENTRIES && #[trigger] o.entry(r, w) & PTE_V != 0 && link_frame(o.entry(r, w)) == t1;
    assert(proper_l1(o, r, o.entry(r, w)));
    lemma_frame_range(pte_pa(o.entry(r, w)) as int);
    assert(t1 != r && n != r && n != t1);
    assert forall|x: int| 0 <= x < ENTRIES && #[trigger] d.entry(r, x) & PTE_V != 0 implies proper_l1(d, r, d.entry(r, x)) by {
        let e = o.entry(r, x);
        assert(d.entry(r, x) == e);
        assert(proper_l1(o, r, e));
        let t = link_frame(e);
        lemma_frame_range(pte_pa(e) as int);
        assert(t != n);
        assert forall|y: int| 0 <= y < ENTRIES && #[trigger] d.entry(t, y) & PTE_V != 0 implies proper_leaf_table(d, r, d.entry(t, y)) by {
            if t == t1 && y == k1 {
                if root_links(d, r, n) {
                    let q = choose|q: int| 0 <= q < ENTRIES && #[trigger] d.entry(r, q) & PTE_V != 0 && link_frame(d.entry(r, q)) == n;
                    assert(d.entry(r, q) == o.entry(r, q));
                    assert(proper_l1(o, r, o.entry(r, q)));
                }
            } else {
                let e1 = o.entry(t, y);
                assert(d.entry(t, y) == e1);
                assert(proper_leaf_table(o, r, e1));
                let l = link_frame(e1);
                if root_links(d, r, l) {
                    let q = choose|q: int| 0 <= q < ENTRIES && #[trigger] d.entry(r, q) & PTE_V != 0 && link_frame(d.entry(r, q)) == l;
                    assert(d.entry(r, q) == o.entry(r, q));
                    assert(root_links(o, r, l));
                }
            }
        }
    }
}

/// Writing an entry of a leaf table keeps the tree proper.
proof fn lemma_proper_leaf_write(a: Mem, b: Mem, root: int, f: int, i: int, v: u64)
    requires
        proper_tree(a, root),
        f != frame_of(root),
        !root_links(a, frame_of(root), f),
        a.entry_updated(&b, f, i, v),
        b.alloc == a.alloc,
    ensures
        proper_tree(b, root),
{
    let r = frame_of(root);
    lemma_frame_range(root);
    assert forall|x: int| 0 <= x < ENTRIES && #[trigger] b.entry(r, x) & PTE_V != 0 implies proper_l1(b, r, b.entry(r, x)) by {
        let e = a.entry(r, x);
        assert(b.entry(r, x) == e);
        assert(proper_l1(a, r, e));
        let t = link_frame(e);
        lemma_frame_range(pte_pa(e) as int);
        assert(root_links(a, r, t));
        assert forall|y: int| 0 <= y < ENTRIES && #[trigger] b.entry(t, y) & PTE_V != 0 implies proper_leaf_table(b, r, b.entry(t, y)) by {
            let e1 = a.entry(t, y);
            assert(b.entry(t, y) == e1);
            assert(proper_leaf_table(a, r, e1));
            let l = link_frame(e1);
            if root_links(b, r, l) {
                let q = choose|q: int| 0 <= q < ENTRIES && #[trigger] b.entry(r, q) & PTE_V != 0 && link_frame(b.entry(r, q)) == l;
                assert(b.entry(r, q) == a.entry(r, q));
                assert(root_links(a, r, l));
            }
        }
    }
}

/// Zeroing one entry maps nothing new: an address it leaves mapped was
/// mapped before by the same leaf, on a path that avoids the entry.
pub proof fn lemma_zero_write_leaf(a: Mem, b: Mem, root: int, x: usize, f: int, i: int)
    requires
        a.entry_updated(&b, f, i, 0),
        spec_leaf(b, root, x) is Some,
    ensures
        spec_leaf(a, root, x) == spec_leaf(b, root, x),
        spec_walk(a, root, x) == spec_walk(b, root, x),
        spec_walk(a, root, x) != Some((f, i)),
{
    lemma_vpn_range(x);
    lemma_zero_invalid();
    lemma_frame_range(root);
    let r = frame_of(root);
    let e2 = b.entry(r, spec_vpn(x, 2));
    assert(a.entry(r, spec_vpn(x, 2)) == e2);
    lemma_frame_range(pte_pa(e2) as int);
    let t = frame_of(pte_pa(e2) as int);
    let e1 = b.entry(t, spec_vpn(x, 1));
    assert(a.entry(t, spec_vpn(x, 1)) == e1);
    lemma_frame_range(pte_pa(e1) as int);
    let l = frame_of(pte_pa(e1) as int);
    assert(a.entry(l, spec_vpn(x, 0)) == b.entry(l, spec_vpn(x, 0)));
}

/// Every address of a page has the page's leaf, and its offset in it.
pub proof fn lemma_leaf_page(m: Mem, root: int, va: usize, off: usize)
    requires
        va % 4096 == 0,
        off < 4096,
    ensures
        spec_leaf(m, root, (va + off) as usize) == spec_leaf(m, root, va),
        (va + off) as usize % 4096 == off,
{
    lemma_vpn_offset(va, off);
}

/// The table in the root's user slot.
pub open spec fn t1_of(m: Mem, root: int) -> int {
    link_frame(m.entry(frame_of(root), 1))
}

/// From `a` to `b`, entries change only in the root, its user-slot
/// table, the leaf table on `va`'s path, or frames that were free.
pub open spec fn writes_only(a: Mem, b: Mem, root: int, va: usize) -> bool {
    forall|g: int, j: int|
        0 <= g < MAX_FRAMES && 0 <= j < ENTRIES && #[trigger] b.entry(g, j) != a.entry(g, j) ==> !a.alloc@[g] || g
            == frame_of(root) || g == t1_of(b, root) || g == link_frame(b.entry(t1_of(b, root), spec_vpn(va, 1)))
}

/// Every link of the user tree in `b` is one `a` had, or leads to a
/// frame that was free in `a`.
pub open spec fn grows_fresh(a: Mem, b: Mem, root: int) -> bool {
    let r = frame_of(root);
    let t = t1_of(b, root);
    &&& b.entry(r, 1) & PTE_V != 0 ==> b.entry(r, 1) == a.entry(r, 1) || !a.alloc@[t]
    &&& b.entry(r, 1) & PTE_V != 0 ==> forall|k: int|
        0 <= k < ENTRIES && #[trigger] b.entry(t, k) & PTE_V != 0 ==> (b.entry(r, 1) == a.entry(r, 1) && b.entry(t, k)
            == a.entry(t, k)) || !a.alloc@[link_frame(b.entry(t, k))]
}

/// The tables of the user tree in `m`, other than the root, were all
/// free in `o`.
pub open spec fn fresh_tree(o: Mem, m: Mem, root: int) -> bool {
    let t = t1_of(m, root);
    m.entry(frame_of(root), 1) & PTE_V != 0 ==> {
        &&& !o.alloc@[t]
        &&& forall|k: int|
            0 <= k < ENTRIES && #[trigger] m.entry(t, k) & PTE_V != 0 ==> !o.alloc@[link_frame(m.entry(t, k))]
    }
}

/// A step that grows the tree only with fresh tables composes with
/// another such step.
pub proof fn lemma_grows_trans(a: Mem, b: Mem, c: Mem, root: int)
    requires
        grows_fresh(a, b, root),
        grows_fresh(b, c, root),
        user_tree(b, root),
        user_tree(c, root),
        forall|g: int| 0 <= g < MAX_FRAMES && #[trigger] a.alloc@[g] ==> b.alloc@[g],
    ensures
        grows_fresh(a, c, root),
{
    let r = frame_of(root);
    if c.entry(r, 1) & PTE_V != 0 {
        let t = t1_of(c, root);
        lemma_frame_range(pte_pa(c.entry(r, 1)) as int);
        if c.entry(r, 1) != a.entry(r, 1) && a.alloc@[t] {
            assert(b.alloc@[t]);
        }
        assert forall|k: int| 0 <= k < ENTRIES && #[trigger] c.entry(t, k) & PTE_V != 0 implies (c.entry(r, 1) == a.entry(
            r,
            1,
        ) && c.entry(t, k) == a.entry(t, k)) || !a.alloc@[link_frame(c.entry(t, k))] by {
            let l = link_frame(c.entry(t, k));
            lemma_frame_range(pte_pa(c.entry(t, k)) as int);
            if c.entry(r, 1) == b.entry(r, 1) && c.entry(t, k) == b.entry(t, k) {
                assert(t1_of(b, root) == t);
                assert(b.entry(r, 1) & PTE_V != 0);
                assert(b.entry(t, k) & PTE_V != 0);
            } else if a.alloc@[l] {
                assert(b.alloc@[l]);
            }
        }
    }
}

/// A step that leaves the root's user slot and that table's entries as
/// they were grows nothing.
pub proof fn lemma_grows_same(a: Mem, b: Mem, root: int)
    requires
        b.entry(frame_of(root), 1) == a.entry(frame_of(root), 1),
        a.entry(frame_of(root), 1) & PTE_V != 0 ==> forall|k: int|
            0 <= k < ENTRIES ==> #[trigger] b.entry(t1_of(a, root), k) == a.entry(t1_of(a, root), k),
    ensures
        grows_fresh(a, b, root),
{
    let t = t1_of(a, root);
    assert(t1_of(b, root) == t);
    if a.entry(frame_of(root), 1) & PTE_V != 0 {
        assert forall|k: int| 0 <= k < ENTRIES && #[trigger] b.entry(t, k) & PTE_V != 0 implies (b.entry(frame_of(root), 1)
            == a.entry(frame_of(root), 1) && b.entry(t, k) == a.entry(t, k)) || !a.alloc@[link_frame(b.entry(t, k))] by {}
    }
}

/// Grown from an empty user slot, every table of the tree is fresh
/// relative to any earlier state.
pub proof fn lemma_fresh_from_empty(o: Mem, a: Mem, b: Mem, root: int)
    requires
        a.entry(frame_of(root), 1) & PTE_V == 0,
        grows_fresh(a, b, root),
        user_tree(b, root),
        forall|g: int| 0 <= g < MAX_FRAMES && #[trigger] o.alloc@[g] ==> a.alloc@[g],
    ensures
        fresh_tree(o, b, root),
{
    let r = frame_of(root);
    if b.entry(r, 1) & PTE_V != 0 {
        let t = t1_of(b, root);
        lemma_frame_range(pte_pa(b.entry(r, 1)) as int);
        if o.alloc@[t] {
            assert(a.alloc@[t]);
        }
        assert forall|k: int| 0 <= k < ENTRIES && #[trigger] b.entry(t, k) & PTE_V != 0 implies !o.alloc@[link_frame(
            b.entry(t, k),
        )] by {
            let l = link_frame(b.entry(t, k));
            lemma_frame_range(pte_pa(b.entry(t, k)) as int);
            if o.alloc@[l] {
                assert(a.alloc@[l]);
            }
        }
    }
}

/// Rewriting slot 1 of a table that was allocated in `o` cannot touch a
/// user tree whose tables were all free in `o`: every user address keeps
/// its leaf.
pub proof fn lemma_old_slot_apart(o: Mem, a: Mem, b: Mem, root: int, f: int)
    requires
        user_tree(a, root),
        fresh_tree(o, a, root),
        !o.alloc@[frame_of(root)],
        0 <= f < MAX_FRAMES,
        o.alloc@[f],
        forall|g: int, j: int| 0 <= g < MAX_FRAMES && 0 <= j < ENTRIES && !(g == f && j == 1) ==> #[trigger] b.entry(g, j)
            == a.entry(g, j),
    ensures
        forall|va: usize| user_slot_va(va as int) ==> #[trigger] spec_leaf(b, root, va) == spec_leaf(a, root, va),
{
    let r = frame_of(root);
    lemma_frame_range(root);
    assert forall|va: usize| user_slot_va(va as int) implies #[trigger] spec_leaf(b, root, va) == spec_leaf(a, root, va) by {
        lemma_user_slot(va);
        lemma_vpn_range(va);
        assert(b.entry(r, 1) == a.entry(r, 1));
        if a.entry(r, 1) & PTE_V != 0 {
            let t = t1_of(a, root);
            lemma_frame_range(pte_pa(a.entry(r, 1)) as int);
            assert(b.entry(t, spec_vpn(va, 1)) == a.entry(t, spec_vpn(va, 1)));
            let e1 = a.entry(t, spec_vpn(va, 1));
            if e1 & PTE_V != 0 {
                lemma_frame_range(pte_pa(e1) as int);
                let l = link_frame(e1);
                assert(b.entry(l, spec_vpn(va, 0)) == a.entry(l, spec_vpn(va, 0)));
            }
        }
    }
}

/// The leaf table of a walk is none of the upper tables.
pub open spec fn leaf_apart(m: Mem, root: int, va: usize) -> bool {
    let f2 = frame_of(root);
    let f1 = frame_of(pte_pa(m.entry(f2, spec_vpn(va, 2))) as int);
    match spec_walk(m, root, va) {
        Some((f0, _)) => f0 != f2 && f0 != f1,
        None => true,
    }
}

proof fn lemma_encode(pa: u64, bits: u64)
    requires
        pa & 0xfff == 0,
        pa < 0x100_0000_0000_0000,
        bits < 1024,
    ensures
        pte_pa(encode(pa, bits)) == pa,
        encode(pa, bits) & PTE_V == bits & PTE_V,
        encode(pa, bits) & (PTE_R | PTE_W | PTE_X) == bits & (PTE_R | PTE_W | PTE_X),
{
    assert((pa & 0xfff == 0 && pa < 0x100_0000_0000_0000 && bits < 1024 ==> ((((pa >> 12u64) << 10u64) | bits) >> 10u64)
        << 12u64 == pa) && (bits < 1024 ==> (((pa >> 12u64) << 10u64) | bits) & 1u64 == bits & 1u64) && (bits < 1024 ==> (((pa
        >> 12u64) << 10u64) | bits) & (PTE_R | PTE_W | PTE_X) == bits & (PTE_R | PTE_W | PTE_X))) by (bit_vector);
}

proof fn lemma_vpn_offset(va: usize, off: usize)
    requires
        va % 4096 == 0,
        off < 4096,
    ensures
        spec_vpn((va + off) as usize, 2) == spec_vpn(va, 2),
        spec_vpn((va + off) as usize, 1) == spec_vpn(va, 1),
        spec_vpn((va + off) as usize, 0) == spec_vpn(va, 0),
        (va + off) as usize % 4096 == off,
{
    assert(va % 4096 == 0 && off < 4096 ==> (((va + off) as usize) >> 30usize) & 0x1ff == (va >> 30usize) & 0x1ff && (((va
        + off) as usize) >> 21usize) & 0x1ff == (va >> 21usize) & 0x1ff && (((va + off) as usize) >> 12usize) & 0x1ff == (va
        >> 12usize) & 0x1ff && ((va + off) as usize) % 4096 == off) by (bit_vector);
}

/// The zero entry is not valid.
pub proof fn lemma_zero_invalid()
    ensures
        0u64 & PTE_V == 0,
{
    assert(0u64 & PTE_V == 0) by (bit_vector);
}

proof fn lemma_vpn_range(va: usize)
    ensures
        0 <= spec_vpn(va, 0) < 512,
        0 <= spec_vpn(va, 1) < 512,
        0 <= spec_vpn(va, 2) < 512,
{
    assert((va >> 30usize) & 0x1ff < 512 && (va >> 21usize) & 0x1ff < 512 && (va >> 12usize) & 0x1ff < 512) by (bit_vector);
}

/// VPN slice for `level` (2 = root) of a Sv39 virtual address.
pub fn vpn(va: usize, level: usize) -> (r: usize)
    requires
        level <= 2,
    ensures
        r == spec_vpn(va, level as int),
        r < ENTRIES,
{
    proof {
        lemma_vpn_range(va);
    }
    if level == 2 {
        (va >> 30usize) & 0x1ff
    } else if level == 1 {
        (va >> 21usize) & 0x1ff
    } else {
        (va >> 12usize) & 0x1ff
    }
}

fn is_frame_addr(pa: u64) -> (r: bool)
    ensures
        r == is_frame_pa(pa as int),
{
    pa >= RAM_START as u64 && pa < RAM_END as u64 && (pa - RAM_START as u64) % (PAGE_SIZE as u64) == 0
}

/// Frame index of a frame's physical address.
fn frame_index(pa: u64) -> (r: usize)
    requires
        is_frame_pa(pa as int),
    ensures
        r == frame_of(pa as int),
        r < MAX_FRAMES,
{
    ((pa - RAM_START as u64) / (PAGE_SIZE as u64)) as usize
}

fn entry_pa(e: u64) -> (r: u64)
    ensures
        r == pte_pa(e),
{
    (e >> 10u64) << 12u64
}

fn is_interior(e: u64) -> (r: bool)
    ensures
        r == interior(e),
{
    e & PTE_V != 0 && e & (PTE_R | PTE_W | PTE_X) == 0 && is_frame_addr(entry_pa(e))
}

impl Mem {
    /// Allocate one zeroed frame; its physical address.
    pub fn alloc_frame(&mut self) -> (r: Option<usize>)
        requires
            old(self).wf(),
        ensures
            final(self).wf(),
            final(self).kernel_root == old(self).kernel_root,
            final(self).alloc.first_frame == old(self).alloc.first_frame,
            r is None <==> old(self).alloc.free_frames == 0,
            match r {
                None => {
                    &&& final(self).alloc@ == old(self).alloc@
                    &&& final(self).alloc.free_frames == old(self).alloc.free_frames
                    &&& old(self).same_entries(final(self))
                    &&& old(self).same_bytes(final(self))
                },
                Some(pa) => {
                    let f = frame_of(pa as int);
                    &&& is_frame_pa(pa as int)
                    &&& !old(self).alloc@[f]
                    &&& f >= old(self).alloc.first_frame
                    &&& forall|t: int| old(self).alloc.first_frame <= t < f ==> #[trigger] old(self).alloc@[t]
                    &&& final(self).alloc@ == old(self).alloc@.update(f, true)
                    &&& final(self).alloc.free_frames == old(self).alloc.free_frames - 1
                    &&& forall|j: int| 0 <= j < ENTRIES ==> #[trigger] final(self).entry(f, j) == 0
                    &&& forall|j: int| 0 <= j < PAGE_SIZE ==> #[trigger] final(self).byte(f, j) == 0
                    &&& forall|g: int, j: int| 0 <= g < MAX_FRAMES && g != f && 0 <= j < ENTRIES
                        ==> #[trigger] final(self).entry(g, j) == old(self).entry(g, j)
                    &&& forall|g: int, j: int| 0 <= g < MAX_FRAMES && g != f && 0 <= j < PAGE_SIZE
                        ==> #[trigger] final(self).byte(g, j) == old(self).byte(g, j)
                },
            },
    {
        match page_alloc(&mut self.alloc, 1) {
            None => {
                proof {
                    if old(self).alloc.free_frames > 0 {
                        lemma_free_frame_exists(old(self).alloc);
                    }
                }
                None
            },
            Some(pa) => {
                let f = (pa - RAM_START) / PAGE_SIZE;
                assert(run_free(old(self).alloc@, f as int, 1));
                assert forall|t: int| old(self).alloc.first_frame <= t < f implies #[trigger] old(self).alloc@[t] by {
                    assert(!run_free(old(self).alloc@, t, 1));
                }
                assert(self.alloc@ =~= old(self).alloc@.update(f as int, true));
                self.ptes.set(f, Vec::new());
                self.bytes.set(f, Vec::new());
                Some(pa)
            },
        }
    }
}

/// One page table, named by the physical address of its frame.
#[derive(Clone, Copy)]
pub struct PageTable {
    pub pa: usize,
}

/// The table at physical address `pa` (all of RAM is identity-mapped
/// for the kernel).
pub fn table_at(pa: usize) -> (r: PageTable)
    ensures
        r.pa == pa,
{
    PageTable { pa }
}

/// Physical address of the kernel's root table.
pub fn kernel_root_pa(m: &Mem) -> (r: usize)
    ensures
        r == m.kernel_root,
{
    m.kernel_root
}

impl PageTable {
    /// Allocate a zeroed table.
    pub fn allocate(m: &mut Mem) -> (r: Option<PageTable>)
        requires
            old(m).wf(),
        ensures
            final(m).wf(),
            final(m).kernel_root == old(m).kernel_root,
            final(m).alloc.first_frame == old(m).alloc.first_frame,
            keeps_used(*old(m), *final(m)),
            r is None <==> old(m).alloc.free_frames == 0,
            r is None ==> final(m).alloc@ == old(m).alloc@ && old(m).same_entries(final(m)) && old(m).same_bytes(final(m)),
            r is Some ==> {
                let f = frame_of(r->0.pa as int);
                &&& is_frame_pa(r->0.pa as int)
                &&& !old(m).alloc@[f]
                &&& f >= old(m).alloc.first_frame
                &&& forall|t: int| old(m).alloc.first_frame <= t < f ==> #[trigger] old(m).alloc@[t]
                &&& final(m).alloc@ == old(m).alloc@.update(f, true)
                &&& forall|j: int| 0 <= j < ENTRIES ==> #[trigger] final(m).entry(f, j) == 0
                &&& forall|j: int| 0 <= j < PAGE_SIZE ==> #[trigger] final(m).byte(f, j) == 0
                &&& forall|g: int, j: int| 0 <= g < MAX_FRAMES && g != f && 0 <= j < ENTRIES
                    ==> #[trigger] final(m).entry(g, j) == old(m).entry(g, j)
                &&& forall|g: int, j: int| 0 <= g < MAX_FRAMES && g != f && 0 <= j < PAGE_SIZE
                    ==> #[trigger] final(m).byte(g, j) == old(m).byte(g, j)
            },
    {
        match m.alloc_frame() {
            Some(pa) => Some(PageTable { pa }),
            None => None,
        }
    }

    /// `satp` value that activates this table as the root.
    pub fn satp(&self) -> (r: u64)
        ensures
            r == SATP_MODE_SV39 | ((self.pa as u64) >> 12u64),
    {
        SATP_MODE_SV39 | ((self.pa as u64) >> 12u64)
    }

    /// The leaf slot for `va`, without creating tables.
    pub fn walk(&self, m: &Mem, va: usize) -> (r: Option<(usize, usize)>)
        requires
            m.wf(),
        ensures
            match r {
                Some((f, i)) => spec_walk(*m, self.pa as int, va) == Some((f as int, i as int)) && f < MAX_FRAMES && i < ENTRIES,
                None => spec_walk(*m, self.pa as int, va) is None,
            },
    {
        if !is_frame_addr(self.pa as u64) {
            return None;
        }
        let f2 = frame_index(self.pa as u64);
        let e2 = m.get_entry(f2, vpn(va, 2));
        if !is_interior(e2) {
            return None;
        }
        let f1 = frame_index(entry_pa(e2));
        let e1 = m.get_entry(f1, vpn(va, 1));
        if !is_interior(e1) {
            return None;
        }
        Some((frame_index(entry_pa(e1)), vpn(va, 0)))
    }
}


pub const ERR_OOM: &'static str = "mmu: out of memory for page table";
pub const ERR_MAPPED: &'static str = "mmu: va already mapped";

pub const ERR_NO_ROOT: &'static str = "mmu: no memory for kernel root table";

/// Frames allocated in `old` are still allocated in `new` and hold the
/// same bytes.
pub open spec fn keeps_used(old: Mem, new: Mem) -> bool {
    &&& forall|g: int| 0 <= g < MAX_FRAMES && #[trigger] old.alloc@[g] ==> new.alloc@[g]
    &&& forall|g: int, j: int| 0 <= g < MAX_FRAMES && 0 <= j < PAGE_SIZE && old.alloc@[g]
        ==> #[trigger] new.byte(g, j) == old.byte(g, j)
}

/// Link entry for the table at `pa`.
fn link(pa: usize) -> (r: u64)
    requires
        is_frame_pa(pa as int),
    ensures
        r == encode(pa as u64, PTE_V),
        interior(r),
        pte_pa(r) == pa as u64,
{
    let p = pa as u64;
    assert(p & 0xfff == 0) by (bit_vector)
        requires
            (p - 0x8000_0000u64) % 4096 == 0,
            p >= 0x8000_0000u64,
    ;
    proof {
        lemma_encode(p, PTE_V);
        assert(PTE_V & PTE_V == 1u64 && PTE_V & (PTE_R | PTE_W | PTE_X) == 0u64) by (bit_vector);
    }
    ((p >> 12u64) << 10u64) | PTE_V
}

impl PageTable {
    /// The leaf slot for `va`, allocating missing intermediate tables.
    #[verifier::rlimit(40)]
    fn walk_create(&self, m: &mut Mem, va: usize) -> (r: Option<(usize, usize)>)
        requires
            old(m).wf(),
        ensures
            final(m).wf(),
            final(m).kernel_root == old(m).kernel_root,
            final(m).alloc.first_frame == old(m).alloc.first_frame,
            keeps_used(*old(m), *final(m)),
            keeps_links(*old(m), *final(m)),
            final(m).alloc.free_frames <= old(m).alloc.free_frames <= final(m).alloc.free_frames + 2,
            sound_path(*old(m), self.pa as int, va) && r is None ==> final(m).alloc.free_frames == 0,
            user_tree(*old(m), self.pa as int) && user_slot_va(va as int) ==> user_tree(*final(m), self.pa as int),
            user_tree(*old(m), self.pa as int) && user_slot_va(va as int) ==> writes_only(*old(m), *final(m), self.pa as int, va)
                && grows_fresh(*old(m), *final(m), self.pa as int),
            proper_tree(*old(m), self.pa as int) ==> proper_tree(*final(m), self.pa as int),
            spec_walk(*old(m), self.pa as int, va) is Some ==> *final(m) == *old(m) && match r {
                Some((f, i)) => spec_walk(*old(m), self.pa as int, va) == Some((f as int, i as int)),
                None => false,
            },
            match r {
                Some((f, i)) => {
                    &&& f < MAX_FRAMES
                    &&& i < ENTRIES
                    &&& sound_path(*old(m), self.pa as int, va) ==> {
                        &&& spec_walk(*final(m), self.pa as int, va) == Some((f as int, i as int))
                        &&& leaf_apart(*final(m), self.pa as int, va)
                        &&& final(m).entry(f as int, i as int) == match spec_walk(*old(m), self.pa as int, va) {
                            Some((g, j)) => old(m).entry(g, j),
                            None => 0,
                        }
                    }
                },
                None => sound_path(*old(m), self.pa as int, va) ==> spec_walk(*old(m), self.pa as int, va) is None,
            },
    {
        let ghost root = self.pa as int;
        if !is_frame_addr(self.pa as u64) {
            return None;
        }
        let f2 = frame_index(self.pa as u64);
        let v2 = vpn(va, 2);
        let mut e2 = m.get_entry(f2, v2);
        let ghost created2 = false;
        if e2 & PTE_V == 0 {
            let ghost m0 = *m;
            let t1 = match m.alloc_frame() {
                Some(p) => p,
                None => {
                    proof {
                        if proper_tree(*old(m), root) {
                            lemma_proper_same(*old(m), *m, root);
                        }
                    }
                    return None;
                },
            };
            let ghost ma = *m;
            e2 = link(t1);
            m.set_entry(f2, v2, e2);
            proof {
                created2 = true;
                assert(keeps_used(m0, *m));
                if user_tree(*old(m), root) && user_slot_va(va as int) {
                    lemma_user_slot(va);
                    lemma_tree_new_l1(*old(m), ma, *m, root, e2);
                }
                if proper_tree(*old(m), root) {
                    lemma_vpn_range(va);
                    lemma_proper_new_l1(*old(m), ma, *m, root, v2 as int, e2);
                }
            }
        } else if !is_interior(e2) {
            return None;
        }
        let ghost mid = *m;
        proof {
            if user_tree(*old(m), root) && user_slot_va(va as int) {
                lemma_user_slot(va);
                assert(user_tree(mid, root));
            }
        }
        let f1 = frame_index(entry_pa(e2));
        let v1 = vpn(va, 1);
        let mut e1 = m.get_entry(f1, v1);
        proof {
            if sound_path(*old(m), root, va) {
                assert(f1 != f2);
                assert(m.alloc@[f1 as int]);
                assert(m.alloc@[f2 as int]);
                if created2 {
                    assert(e1 == 0);
                } else {
                    assert(*m == *old(m));
                }
            }
        }
        if e1 & PTE_V == 0 {
            let t0 = match m.alloc_frame() {
                Some(p) => p,
                None => {
                    proof {
                        if proper_tree(*old(m), root) {
                            lemma_proper_same(mid, *m, root);
                        }
                    }
                    return None;
                },
            };
            let ghost mc = *m;
            e1 = link(t0);
            m.set_entry(f1, v1, e1);
            proof {
                assert(keeps_used(mid, *m));
                if proper_tree(*old(m), root) {
                    lemma_vpn_range(va);
                    assert(root_links(mid, frame_of(root), f1 as int));
                    lemma_proper_new_l0(mid, mc, *m, root, f1 as int, v1 as int, e1);
                }
                if user_tree(*old(m), root) && user_slot_va(va as int) {
                    lemma_vpn_range(va);
                    lemma_tree_new_l0(mid, mc, *m, root, v1 as int, e1);
                }
                if sound_path(*old(m), root, va) {
                    let t = frame_of(t0 as int);
                    assert(t != f1 && t != f2);
                    assert(frame_of(pte_pa(e1) as int) == t);
                    assert(m.entry(f2 as int, v2 as int) == e2);
                    assert(m.entry(f1 as int, v1 as int) == e1);
                    lemma_vpn_range(va);
                    assert(spec_walk(*old(m), root, va) is None) by {
                        if !created2 {
                            assert(old(m).entry(f1 as int, v1 as int) & PTE_V == 0);
                        }
                    }
                }
            }
        } else if !is_interior(e1) {
            proof {
                if sound_path(*old(m), root, va) {
                    lemma_zero_invalid();
                    lemma_vpn_range(va);
                    if !created2 {
                        assert(old(m).entry(f1 as int, v1 as int) == e1);
                    }
                }
            }
            return None;
        } else {
            proof {
                if sound_path(*old(m), root, va) {
                    assert(m.entry(f2 as int, v2 as int) == e2);
                    if created2 {
                        assert(e1 == 0);
                        lemma_zero_invalid();
                    } else {
                        assert(*m == *old(m));
                        assert(old(m).entry(frame_of(root), spec_vpn(va, 2)) == e2);
                        assert(old(m).entry(f1 as int, spec_vpn(va, 1)) == e1);
                        assert(frame_of(pte_pa(e1) as int) != f1 as int);
                        assert(frame_of(pte_pa(e1) as int) != f2 as int);
                    }
                }
            }
        }
        assert(keeps_used(*old(m), *m));
        proof {
            lemma_vpn_range(va);
            if sound_path(*old(m), root, va) {
                let f0 = frame_of(pte_pa(e1) as int);
                assert(m.entry(f2 as int, v2 as int) == e2);
                assert(m.entry(f1 as int, v1 as int) == e1);
                assert(spec_walk(*m, root, va) == Some((f0, spec_vpn(va, 0))));
                assert(f0 != f2 as int && f0 != f1 as int);
                assert(leaf_apart(*m, root, va));
            }
        }
        Some((frame_index(entry_pa(e1)), vpn(va, 0)))
    }
}


/// The leaf entry `map` writes for `pa` with `flags`.
pub open spec fn leaf_entry(pa: usize, flags: u64) -> u64 {
    encode(pa as u64, flags | PTE_A | PTE_D | PTE_V)
}

proof fn lemma_leaf_entry(pa: usize, flags: u64)
    requires
        pa % 4096 == 0,
        pa < 0x100_0000_0000_0000,
        flags < 1024,
    ensures
        pte_pa(leaf_entry(pa, flags)) == pa as u64,
        leaf_entry(pa, flags) & PTE_V != 0,
{
    let p = pa as u64;
    assert(p & 0xfff == 0) by (bit_vector)
        requires
            p % 4096 == 0,
    ;
    let bits = flags | PTE_A | PTE_D | PTE_V;
    assert(flags < 1024 ==> (flags | PTE_A | PTE_D | PTE_V) < 1024 && (flags | PTE_A | PTE_D | PTE_V) & PTE_V == 1) by (bit_vector);
    lemma_encode(p, bits);
}

impl PageTable {
    /// Map the 4 KiB page at `va` to physical `pa` with `flags`
    /// (PTE_R/W/X/U). A and D are set eagerly so implementations that
    /// trap on hardware A/D updates never fault on these mappings.
    pub fn map(&self, m: &mut Mem, va: usize, pa: usize, flags: u64) -> (r: Result<(), &'static str>)
        requires
            old(m).wf(),
            va % PAGE_SIZE == 0,
            pa % PAGE_SIZE == 0,
            pa < 0x100_0000_0000_0000,
            flags < 1024,
        ensures
            final(m).wf(),
            final(m).kernel_root == old(m).kernel_root,
            final(m).alloc.first_frame == old(m).alloc.first_frame,
            keeps_used(*old(m), *final(m)),
            keeps_links(*old(m), *final(m)),
            final(m).alloc.free_frames <= old(m).alloc.free_frames <= final(m).alloc.free_frames + 2,
            sound_path(*old(m), self.pa as int, va) && r == Err::<(), &'static str>(ERR_OOM) ==> final(m).alloc.free_frames == 0,
            user_tree(*old(m), self.pa as int) && user_slot_va(va as int) ==> user_tree(*final(m), self.pa as int),
            user_tree(*old(m), self.pa as int) && user_slot_va(va as int) ==> writes_only(*old(m), *final(m), self.pa as int, va)
                && grows_fresh(*old(m), *final(m), self.pa as int),
            proper_tree(*old(m), self.pa as int) ==> proper_tree(*final(m), self.pa as int),
            r is Err ==> r == Err::<(), &'static str>(ERR_OOM) || r == Err::<(), &'static str>(ERR_MAPPED),
            spec_leaf(*old(m), self.pa as int, va) is Some ==> r == Err::<(), &'static str>(ERR_MAPPED) && *final(m) == *old(m),
            sound_path(*old(m), self.pa as int, va) && spec_leaf(*old(m), self.pa as int, va) is None ==> r != Err::<(), &'static str>(ERR_MAPPED),
            sound_path(*old(m), self.pa as int, va) && r is Ok ==> {
                &&& spec_leaf(*final(m), self.pa as int, va) == Some(leaf_entry(pa, flags))
                &&& forall|off: int| 0 <= off < PAGE_SIZE ==> #[trigger] spec_translate(*final(m), self.pa as int, (va + off) as usize) == Some(pa + off)
            },
    {
        let slot = match self.walk_create(m, va) {
            Some(s) => s,
            None => {
                return Err(ERR_OOM);
            },
        };
        let (f, i) = slot;
        let e = m.get_entry(f, i);
        proof {
            lemma_zero_invalid();
        }
        if e & PTE_V != 0 {
            return Err(ERR_MAPPED);
        }
        let ghost m1 = *m;
        proof {
            lemma_leaf_entry(pa, flags);
            if user_tree(*old(m), self.pa as int) && user_slot_va(va as int) {
                lemma_user_sound(*old(m), self.pa as int, va);
                lemma_user_slot(va);
            }
        }
        let v = ((pa as u64 >> 12u64) << 10u64) | flags | PTE_A | PTE_D | PTE_V;
        assert(v == leaf_entry(pa, flags)) by (bit_vector)
            requires
                v == ((pa as u64 >> 12u64) << 10u64) | flags | PTE_A | PTE_D | PTE_V,
        ;
        m.set_entry(f, i, v);
        proof {
            lemma_keeps_links_trans(*old(m), m1, *m);
            if user_tree(*old(m), self.pa as int) && user_slot_va(va as int) {
                lemma_tree_leaf_write(m1, *m, self.pa as int, f as int, i as int, v);
            }
            let root = self.pa as int;
            if proper_tree(*old(m), root) {
                lemma_proper_sound(*old(m), root, va);
                lemma_proper_sound(m1, root, va);
                lemma_proper_leaf_write(m1, *m, root, f as int, i as int, v);
            }
            if sound_path(*old(m), root, va) {
                let f2 = frame_of(root);
                let f1 = frame_of(pte_pa(m1.entry(f2, spec_vpn(va, 2))) as int);
                lemma_vpn_range(va);
                assert(m.entry(f2, spec_vpn(va, 2)) == m1.entry(f2, spec_vpn(va, 2)));
                assert(m.entry(f1, spec_vpn(va, 1)) == m1.entry(f1, spec_vpn(va, 1)));
                assert(spec_walk(*m, root, va) == Some((f as int, i as int)));
                assert(spec_leaf(*m, root, va) == Some(v));
                assert forall|off: int| 0 <= off < PAGE_SIZE implies #[trigger] spec_translate(*m, root, (va + off) as usize) == Some(pa + off) by {
                    lemma_vpn_offset(va, off as usize);
                    assert(spec_walk(*m, root, (va + off) as usize) == spec_walk(*m, root, va));
                }
            }
        }
        Ok(())
    }

    /// Remove the mapping for `va`; the physical address that was mapped,
    /// so callers can free the frame if they own it.
    pub fn unmap(&self, m: &mut Mem, va: usize) -> (r: Option<usize>)
        requires
            old(m).wf(),
        ensures
            final(m).wf(),
            final(m).alloc == old(m).alloc,
            final(m).kernel_root == old(m).kernel_root,
            old(m).same_bytes(final(m)),
            match spec_leaf(*old(m), self.pa as int, va) {
                Some(e) => {
                    let (f, i) = spec_walk(*old(m), self.pa as int, va)->0;
                    &&& r == Some(pte_pa(e) as usize)
                    &&& old(m).entry_updated(final(m), f, i, 0)
                },
                None => r is None && *final(m) == *old(m),
            },
            spec_leaf(*final(m), self.pa as int, va) is None,
    {
        let (f, i) = match self.walk(m, va) {
            Some(s) => s,
            None => {
                return None;
            },
        };
        let e = m.get_entry(f, i);
        if e & PTE_V == 0 {
            return None;
        }
        let ghost m1 = *m;
        m.set_entry(f, i, 0);
        proof {
            if spec_leaf(*m, self.pa as int, va) is Some {
                lemma_zero_write_leaf(m1, *m, self.pa as int, va, f as int, i as int);
            }
        }
        Some(entry_pa(e) as usize)
    }

    /// Software walk: translate `va` to its physical address.
    pub fn virt_to_phys(&self, m: &Mem, va: usize) -> (r: Option<usize>)
        requires
            m.wf(),
        ensures
            match spec_translate(*m, self.pa as int, va) {
                Some(p) => r == Some(p as usize),
                None => r is None,
            },
    {
        let (f, i) = match self.walk(m, va) {
            Some(s) => s,
            None => {
                return None;
            },
        };
        let e = m.get_entry(f, i);
        if e & PTE_V == 0 {
            return None;
        }
        let p = entry_pa(e);
        let off = va % PAGE_SIZE;
        assert(((p + off as u64) as usize) == ((p as usize) | off)) by (bit_vector)
            requires
                p == (e >> 10u64) << 12u64,
                off < 4096,
        ;
        Some((p as usize) | off)
    }
}


impl PageTable {
    /// Identity-map every page in `[start, end)`.
    pub fn map_range(&self, m: &mut Mem, start: usize, end: usize, flags: u64) -> (r: Result<(), &'static str>)
        requires
            old(m).wf(),
            end <= 0x100_0000_0000_0000 - PAGE_SIZE,
            end <= usize::MAX - (PAGE_SIZE - 1),
            flags < 1024,
        ensures
            final(m).wf(),
            final(m).kernel_root == old(m).kernel_root,
            final(m).alloc.first_frame == old(m).alloc.first_frame,
            keeps_used(*old(m), *final(m)),
            keeps_links(*old(m), *final(m)),
            final(m).alloc.free_frames <= old(m).alloc.free_frames,
            r is Err ==> r == Err::<(), &'static str>(ERR_OOM) || r == Err::<(), &'static str>(ERR_MAPPED),
            proper_tree(*old(m), self.pa as int) && r == Err::<(), &'static str>(ERR_OOM) ==> final(m).alloc.free_frames == 0,
            spec_page_down(start as int) >= spec_page_up(end as int) ==> r is Ok && *final(m) == *old(m),
            proper_tree(*old(m), self.pa as int) ==> proper_tree(*final(m), self.pa as int),
            proper_tree(*old(m), self.pa as int) && r is Ok ==> identity_mapped(
                *final(m),
                self.pa as int,
                spec_page_down(start as int),
                spec_page_up(end as int),
                flags,
            ),
    {
        let ghost rt = self.pa as int;
        let mut va = page_down(start);
        let top = page_up(end);
        while va < top
            invariant
                m.wf(),
                m.kernel_root == old(m).kernel_root,
                m.alloc.first_frame == old(m).alloc.first_frame,
                keeps_used(*old(m), *m),
                keeps_links(*old(m), *m),
                m.alloc.free_frames <= old(m).alloc.free_frames,
                va % PAGE_SIZE == 0,
                top % PAGE_SIZE == 0,
                top <= 0x100_0000_0000_0000,
                va <= top || va == spec_page_down(start as int),
                va < top ==> va + PAGE_SIZE <= top,
                va == spec_page_down(start as int) ==> *m == *old(m),
                va >= spec_page_down(start as int),
                top == spec_page_up(end as int),
                flags < 1024,
                rt == self.pa,
                proper_tree(*old(m), rt) ==> proper_tree(*m, rt),
                proper_tree(*old(m), rt) ==> identity_mapped(*m, rt, spec_page_down(start as int), va as int, flags),
            decreases top - va,
        {
            let ghost before = *m;
            proof {
                if proper_tree(*old(m), rt) {
                    lemma_proper_sound(before, rt, va);
                }
            }
            match self.map(m, va, va, flags) {
                Ok(()) => {},
                Err(e) => {
                    proof {
                        lemma_keeps_links_trans(*old(m), before, *m);
                    }
                    return Err(e);
                },
            }
            assert(keeps_used(*old(m), *m)) by {
                assert(keeps_used(before, *m));
            }
            proof {
                lemma_keeps_links_trans(*old(m), before, *m);
                if proper_tree(*old(m), rt) {
                    assert forall|x: usize| spec_page_down(start as int) <= x < va + PAGE_SIZE implies {
                        &&& #[trigger] spec_leaf(*m, rt, x) == Some(leaf_entry((x - x % 4096) as usize, flags))
                        &&& spec_translate(*m, rt, x) == Some(x as int)
                    } by {
                        if x < va {
                            lemma_proper_leaf_stable(before, *m, rt, x);
                        } else {
                            let off = (x - va) as usize;
                            lemma_leaf_page(*m, rt, va, off);
                            assert((va + off) as usize == x);
                            assert(spec_translate(*m, rt, (va + off) as usize) == Some(va + off));
                        }
                    }
                }
            }
            va = va + PAGE_SIZE;
        }
        Ok(())
    }
}

/// Every address of `[lo, hi)` is mapped to itself, by a leaf that
/// carries `flags`.
pub open spec fn identity_mapped(m: Mem, root: int, lo: int, hi: int, flags: u64) -> bool {
    forall|x: usize| lo <= x < hi ==> {
        &&& #[trigger] spec_leaf(m, root, x) == Some(leaf_entry((x - x % 4096) as usize, flags))
        &&& spec_translate(m, root, x) == Some(x as int)
    }
}

/// Identity mappings of a proper tree survive steps that keep valid
/// entries of allocated frames.
pub proof fn lemma_identity_stable(a: Mem, b: Mem, root: int, lo: int, hi: int, flags: u64)
    requires
        proper_tree(a, root),
        keeps_links(a, b),
        identity_mapped(a, root, lo, hi, flags),
    ensures
        identity_mapped(b, root, lo, hi, flags),
{
    assert forall|x: usize| lo <= x < hi implies {
        &&& #[trigger] spec_leaf(b, root, x) == Some(leaf_entry((x - x % 4096) as usize, flags))
        &&& spec_translate(b, root, x) == Some(x as int)
    } by {
        lemma_proper_leaf_stable(a, b, root, x);
    }
}

/// Boundaries of the kernel image and of the devices it drives, as the
/// linker and the machine give them.
pub struct KernelLayout {
    pub text_start: usize,
    pub text_end: usize,
    pub rodata_start: usize,
    pub rodata_end: usize,
    pub data_start: usize,
}

/// The kernel address space under `root`: text RX, rodata R, data up to
/// the end of RAM RW, and the UART, VirtIO, CLINT and PLIC windows RW,
/// each identity-mapped page by page.
pub open spec fn kernel_mapped(m: Mem, root: int, layout: KernelLayout) -> bool {
    &&& identity_mapped(m, root, spec_page_down(layout.text_start as int), spec_page_up(layout.text_end as int), PTE_R | PTE_X)
    &&& identity_mapped(m, root, spec_page_down(layout.rodata_start as int), spec_page_up(layout.rodata_end as int), PTE_R)
    &&& identity_mapped(m, root, spec_page_down(layout.data_start as int), spec_page_up(RAM_END as int), PTE_R | PTE_W)
    &&& identity_mapped(m, root, spec_page_down(UART0_BASE as int), spec_page_up(UART0_BASE + UART0_SIZE), PTE_R | PTE_W)
    &&& identity_mapped(m, root, spec_page_down(VIRTIO_BASE as int), spec_page_up(VIRTIO_BASE + VIRTIO_SIZE), PTE_R | PTE_W)
    &&& identity_mapped(m, root, spec_page_down(CLINT_BASE as int), spec_page_up(CLINT_BASE + CLINT_SIZE), PTE_R | PTE_W)
    &&& identity_mapped(m, root, spec_page_down(PLIC_BASE as int), spec_page_up(PLIC_BASE + PLIC_SIZE), PTE_R | PTE_W)
}

/// The kernel's identity mappings survive steps that keep valid entries
/// of allocated frames.
pub proof fn lemma_kernel_mapped_stable(a: Mem, b: Mem, root: int, layout: KernelLayout)
    requires
        proper_tree(a, root),
        keeps_links(a, b),
        kernel_mapped(a, root, layout),
    ensures
        kernel_mapped(b, root, layout),
{
    let rx = PTE_R | PTE_X;
    let rw = PTE_R | PTE_W;
    lemma_identity_stable(a, b, root, spec_page_down(layout.text_start as int), spec_page_up(layout.text_end as int), rx);
    lemma_identity_stable(a, b, root, spec_page_down(layout.rodata_start as int), spec_page_up(layout.rodata_end as int), PTE_R);
    lemma_identity_stable(a, b, root, spec_page_down(layout.data_start as int), spec_page_up(RAM_END as int), rw);
    lemma_identity_stable(a, b, root, spec_page_down(UART0_BASE as int), spec_page_up(UART0_BASE + UART0_SIZE), rw);
    lemma_identity_stable(a, b, root, spec_page_down(VIRTIO_BASE as int), spec_page_up(VIRTIO_BASE + VIRTIO_SIZE), rw);
    lemma_identity_stable(a, b, root, spec_page_down(CLINT_BASE as int), spec_page_up(CLINT_BASE + CLINT_SIZE), rw);
    lemma_identity_stable(a, b, root, spec_page_down(PLIC_BASE as int), spec_page_up(PLIC_BASE + PLIC_SIZE), rw);
}

/// Build the kernel address space: identity map with per-section
/// permissions (text RX, rodata R, data/stacks/RAM RW) plus MMIO.
pub fn kernel_page_table(m: &mut Mem, layout: &KernelLayout) -> (r: Result<PageTable, &'static str>)
    requires
        old(m).wf(),
        layout.text_end <= RAM_END,
        layout.rodata_end <= RAM_END,
    ensures
        final(m).wf(),
        final(m).kernel_root == old(m).kernel_root,
        final(m).alloc.first_frame == old(m).alloc.first_frame,
        keeps_used(*old(m), *final(m)),
        r is Ok ==> is_frame_pa(r->Ok_0.pa as int) && !old(m).alloc@[frame_of(r->Ok_0.pa as int)],
        r is Ok ==> final(m).alloc@[frame_of(r->Ok_0.pa as int)],
        r is Ok ==> proper_tree(*final(m), r->Ok_0.pa as int) && kernel_mapped(*final(m), r->Ok_0.pa as int, *layout),
        r is Err ==> r->Err_0 == ERR_NO_ROOT || r->Err_0 == ERR_OOM || r->Err_0 == ERR_MAPPED,
        r == Err::<PageTable, &'static str>(ERR_NO_ROOT) <==> old(m).alloc.free_frames == 0,
        r == Err::<PageTable, &'static str>(ERR_OOM) ==> final(m).alloc.free_frames == 0,
{
    let root = match PageTable::allocate(m) {
        Some(t) => t,
        None => {
            return Err(ERR_NO_ROOT);
        },
    };
    let ghost m0 = *m;
    let ghost rt = root.pa as int;
    let rx = PTE_R | PTE_X;
    let rw = PTE_R | PTE_W;
    assert(rx < 1024 && rw < 1024 && PTE_R < 1024) by (bit_vector)
        requires
            rx == PTE_R | PTE_X,
            rw == PTE_R | PTE_W,
    ;
    proof {
        lemma_proper_empty(*m, rt);
    }
    assert(m.alloc@[frame_of(root.pa as int)]);
    let ghost before0 = *m;
    assert(before0.alloc@[frame_of(root.pa as int)]);
    root.map_range(m, layout.text_start, layout.text_end, rx)?;
    let ghost before1 = *m;
    assert(before1.alloc@[frame_of(root.pa as int)]);
    root.map_range(m, layout.rodata_start, layout.rodata_end, PTE_R)?;
    let ghost before2 = *m;
    assert(before2.alloc@[frame_of(root.pa as int)]);
    proof {
        lemma_identity_stable(before1, *m, rt, spec_page_down(layout.text_start as int), spec_page_up(layout.text_end as int), rx);
    }
    root.map_range(m, layout.data_start, RAM_END, rw)?;
    let ghost before3 = *m;
    assert(before3.alloc@[frame_of(root.pa as int)]);
    proof {
        lemma_identity_stable(before2, *m, rt, spec_page_down(layout.text_start as int), spec_page_up(layout.text_end as int), rx);
        lemma_identity_stable(before2, *m, rt, spec_page_down(layout.rodata_start as int), spec_page_up(layout.rodata_end as int), PTE_R);
    }
    root.map_range(m, super::layout::UART0_BASE, super::layout::UART0_BASE + super::layout::UART0_SIZE, rw)?;
    let ghost before4 = *m;
    assert(before4.alloc@[frame_of(root.pa as int)]);
    proof {
        lemma_identity_stable(before3, *m, rt, spec_page_down(layout.text_start as int), spec_page_up(layout.text_end as int), rx);
        lemma_identity_stable(before3, *m, rt, spec_page_down(layout.rodata_start as int), spec_page_up(layout.rodata_end as int), PTE_R);
        lemma_identity_stable(before3, *m, rt, spec_page_down(layout.data_start as int), spec_page_up(RAM_END as int), rw);
    }
    root.map_range(m, super::layout::VIRTIO_BASE, super::layout::VIRTIO_BASE + super::layout::VIRTIO_SIZE, rw)?;
    let ghost before5 = *m;
    assert(before5.alloc@[frame_of(root.pa as int)]);
    proof {
        lemma_identity_stable(before4, *m, rt, spec_page_down(layout.text_start as int), spec_page_up(layout.text_end as int), rx);
        lemma_identity_stable(before4, *m, rt, spec_page_down(layout.rodata_start as int), spec_page_up(layout.rodata_end as int), PTE_R);
        lemma_identity_stable(before4, *m, rt, spec_page_down(layout.data_start as int), spec_page_up(RAM_END as int), rw);
        lemma_identity_stable(before4, *m, rt, spec_page_down(UART0_BASE as int), spec_page_up(UART0_BASE + UART0_SIZE), rw);
    }
    root.map_range(m, super::layout::CLINT_BASE, super::layout::CLINT_BASE + super::layout::CLINT_SIZE, rw)?;
    let ghost before6 = *m;
    assert(before6.alloc@[frame_of(root.pa as int)]);
    proof {
        lemma_identity_stable(before5, *m, rt, spec_page_down(layout.text_start as int), spec_page_up(layout.text_end as int), rx);
        lemma_identity_stable(before5, *m, rt, spec_page_down(layout.rodata_start as int), spec_page_up(layout.rodata_end as int), PTE_R);
        lemma_identity_stable(before5, *m, rt, spec_page_down(layout.data_start as int), spec_page_up(RAM_END as int), rw);
        lemma_identity_stable(before5, *m, rt, spec_page_down(UART0_BASE as int), spec_page_up(UART0_BASE + UART0_SIZE), rw);
        lemma_identity_stable(before5, *m, rt, spec_page_down(VIRTIO_BASE as int), spec_page_up(VIRTIO_BASE + VIRTIO_SIZE), rw);
    }
    root.map_range(m, super::layout::PLIC_BASE, super::layout::PLIC_BASE + super::layout::PLIC_SIZE, rw)?;
    proof {
        lemma_identity_stable(before6, *m, rt, spec_page_down(layout.text_start as int), spec_page_up(layout.text_end as int), rx);
        lemma_identity_stable(before6, *m, rt, spec_page_down(layout.rodata_start as int), spec_page_up(layout.rodata_end as int), PTE_R);
        lemma_identity_stable(before6, *m, rt, spec_page_down(layout.data_start as int), spec_page_up(RAM_END as int), rw);
        lemma_identity_stable(before6, *m, rt, spec_page_down(UART0_BASE as int), spec_page_up(UART0_BASE + UART0_SIZE), rw);
        lemma_identity_stable(before6, *m, rt, spec_page_down(VIRTIO_BASE as int), spec_page_up(VIRTIO_BASE + VIRTIO_SIZE), rw);
        lemma_identity_stable(before6, *m, rt, spec_page_down(CLINT_BASE as int), spec_page_up(CLINT_BASE + CLINT_SIZE), rw);
    }
    Ok(root)
}

/// Make `root` the kernel's root table (what activating it in `satp`
/// records for later address spaces).
pub fn enable(m: &mut Mem, root: &PageTable)
    ensures
        *final(m) == (Mem { kernel_root: root.pa, ..*old(m) }),
{
    m.kernel_root = root.pa;
}

/// Create a fresh process root: the kernel's slots shared by reference
/// (no PTE_U, so user code cannot touch them), the user slot empty.
pub fn new_user_root(m: &mut Mem) -> (r: Option<PageTable>)
    requires
        old(m).booted(),
    ensures
        final(m).wf(),
        final(m).kernel_root == old(m).kernel_root,
        final(m).alloc.first_frame == old(m).alloc.first_frame,
        keeps_used(*old(m), *final(m)),
        keeps_links(*old(m), *final(m)),
        r is None <==> old(m).alloc.free_frames == 0,
        r is None ==> final(m).alloc@ == old(m).alloc@,
        r is Some ==> {
            let f = frame_of(r->0.pa as int);
            let k = frame_of(old(m).kernel_root as int);
            &&& is_frame_pa(r->0.pa as int)
            &&& !old(m).alloc@[f]
            &&& f >= old(m).alloc.first_frame
            &&& forall|t: int| old(m).alloc.first_frame <= t < f ==> #[trigger] old(m).alloc@[t]
            &&& final(m).alloc@ == old(m).alloc@.update(f, true)
            &&& final(m).entry(f, USER_ROOT_SLOT as int) == 0
            &&& forall|i: int| 0 <= i < ENTRIES && i != USER_ROOT_SLOT ==> #[trigger] final(m).entry(f, i) == old(m).entry(k, i)
            &&& forall|g: int, j: int| 0 <= g < MAX_FRAMES && g != f && 0 <= j < ENTRIES ==> #[trigger] final(m).entry(g, j) == old(m).entry(g, j)
        },
{
    let root = match PageTable::allocate(m) {
        Some(t) => t,
        None => {
            return None;
        },
    };
    let ghost m1 = *m;
    let f = frame_index(root.pa as u64);
    let k = frame_index(m.kernel_root as u64);
    assert(k != f);
    let mut i: usize = 0;
    while i < ENTRIES
        invariant
            m.wf(),
            m.alloc == m1.alloc,
            m.kernel_root == old(m).kernel_root,
            m1.same_bytes(m),
            i <= ENTRIES,
            f < MAX_FRAMES,
            k < MAX_FRAMES,
            k != f,
            forall|j: int| 0 <= j < i && j != USER_ROOT_SLOT ==> #[trigger] m.entry(f as int, j) == old(m).entry(k as int, j),
            forall|j: int| i <= j < ENTRIES || j == USER_ROOT_SLOT ==> #[trigger] m.entry(f as int, j) == m1.entry(f as int, j),
            forall|g: int, j: int| 0 <= g < MAX_FRAMES && g != f && 0 <= j < ENTRIES ==> #[trigger] m.entry(g, j) == m1.entry(g, j),
            forall|g: int, j: int| 0 <= g < MAX_FRAMES && g != f as int && 0 <= j < ENTRIES ==> #[trigger] m1.entry(g, j) == old(m).entry(g, j),
            forall|j: int| 0 <= j < ENTRIES ==> #[trigger] m1.entry(f as int, j) == 0,
        decreases ENTRIES - i,
    {
        if i != USER_ROOT_SLOT {
            let e = m.get_entry(k, i);
            m.set_entry(f, i, e);
        }
        i = i + 1;
    }
    Some(root)
}


/// Only frees: nothing becomes allocated, and tables stay as they were.
pub open spec fn only_frees(old: Mem, new: Mem) -> bool {
    &&& forall|g: int| 0 <= g < MAX_FRAMES && #[trigger] new.alloc@[g] ==> old.alloc@[g]
    &&& new.alloc.first_frame == old.alloc.first_frame
    &&& new.kernel_root == old.kernel_root
}

impl Mem {
    /// Return the frame at `pa` to the allocator. An address that is not
    /// an allocated frame above the reserved region, or that holds the
    /// kernel's root table, is left alone.
    pub fn release(&mut self, pa: u64)
        requires
            old(self).wf(),
        ensures
            final(self).wf(),
            old(self).same_entries(final(self)),
            old(self).same_bytes(final(self)),
            only_frees(*old(self), *final(self)),
            old(self).booted() ==> final(self).booted(),
            is_frame_pa(pa as int) && frame_of(pa as int) >= old(self).alloc.first_frame && old(self).alloc@[frame_of(pa as int)]
                && pa != old(self).kernel_root ==> final(self).alloc@ == old(self).alloc@.update(frame_of(pa as int), false),
            !(is_frame_pa(pa as int) && frame_of(pa as int) >= old(self).alloc.first_frame && old(self).alloc@[frame_of(pa as int)]
                && pa != old(self).kernel_root) ==> *final(self) == *old(self),
    {
        if !is_frame_addr(pa) || pa == self.kernel_root as u64 {
            return;
        }
        let f = frame_index(pa);
        if f < self.alloc.first_frame || !self.alloc.is_used(f) {
            return;
        }
        super::page::page_free(&mut self.alloc, pa as usize, 1);
        assert(self.alloc@ =~= old(self).alloc@.update(f as int, false));
        proof {
            if old(self).booted() {
                lemma_frame_range(self.kernel_root as int);
                assert(frame_of(self.kernel_root as int) != f as int);
            }
        }
    }
}

/// Free every frame and table under the user slot of `root`. The
/// kernel's shared slots are left untouched.
pub fn free_user_space(m: &mut Mem, root: &PageTable)
    requires
        old(m).wf(),
    ensures
        final(m).wf(),
        old(m).booted() ==> final(m).booted(),
        only_frees(*old(m), *final(m)),
        old(m).same_bytes(final(m)),
        is_frame_pa(root.pa as int) && interior(old(m).entry(frame_of(root.pa as int), USER_ROOT_SLOT as int)) ==>
            old(m).entry_updated(final(m), frame_of(root.pa as int), USER_ROOT_SLOT as int, 0),
        !(is_frame_pa(root.pa as int) && interior(old(m).entry(frame_of(root.pa as int), USER_ROOT_SLOT as int))) ==>
            old(m).same_entries(final(m)) && final(m).alloc@ == old(m).alloc@,
{
    if !is_frame_addr(root.pa as u64) {
        return;
    }
    let rf = frame_index(root.pa as u64);
    let re = m.get_entry(rf, USER_ROOT_SLOT);
    if !is_interior(re) {
        return;
    }
    let l1 = frame_index(entry_pa(re));
    let mut i1: usize = 0;
    while i1 < ENTRIES
        invariant
            m.wf(),
            old(m).booted() ==> m.booted(),
            only_frees(*old(m), *m),
            old(m).same_entries(m),
            old(m).same_bytes(m),
            l1 < MAX_FRAMES,
            i1 <= ENTRIES,
        decreases ENTRIES - i1,
    {
        let e1 = m.get_entry(l1, i1);
        if is_interior(e1) {
            let l0 = frame_index(entry_pa(e1));
            let mut i0: usize = 0;
            while i0 < ENTRIES
                invariant
                    m.wf(),
                    old(m).booted() ==> m.booted(),
                    only_frees(*old(m), *m),
                    old(m).same_entries(m),
                    old(m).same_bytes(m),
                    l0 < MAX_FRAMES,
                    i0 <= ENTRIES,
                decreases ENTRIES - i0,
            {
                let e0 = m.get_entry(l0, i0);
                if e0 & PTE_V != 0 {
                    m.release(entry_pa(e0));
                }
                i0 = i0 + 1;
            }
            m.release(entry_pa(e1));
        }
        i1 = i1 + 1;
    }
    m.release(entry_pa(re));
    m.set_entry(rf, USER_ROOT_SLOT, 0);
}

/// The page of the user slot with table indices `i1` and `i0`.
pub open spec fn user_page(i1: usize, i0: usize) -> usize {
    (1usize << 30usize) | (i1 << 21usize) | (i0 << 12usize)
}

proof fn lemma_user_page(i1: usize, i0: usize)
    requires
        i1 < 512,
        i0 < 512,
    ensures
        user_page(i1, i0) % 4096 == 0,
        user_slot_va(user_page(i1, i0) as int),
        spec_vpn(user_page(i1, i0), 1) == i1,
        spec_vpn(user_page(i1, i0), 0) == i0,
{
    let p = user_page(i1, i0);
    assert(p % 4096 == 0 && 0x4000_0000 <= p && p < 0x8000_0000 && (p >> 21usize) & 0x1ff == i1 && (p >> 12usize) & 0x1ff
        == i0) by (bit_vector)
        requires
            p == (1usize << 30usize) | (i1 << 21usize) | (i0 << 12usize),
            i1 < 512,
            i0 < 512,
    ;
}

/// A user address lies in the page its table indices name.
proof fn lemma_in_user_page(va: usize)
    requires
        user_slot_va(va as int),
    ensures
        va == user_page(spec_vpn(va, 1) as usize, spec_vpn(va, 0) as usize) + va % 4096,
{
    lemma_user_slot(va);
    let i1 = ((va >> 21usize) & 0x1ff) as usize;
    let i0 = ((va >> 12usize) & 0x1ff) as usize;
    assert(va == ((1usize << 30usize) | (i1 << 21usize) | (i0 << 12usize)) + va % 4096) by (bit_vector)
        requires
            (va >> 30usize) & 0x1ff == 1,
            va < 0x8000_0000,
            i1 == (va >> 21usize) & 0x1ff,
            i0 == (va >> 12usize) & 0x1ff,
    ;
}

/// Every user page the tree under `root` maps to RAM is an allocated
/// frame.
pub open spec fn leaves_allocated(m: Mem, root: int) -> bool {
    forall|va: usize|
        user_slot_va(va as int) ==> match #[trigger] user_loc(m, root, va) {
            Some((f, _)) => m.alloc@[f],
            None => true,
        }
}

/// Allocating and filling in a fresh table leaves an existing user
/// space as it was: same tree, same mappings, same bytes.
pub proof fn lemma_fresh_frame_keeps(a: Mem, b: Mem, root: int, f: int)
    requires
        user_tree(a, root),
        leaves_allocated(a, root),
        0 <= f < MAX_FRAMES,
        !a.alloc@[f],
        b.alloc@ == a.alloc@.update(f, true),
        forall|g: int, j: int| 0 <= g < MAX_FRAMES && g != f && 0 <= j < ENTRIES ==> #[trigger] b.entry(g, j) == a.entry(g, j),
        keeps_used(a, b),
    ensures
        user_tree(b, root),
        leaves_allocated(b, root),
        forall|va: usize| user_slot_va(va as int) ==> #[trigger] user_loc(b, root, va) == user_loc(a, root, va),
        forall|va: usize|
            user_slot_va(va as int) && (#[trigger] user_loc(a, root, va)) is Some ==> user_byte(b, root, va) == user_byte(
                a,
                root,
                va,
            ),
{
    let r = frame_of(root);
    lemma_frame_range(root);
    assert(b.entry(r, 1) == a.entry(r, 1));
    if a.entry(r, 1) & PTE_V != 0 {
        let t = t1_of(a, root);
        lemma_frame_range(pte_pa(a.entry(r, 1)) as int);
        assert forall|k: int| 0 <= k < ENTRIES implies #[trigger] b.entry(t, k) == a.entry(t, k) by {}
    }
    assert forall|va: usize| user_slot_va(va as int) implies #[trigger] user_loc(b, root, va) == user_loc(a, root, va) by {
        lemma_user_slot(va);
        lemma_vpn_range(va);
        if a.entry(r, 1) & PTE_V != 0 {
            let t = t1_of(a, root);
            let e1 = a.entry(t, spec_vpn(va, 1));
            if e1 & PTE_V != 0 {
                lemma_frame_range(pte_pa(e1) as int);
                let l = link_frame(e1);
                assert(b.entry(l, spec_vpn(va, 0)) == a.entry(l, spec_vpn(va, 0)));
            }
        }
    }
    assert forall|va: usize| user_slot_va(va as int) && (#[trigger] user_loc(a, root, va)) is Some implies user_byte(
        b,
        root,
        va,
    ) == user_byte(a, root, va) by {
        assert(user_loc(b, root, va) == user_loc(a, root, va));
        let (g, j) = user_loc(a, root, va)->0;
        lemma_frame_range(pte_pa(spec_leaf(a, root, va)->0) as int);
        assert(a.alloc@[g]);
    }
    assert forall|va: usize| user_slot_va(va as int) implies match #[trigger] user_loc(b, root, va) {
        Some((g, _)) => b.alloc@[g],
        None => true,
    } by {
        assert(user_loc(b, root, va) == user_loc(a, root, va));
    }
}

/// Give the child `dst` its own copy of every user page of `src`, with
/// the same permissions.
pub fn clone_user_space(m: &mut Mem, src: &PageTable, dst: &PageTable) -> (r: Result<(), &'static str>)
    requires
        old(m).wf(),
    ensures
        final(m).wf(),
        final(m).kernel_root == old(m).kernel_root,
        final(m).alloc.first_frame == old(m).alloc.first_frame,
        keeps_used(*old(m), *final(m)),
        r is Err ==> r == Err::<(), &'static str>("fork: out of memory") || r == Err::<(), &'static str>(ERR_OOM)
            || r == Err::<(), &'static str>(ERR_MAPPED),
        !(is_frame_pa(src.pa as int) && interior(old(m).entry(frame_of(src.pa as int), USER_ROOT_SLOT as int))) ==> r is Ok
            && *final(m) == *old(m),
        user_tree(*old(m), src.pa as int) && user_tree(*old(m), dst.pa as int) && leaves_allocated(*old(m), src.pa as int)
            ==> {
            &&& user_tree(*final(m), dst.pa as int)
            &&& r == Err::<(), &'static str>("fork: out of memory") || r == Err::<(), &'static str>(ERR_OOM)
                ==> final(m).alloc.free_frames == 0
            &&& r is Ok ==> forall|va: usize|
                user_slot_va(va as int) && (#[trigger] user_loc(*old(m), src.pa as int, va)) is Some ==> user_byte(
                    *final(m),
                    dst.pa as int,
                    va,
                ) == user_byte(*old(m), src.pa as int, va)
        },
{
    let ghost o = *old(m);
    let ghost rs = src.pa as int;
    let ghost rd = dst.pa as int;
    let ghost ready = user_tree(o, rs) && user_tree(o, rd) && leaves_allocated(o, rs);
    if !is_frame_addr(src.pa as u64) {
        proof {
            if ready {
                assert forall|va: usize| user_slot_va(va as int) && (#[trigger] user_loc(o, rs, va)) is Some implies false by {}
            }
        }
        return Ok(());
    }
    let sf = frame_index(src.pa as u64);
    let re = m.get_entry(sf, USER_ROOT_SLOT);
    if !is_interior(re) {
        proof {
            if ready {
                assert forall|va: usize| user_slot_va(va as int) && (#[trigger] user_loc(o, rs, va)) is Some implies false by {
                    lemma_user_slot(va);
                }
            }
        }
        return Ok(());
    }
    let l1 = frame_index(entry_pa(re));
    let mut i1: usize = 0;
    while i1 < ENTRIES
        invariant
            m.wf(),
            m.kernel_root == old(m).kernel_root,
            m.alloc.first_frame == old(m).alloc.first_frame,
            keeps_used(*old(m), *m),
            l1 < MAX_FRAMES,
            i1 <= ENTRIES,
            o == *old(m),
            rs == src.pa,
            rd == dst.pa,
            ready == (user_tree(o, rs) && user_tree(o, rd) && leaves_allocated(o, rs)),
            keeps_links(o, *m),
            is_frame_pa(rs),
            re == o.entry(frame_of(rs), 1),
            interior(re),
            l1 == link_frame(re),
            ready ==> user_tree(*m, rd),
            ready ==> forall|va: usize|
                user_slot_va(va as int) && (#[trigger] user_loc(o, rs, va)) is Some && spec_vpn(va, 1) < i1 ==> loaded_byte(
                    *m,
                    rd,
                    va,
                    user_byte(o, rs, va)->0,
                ),
        decreases ENTRIES - i1,
    {
        let e1 = m.get_entry(l1, i1);
        proof {
            if ready && o.entry(l1 as int, i1 as int) & PTE_V != 0 {
                assert(o.alloc@[l1 as int]);
            }
        }
        if is_interior(e1) {
            let l0 = frame_index(entry_pa(e1));
            let mut i0: usize = 0;
            while i0 < ENTRIES
                invariant
                    m.wf(),
                    m.kernel_root == old(m).kernel_root,
                    m.alloc.first_frame == old(m).alloc.first_frame,
                    keeps_used(*old(m), *m),
                    l0 < MAX_FRAMES,
                    l1 < MAX_FRAMES,
                    i0 < ENTRIES + 1,
                    i1 < ENTRIES,
                    o == *old(m),
                    rs == src.pa,
                    rd == dst.pa,
                    ready == (user_tree(o, rs) && user_tree(o, rd) && leaves_allocated(o, rs)),
                    keeps_links(o, *m),
                    is_frame_pa(rs),
                    re == o.entry(frame_of(rs), 1),
                    interior(re),
                    l1 == link_frame(re),
                    interior(e1),
                    l0 == link_frame(e1),
                    ready && o.entry(l1 as int, i1 as int) & PTE_V != 0 ==> e1 == o.entry(l1 as int, i1 as int),
                    ready ==> user_tree(*m, rd),
                    ready ==> forall|va: usize|
                        user_slot_va(va as int) && (#[trigger] user_loc(o, rs, va)) is Some && (spec_vpn(va, 1) < i1 || (
                        spec_vpn(va, 1) == i1 && spec_vpn(va, 0) < i0)) ==> loaded_byte(*m, rd, va, user_byte(o, rs, va)->0),
                decreases ENTRIES - i0,
            {
                let e0 = m.get_entry(l0, i0);
                if e0 & PTE_V != 0 {
                    let va = (USER_ROOT_SLOT << 30usize) | (i1 << 21usize) | (i0 << 12usize);
                    let flags = e0 & (PTE_R | PTE_W | PTE_X | PTE_U);
                    let ghost before = *m;
                    let frame = match m.alloc_frame() {
                        Some(f) => f,
                        None => {
                            return Err("fork: out of memory");
                        },
                    };
                    let ghost after_alloc = *m;
                    let src_pa = entry_pa(e0);
                    if is_frame_addr(src_pa) {
                        let mut page: Vec<u8> = vec![0u8; PAGE_SIZE];
                        m.read_bytes(frame_index(src_pa), 0, page.as_mut_slice());
                        m.write_bytes(frame_index(frame as u64), 0, page.as_slice());
                    }
                    assert(keeps_used(before, *m));
                    assert(va % PAGE_SIZE == 0 && flags < 1024) by (bit_vector)
                        requires
                            va == (1usize << 30usize) | (i1 << 21usize) | (i0 << 12usize),
                            flags == e0 & (PTE_R | PTE_W | PTE_X | PTE_U),
                    ;
                    assert(frame % PAGE_SIZE == 0 && frame < 0x100_0000_0000_0000);
                    let ghost before_map = *m;
                    proof {
                        assert(keeps_links(before, before_map));
                        lemma_keeps_links_trans(o, before, before_map);
                        if ready {
                            assert(user_tree(before_map, rd)) by {
                                assert(before_map.entry(frame_of(rd), 1) == before.entry(frame_of(rd), 1));
                            }
                        }
                    }
                    match dst.map(m, va, frame, flags) {
                        Ok(()) => {},
                        Err(e) => {
                            proof {
                                lemma_keeps_links_trans(o, before_map, *m);
                                lemma_user_page(i1, i0);
                                if ready {
                                    lemma_user_sound(before_map, rd, va);
                                }
                            }
                            return Err(e);
                        },
                    }
                    assert(keeps_used(before_map, *m));
                    proof {
                        lemma_keeps_links_trans(before, before_map, *m);
                        lemma_keeps_links_trans(o, before_map, *m);
                        lemma_user_page(i1, i0);
                        if ready {
                            let f = frame_of(frame as int);
                            lemma_frame_range(frame as int);
                            lemma_user_sound(before_map, rd, va);
                            assert forall|x: usize|
                                user_slot_va(x as int) && (#[trigger] user_loc(o, rs, x)) is Some && (spec_vpn(x, 1) < i1 || (
                                spec_vpn(x, 1) == i1 && spec_vpn(x, 0) < i0 + 1)) implies loaded_byte(
                                *m,
                                rd,
                                x,
                                user_byte(o, rs, x)->0,
                            ) by {
                                if spec_vpn(x, 1) < i1 || spec_vpn(x, 0) < i0 {
                                    lemma_loaded_stable(before, *m, rd, x, user_byte(o, rs, x)->0);
                                } else {
                                    lemma_in_user_page(x);
                                    lemma_vpn_range(x);
                                    let off = (x % 4096) as usize;
                                    assert(x == (va + off) as usize);
                                    lemma_leaf_page(o, rs, va, off);
                                    lemma_leaf_page(*m, rd, va, off);
                                    lemma_user_slot(x);
                                    let e0o = spec_leaf(o, rs, x)->0;
                                    assert(o.entry(l1 as int, i1 as int) & PTE_V != 0);
                                    assert(e0 == e0o);
                                    let sfr = frame_of(pte_pa(e0o) as int);
                                    assert(o.alloc@[sfr]);
                                    assert(before.byte(sfr, off as int) == o.byte(sfr, off as int));
                                    assert(spec_translate(*m, rd, (va + off) as usize) == Some(frame + off));
                                    assert(pte_pa(spec_leaf(*m, rd, va)->0) == frame);
                                    assert(after_alloc.alloc@[f]);
                                    assert(before_map.alloc@[f]);
                                    assert(m.byte(f, off as int) == before_map.byte(f, off as int));
                                }
                            }
                        }
                    }
                } else {
                    proof {
                        if ready {
                            assert forall|x: usize|
                                user_slot_va(x as int) && (#[trigger] user_loc(o, rs, x)) is Some && (spec_vpn(x, 1) < i1 || (
                                spec_vpn(x, 1) == i1 && spec_vpn(x, 0) < i0 + 1)) implies loaded_byte(
                                *m,
                                rd,
                                x,
                                user_byte(o, rs, x)->0,
                            ) by {
                                if spec_vpn(x, 1) == i1 && spec_vpn(x, 0) == i0 {
                                    lemma_user_slot(x);
                                    lemma_vpn_range(x);
                                    assert(o.entry(l1 as int, i1 as int) & PTE_V != 0);
                                    assert(false);
                                }
                            }
                        }
                    }
                }
                i0 = i0 + 1;
            }
            proof {
                if ready {
                    assert forall|x: usize|
                        user_slot_va(x as int) && (#[trigger] user_loc(o, rs, x)) is Some && spec_vpn(x, 1) < i1 + 1 implies loaded_byte(
                        *m,
                        rd,
                        x,
                        user_byte(o, rs, x)->0,
                    ) by {
                        lemma_vpn_range(x);
                    }
                }
            }
        } else {
            proof {
                if ready {
                    assert forall|x: usize|
                        user_slot_va(x as int) && (#[trigger] user_loc(o, rs, x)) is Some && spec_vpn(x, 1) < i1 + 1 implies loaded_byte(
                        *m,
                        rd,
                        x,
                        user_byte(o, rs, x)->0,
                    ) by {
                        if spec_vpn(x, 1) == i1 {
                            lemma_user_slot(x);
                            lemma_vpn_range(x);
                            assert(false);
                        }
                    }
                }
            }
        }
        i1 = i1 + 1;
    }
    proof {
        if ready {
            assert forall|va: usize| user_slot_va(va as int) && (#[trigger] user_loc(o, rs, va)) is Some implies user_byte(
                *m,
                rd,
                va,
            ) == user_byte(o, rs, va) by {
                lemma_vpn_range(va);
                assert(loaded_byte(*m, rd, va, user_byte(o, rs, va)->0));
            }
        }
    }
    Ok(())
}


pub proof fn lemma_frame_range(pa: int)
    requires
        is_frame_pa(pa),
    ensures
        0 <= frame_of(pa) < MAX_FRAMES,
{
    assert(0 <= pa - RAM_START < 32768 * 4096);
    assert((pa - RAM_START) / 4096 < 32768) by (nonlinear_arith)
        requires
            0 <= pa - RAM_START < 32768 * 4096,
    ;
}

/// Walks read only entries: memories with the same entries walk alike.
pub proof fn lemma_same_entries_walk(m1: Mem, m2: Mem, root: int, va: usize)
    requires
        m1.same_entries(&m2),
    ensures
        spec_walk(m1, root, va) == spec_walk(m2, root, va),
        spec_leaf(m1, root, va) == spec_leaf(m2, root, va),
{
    lemma_vpn_range(va);
    if is_frame_pa(root) {
        lemma_frame_range(root);
        let e2 = m1.entry(frame_of(root), spec_vpn(va, 2));
        assert(e2 == m2.entry(frame_of(root), spec_vpn(va, 2)));
        if interior(e2) {
            lemma_frame_range(pte_pa(e2) as int);
            let e1 = m1.entry(frame_of(pte_pa(e2) as int), spec_vpn(va, 1));
            assert(e1 == m2.entry(frame_of(pte_pa(e2) as int), spec_vpn(va, 1)));
            if interior(e1) {
                lemma_frame_range(pte_pa(e1) as int);
                let f0 = frame_of(pte_pa(e1) as int);
                assert(m1.entry(f0, spec_vpn(va, 0)) == m2.entry(f0, spec_vpn(va, 0)));
            }
        }
    }
}


pub proof fn lemma_keeps_used_trans(a: Mem, b: Mem, c: Mem)
    requires
        keeps_used(a, b),
        keeps_used(b, c),
    ensures
        keeps_used(a, c),
{
}

pub proof fn lemma_booted_kept(a: Mem, b: Mem)
    requires
        a.booted(),
        b.wf(),
        keeps_used(a, b),
        b.kernel_root == a.kernel_root,
    ensures
        b.booted(),
{
    lemma_frame_range(a.kernel_root as int);
}

} // verus!
