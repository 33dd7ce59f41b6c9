//! Minimal ELF64 loader for RISC-V EXEC images.
//!
//! Loads PT_LOAD segments into a process address space with U-mode
//! permissions derived from the segment flags. Segments must be
//! 4 KiB-aligned (the userspace linker script guarantees this).

use vstd::prelude::*;
use crate::mem::layout::{PAGE_SIZE, page_up, spec_page_up};
use crate::mem::mmu::{Mem, PageTable, PTE_R, PTE_U, PTE_W, PTE_X, keeps_used, keeps_links, user_tree, lemma_keeps_links_trans, ERR_OOM, ERR_MAPPED};
use crate::mem::uaccess::{loaded_byte, lemma_loaded_stable, user_loc, user_byte};
use crate::mem::mmu::user_slot_va;
use crate::mem::mmu::{spec_translate, spec_leaf, pte_pa, grows_fresh, lemma_grows_same, lemma_grows_trans};
use crate::fs::minix3::{le16, le32, read_le16, read_le32};

verus! {

pub const CLASS_64: u8 = 2;
pub const MACHINE_RISCV: u16 = 243;
pub const ET_EXEC: u16 = 2;
pub const PT_LOAD: u32 = 1;
pub const PF_X: u32 = 1;
pub const PF_W: u32 = 2;

pub const ERR_MAGIC: &'static str = "elf: bad magic";
pub const ERR_CLASS: &'static str = "elf: not ELF64";
pub const ERR_MACHINE: &'static str = "elf: not RISC-V";
pub const ERR_TYPE: &'static str = "elf: not an EXEC image (PIE unsupported)";
pub const ERR_TRUNCATED: &'static str = "elf: truncated program headers";
pub const ERR_MALFORMED: &'static str = "elf: malformed segment";
pub const ERR_UNALIGNED: &'static str = "elf: unaligned segment (link with -zmax-page-size=4096)";
pub const ERR_NO_SEGMENTS: &'static str = "elf: no loadable segments";
pub const ERR_NO_MEMORY: &'static str = "elf: out of memory";

pub struct LoadedElf {
    pub entry: usize,
    /// One past the highest mapped virtual address (program break).
    pub brk: usize,
}

/// Little-endian u64 at `b[off]`.
#[verifier::opaque]
pub open spec fn le64(b: Seq<u8>, off: int) -> u64 {
    (le32(b, off) as nat + le32(b, off + 4) as nat * 0x1_0000_0000) as u64
}

pub fn read_u16(b: &[u8], off: usize) -> (r: u16)
    requires
        off + 2 <= b@.len(),
    ensures
        r == le16(b@, off as int),
{
    read_le16(b, off)
}

pub fn read_u32(b: &[u8], off: usize) -> (r: u32)
    requires
        off + 4 <= b@.len(),
    ensures
        r == le32(b@, off as int),
{
    read_le32(b, off)
}

pub fn read_u64(b: &[u8], off: usize) -> (r: u64)
    requires
        off + 8 <= b@.len(),
    ensures
        r == le64(b@, off as int),
{
    let _n = b.len();
    reveal(le64);
    let lo = read_le32(b, off) as u64;
    let hi = read_le32(b, off + 4) as u64;
    assert(hi * 0x1_0000_0000 + lo <= u64::MAX) by (nonlinear_arith)
        requires
            hi < 0x1_0000_0000,
            lo < 0x1_0000_0000,
    ;
    lo + hi * 0x1_0000_0000
}

/// Why the ELF header of `img` is refused, if it is.
pub open spec fn header_error(img: Seq<u8>) -> Option<&'static str> {
    if img.len() < 64 || img[0] != 0x7f || img[1] != 0x45 || img[2] != 0x4c || img[3] != 0x46 {
        Some(ERR_MAGIC)
    } else if img[4] != CLASS_64 {
        Some(ERR_CLASS)
    } else if le16(img, 18) != MACHINE_RISCV {
        Some(ERR_MACHINE)
    } else if le16(img, 16) != ET_EXEC {
        Some(ERR_TYPE)
    } else {
        None
    }
}

pub open spec fn entry_of(img: Seq<u8>) -> usize {
    le64(img, 24) as usize
}

pub open spec fn phoff(img: Seq<u8>) -> int {
    le64(img, 32) as usize as int
}

pub open spec fn phentsize(img: Seq<u8>) -> int {
    le16(img, 54) as int
}

pub open spec fn phnum(img: Seq<u8>) -> int {
    le16(img, 56) as int
}

/// Offset of program header `i`.
pub open spec fn ph_at(img: Seq<u8>, i: int) -> int {
    phoff(img) + i * phentsize(img)
}

/// Fields of the program header at `ph`.
pub open spec fn seg_offset(img: Seq<u8>, ph: int) -> int {
    le64(img, ph + 8) as usize as int
}

pub open spec fn seg_vaddr(img: Seq<u8>, ph: int) -> int {
    le64(img, ph + 16) as usize as int
}

pub open spec fn seg_filesz(img: Seq<u8>, ph: int) -> int {
    le64(img, ph + 32) as usize as int
}

pub open spec fn seg_memsz(img: Seq<u8>, ph: int) -> int {
    le64(img, ph + 40) as usize as int
}

/// Why the PT_LOAD header at `ph` is refused, if it is.
pub open spec fn seg_error(img: Seq<u8>, ph: int) -> Option<&'static str> {
    if seg_filesz(img, ph) > seg_memsz(img, ph) || seg_offset(img, ph) + seg_filesz(img, ph) > img.len()
        || seg_vaddr(img, ph) + seg_memsz(img, ph) > usize::MAX - (PAGE_SIZE - 1) {
        Some(ERR_MALFORMED)
    } else if seg_vaddr(img, ph) % (PAGE_SIZE as int) != 0 {
        Some(ERR_UNALIGNED)
    } else {
        None
    }
}

/// Checking program headers `i..phnum` with the break so far at `brk`:
/// the final break, or the first refusal.
pub open spec fn scan_headers(img: Seq<u8>, i: int, brk: int) -> Result<int, &'static str>
    decreases phnum(img) - i,
{
    if i >= phnum(img) {
        if brk == 0 {
            Err(ERR_NO_SEGMENTS)
        } else {
            Ok(brk)
        }
    } else {
        let ph = ph_at(img, i);
        if ph + 56 > img.len() {
            Err(ERR_TRUNCATED)
        } else if le32(img, ph) != PT_LOAD {
            scan_headers(img, i + 1, brk)
        } else {
            match seg_error(img, ph) {
                Some(e) => Err(e),
                None => {
                    let end = spec_page_up(seg_vaddr(img, ph) + seg_memsz(img, ph));
                    scan_headers(img, i + 1, if end > brk { end } else { brk })
                },
            }
        }
    }
}

/// The errors that come from running out of frames or from a clash of
/// mappings rather than from the image.
pub open spec fn memory_error(e: &'static str) -> bool {
    e == ERR_NO_MEMORY || e == ERR_OOM || e == ERR_MAPPED
}

/// A memory error other than an overlapping mapping comes only when the
/// frame allocator has run dry.
pub open spec fn ran_dry(e: &'static str, m: Mem) -> bool {
    memory_error(e) && e != ERR_MAPPED ==> m.alloc.free_frames == 0
}

/// PTE permissions for a segment with ELF flags `flags`.
pub open spec fn seg_perms(flags: u32) -> u64 {
    PTE_U | PTE_R | (if flags & PF_W != 0 { PTE_W } else { 0 }) | (if flags & PF_X != 0 { PTE_X } else { 0 })
}

/// The ELF flags of the program header at `ph`.
pub open spec fn seg_flags(img: Seq<u8>, ph: int) -> u32 {
    le32(img, ph + 4)
}

/// A leaf entry grants what ELF flags `flags` ask for: user access and
/// read always, write exactly with PF_W, execute exactly with PF_X.
pub open spec fn grants(e: u64, flags: u32) -> bool {
    &&& e & PTE_U != 0
    &&& e & PTE_R != 0
    &&& (e & PTE_W != 0) == (flags & PF_W != 0)
    &&& (e & PTE_X != 0) == (flags & PF_X != 0)
}

/// Every page of `[vaddr, end)` is mapped under `root` by a leaf entry
/// that grants `flags`.
pub open spec fn mapped_as(m: Mem, root: int, vaddr: int, end: int, flags: u32) -> bool {
    forall|k: int|
        0 <= k < end - vaddr ==> #[trigger] spec_leaf(m, root, (vaddr + k) as usize) is Some && grants(
            spec_leaf(m, root, (vaddr + k) as usize)->0,
            flags,
        )
}

/// Law: the leaf entry that maps a page of a segment with ELF flags
/// `flags`, whatever frame it points at, is user-readable, writable
/// exactly when PF_W is set and executable exactly when PF_X is set.
pub proof fn lemma_segment_leaf_grants(pa: usize, flags: u32)
    ensures
        grants(crate::mem::mmu::leaf_entry(pa, seg_perms(flags)), flags),
{
    let p = pa as u64;
    assert(grants(crate::mem::mmu::encode(p, seg_perms(flags) | crate::mem::mmu::PTE_A | crate::mem::mmu::PTE_D
        | crate::mem::mmu::PTE_V), flags)) by (bit_vector);
}

fn perms(flags: u32) -> (r: u64)
    ensures
        r == seg_perms(flags),
        r < 1024,
{
    let mut p = PTE_U | PTE_R;
    if flags & PF_W != 0 {
        p = p | PTE_W;
    }
    if flags & PF_X != 0 {
        p = p | PTE_X;
    }
    assert(p < 1024) by (bit_vector)
        requires
            p == PTE_U | PTE_R || p == PTE_U | PTE_R | PTE_W || p == PTE_U | PTE_R | PTE_X || p == PTE_U | PTE_R | PTE_W
                | PTE_X,
    ;
    assert(p == seg_perms(flags)) by (bit_vector)
        requires
            p == (if flags & PF_W != 0 && flags & PF_X != 0 {
                PTE_U | PTE_R | PTE_W | PTE_X
            } else if flags & PF_W != 0 {
                PTE_U | PTE_R | PTE_W
            } else if flags & PF_X != 0 {
                PTE_U | PTE_R | PTE_X
            } else {
                PTE_U | PTE_R
            }),
    ;
    p
}

/// Copy `image[from .. from + n]` into frame `frame` (a physical
/// address) from its first byte.
fn fill_frame(m: &mut Mem, frame: usize, image: &[u8], from: usize, n: usize)
    requires
        old(m).wf(),
        crate::mem::mmu::is_frame_pa(frame as int),
        n <= PAGE_SIZE,
        from + n <= image@.len(),
    ensures
        final(m).wf(),
        final(m).alloc == old(m).alloc,
        final(m).kernel_root == old(m).kernel_root,
        old(m).same_entries(final(m)),
        forall|j: int| 0 <= j < n ==> #[trigger] final(m).byte(crate::mem::mmu::frame_of(frame as int), j) == image@[from + j],
        forall|j: int| n <= j < PAGE_SIZE ==> #[trigger] final(m).byte(crate::mem::mmu::frame_of(frame as int), j) == old(m).byte(crate::mem::mmu::frame_of(frame as int), j),
        forall|g: int, j: int| 0 <= g < crate::mem::page::MAX_FRAMES && g != crate::mem::mmu::frame_of(frame as int) && 0 <= j
            < PAGE_SIZE ==> #[trigger] final(m).byte(g, j) == old(m).byte(g, j),
{
    let _len = image.len();
    let mut chunk: Vec<u8> = Vec::new();
    let mut t: usize = 0;
    while t < n
        invariant
            t <= n,
            from + n <= image@.len(),
            _len == image@.len(),
            chunk@ == image@.subrange(from as int, from + t),
        decreases n - t,
    {
        chunk.push(image[from + t]);
        t = t + 1;
        assert(chunk@ =~= image@.subrange(from as int, from + t));
    }
    proof {
        crate::mem::mmu::lemma_frame_range(frame as int);
    }
    let f = (frame - crate::mem::layout::RAM_START) / PAGE_SIZE;
    m.write_bytes(f, 0, chunk.as_slice());
}

/// Byte `k` of a segment in memory: its file bytes, then zeros.
pub open spec fn seg_content(img: Seq<u8>, offset: int, filesz: int, k: int) -> u8 {
    if k < filesz {
        img[offset + k]
    } else {
        0
    }
}

/// Every byte of `[vaddr, end)` is loaded with the segment's content.
pub open spec fn holds_segment(m: Mem, root: int, img: Seq<u8>, vaddr: int, end: int, offset: int, filesz: int) -> bool {
    forall|k: int|
        0 <= k < end - vaddr ==> #[trigger] loaded_byte(m, root, (vaddr + k) as usize, seg_content(img, offset, filesz, k))
}

/// A user range: inside the part of the address space that slot 1 of
/// the root covers.
pub open spec fn in_user_slot(vaddr: int, end: int) -> bool {
    0x4000_0000 <= vaddr && end <= 0x8000_0000
}

/// A loaded segment stays loaded across steps that keep allocated
/// frames, their bytes and their valid entries.
proof fn lemma_holds_stable(a: Mem, b: Mem, root: int, img: Seq<u8>, vaddr: int, end: int, offset: int, filesz: int)
    requires
        user_tree(a, root),
        in_user_slot(vaddr, end),
        keeps_links(a, b),
        keeps_used(a, b),
        holds_segment(a, root, img, vaddr, end, offset, filesz),
    ensures
        holds_segment(b, root, img, vaddr, end, offset, filesz),
{
    assert forall|k: int| 0 <= k < end - vaddr implies #[trigger] loaded_byte(
        b,
        root,
        (vaddr + k) as usize,
        seg_content(img, offset, filesz, k),
    ) by {
        assert(loaded_byte(a, root, (vaddr + k) as usize, seg_content(img, offset, filesz, k)));
        lemma_loaded_stable(a, b, root, (vaddr + k) as usize, seg_content(img, offset, filesz, k));
    }
}

/// Program header `i` describes a segment that is loaded: PT_LOAD and
/// not refused.
pub open spec fn is_load_seg(img: Seq<u8>, i: int) -> bool {
    &&& ph_at(img, i) + 56 <= img.len()
    &&& le32(img, ph_at(img, i)) == PT_LOAD
    &&& seg_error(img, ph_at(img, i)) is None
}

/// End of the pages of the segment at `ph`.
pub open spec fn seg_end(img: Seq<u8>, ph: int) -> int {
    spec_page_up(seg_vaddr(img, ph) + seg_memsz(img, ph))
}

/// Every loadable segment lies in the user part of the address space.
pub open spec fn segs_in_user(img: Seq<u8>) -> bool {
    forall|i: int|
        0 <= i < phnum(img) && #[trigger] is_load_seg(img, i) ==> in_user_slot(
            seg_vaddr(img, ph_at(img, i)),
            seg_end(img, ph_at(img, i)),
        )
}

/// The user memory under `root` holds the loadable segments among the
/// first `n` program headers.
pub open spec fn holds_segments(m: Mem, root: int, img: Seq<u8>, n: int) -> bool {
    forall|i: int|
        0 <= i < n && #[trigger] is_load_seg(img, i) ==> holds_segment(
            m,
            root,
            img,
            seg_vaddr(img, ph_at(img, i)),
            seg_end(img, ph_at(img, i)),
            seg_offset(img, ph_at(img, i)),
            seg_filesz(img, ph_at(img, i)),
        )
}

/// Loaded segments stay loaded across steps that keep allocated
/// frames, their bytes and their valid entries.
pub proof fn lemma_holds_all_stable(a: Mem, b: Mem, root: int, img: Seq<u8>)
    requires
        user_tree(a, root),
        segs_in_user(img),
        keeps_links(a, b),
        keeps_used(a, b),
        holds_segments(a, root, img, phnum(img)),
    ensures
        holds_segments(b, root, img, phnum(img)),
{
    assert forall|i: int| 0 <= i < phnum(img) && #[trigger] is_load_seg(img, i) implies holds_segment(
        b,
        root,
        img,
        seg_vaddr(img, ph_at(img, i)),
        seg_end(img, ph_at(img, i)),
        seg_offset(img, ph_at(img, i)),
        seg_filesz(img, ph_at(img, i)),
    ) by {
        lemma_holds_stable(
            a,
            b,
            root,
            img,
            seg_vaddr(img, ph_at(img, i)),
            seg_end(img, ph_at(img, i)),
            seg_offset(img, ph_at(img, i)),
            seg_filesz(img, ph_at(img, i)),
        );
    }
}

/// Pages stay mapped as they were across steps that keep valid entries.
proof fn lemma_mapped_as_stable(a: Mem, b: Mem, root: int, vaddr: int, end: int, flags: u32)
    requires
        user_tree(a, root),
        in_user_slot(vaddr, end),
        keeps_links(a, b),
        mapped_as(a, root, vaddr, end, flags),
    ensures
        mapped_as(b, root, vaddr, end, flags),
{
    assert forall|k: int| 0 <= k < end - vaddr implies #[trigger] spec_leaf(b, root, (vaddr + k) as usize) is Some && grants(
        spec_leaf(b, root, (vaddr + k) as usize)->0,
        flags,
    ) by {
        assert(spec_leaf(a, root, (vaddr + k) as usize) is Some);
        crate::mem::mmu::lemma_leaf_stable(a, b, root, (vaddr + k) as usize);
    }
}

/// Every page of each loadable segment among the first `n` program
/// headers is mapped with the permissions its ELF flags ask for.
pub open spec fn segs_mapped_as(m: Mem, root: int, img: Seq<u8>, n: int) -> bool {
    forall|i: int|
        0 <= i < n && #[trigger] is_load_seg(img, i) ==> mapped_as(
            m,
            root,
            seg_vaddr(img, ph_at(img, i)),
            seg_end(img, ph_at(img, i)),
            seg_flags(img, ph_at(img, i)),
        )
}

/// Loaded segments keep their permissions across steps that keep valid
/// entries.
pub proof fn lemma_mapped_all_stable(a: Mem, b: Mem, root: int, img: Seq<u8>)
    requires
        user_tree(a, root),
        segs_in_user(img),
        keeps_links(a, b),
        segs_mapped_as(a, root, img, phnum(img)),
    ensures
        segs_mapped_as(b, root, img, phnum(img)),
{
    assert forall|i: int| 0 <= i < phnum(img) && #[trigger] is_load_seg(img, i) implies mapped_as(
        b,
        root,
        seg_vaddr(img, ph_at(img, i)),
        seg_end(img, ph_at(img, i)),
        seg_flags(img, ph_at(img, i)),
    ) by {
        lemma_mapped_as_stable(
            a,
            b,
            root,
            seg_vaddr(img, ph_at(img, i)),
            seg_end(img, ph_at(img, i)),
            seg_flags(img, ph_at(img, i)),
        );
    }
}

/// Every byte of `[vaddr, end)` reads as the segment's content.
pub open spec fn shows_segment(m: Mem, root: int, img: Seq<u8>, vaddr: int, end: int, offset: int, filesz: int) -> bool {
    forall|k: int|
        0 <= k < end - vaddr ==> #[trigger] user_byte(m, root, (vaddr + k) as usize) == Some(seg_content(img, offset, filesz, k))
}

/// The user memory under `root` reads as every loadable segment.
pub open spec fn shows_segments(m: Mem, root: int, img: Seq<u8>) -> bool {
    forall|i: int|
        0 <= i < phnum(img) && #[trigger] is_load_seg(img, i) ==> shows_segment(
            m,
            root,
            img,
            seg_vaddr(img, ph_at(img, i)),
            seg_end(img, ph_at(img, i)),
            seg_offset(img, ph_at(img, i)),
            seg_filesz(img, ph_at(img, i)),
        )
}

/// Loaded segments read as their content.
pub proof fn lemma_shows_from_holds(m: Mem, root: int, img: Seq<u8>)
    requires
        holds_segments(m, root, img, phnum(img)),
    ensures
        shows_segments(m, root, img),
{
    assert forall|i: int| 0 <= i < phnum(img) && #[trigger] is_load_seg(img, i) implies shows_segment(
        m,
        root,
        img,
        seg_vaddr(img, ph_at(img, i)),
        seg_end(img, ph_at(img, i)),
        seg_offset(img, ph_at(img, i)),
        seg_filesz(img, ph_at(img, i)),
    ) by {
        let v = seg_vaddr(img, ph_at(img, i));
        let o = seg_offset(img, ph_at(img, i));
        let fs = seg_filesz(img, ph_at(img, i));
        assert forall|k: int| 0 <= k < seg_end(img, ph_at(img, i)) - v implies #[trigger] user_byte(
            m,
            root,
            (v + k) as usize,
        ) == Some(seg_content(img, o, fs, k)) by {
            assert(loaded_byte(m, root, (v + k) as usize, seg_content(img, o, fs, k)));
        }
    }
}

/// Segments keep reading as their content when every user address keeps
/// its leaf and every byte stays.
pub proof fn lemma_shows_kept(a: Mem, b: Mem, root: int, img: Seq<u8>)
    requires
        shows_segments(a, root, img),
        segs_in_user(img),
        forall|va: usize| user_slot_va(va as int) ==> #[trigger] spec_leaf(b, root, va) == spec_leaf(a, root, va),
        a.same_bytes(&b),
    ensures
        shows_segments(b, root, img),
{
    assert forall|i: int| 0 <= i < phnum(img) && #[trigger] is_load_seg(img, i) implies shows_segment(
        b,
        root,
        img,
        seg_vaddr(img, ph_at(img, i)),
        seg_end(img, ph_at(img, i)),
        seg_offset(img, ph_at(img, i)),
        seg_filesz(img, ph_at(img, i)),
    ) by {
        let v = seg_vaddr(img, ph_at(img, i));
        let o = seg_offset(img, ph_at(img, i));
        let fs = seg_filesz(img, ph_at(img, i));
        assert forall|k: int| 0 <= k < seg_end(img, ph_at(img, i)) - v implies #[trigger] user_byte(
            b,
            root,
            (v + k) as usize,
        ) == Some(seg_content(img, o, fs, k)) by {
            let va = (v + k) as usize;
            assert(user_byte(a, root, va) == Some(seg_content(img, o, fs, k)));
            assert(user_slot_va(va as int));
            assert(spec_leaf(b, root, va) == spec_leaf(a, root, va));
            let e = spec_leaf(a, root, va)->0;
            crate::mem::mmu::lemma_frame_range(pte_pa(e) as int);
        }
    }
}

/// Segments keep their permissions when every user address keeps its
/// leaf.
pub proof fn lemma_mapped_kept(a: Mem, b: Mem, root: int, img: Seq<u8>)
    requires
        segs_mapped_as(a, root, img, phnum(img)),
        segs_in_user(img),
        forall|va: usize| user_slot_va(va as int) ==> #[trigger] spec_leaf(b, root, va) == spec_leaf(a, root, va),
    ensures
        segs_mapped_as(b, root, img, phnum(img)),
{
    assert forall|i: int| 0 <= i < phnum(img) && #[trigger] is_load_seg(img, i) implies mapped_as(
        b,
        root,
        seg_vaddr(img, ph_at(img, i)),
        seg_end(img, ph_at(img, i)),
        seg_flags(img, ph_at(img, i)),
    ) by {
        let v = seg_vaddr(img, ph_at(img, i));
        assert forall|k: int| 0 <= k < seg_end(img, ph_at(img, i)) - v implies #[trigger] spec_leaf(b, root, (v + k) as usize)
            is Some && grants(spec_leaf(b, root, (v + k) as usize)->0, seg_flags(img, ph_at(img, i))) by {
            let va = (v + k) as usize;
            assert(spec_leaf(a, root, va) is Some);
            assert(user_slot_va(va as int));
        }
    }
}

/// Map the pages `[vaddr, end)` of one segment, copying its file bytes
/// `image[offset .. offset + filesz]` (frames come zeroed, so the rest
/// of memory size needs no clearing).
fn map_segment(
    m: &mut Mem,
    image: &[u8],
    root: &PageTable,
    vaddr: usize,
    end: usize,
    offset: usize,
    filesz: usize,
    pte_flags: u64,
    Ghost(flags): Ghost<u32>,
) -> (r: Result<(), &'static str>)
    requires
        old(m).wf(),
        pte_flags == seg_perms(flags),
        vaddr % PAGE_SIZE == 0,
        end % PAGE_SIZE == 0,
        end <= usize::MAX - (PAGE_SIZE - 1),
        offset + filesz <= image@.len(),
        pte_flags < 1024,
    ensures
        final(m).wf(),
        final(m).kernel_root == old(m).kernel_root,
        final(m).alloc.first_frame == old(m).alloc.first_frame,
        keeps_used(*old(m), *final(m)),
        keeps_links(*old(m), *final(m)),
        r is Err ==> memory_error(r->Err_0),
        user_tree(*old(m), root.pa as int) && in_user_slot(vaddr as int, end as int) ==> {
            &&& user_tree(*final(m), root.pa as int)
            &&& grows_fresh(*old(m), *final(m), root.pa as int)
            &&& r matches Err(e) ==> ran_dry(e, *final(m))
            &&& r is Ok ==> holds_segment(
                *final(m),
                root.pa as int,
                image@,
                vaddr as int,
                end as int,
                offset as int,
                filesz as int,
            )
            &&& r is Ok ==> mapped_as(*final(m), root.pa as int, vaddr as int, end as int, flags)
        },
{
    let _len = image.len();
    let ghost rt = root.pa as int;
    let ghost ut = user_tree(*old(m), rt) && in_user_slot(vaddr as int, end as int);
    proof {
        lemma_grows_same(*old(m), *old(m), rt);
    }
    let mut va = vaddr;
    while va < end
        invariant
            m.wf(),
            m.kernel_root == old(m).kernel_root,
            m.alloc.first_frame == old(m).alloc.first_frame,
            keeps_used(*old(m), *m),
            keeps_links(*old(m), *m),
            vaddr <= va,
            va % PAGE_SIZE == 0,
            vaddr % PAGE_SIZE == 0,
            end % PAGE_SIZE == 0,
            end <= usize::MAX - (PAGE_SIZE - 1),
            offset + filesz <= image@.len(),
            _len == image@.len(),
            pte_flags < 1024,
            rt == root.pa,
            ut == (user_tree(*old(m), rt) && in_user_slot(vaddr as int, end as int)),
            ut ==> user_tree(*m, rt),
            ut ==> grows_fresh(*old(m), *m, rt),
            ut ==> holds_segment(*m, rt, image@, vaddr as int, va as int, offset as int, filesz as int),
            ut ==> mapped_as(*m, rt, vaddr as int, va as int, flags),
            pte_flags == seg_perms(flags),
        decreases end - va,
    {
        let ghost before = *m;
        let frame = match m.alloc_frame() {
            Some(f) => f,
            None => {
                proof {
                    if ut {
                        assert(user_tree(*m, rt)) by {
                            assert(m.entry(crate::mem::mmu::frame_of(rt), 1) == before.entry(crate::mem::mmu::frame_of(rt), 1));
                        }
                        lemma_grows_same(before, *m, rt);
                        lemma_grows_trans(*old(m), before, *m, rt);
                    }
                }
                return Err(ERR_NO_MEMORY);
            },
        };
        let ghost after_alloc = *m;
        let seg_off = va - vaddr;
        let mut n: usize = 0;
        if seg_off < filesz {
            n = if PAGE_SIZE < filesz - seg_off { PAGE_SIZE } else { filesz - seg_off };
            fill_frame(m, frame, image, offset + seg_off, n);
        }
        assert(keeps_used(before, *m));
        assert(frame % PAGE_SIZE == 0 && frame < 0x100_0000_0000_0000);
        let ghost before_map = *m;
        proof {
            crate::mem::mmu::lemma_frame_range(frame as int);
            assert(keeps_links(before, before_map));
            if ut {
                assert(user_tree(before_map, rt)) by {
                    assert(before_map.entry(crate::mem::mmu::frame_of(rt), 1) == before.entry(crate::mem::mmu::frame_of(rt), 1));
                }
                crate::mem::mmu::lemma_frame_range(rt);
                if before.entry(crate::mem::mmu::frame_of(rt), 1) & crate::mem::mmu::PTE_V != 0 {
                    crate::mem::mmu::lemma_frame_range(pte_pa(before.entry(crate::mem::mmu::frame_of(rt), 1)) as int);
                }
                lemma_grows_same(before, before_map, rt);
                lemma_grows_trans(*old(m), before, before_map, rt);
            }
        }
        match root.map(m, va, frame, pte_flags) {
            Ok(()) => {},
            Err(e) => {
                proof {
                    lemma_keeps_links_trans(before, before_map, *m);
                    lemma_keeps_links_trans(*old(m), before, *m);
                    if ut {
                        lemma_grows_trans(*old(m), before_map, *m, rt);
                        assert(va + PAGE_SIZE <= end) by (nonlinear_arith)
                            requires
                                va % 4096 == 0,
                                end % 4096 == 0,
                                va < end,
                        {
                            assert(va / 4096 < end / 4096);
                        }
                        crate::mem::mmu::lemma_user_sound(before_map, rt, va);
                    }
                }
                return Err(e);
            },
        }
        assert(keeps_used(before_map, *m));
        proof {
            lemma_keeps_links_trans(before, before_map, *m);
            lemma_keeps_links_trans(*old(m), before, *m);
            assert(va + PAGE_SIZE <= end) by (nonlinear_arith)
                requires
                    va % 4096 == 0,
                    end % 4096 == 0,
                    va < end,
            {
                assert(va / 4096 < end / 4096);
            }
            if ut {
                lemma_grows_trans(*old(m), before_map, *m, rt);
                let f = crate::mem::mmu::frame_of(frame as int);
                crate::mem::mmu::lemma_user_sound(before_map, rt, va);
                assert forall|k: int| 0 <= k < va + PAGE_SIZE - vaddr implies #[trigger] loaded_byte(
                    *m,
                    rt,
                    (vaddr + k) as usize,
                    seg_content(image@, offset as int, filesz as int, k),
                ) by {
                    if k < va - vaddr {
                        assert(crate::mem::mmu::user_slot_va((vaddr + k) as usize as int));
                        assert(loaded_byte(before, rt, (vaddr + k) as usize, seg_content(image@, offset as int, filesz as int, k)));
                        lemma_loaded_stable(before, *m, rt, (vaddr + k) as usize, seg_content(image@, offset as int, filesz as int, k));
                    } else {
                        let off = (k - (va - vaddr)) as usize;
                        crate::mem::mmu::lemma_leaf_page(*m, rt, va, off);
                        assert((vaddr + k) as usize == (va + off) as usize);
                        assert(spec_translate(*m, rt, (va + off) as usize) == Some(frame + off));
                        let e = spec_leaf(*m, rt, va)->0;
                        assert(pte_pa(e) == frame);
                        assert(user_loc(*m, rt, (va + off) as usize) == Some((f, off as int)));
                        assert(after_alloc.alloc@[f]);
                        assert(before_map.alloc@[f]);
                        assert(m.alloc@[f]);
                        assert(before_map.byte(f, off as int) == m.byte(f, off as int));
                        if seg_off < filesz && (off as int) < n {
                            assert(before_map.byte(f, off as int) == image@[offset + seg_off + off]);
                        } else {
                            assert(after_alloc.byte(f, off as int) == 0);
                            assert(before_map.byte(f, off as int) == 0);
                        }
                        assert(m.byte(f, off as int) == seg_content(image@, offset as int, filesz as int, k));
                        assert(loaded_byte(*m, rt, (vaddr + k) as usize, seg_content(image@, offset as int, filesz as int, k)));
                    }
                }
                assert forall|k: int| 0 <= k < va + PAGE_SIZE - vaddr implies #[trigger] spec_leaf(*m, rt, (vaddr + k) as usize) is Some
                    && grants(spec_leaf(*m, rt, (vaddr + k) as usize)->0, flags) by {
                    if k < va - vaddr {
                        assert(spec_leaf(before, rt, (vaddr + k) as usize) is Some);
                        crate::mem::mmu::lemma_leaf_stable(before, *m, rt, (vaddr + k) as usize);
                    } else {
                        let off = (k - (va - vaddr)) as usize;
                        crate::mem::mmu::lemma_leaf_page(*m, rt, va, off);
                        assert((vaddr + k) as usize == (va + off) as usize);
                        lemma_segment_leaf_grants(frame, flags);
                    }
                }
            }
        }
        va = va + PAGE_SIZE;
    }
    Ok(())
}

/// The fields of the program header at `ph`: flags, file offset,
/// virtual address, file size, memory size.
fn segment_fields(image: &[u8], ph: usize) -> (r: (u32, usize, usize, usize, usize))
    requires
        ph + 56 <= image@.len(),
    ensures
        r.0 == le32(image@, ph + 4),
        r.1 == seg_offset(image@, ph as int),
        r.2 == seg_vaddr(image@, ph as int),
        r.3 == seg_filesz(image@, ph as int),
        r.4 == seg_memsz(image@, ph as int),
{
    let _len = image.len();
    (
        read_u32(image, ph + 4),
        read_u64(image, ph + 8) as usize,
        read_u64(image, ph + 16) as usize,
        read_u64(image, ph + 32) as usize,
        read_u64(image, ph + 40) as usize,
    )
}

/// Why a segment with these fields is refused, if it is.
fn check_segment(len: usize, offset: usize, vaddr: usize, filesz: usize, memsz: usize) -> (r: Option<&'static str>)
    ensures
        r == (if filesz > memsz || offset + filesz > len || vaddr + memsz > usize::MAX - (PAGE_SIZE - 1) {
            Some(ERR_MALFORMED)
        } else if vaddr % PAGE_SIZE != 0 {
            Some(ERR_UNALIGNED)
        } else {
            None::<&'static str>
        }),
{
    if filesz > memsz || offset > len || len - offset < filesz || vaddr > usize::MAX - (PAGE_SIZE - 1) || usize::MAX - (
    PAGE_SIZE - 1) - vaddr < memsz {
        return Some(ERR_MALFORMED);
    }
    if vaddr % PAGE_SIZE != 0 {
        return Some(ERR_UNALIGNED);
    }
    None
}

/// Process the program header at `ph` with the break so far at `brk`:
/// map it if it is a loadable segment; the new break.
fn load_header(m: &mut Mem, image: &[u8], root: &PageTable, ph: usize, brk: usize) -> (r: Result<usize, &'static str>)
    requires
        old(m).wf(),
        ph + 56 <= image@.len(),
        brk % PAGE_SIZE == 0,
    ensures
        final(m).wf(),
        final(m).kernel_root == old(m).kernel_root,
        final(m).alloc.first_frame == old(m).alloc.first_frame,
        keeps_used(*old(m), *final(m)),
        le32(image@, ph as int) != PT_LOAD ==> r == Ok::<usize, &'static str>(brk),
        le32(image@, ph as int) == PT_LOAD ==> match seg_error(image@, ph as int) {
            Some(e) => r == Err::<usize, &'static str>(e),
            None => {
                let end = spec_page_up(seg_vaddr(image@, ph as int) + seg_memsz(image@, ph as int));
                match r {
                    Ok(b) => b == (if end > brk { end } else { brk as int }),
                    Err(e) => memory_error(e),
                }
            },
        },
        r is Ok ==> r->Ok_0 % PAGE_SIZE == 0,
        keeps_links(*old(m), *final(m)),
        user_tree(*old(m), root.pa as int) && (le32(image@, ph as int) == PT_LOAD && seg_error(image@, ph as int) is None
            ==> in_user_slot(seg_vaddr(image@, ph as int), seg_end(image@, ph as int))) ==> {
            &&& user_tree(*final(m), root.pa as int)
            &&& r matches Err(e) ==> ran_dry(e, *final(m))
            &&& grows_fresh(*old(m), *final(m), root.pa as int)
            &&& r is Ok && le32(image@, ph as int) == PT_LOAD && seg_error(image@, ph as int) is None ==> holds_segment(
                *final(m),
                root.pa as int,
                image@,
                seg_vaddr(image@, ph as int),
                seg_end(image@, ph as int),
                seg_offset(image@, ph as int),
                seg_filesz(image@, ph as int),
            )
            &&& r is Ok && le32(image@, ph as int) == PT_LOAD && seg_error(image@, ph as int) is None ==> mapped_as(
                *final(m),
                root.pa as int,
                seg_vaddr(image@, ph as int),
                seg_end(image@, ph as int),
                seg_flags(image@, ph as int),
            )
        },
{
    let _len = image.len();
    proof {
        lemma_grows_same(*old(m), *old(m), root.pa as int);
    }
    if read_u32(image, ph) != PT_LOAD {
        return Ok(brk);
    }
    let (flags, offset, vaddr, filesz, memsz) = segment_fields(image, ph);
    if let Some(e) = check_segment(image.len(), offset, vaddr, filesz, memsz) {
        return Err(e);
    }
    let pte_flags = perms(flags);
    let end = page_up(vaddr + memsz);
    map_segment(m, image, root, vaddr, end, offset, filesz, pte_flags, Ghost(flags))?;
    if end > brk {
        Ok(end)
    } else {
        Ok(brk)
    }
}

/// Map and copy every PT_LOAD segment of `image` into `root`.
pub fn load(m: &mut Mem, image: &[u8], root: &PageTable) -> (r: Result<LoadedElf, &'static str>)
    requires
        old(m).wf(),
    ensures
        final(m).wf(),
        final(m).kernel_root == old(m).kernel_root,
        final(m).alloc.first_frame == old(m).alloc.first_frame,
        keeps_used(*old(m), *final(m)),
        keeps_links(*old(m), *final(m)),
        match header_error(image@) {
            Some(e) => r == Err::<LoadedElf, &'static str>(e) && *final(m) == *old(m),
            None => match scan_headers(image@, 0, 0) {
                Ok(brk) => match r {
                    Ok(l) => l.entry == entry_of(image@) && l.brk == brk,
                    Err(e) => memory_error(e),
                },
                Err(e) => r is Err && (r->Err_0 == e || memory_error(r->Err_0)),
            },
        },
        user_tree(*old(m), root.pa as int) && segs_in_user(image@) ==> {
            &&& user_tree(*final(m), root.pa as int)
            &&& r matches Err(e) ==> ran_dry(e, *final(m))
            &&& grows_fresh(*old(m), *final(m), root.pa as int)
            &&& r is Ok ==> holds_segments(*final(m), root.pa as int, image@, phnum(image@))
            &&& r is Ok ==> segs_mapped_as(*final(m), root.pa as int, image@, phnum(image@))
        },
{
    if image.len() < 64 || image[0] != 0x7f || image[1] != 0x45 || image[2] != 0x4c || image[3] != 0x46 {
        return Err(ERR_MAGIC);
    }
    if image[4] != CLASS_64 {
        return Err(ERR_CLASS);
    }
    if read_u16(image, 18) != MACHINE_RISCV {
        return Err(ERR_MACHINE);
    }
    if read_u16(image, 16) != ET_EXEC {
        return Err(ERR_TYPE);
    }
    let ghost img = image@;
    let entry = read_u64(image, 24) as usize;
    let phoff_v = read_u64(image, 32) as usize;
    let phentsize_v = read_u16(image, 54) as usize;
    let phnum_v = read_u16(image, 56) as usize;
    let mut brk: usize = 0;
    let mut i: usize = 0;
    proof {
        lemma_grows_same(*old(m), *old(m), root.pa as int);
    }
    while i < phnum_v
        invariant
            m.wf(),
            m.kernel_root == old(m).kernel_root,
            m.alloc.first_frame == old(m).alloc.first_frame,
            keeps_used(*old(m), *m),
            keeps_links(*old(m), *m),
            img == image@,
            header_error(img) is None,
            phoff_v == phoff(img),
            phentsize_v == phentsize(img),
            phnum_v == phnum(img),
            phentsize_v < 0x1_0000,
            phnum_v < 0x1_0000,
            i <= phnum_v,
            brk % PAGE_SIZE == 0,
            scan_headers(img, 0, 0) == scan_headers(img, i as int, brk as int),
            user_tree(*old(m), root.pa as int) && segs_in_user(img) ==> user_tree(*m, root.pa as int) && holds_segments(
                *m,
                root.pa as int,
                img,
                i as int,
            ) && grows_fresh(*old(m), *m, root.pa as int) && segs_mapped_as(*m, root.pa as int, img, i as int),
        decreases phnum_v - i,
    {
        assert(phentsize_v * i <= 0xffff * 0xffff) by (nonlinear_arith)
            requires
                phentsize_v < 0x1_0000,
                i < 0x1_0000,
        ;
        let x = phentsize_v * i;
        if phoff_v > image.len() || image.len() - phoff_v < x || image.len() - phoff_v - x < 56 {
            return Err(ERR_TRUNCATED);
        }
        let ph = phoff_v + x;
        let ghost before = *m;
        proof {
            if user_tree(*old(m), root.pa as int) && segs_in_user(img) {
                assert(ph == ph_at(img, i as int));
                if le32(img, ph as int) == PT_LOAD && seg_error(img, ph as int) is None {
                    assert(is_load_seg(img, i as int));
                }
            }
        }
        brk = match load_header(m, image, root, ph, brk) {
            Ok(b) => b,
            Err(e) => {
                proof {
                    lemma_keeps_links_trans(*old(m), before, *m);
                    if user_tree(*old(m), root.pa as int) && segs_in_user(img) {
                        lemma_grows_trans(*old(m), before, *m, root.pa as int);
                    }
                }
                return Err(e);
            },
        };
        proof {
            lemma_keeps_links_trans(*old(m), before, *m);
        }
        assert(keeps_used(*old(m), *m)) by {
            assert(keeps_used(before, *m));
        }
        proof {
            if user_tree(*old(m), root.pa as int) && segs_in_user(img) {
                lemma_grows_trans(*old(m), before, *m, root.pa as int);
                assert forall|j: int| 0 <= j < i + 1 && #[trigger] is_load_seg(img, j) implies holds_segment(
                    *m,
                    root.pa as int,
                    img,
                    seg_vaddr(img, ph_at(img, j)),
                    seg_end(img, ph_at(img, j)),
                    seg_offset(img, ph_at(img, j)),
                    seg_filesz(img, ph_at(img, j)),
                ) by {
                    if j < i {
                        lemma_holds_stable(
                            before,
                            *m,
                            root.pa as int,
                            img,
                            seg_vaddr(img, ph_at(img, j)),
                            seg_end(img, ph_at(img, j)),
                            seg_offset(img, ph_at(img, j)),
                            seg_filesz(img, ph_at(img, j)),
                        );
                    } else {
                        assert(j == i);
                        assert(ph == ph_at(img, j));
                    }
                }
                assert forall|j: int| 0 <= j < i + 1 && #[trigger] is_load_seg(img, j) implies mapped_as(
                    *m,
                    root.pa as int,
                    seg_vaddr(img, ph_at(img, j)),
                    seg_end(img, ph_at(img, j)),
                    seg_flags(img, ph_at(img, j)),
                ) by {
                    if j < i {
                        lemma_mapped_as_stable(
                            before,
                            *m,
                            root.pa as int,
                            seg_vaddr(img, ph_at(img, j)),
                            seg_end(img, ph_at(img, j)),
                            seg_flags(img, ph_at(img, j)),
                        );
                    } else {
                        assert(j == i);
                        assert(ph == ph_at(img, j));
                    }
                }
            }
        }
        i = i + 1;
    }
    if brk == 0 {
        return Err(ERR_NO_SEGMENTS);
    }
    Ok(LoadedElf { entry, brk })
}

} // verus!
