//! Copies between kernel space and a process address space.
//!
//! Every transfer walks the process page table page by page and
//! rejects addresses outside the user VA window, so a hostile pointer
//! can never reach kernel memory.

use vstd::prelude::*;
use vstd::string::StringSliceAdditionalSpecFns;
use vstd::utf8::valid_utf8;
use super::layout::PAGE_SIZE;
use super::page::MAX_FRAMES;
use super::mmu::{Mem, PageTable, PTE_V, spec_leaf, spec_walk, spec_vpn, pte_pa, is_frame_pa, frame_of, lemma_same_entries_walk, user_tree, user_slot_va, keeps_links, keeps_used, lemma_leaf_stable, lemma_frame_range};
use crate::text::str_from_utf8;

verus! {

/// User virtual address window (root slot 1).
pub const USER_VA_START: usize = 0x4000_0000;
pub const USER_VA_END: usize = 0x8000_0000;

pub const ERR_OVERFLOW: &'static str = "uaccess: address overflow";
pub const ERR_OUTSIDE: &'static str = "uaccess: address outside user window";
pub const ERR_UNMAPPED: &'static str = "uaccess: unmapped user address";

/// Why `[uva, uva + len)` is refused, if it is.
pub open spec fn range_error(uva: usize, len: nat) -> Option<&'static str> {
    if uva + len > usize::MAX {
        Some(ERR_OVERFLOW)
    } else if uva < USER_VA_START || uva + len > USER_VA_END {
        Some(ERR_OUTSIDE)
    } else {
        None
    }
}

/// Where the byte at `va` lives: (frame, offset), when `va` is mapped to
/// a frame of RAM.
pub open spec fn user_loc(m: Mem, root: int, va: usize) -> Option<(int, int)> {
    match spec_leaf(m, root, va) {
        Some(e) => if is_frame_pa(pte_pa(e) as int) {
            Some((frame_of(pte_pa(e) as int), va as int % (PAGE_SIZE as int)))
        } else {
            None
        },
        None => None,
    }
}

/// The byte at user address `va`.
pub open spec fn user_byte(m: Mem, root: int, va: usize) -> Option<u8> {
    match user_loc(m, root, va) {
        Some((g, j)) => Some(m.byte(g, j)),
        None => None,
    }
}

/// User address `va` is mapped to an allocated frame that holds `b`.
pub open spec fn loaded_byte(m: Mem, root: int, va: usize, b: u8) -> bool {
    match user_loc(m, root, va) {
        Some((g, j)) => m.alloc@[g] && m.byte(g, j) == b,
        None => false,
    }
}

/// A loaded user byte stays loaded across steps that keep allocated
/// frames, their bytes and their valid entries.
pub proof fn lemma_loaded_stable(a: Mem, b: Mem, root: int, va: usize, x: u8)
    requires
        user_tree(a, root),
        user_slot_va(va as int),
        keeps_links(a, b),
        keeps_used(a, b),
        loaded_byte(a, root, va, x),
    ensures
        loaded_byte(b, root, va, x),
{
    lemma_leaf_stable(a, b, root, va);
    let (g, j) = user_loc(a, root, va)->0;
    lemma_frame_range(pte_pa(spec_leaf(a, root, va)->0) as int);
    assert(0 <= j < PAGE_SIZE);
}

/// Every byte of `[uva, uva + len)` is mapped.
pub open spec fn readable(m: Mem, root: int, uva: usize, len: nat) -> bool {
    forall|k: int| 0 <= k < len ==> #[trigger] user_loc(m, root, (uva + k) as usize) is Some
}

/// The bytes of `[uva, uva + len)`.
pub open spec fn user_bytes(m: Mem, root: int, uva: usize, len: nat) -> Seq<u8> {
    Seq::new(len, |k: int| user_byte(m, root, (uva + k) as usize)->0)
}

/// No two addresses of `[uva, uva + len)` share a physical byte.
pub open spec fn phys_distinct(m: Mem, root: int, uva: usize, len: nat) -> bool {
    forall|k1: int, k2: int| 0 <= k1 < len && 0 <= k2 < len && k1 != k2
        ==> #[trigger] user_loc(m, root, (uva + k1) as usize) != #[trigger] user_loc(m, root, (uva + k2) as usize)
}

/// Where a user byte lives is a byte of some frame.
pub proof fn lemma_loc_range(m: Mem, root: int, va: usize)
    ensures
        user_loc(m, root, va) matches Some((g, j)) ==> 0 <= g < MAX_FRAMES && 0 <= j < PAGE_SIZE,
{
    if let Some(e) = spec_leaf(m, root, va) {
        if is_frame_pa(pte_pa(e) as int) {
            lemma_frame_range(pte_pa(e) as int);
        }
    }
}

/// Some address of `[uva, uva + len)` is mapped to byte `j` of frame `g`.
pub open spec fn hits(m: Mem, root: int, uva: usize, len: nat, g: int, j: int) -> bool {
    exists|k: int| 0 <= k < len && #[trigger] user_loc(m, root, (uva + k) as usize) == Some((g, j))
}

/// Check that `[uva, uva + len)` lies in the user window.
pub fn check_range(uva: usize, len: usize) -> (r: Result<(), &'static str>)
    ensures
        match range_error(uva, len as nat) {
            Some(e) => r == Err::<(), &'static str>(e),
            None => r is Ok,
        },
{
    let end = match uva.checked_add(len) {
        Some(e) => e,
        None => {
            return Err(ERR_OVERFLOW);
        },
    };
    if uva < USER_VA_START || end > USER_VA_END {
        return Err(ERR_OUTSIDE);
    }
    Ok(())
}

proof fn lemma_same_page(va: usize, k: usize)
    requires
        va % 4096 + k < 4096,
    ensures
        spec_vpn((va + k) as usize, 2) == spec_vpn(va, 2),
        spec_vpn((va + k) as usize, 1) == spec_vpn(va, 1),
        spec_vpn((va + k) as usize, 0) == spec_vpn(va, 0),
        (va + k) as usize % 4096 == va % 4096 + k,
        va + k <= usize::MAX,
{
    assert(va % 4096 + k < 4096 ==> ((va + k) as usize >> 30usize) & 0x1ff == (va >> 30usize) & 0x1ff && ((va + k) as usize
        >> 21usize) & 0x1ff == (va >> 21usize) & 0x1ff && ((va + k) as usize >> 12usize) & 0x1ff == (va >> 12usize) & 0x1ff && (va
        + k) as usize % 4096 == va % 4096 + k && (va + k) as usize == va + k) by (bit_vector);
}

/// The frame and offset behind `va`, valid for the rest of its page.
fn phys_page(m: &Mem, root: &PageTable, va: usize) -> (r: Option<(usize, usize)>)
    requires
        m.wf(),
    ensures
        match r {
            None => user_loc(*m, root.pa as int, va) is None,
            Some((f, off)) => {
                &&& f < MAX_FRAMES
                &&& off == va % PAGE_SIZE
                &&& forall|j: int| 0 <= j < PAGE_SIZE - off ==> #[trigger] user_loc(*m, root.pa as int, (va + j) as usize)
                    == Some((f as int, off + j))
            },
        },
{
    let (f, i) = match root.walk(m, va) {
        Some(s) => s,
        None => {
            return None;
        },
    };
    let e = m.get_entry(f, i);
    if e & PTE_V == 0 {
        return None;
    }
    let p = (e >> 10u64) << 12u64;
    if !(p >= super::layout::RAM_START as u64 && p < super::layout::RAM_END as u64 && (p - super::layout::RAM_START as u64) % (PAGE_SIZE as u64) == 0) {
        return None;
    }
    let off = va % PAGE_SIZE;
    assert forall|j: int| 0 <= j < PAGE_SIZE - off implies #[trigger] user_loc(*m, root.pa as int, (va + j) as usize)
        == Some((frame_of(p as int), off + j)) by {
        lemma_same_page(va, j as usize);
        assert(spec_walk(*m, root.pa as int, (va + j) as usize) == spec_walk(*m, root.pa as int, va));
    }
    Some((((p - super::layout::RAM_START as u64) / (PAGE_SIZE as u64)) as usize, off))
}

/// Copy `dst.len()` bytes from the process at `uva` into `dst`.
pub fn copy_in(m: &Mem, root: &PageTable, uva: usize, dst: &mut [u8]) -> (r: Result<(), &'static str>)
    requires
        m.wf(),
    ensures
        final(dst)@.len() == old(dst)@.len(),
        match range_error(uva, old(dst)@.len()) {
            Some(e) => r == Err::<(), &'static str>(e) && final(dst)@ == old(dst)@,
            None => {
                &&& r is Ok == readable(*m, root.pa as int, uva, old(dst)@.len())
                &&& r is Err ==> r == Err::<(), &'static str>(ERR_UNMAPPED)
                &&& r is Ok ==> final(dst)@ == user_bytes(*m, root.pa as int, uva, old(dst)@.len())
            },
        },
{
    check_range(uva, dst.len())?;
    let len = dst.len();
    let ghost rt = root.pa as int;
    let mut done: usize = 0;
    while done < len
        invariant
            m.wf(),
            rt == root.pa as int,
            len == dst@.len(),
            dst@.len() == old(dst)@.len(),
            range_error(uva, len as nat) is None,
            done <= len,
            forall|k: int| 0 <= k < done ==> #[trigger] user_loc(*m, rt, (uva + k) as usize) is Some,
            forall|k: int| 0 <= k < done ==> dst@[k] == #[trigger] user_byte(*m, rt, (uva + k) as usize)->0,
        decreases len - done,
    {
        let va = uva + done;
        let (f, off) = match phys_page(m, root, va) {
            Some(x) => x,
            None => {
                assert(user_loc(*m, rt, (uva + done) as usize) is None);
                return Err(ERR_UNMAPPED);
            },
        };
        let n = if PAGE_SIZE - off < len - done { PAGE_SIZE - off } else { len - done };
        let mut t: usize = 0;
        while t < n
            invariant
                m.wf(),
                rt == root.pa as int,
                len == dst@.len(),
                dst@.len() == old(dst)@.len(),
                range_error(uva, len as nat) is None,
                done + n <= len,
                off + n <= PAGE_SIZE,
                f < MAX_FRAMES,
                va == uva + done,
                t <= n,
                forall|j: int| 0 <= j < PAGE_SIZE - off ==> #[trigger] user_loc(*m, rt, (va + j) as usize) == Some((f as int, off + j)),
                forall|k: int| 0 <= k < done + t ==> #[trigger] user_loc(*m, rt, (uva + k) as usize) is Some,
                forall|k: int| 0 <= k < done + t ==> dst@[k] == #[trigger] user_byte(*m, rt, (uva + k) as usize)->0,
            decreases n - t,
        {
            let b = m.get_byte(f, off + t);
            dst[done + t] = b;
            assert((uva + (done + t)) as usize == (va + t) as usize);
            t = t + 1;
        }
        done = done + n;
    }
    assert(dst@ =~= user_bytes(*m, rt, uva, len as nat));
    Ok(())
}

/// Of the `n` bytes copied to `[uva, uva + n)`, `j` is the last one
/// written where byte `k` lives: the byte that address then holds.
pub open spec fn last_writer(m: Mem, root: int, uva: usize, n: nat, k: int, j: int) -> bool {
    &&& k <= j < n
    &&& user_loc(m, root, (uva + j) as usize) == user_loc(m, root, (uva + k) as usize)
    &&& forall|j2: int| j < j2 < n ==> #[trigger] user_loc(m, root, (uva + j2) as usize) != user_loc(m, root, (uva + k) as usize)
}

/// After `n` bytes of `src` went to `[uva, uva + n)` in order, each
/// address holds the byte last written where it lives.
pub open spec fn copied_upto(o: Mem, m: Mem, root: int, uva: usize, src: Seq<u8>, n: nat) -> bool {
    forall|k: int| 0 <= k < n ==> #[trigger] holds_last(o, m, root, uva, src, n, k)
}

/// Address `uva + k` holds the byte of `src` last written where it lives.
pub open spec fn holds_last(o: Mem, m: Mem, root: int, uva: usize, src: Seq<u8>, n: nat, k: int) -> bool {
    exists|j: int| #[trigger] last_writer(o, root, uva, n, k, j) && user_byte(m, root, (uva + k) as usize) == Some(src[j])
}

/// Writing the next chunk `[done, done + n)` of `src` into frame `f` from
/// offset `off`, where those addresses live, extends what is copied.
proof fn lemma_copy_chunk(o: Mem, before: Mem, after: Mem, rt: int, uva: usize, src: Seq<u8>, done: nat, n: nat, f: int, off: int)
    requires
        0 <= f < MAX_FRAMES,
        0 <= off,
        off + n <= PAGE_SIZE,
        done + n <= src.len(),
        forall|v: usize| #[trigger] user_loc(before, rt, v) == user_loc(o, rt, v),
        forall|v: usize| #[trigger] user_loc(after, rt, v) == user_loc(o, rt, v),
        forall|t: int| 0 <= t < n ==> #[trigger] user_loc(o, rt, (uva + (done + t)) as usize) == Some((f, off + t)),
        forall|j: int| 0 <= j < PAGE_SIZE ==> #[trigger] after.byte(f, j) == if off <= j < off + n { src[done + j - off] } else { before.byte(f, j) },
        forall|g: int, j: int| 0 <= g < MAX_FRAMES && g != f && 0 <= j < PAGE_SIZE ==> #[trigger] after.byte(g, j) == before.byte(g, j),
        copied_upto(o, before, rt, uva, src, done),
    ensures
        copied_upto(o, after, rt, uva, src, done + n),
{
    let total = (done + n) as nat;
    assert forall|k: int| 0 <= k < total implies #[trigger] holds_last(o, after, rt, uva, src, total, k) by {
        if k >= done {
            let t = k - done;
            assert(user_loc(o, rt, (uva + (done + t)) as usize) == Some((f, off + t)));
            assert((uva + (done + t)) as usize == (uva + k) as usize);
            assert forall|j2: int| k < j2 < total implies #[trigger] user_loc(o, rt, (uva + j2) as usize) != user_loc(o, rt, (uva + k) as usize) by {
                assert((uva + (done + (j2 - done))) as usize == (uva + j2) as usize);
                assert(user_loc(o, rt, (uva + (done + (j2 - done))) as usize) == Some((f, off + (j2 - done))));
            }
            assert(last_writer(o, rt, uva, total, k, k));
            assert(after.byte(f, off + t) == src[k]);
        } else {
            assert(holds_last(o, before, rt, uva, src, done, k));
            let j = choose|j: int| #[trigger] last_writer(o, rt, uva, done, k, j) && user_byte(before, rt, (uva + k) as usize) == Some(src[j]);
            let l = user_loc(o, rt, (uva + k) as usize);
            assert(l is Some);
            let (g, x) = l->0;
            lemma_loc_range(o, rt, (uva + k) as usize);
            if g == f && off <= x < off + n {
                let t = x - off;
                let jj = done + t;
                assert(user_loc(o, rt, (uva + (done + t)) as usize) == Some((f, off + t)));
                assert((uva + (done + t)) as usize == (uva + jj) as usize);
                assert forall|j2: int| jj < j2 < total implies #[trigger] user_loc(o, rt, (uva + j2) as usize) != user_loc(o, rt, (uva + k) as usize) by {
                    assert((uva + (done + (j2 - done))) as usize == (uva + j2) as usize);
                    assert(user_loc(o, rt, (uva + (done + (j2 - done))) as usize) == Some((f, off + (j2 - done))));
                }
                assert(last_writer(o, rt, uva, total, k, jj));
                assert(after.byte(f, x) == src[jj]);
            } else {
                assert forall|j2: int| j < j2 < total implies #[trigger] user_loc(o, rt, (uva + j2) as usize) != user_loc(o, rt, (uva + k) as usize) by {
                    if j2 >= done {
                        assert((uva + (done + (j2 - done))) as usize == (uva + j2) as usize);
                        assert(user_loc(o, rt, (uva + (done + (j2 - done))) as usize) == Some((f, off + (j2 - done))));
                    }
                }
                assert(last_writer(o, rt, uva, total, k, j));
                assert(after.byte(g, x) == before.byte(g, x));
            }
        }
    }
}

/// Copy `src` into the process at `uva`.
#[verifier::rlimit(40)]
pub fn copy_out(m: &mut Mem, root: &PageTable, uva: usize, src: &[u8]) -> (r: Result<(), &'static str>)
    requires
        old(m).wf(),
    ensures
        final(m).wf(),
        final(m).alloc == old(m).alloc,
        final(m).kernel_root == old(m).kernel_root,
        old(m).same_entries(final(m)),
        forall|g: int, j: int| 0 <= g < MAX_FRAMES && 0 <= j < PAGE_SIZE && !hits(*old(m), root.pa as int, uva, src@.len(), g, j)
            ==> #[trigger] final(m).byte(g, j) == old(m).byte(g, j),
        match range_error(uva, src@.len()) {
            Some(e) => r == Err::<(), &'static str>(e) && *final(m) == *old(m),
            None => {
                &&& r is Ok == readable(*old(m), root.pa as int, uva, src@.len())
                &&& r is Err ==> r == Err::<(), &'static str>(ERR_UNMAPPED)
                &&& r is Ok && phys_distinct(*old(m), root.pa as int, uva, src@.len())
                    ==> user_bytes(*final(m), root.pa as int, uva, src@.len()) == src@
                &&& r is Ok ==> copied_upto(*old(m), *final(m), root.pa as int, uva, src@, src@.len())
            },
        },
{
    check_range(uva, src.len())?;
    let len = src.len();
    let ghost rt = root.pa as int;
    let mut done: usize = 0;
    while done < len
        invariant
            m.wf(),
            rt == root.pa as int,
            m.alloc == old(m).alloc,
            m.kernel_root == old(m).kernel_root,
            old(m).same_entries(m),
            len == src@.len(),
            range_error(uva, len as nat) is None,
            done <= len,
            forall|g: int, j: int| 0 <= g < MAX_FRAMES && 0 <= j < PAGE_SIZE && !hits(*old(m), rt, uva, len as nat, g, j)
                ==> #[trigger] m.byte(g, j) == old(m).byte(g, j),
            forall|k: int| 0 <= k < done ==> #[trigger] user_loc(*old(m), rt, (uva + k) as usize) is Some,
            copied_upto(*old(m), *m, rt, uva, src@, done as nat),
            phys_distinct(*old(m), rt, uva, len as nat) ==> forall|k: int| 0 <= k < done
                ==> #[trigger] user_byte(*m, rt, (uva + k) as usize) == Some(src@[k]),
        decreases len - done,
    {
        let va = uva + done;
        let ghost before = *m;
        assert forall|v: usize| #[trigger] user_loc(*m, rt, v) == user_loc(*old(m), rt, v) by {
            lemma_same_entries_walk(*old(m), *m, rt, v);
        }
        let (f, off) = match phys_page(m, root, va) {
            Some(x) => x,
            None => {
                assert(user_loc(*old(m), rt, (uva + done) as usize) is None);
                return Err(ERR_UNMAPPED);
            },
        };
        let n = if PAGE_SIZE - off < len - done { PAGE_SIZE - off } else { len - done };
        let mut chunk: Vec<u8> = Vec::new();
        let mut t: usize = 0;
        while t < n
            invariant
                t <= n,
                done + n <= len,
                len == src@.len(),
                chunk@ == src@.subrange(done as int, done + t),
            decreases n - t,
        {
            chunk.push(src[done + t]);
            t = t + 1;
            assert(chunk@ =~= src@.subrange(done as int, done + t));
        }
        m.write_bytes(f, off, chunk.as_slice());
        proof {
            assert forall|v: usize| #[trigger] user_loc(before, rt, v) == user_loc(*old(m), rt, v) by {
                lemma_same_entries_walk(*old(m), before, rt, v);
            }
            assert forall|v: usize| #[trigger] user_loc(*m, rt, v) == user_loc(*old(m), rt, v) by {
                lemma_same_entries_walk(*old(m), *m, rt, v);
            }
            assert forall|t: int| 0 <= t < n implies #[trigger] user_loc(*old(m), rt, (uva + (done + t)) as usize) == Some((f as int, off + t)) by {
                assert((uva + (done + t)) as usize == (va + t) as usize);
                assert(user_loc(before, rt, (va + t) as usize) == Some((f as int, off + t)));
            }
            lemma_copy_chunk(*old(m), before, *m, rt, uva, src@, done as nat, n as nat, f as int, off as int);
        }
        proof {
            assert forall|v: usize| #[trigger] user_loc(*m, rt, v) == user_loc(*old(m), rt, v) by {
                lemma_same_entries_walk(*old(m), *m, rt, v);
            }
            assert forall|g: int, j: int| 0 <= g < MAX_FRAMES && 0 <= j < PAGE_SIZE && !hits(*old(m), rt, uva, len as nat, g, j)
                implies #[trigger] m.byte(g, j) == old(m).byte(g, j) by {
                if g == f as int && off <= j < off + n {
                    let t2 = j - off;
                    assert((uva + (done + t2)) as usize == (va + t2) as usize);
                    assert(user_loc(before, rt, (va + t2) as usize) == Some((f as int, off + t2)));
                    assert(user_loc(*old(m), rt, (uva + (done + t2)) as usize) == Some((g, j)));
                    assert(hits(*old(m), rt, uva, len as nat, g, j));
                }
            }
            assert forall|k: int| 0 <= k < done + n implies #[trigger] user_loc(*old(m), rt, (uva + k) as usize) is Some by {
                if k >= done {
                    assert((uva + k) as usize == (va + (k - done)) as usize);
                    assert(user_loc(before, rt, (va + (k - done)) as usize) is Some);
                }
            }
            if phys_distinct(*old(m), rt, uva, len as nat) {
                assert forall|k: int| 0 <= k < done + n implies #[trigger] user_byte(*m, rt, (uva + k) as usize) == Some(src@[k]) by {
                    if k >= done {
                        assert((uva + k) as usize == (va + (k - done)) as usize);
                        assert(user_loc(before, rt, (va + (k - done)) as usize) == Some((f as int, off + (k - done))));
                    } else {
                        let loc = user_loc(before, rt, (uva + k) as usize)->0;
                        assert(user_byte(before, rt, (uva + k) as usize) == Some(src@[k]));
                        if loc.0 == f as int && off <= loc.1 < off + n {
                            let t2 = loc.1 - off;
                            assert((uva + (done + t2)) as usize == (va + t2) as usize);
                            assert(user_loc(before, rt, (va + t2) as usize) == Some((f as int, off + t2)));
                            assert(user_loc(*old(m), rt, (uva + (done + t2)) as usize) == user_loc(*old(m), rt, (uva + k) as usize));
                            assert(false);
                        }
                    }
                }
            }
        }
        done = done + n;
    }
    proof {
        if phys_distinct(*old(m), rt, uva, len as nat) {
            assert(user_bytes(*m, rt, uva, len as nat) =~= src@);
        }
    }
    Ok(())
}


pub const ERR_TOO_LONG: &'static str = "uaccess: string too long";
pub const ERR_UTF8: &'static str = "uaccess: invalid UTF-8";

/// Scanning for the NUL of a C string at `uva` from byte `i`, with room
/// for `cap - 1` bytes: its length, or why the scan stops.
pub open spec fn scan_cstr(m: Mem, root: int, uva: usize, cap: nat, i: nat) -> Result<nat, &'static str>
    decreases cap - i,
{
    if i + 1 >= cap {
        Err(ERR_TOO_LONG)
    } else {
        match range_error((uva + i) as usize, 1) {
            Some(e) => if uva + i > usize::MAX {
                Err(ERR_OVERFLOW)
            } else {
                Err(e)
            },
            None => match user_byte(m, root, (uva + i) as usize) {
                None => Err(ERR_UNMAPPED),
                Some(b) => if b == 0 {
                    Ok(i)
                } else {
                    scan_cstr(m, root, uva, cap, i + 1)
                },
            },
        }
    }
}

/// Copy a NUL-terminated string of at most `buf.len() - 1` bytes from
/// the process into `buf`; its bytes, which must be valid UTF-8.
pub fn copy_in_cstr(m: &Mem, root: &PageTable, uva: usize, buf: &mut [u8]) -> (r: Result<Vec<u8>, &'static str>)
    requires
        m.wf(),
        old(buf)@.len() >= 1,
    ensures
        final(buf)@.len() == old(buf)@.len(),
        match scan_cstr(*m, root.pa as int, uva, old(buf)@.len(), 0) {
            Err(e) => r == Err::<Vec<u8>, &'static str>(e),
            Ok(n) => {
                let s = user_bytes(*m, root.pa as int, uva, n);
                &&& valid_utf8(s) ==> r is Ok && r->Ok_0@ == s
                &&& !valid_utf8(s) ==> r == Err::<Vec<u8>, &'static str>(ERR_UTF8)
                &&& final(buf)@.subrange(0, n as int) == s
            },
        },
{
    let cap = buf.len();
    let ghost rt = root.pa as int;
    let mut i: usize = 0;
    while i < cap - 1
        invariant
            m.wf(),
            rt == root.pa as int,
            cap == buf@.len(),
            buf@.len() == old(buf)@.len(),
            cap >= 1,
            i <= cap - 1,
            scan_cstr(*m, rt, uva, cap as nat, 0) == scan_cstr(*m, rt, uva, cap as nat, i as nat),
            forall|k: int| 0 <= k < i ==> #[trigger] user_byte(*m, rt, (uva + k) as usize) == Some(buf@[k]),
            uva + i <= usize::MAX,
        decreases cap - 1 - i,
    {
        let mut byte: [u8; 1] = [0u8];
        let at = match uva.checked_add(i) {
            Some(a) => a,
            None => {
                return Err(ERR_OVERFLOW);
            },
        };
        match copy_in(m, root, at, &mut byte) {
            Ok(()) => {},
            Err(e) => {
                return Err(e);
            },
        }
        assert(byte@[0] == user_byte(*m, rt, (uva + i) as usize)->0);
        if byte[0] == 0 {
            let mut out: Vec<u8> = Vec::new();
            let mut k: usize = 0;
            while k < i
                invariant
                    k <= i,
                    i < buf@.len(),
                    out@ == buf@.subrange(0, k as int),
                decreases i - k,
            {
                out.push(buf[k]);
                k = k + 1;
                assert(out@ =~= buf@.subrange(0, k as int));
            }
            assert(out@ =~= user_bytes(*m, rt, uva, i as nat));
            if !crate::text::is_utf8(out.as_slice()) {
                return Err(ERR_UTF8);
            }
            return Ok(out);
        }
        buf[i] = byte[0];
        i = i + 1;
        if i < cap - 1 {
            assert(uva + i <= usize::MAX) by {
                assert(range_error((uva + (i - 1)) as usize, 1) is None);
            }
        }
    }
    Err(ERR_TOO_LONG)
}

} // verus!
