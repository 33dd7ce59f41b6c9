//! Kernel heap: an address-ordered first-fit free list that coalesces
//! neighbouring blocks, grown from the page allocator.
use vstd::prelude::*;
use crate::mem::layout::{PAGE_SIZE, RAM_START};
use crate::mem::page::{page_alloc, PageAllocator, is_first_fit, mark, run_free, MAX_FRAMES};

verus! {

/// Smallest block the heap hands out; every size and alignment is
/// rounded up to it.
pub const MIN_BLOCK: usize = 16;

/// Pages the heap starts with.
pub const INITIAL_HEAP_PAGES: usize = 1024;

/// One free block: start address and size in bytes.
pub type Block = (usize, usize);

/// Whether byte address `x` lies in block `b`.
pub open spec fn in_block(b: Block, x: int) -> bool {
    b.0 <= x < b.0 + b.1
}

/// Whether byte address `x` is free in the list `s`.
pub open spec fn is_free(s: Seq<Block>, x: int) -> bool {
    exists|i: int| 0 <= i < s.len() && #[trigger] in_block(s[i], x)
}

/// The free-list invariant: nonempty blocks inside the address space,
/// in address order, with a gap between any two (neighbours are always
/// merged).
pub open spec fn blocks_wf(s: Seq<Block>) -> bool {
    &&& forall|i: int| 0 <= i < s.len() ==> #[trigger] s[i].1 > 0 && s[i].0 + s[i].1 <= usize::MAX
    &&& forall|i: int, j: int| 0 <= i < j < s.len() ==> #[trigger] s[i].0 + s[i].1 < #[trigger] s[j].0
}

/// `x` rounded up to a multiple of `align`.
pub open spec fn align_up(x: int, align: int) -> int {
    if x % align == 0 {
        x
    } else {
        x + align - x % align
    }
}

/// Whether `size` bytes at an `align`-aligned address fit in block `b`.
pub open spec fn fits(b: Block, size: int, align: int) -> bool {
    align_up(b.0 as int, align) + size <= b.0 + b.1
}

/// `[addr, addr + size)` falls between `s[p - 1]` and `s[p]`.
pub open spec fn splits_at(s: Seq<Block>, p: int, addr: int, size: int) -> bool {
    &&& 0 <= p <= s.len()
    &&& forall|k: int| 0 <= k < p ==> #[trigger] s[k].0 + s[k].1 <= addr
    &&& forall|k: int| p <= k < s.len() ==> #[trigger] s[k].0 >= addr + size
}

/// The free addresses of `t` are those of `s` and `[addr, addr + size)`.
pub open spec fn adds_range(t: Seq<Block>, s: Seq<Block>, addr: int, size: int) -> bool {
    forall|x: int| is_free(t, x) <==> (is_free(s, x) || (addr <= x < addr + size))
}

proof fn lemma_insert_plain(s: Seq<Block>, p: int, addr: usize, size: usize)
    requires
        blocks_wf(s),
        size > 0,
        addr + size <= usize::MAX,
        splits_at(s, p, addr as int, size as int),
        p > 0 ==> s[p - 1].0 + s[p - 1].1 < addr,
        p < s.len() ==> addr + size < s[p].0,
    ensures
        blocks_wf(s.insert(p, (addr, size))),
        adds_range(s.insert(p, (addr, size)), s, addr as int, size as int),
{
    let t = s.insert(p, (addr, size));
    assert forall|i: int, j: int| 0 <= i < j < t.len() implies #[trigger] t[i].0 + t[i].1 < #[trigger] t[j].0 by {
        if j < p {
        } else if j == p {
            assert(s[p - 1].0 + s[p - 1].1 < addr);
            if i < p - 1 {
                assert(s[i].0 + s[i].1 < s[p - 1].0);
            }
        } else if i < p {
            assert(s[j - 1].0 >= addr + size);
        } else if i == p {
            assert(s[j - 1].0 >= addr + size);
        }
    }
    assert forall|x: int| is_free(t, x) <==> (is_free(s, x) || (addr <= x < addr + size)) by {
        if is_free(t, x) {
            let i = choose|i: int| 0 <= i < t.len() && #[trigger] in_block(t[i], x);
            if i < p {
                assert(in_block(s[i], x));
            } else if i > p {
                assert(in_block(s[i - 1], x));
            }
        }
        if is_free(s, x) {
            let i = choose|i: int| 0 <= i < s.len() && #[trigger] in_block(s[i], x);
            if i < p {
                assert(in_block(t[i], x));
            } else {
                assert(in_block(t[i + 1], x));
            }
        }
        if addr <= x < addr + size {
            assert(in_block(t[p], x));
        }
    }
}

proof fn lemma_insert_prev(s: Seq<Block>, p: int, addr: usize, size: usize)
    requires
        blocks_wf(s),
        size > 0,
        addr + size <= usize::MAX,
        splits_at(s, p, addr as int, size as int),
        p > 0,
        s[p - 1].0 + s[p - 1].1 == addr,
        p < s.len() ==> addr + size < s[p].0,
    ensures
        blocks_wf(s.update(p - 1, (s[p - 1].0, (s[p - 1].1 + size) as usize))),
        adds_range(s.update(p - 1, (s[p - 1].0, (s[p - 1].1 + size) as usize)), s, addr as int, size as int),
{
    let t = s.update(p - 1, (s[p - 1].0, (s[p - 1].1 + size) as usize));
    assert forall|i: int, j: int| 0 <= i < j < t.len() implies #[trigger] t[i].0 + t[i].1 < #[trigger] t[j].0 by {
        if i == p - 1 {
            assert(s[j].0 >= addr + size);
        } else if j == p - 1 {
            assert(s[i].0 + s[i].1 < s[j].0);
        }
    }
    assert forall|x: int| is_free(t, x) <==> (is_free(s, x) || (addr <= x < addr + size)) by {
        if is_free(t, x) {
            let i = choose|i: int| 0 <= i < t.len() && #[trigger] in_block(t[i], x);
            if i != p - 1 {
                assert(in_block(s[i], x));
            } else if x < addr {
                assert(in_block(s[p - 1], x));
            }
        }
        if is_free(s, x) {
            let i = choose|i: int| 0 <= i < s.len() && #[trigger] in_block(s[i], x);
            assert(in_block(t[i], x));
        }
        if addr <= x < addr + size {
            assert(in_block(t[p - 1], x));
        }
    }
}

proof fn lemma_insert_next(s: Seq<Block>, p: int, addr: usize, size: usize)
    requires
        blocks_wf(s),
        size > 0,
        addr + size <= usize::MAX,
        splits_at(s, p, addr as int, size as int),
        p < s.len(),
        addr + size == s[p].0,
        p > 0 ==> s[p - 1].0 + s[p - 1].1 < addr,
    ensures
        blocks_wf(s.update(p, (addr, (size + s[p].1) as usize))),
        adds_range(s.update(p, (addr, (size + s[p].1) as usize)), s, addr as int, size as int),
{
    let t = s.update(p, (addr, (size + s[p].1) as usize));
    assert forall|i: int, j: int| 0 <= i < j < t.len() implies #[trigger] t[i].0 + t[i].1 < #[trigger] t[j].0 by {
        if j == p {
            assert(s[p - 1].0 + s[p - 1].1 < addr);
            if i < p - 1 {
                assert(s[i].0 + s[i].1 < s[p - 1].0);
            }
        } else if i == p {
            assert(s[p].0 + s[p].1 < s[j].0);
        }
    }
    assert forall|x: int| is_free(t, x) <==> (is_free(s, x) || (addr <= x < addr + size)) by {
        if is_free(t, x) {
            let i = choose|i: int| 0 <= i < t.len() && #[trigger] in_block(t[i], x);
            if i != p {
                assert(in_block(s[i], x));
            } else if x >= addr + size {
                assert(in_block(s[p], x));
            }
        }
        if is_free(s, x) {
            let i = choose|i: int| 0 <= i < s.len() && #[trigger] in_block(s[i], x);
            assert(in_block(t[i], x));
        }
        if addr <= x < addr + size {
            assert(in_block(t[p], x));
        }
    }
}

proof fn lemma_insert_both(s: Seq<Block>, p: int, addr: usize, size: usize)
    requires
        blocks_wf(s),
        size > 0,
        addr + size <= usize::MAX,
        splits_at(s, p, addr as int, size as int),
        0 < p < s.len(),
        s[p - 1].0 + s[p - 1].1 == addr,
        addr + size == s[p].0,
    ensures
        blocks_wf(s.update(p - 1, (s[p - 1].0, (s[p - 1].1 + size + s[p].1) as usize)).remove(p)),
        adds_range(
            s.update(p - 1, (s[p - 1].0, (s[p - 1].1 + size + s[p].1) as usize)).remove(p),
            s,
            addr as int,
            size as int,
        ),
{
    let t = s.update(p - 1, (s[p - 1].0, (s[p - 1].1 + size + s[p].1) as usize)).remove(p);
    assert(s[p].0 + s[p].1 <= usize::MAX);
    assert forall|i: int, j: int| 0 <= i < j < t.len() implies #[trigger] t[i].0 + t[i].1 < #[trigger] t[j].0 by {
        if i == p - 1 {
            assert(s[p].0 + s[p].1 < s[j + 1].0);
        } else if i < p - 1 && j == p - 1 {
            assert(s[i].0 + s[i].1 < s[p - 1].0);
        } else if i < p - 1 && j >= p {
            assert(s[i].0 + s[i].1 < s[j + 1].0);
        } else if i >= p {
            assert(s[i + 1].0 + s[i + 1].1 < s[j + 1].0);
        }
    }
    assert forall|x: int| is_free(t, x) <==> (is_free(s, x) || (addr <= x < addr + size)) by {
        if is_free(t, x) {
            let i = choose|i: int| 0 <= i < t.len() && #[trigger] in_block(t[i], x);
            if i < p - 1 {
                assert(in_block(s[i], x));
            } else if i == p - 1 {
                if x < addr {
                    assert(in_block(s[p - 1], x));
                } else if x >= addr + size {
                    assert(in_block(s[p], x));
                }
            } else {
                assert(in_block(s[i + 1], x));
            }
        }
        if is_free(s, x) {
            let i = choose|i: int| 0 <= i < s.len() && #[trigger] in_block(s[i], x);
            if i < p - 1 {
                assert(in_block(t[i], x));
            } else if i == p - 1 || i == p {
                assert(in_block(t[p - 1], x));
            } else {
                assert(in_block(t[i - 1], x));
            }
        }
        if addr <= x < addr + size {
            assert(in_block(t[p - 1], x));
        }
    }
}

/// The list after `size` bytes at the aligned start of block `j` are
/// carved out of it.
pub open spec fn carve(s: Seq<Block>, j: int, size: int, align: int) -> Seq<Block> {
    let start = s[j].0 as int;
    let aligned = align_up(start, align);
    let pad = aligned - start;
    let tail = s[j].0 + s[j].1 - aligned - size;
    if pad > 0 && tail > 0 {
        s.update(j, (s[j].0, pad as usize)).insert(j + 1, ((aligned + size) as usize, tail as usize))
    } else if pad > 0 {
        s.update(j, (s[j].0, pad as usize))
    } else if tail > 0 {
        s.update(j, ((aligned + size) as usize, tail as usize))
    } else {
        s.remove(j)
    }
}

proof fn lemma_carve(s: Seq<Block>, j: int, size: usize, align: usize)
    requires
        blocks_wf(s),
        0 <= j < s.len(),
        size > 0,
        align > 0,
        fits(s[j], size as int, align as int),
    ensures
        blocks_wf(carve(s, j, size as int, align as int)),
        align_up(s[j].0 as int, align as int) % (align as int) == 0,
        align_up(s[j].0 as int, align as int) >= s[j].0,
        forall|x: int|
            align_up(s[j].0 as int, align as int) <= x < align_up(s[j].0 as int, align as int) + size ==> is_free(s, x),
        forall|x: int|
            is_free(carve(s, j, size as int, align as int), x) <==> (is_free(s, x) && !(align_up(
                s[j].0 as int,
                align as int,
            ) <= x < align_up(s[j].0 as int, align as int) + size)),
{
    let start = s[j].0 as int;
    let a = align_up(start, align as int);
    assert(a % (align as int) == 0 && a >= start) by (nonlinear_arith)
        requires
            a == (if start % (align as int) == 0 { start } else { start + align - start % (align as int) }),
            align > 0,
            start >= 0,
    {
        if start % (align as int) != 0 {
            assert((start + align - start % (align as int)) % (align as int) == 0);
        }
    }
    let t = carve(s, j, size as int, align as int);
    let pad = a - start;
    let tail = s[j].0 + s[j].1 - a - size;
    assert forall|x: int| a <= x < a + size implies is_free(s, x) by {
        assert(in_block(s[j], x));
    }
    assert forall|i: int, k: int| 0 <= i < k < t.len() implies #[trigger] t[i].0 + t[i].1 < #[trigger] t[k].0 by {
        if pad > 0 && tail > 0 {
            if k < j {
            } else if k == j {
                assert(s[i].0 + s[i].1 < s[j].0);
            } else if k == j + 1 {
                if i < j {
                    assert(s[i].0 + s[i].1 < s[j].0);
                }
            } else {
                if i < j {
                    assert(s[i].0 + s[i].1 < s[k - 1].0);
                } else if i >= j + 2 {
                    assert(s[i - 1].0 + s[i - 1].1 < s[k - 1].0);
                } else {
                    assert(s[j].0 + s[j].1 < s[k - 1].0);
                }
            }
        } else if pad > 0 || tail > 0 {
            if k == j {
                assert(s[i].0 + s[i].1 < s[j].0);
            } else if i == j {
                assert(s[j].0 + s[j].1 < s[k].0);
            }
        } else {
            if i < j && k >= j {
                assert(s[i].0 + s[i].1 < s[k + 1].0);
            } else if i >= j {
                assert(s[i + 1].0 + s[i + 1].1 < s[k + 1].0);
            }
        }
    }
    assert forall|x: int| is_free(t, x) <==> (is_free(s, x) && !(a <= x < a + size)) by {
        if is_free(t, x) {
            let i = choose|i: int| 0 <= i < t.len() && #[trigger] in_block(t[i], x);
            if pad > 0 && tail > 0 {
                if i < j {
                    assert(in_block(s[i], x));
                    if a <= x < a + size {
                        assert(s[i].0 + s[i].1 < s[j].0);
                    }
                } else if i == j || i == j + 1 {
                    assert(in_block(s[j], x));
                } else {
                    assert(in_block(s[i - 1], x));
                    if a <= x < a + size {
                        assert(s[j].0 + s[j].1 < s[i - 1].0);
                    }
                }
            } else if pad > 0 || tail > 0 || i < j {
                if i == j && (pad > 0 || tail > 0) {
                    assert(in_block(s[j], x));
                } else {
                    assert(in_block(s[i], x));
                    if a <= x < a + size {
                        if i < j {
                            assert(s[i].0 + s[i].1 < s[j].0);
                        } else {
                            assert(s[j].0 + s[j].1 < s[i].0);
                        }
                    }
                }
            } else {
                assert(in_block(s[i + 1], x));
                if a <= x < a + size {
                    assert(s[j].0 + s[j].1 < s[i + 1].0);
                }
            }
        }
        if is_free(s, x) && !(a <= x < a + size) {
            let i = choose|i: int| 0 <= i < s.len() && #[trigger] in_block(s[i], x);
            if pad > 0 && tail > 0 {
                if i < j {
                    assert(in_block(t[i], x));
                } else if i == j {
                    if x < a {
                        assert(in_block(t[j], x));
                    } else {
                        assert(in_block(t[j + 1], x));
                    }
                } else {
                    assert(in_block(t[i + 1], x));
                }
            } else if pad > 0 || tail > 0 {
                assert(in_block(t[i], x));
            } else {
                if i < j {
                    assert(in_block(t[i], x));
                } else if i > j {
                    assert(in_block(t[i - 1], x));
                }
            }
        }
    }
}

/// The address-ordered free list.
pub struct FreeList {
    pub blocks: Vec<Block>,
}

impl FreeList {
    pub open spec fn wf(&self) -> bool {
        blocks_wf(self.blocks@)
    }

    /// An empty list.
    pub fn new() -> (r: FreeList)
        ensures
            r.wf(),
            r.blocks@.len() == 0,
    {
        FreeList { blocks: Vec::new() }
    }

    /// Returns `[addr, addr + size)` to the list, merging it with the
    /// block that ends at `addr` and the one that starts where it ends.
    pub fn insert(&mut self, addr: usize, size: usize)
        requires
            old(self).wf(),
            size > 0,
            addr + size <= usize::MAX,
            forall|x: int| addr <= x < addr + size ==> !is_free(old(self).blocks@, x),
        ensures
            final(self).wf(),
            forall|x: int|
                is_free(final(self).blocks@, x) <==> (is_free(old(self).blocks@, x) || (addr <= x < addr
                    + size)),
    {
        let ghost s = self.blocks@;
        let n = self.blocks.len();
        let mut p: usize = 0;
        while p < n && self.blocks[p].0 < addr
            invariant
                n == self.blocks@.len(),
                self.blocks@ == s,
                p <= n,
                forall|k: int| 0 <= k < p ==> #[trigger] s[k].0 < addr,
            decreases n - p,
        {
            p = p + 1;
        }
        // Blocks before p end before addr; blocks from p on start after
        // the inserted range ends.
        assert forall|k: int| 0 <= k < p implies #[trigger] s[k].0 + s[k].1 <= addr by {
            if s[k].0 + s[k].1 > addr {
                assert(in_block(s[k], addr as int));
                assert(is_free(s, addr as int));
            }
        }
        assert forall|k: int| p <= k < n implies #[trigger] s[k].0 >= addr + size by {
            if p <= k && s[k].0 < addr + size {
                if k > p {
                    assert(s[p as int].0 + s[p as int].1 < s[k].0);
                }
                assert(s[p as int].0 >= addr);
                assert(in_block(s[p as int], s[p as int].0 as int));
                assert(is_free(s, s[p as int].0 as int));
            }
        }
        let merge_next = p < n && addr + size == self.blocks[p].0;
        let merge_prev = p > 0 && self.blocks[p - 1].0 + self.blocks[p - 1].1 == addr;
        if merge_prev && merge_next {
            let (pa, ps) = self.blocks[p - 1];
            let (_, ns) = self.blocks[p];
            proof {
                lemma_insert_both(s, p as int, addr, size);
            }
            self.blocks.set(p - 1, (pa, ps + size + ns));
            self.blocks.remove(p);
        } else if merge_prev {
            let (pa, ps) = self.blocks[p - 1];
            proof {
                lemma_insert_prev(s, p as int, addr, size);
            }
            self.blocks.set(p - 1, (pa, ps + size));
        } else if merge_next {
            let (_, ns) = self.blocks[p];
            proof {
                lemma_insert_next(s, p as int, addr, size);
            }
            self.blocks.set(p, (addr, size + ns));
        } else {
            proof {
                lemma_insert_plain(s, p as int, addr, size);
            }
            self.blocks.insert(p, (addr, size));
        }
    }

    /// Carves `size` bytes at the first `align`-aligned address that fits
    /// from the first block that can hold them; what precedes and follows
    /// the carved range in that block stays free. `None` when no block
    /// can.
    pub fn take(&mut self, size: usize, align: usize) -> (r: Option<usize>)
        requires
            old(self).wf(),
            size > 0,
            align > 0,
        ensures
            final(self).wf(),
            match r {
                None => {
                    &&& final(self).blocks@ == old(self).blocks@
                    &&& forall|j: int|
                        0 <= j < old(self).blocks@.len() ==> !#[trigger] fits(old(self).blocks@[j], size as int, align as int)
                },
                Some(a) => {
                    &&& a % align == 0
                    &&& a + size <= usize::MAX
                    &&& exists|j: int|
                        0 <= j < old(self).blocks@.len() && #[trigger] fits(old(self).blocks@[j], size as int, align as int)
                            && a == align_up(old(self).blocks@[j].0 as int, align as int) && forall|k: int|
                            0 <= k < j ==> !#[trigger] fits(old(self).blocks@[k], size as int, align as int)
                    &&& forall|x: int| a <= x < a + size ==> is_free(old(self).blocks@, x)
                    &&& forall|x: int|
                        is_free(final(self).blocks@, x) <==> (is_free(old(self).blocks@, x) && !(a <= x < a + size))
                },
            },
    {
        let ghost s = self.blocks@;
        let n = self.blocks.len();
        let mut j: usize = 0;
        while j < n
            invariant
                n == self.blocks@.len(),
                self.blocks@ == s,
                old(self).blocks@ == s,
                blocks_wf(s),
                size > 0,
                align > 0,
                j <= n,
                forall|k: int| 0 <= k < j ==> !#[trigger] fits(s[k], size as int, align as int),
            decreases n - j,
        {
            let (start, total) = self.blocks[j];
            let rem = start % align;
            let pad: usize = if rem == 0 { 0 } else { align - rem };
            if pad <= total && size <= total - pad {
                let aligned = start + pad;
                let tail = total - pad - size;
                assert(aligned == align_up(start as int, align as int));
                assert(fits(s[j as int], size as int, align as int));
                proof {
                    lemma_carve(s, j as int, size, align);
                }
                if pad > 0 && tail > 0 {
                    self.blocks.set(j, (start, pad));
                    self.blocks.insert(j + 1, (aligned + size, tail));
                } else if pad > 0 {
                    self.blocks.set(j, (start, pad));
                } else if tail > 0 {
                    self.blocks.set(j, (aligned + size, tail));
                } else {
                    self.blocks.remove(j);
                }
                assert(self.blocks@ =~= carve(s, j as int, size as int, align as int));
                assert(forall|x: int| aligned <= x < aligned + size ==> is_free(s, x));
                return Some(aligned);
            }
            assert(!fits(s[j as int], size as int, align as int));
            j = j + 1;
        }
        None
    }
}

/// Freeing the range that `take` carved gives back exactly the free
/// memory there was before, and that range is free to insert.
pub proof fn lemma_take_then_insert(s: Seq<Block>, t: Seq<Block>, u: Seq<Block>, a: int, size: int)
    requires
        forall|x: int| a <= x < a + size ==> is_free(s, x),
        forall|x: int| is_free(t, x) <==> (is_free(s, x) && !(a <= x < a + size)),
        adds_range(u, t, a, size),
    ensures
        forall|x: int| a <= x < a + size ==> !is_free(t, x),
        forall|x: int| is_free(u, x) <==> is_free(s, x),
{
}

/// A free range lies in one block: blocks are separated by gaps.
proof fn lemma_range_in_one_block(s: Seq<Block>, m: int, g: int) -> (i: int)
    requires
        blocks_wf(s),
        g > 0,
        forall|x: int| m <= x < m + g ==> is_free(s, x),
    ensures
        0 <= i < s.len(),
        s[i].0 <= m,
        m + g <= s[i].0 + s[i].1,
{
    assert(is_free(s, m));
    let i = choose|i: int| 0 <= i < s.len() && #[trigger] in_block(s[i], m);
    if s[i].0 + s[i].1 < m + g {
        let y = s[i].0 + s[i].1;
        assert(is_free(s, y));
        let k = choose|k: int| 0 <= k < s.len() && #[trigger] in_block(s[k], y);
        if k < i {
            assert(s[k].0 + s[k].1 < s[i].0);
        } else if k > i {
            assert(s[i].0 + s[i].1 < s[k].0);
        }
        assert(false);
    }
    i
}

/// `size` rounded up to a whole number of 16-byte units, at least one.
pub open spec fn block_bytes(size: int) -> int {
    let r = (size + 15) / 16 * 16;
    if r < MIN_BLOCK { MIN_BLOCK as int } else { r }
}

/// The block size the heap uses for a request of `size` bytes.
pub fn block_size(size: usize) -> (r: usize)
    requires
        size + 15 <= usize::MAX,
    ensures
        r == block_bytes(size as int),
        r >= size,
        r <= size + 16,
{
    let r = (size + 15) / 16 * 16;
    if r < MIN_BLOCK {
        MIN_BLOCK
    } else {
        r
    }
}

/// Pages the heap grows by when no block can serve `size` bytes at
/// `align`: enough for the block and any padding, at least 16.
pub open spec fn grow_count(size: int, align: int) -> int {
    let n = (size + align) / (PAGE_SIZE as int) + 1;
    if n < 16 { 16 } else { n }
}

/// The alignment the heap uses: at least 16.
pub open spec fn heap_align(align: int) -> int {
    if align < MIN_BLOCK { MIN_BLOCK as int } else { align }
}

/// Whether some block of `s` can serve `size` bytes at `align`.
pub open spec fn some_fit(s: Seq<Block>, size: int, align: int) -> bool {
    exists|j: int| 0 <= j < s.len() && #[trigger] fits(s[j], size, align)
}

/// `t` is `s` with the free range `[a, a + size)` taken out.
pub open spec fn carved(t: Seq<Block>, s: Seq<Block>, a: int, size: int) -> bool {
    &&& forall|x: int| a <= x < a + size ==> is_free(s, x)
    &&& forall|x: int| is_free(t, x) <==> (is_free(s, x) && !(a <= x < a + size))
}

/// `t` is `s` grown by `[lo, hi)`, with `[a, a + size)` then taken out.
pub open spec fn grown_carved(t: Seq<Block>, s: Seq<Block>, a: int, size: int, lo: int, hi: int) -> bool {
    forall|x: int| is_free(t, x) <==> ((is_free(s, x) || (lo <= x < hi)) && !(a <= x < a + size))
}

/// The kernel heap: its free list, grown from the page allocator.
pub struct KernelHeap {
    pub free: FreeList,
}

impl KernelHeap {
    pub open spec fn wf(&self) -> bool {
        self.free.wf()
    }

    /// Whether no byte of `[addr, addr + size)` is free.
    pub fn is_disjoint(&self, addr: usize, size: usize) -> (r: bool)
        requires
            self.wf(),
            addr + size <= usize::MAX,
        ensures
            r == (forall|x: int| addr <= x < addr + size ==> !is_free(self.free.blocks@, x)),
    {
        if size == 0 {
            return true;
        }
        let n = self.free.blocks.len();
        let mut i: usize = 0;
        while i < n
            invariant
                size > 0,
                n == self.free.blocks@.len(),
                blocks_wf(self.free.blocks@),
                addr + size <= usize::MAX,
                i <= n,
                forall|k: int| 0 <= k < i ==> #[trigger] self.free.blocks@[k].0 >= addr + size
                    || self.free.blocks@[k].0 + self.free.blocks@[k].1 <= addr,
            decreases n - i,
        {
            let (b, bs) = self.free.blocks[i];
            if b < addr + size && addr < b + bs {
                let ghost x = if b < addr { addr as int } else { b as int };
                assert(in_block(self.free.blocks@[i as int], x));
                assert(is_free(self.free.blocks@, x));
                assert(addr <= x < addr + size);
                return false;
            }
            i = i + 1;
        }
        assert forall|x: int| addr <= x < addr + size implies !is_free(self.free.blocks@, x) by {
            if is_free(self.free.blocks@, x) {
                let k = choose|k: int| 0 <= k < self.free.blocks@.len() && #[trigger] in_block(self.free.blocks@[k], x);
            }
        }
        true
    }

    /// The heap over `INITIAL_HEAP_PAGES` fresh pages; `None` when the
    /// page allocator cannot provide them.
    pub fn init(pages: &mut PageAllocator) -> (r: Option<KernelHeap>)
        requires
            old(pages).wf(),
        ensures
            final(pages).wf(),
            final(pages).first_frame == old(pages).first_frame,
            r is None ==> {
                &&& final(pages)@ == old(pages)@
                &&& final(pages).free_frames == old(pages).free_frames
                &&& (old(pages).free_frames < INITIAL_HEAP_PAGES || forall|t: int|
                    old(pages).first_frame <= t ==> !run_free(old(pages)@, t, INITIAL_HEAP_PAGES as int))
            },
            r matches Some(h) ==> {
                &&& h.wf()
                &&& final(pages).free_frames == old(pages).free_frames - INITIAL_HEAP_PAGES
                &&& exists|f: int| {
                    &&& #[trigger] is_first_fit(old(pages)@, old(pages).first_frame as int, INITIAL_HEAP_PAGES as int, f)
                    &&& final(pages)@ == mark(old(pages)@, f, INITIAL_HEAP_PAGES as int, true)
                    &&& forall|x: int| #[trigger] is_free(h.free.blocks@, x) <==> RAM_START + f * PAGE_SIZE <= x < RAM_START
                        + (f + INITIAL_HEAP_PAGES) * PAGE_SIZE
                }
            },
    {
        let m = match page_alloc(pages, INITIAL_HEAP_PAGES) {
            Some(m) => m,
            None => {
                return None;
            },
        };
        let ghost f = (m - RAM_START) / (PAGE_SIZE as int);
        proof {
            assert(f + INITIAL_HEAP_PAGES <= MAX_FRAMES);
            assert(m == RAM_START + f * PAGE_SIZE) by (nonlinear_arith)
                requires
                    f == (m - RAM_START) / 4096,
                    (m - RAM_START) % 4096 == 0,
            ;
            assert(m + INITIAL_HEAP_PAGES * PAGE_SIZE <= RAM_START + MAX_FRAMES * PAGE_SIZE) by (nonlinear_arith)
                requires
                    m == RAM_START + f * 4096,
                    f + 1024 <= 32768,
            ;
        }
        let mut h = KernelHeap { free: FreeList::new() };
        if m > usize::MAX - INITIAL_HEAP_PAGES * PAGE_SIZE {
            return None;
        }
        h.free.insert(m, INITIAL_HEAP_PAGES * PAGE_SIZE);
        proof {
            assert(m + INITIAL_HEAP_PAGES * PAGE_SIZE == RAM_START + (f + INITIAL_HEAP_PAGES) * PAGE_SIZE);
            assert(is_first_fit(old(pages)@, old(pages).first_frame as int, INITIAL_HEAP_PAGES as int, f));
        }
        Some(h)
    }

    /// Allocates `size` bytes aligned to `align` (both rounded up to 16):
    /// first fit from the free list; when nothing fits, the heap grows by
    /// `grow_count` pages and tries again.
    #[verifier::spinoff_prover]
    #[verifier::rlimit(40)]
    pub fn allocate(&mut self, pages: &mut PageAllocator, size: usize, align: usize) -> (r: Option<usize>)
        requires
            old(self).wf(),
            old(pages).wf(),
            size + align + 0x1_0100 <= usize::MAX,
        ensures
            final(self).wf(),
            final(pages).wf(),
            r is None ==> !some_fit(old(self).free.blocks@, block_bytes(size as int), heap_align(align as int)),
            r matches Some(a) ==> (a as int) % heap_align(align as int) == 0 && a + block_bytes(size as int)
                <= usize::MAX,
            r matches Some(a) ==> (some_fit(old(self).free.blocks@, block_bytes(size as int), heap_align(align as int))
                ==> final(pages)@ == old(pages)@ && carved(
                final(self).free.blocks@,
                old(self).free.blocks@,
                a as int,
                block_bytes(size as int),
            )),
            r matches Some(a) ==> (!some_fit(old(self).free.blocks@, block_bytes(size as int), heap_align(align as int))
                ==> exists|f: int|
                #[trigger] is_first_fit(
                    old(pages)@,
                    old(pages).first_frame as int,
                    grow_count(block_bytes(size as int), heap_align(align as int)),
                    f,
                ) && final(pages)@ == mark(
                    old(pages)@,
                    f,
                    grow_count(block_bytes(size as int), heap_align(align as int)),
                    true,
                ) && grown_carved(
                    final(self).free.blocks@,
                    old(self).free.blocks@,
                    a as int,
                    block_bytes(size as int),
                    RAM_START + f * PAGE_SIZE,
                    RAM_START + (f + grow_count(block_bytes(size as int), heap_align(align as int))) * PAGE_SIZE,
                )),
    {
        let bs = block_size(size);
        let al = if align < MIN_BLOCK { MIN_BLOCK } else { align };
        let ghost s = self.free.blocks@;
        match self.free.take(bs, al) {
            Some(a) => {
                assert(some_fit(s, bs as int, al as int));
                assert(carved(self.free.blocks@, s, a as int, bs as int));
                return Some(a);
            },
            None => {},
        }
        assert(!some_fit(s, bs as int, al as int));
        let n = (bs + al) / PAGE_SIZE + 1;
        let g = if n < 16 { 16 } else { n };
        let m = match page_alloc(pages, g) {
            Some(m) => m,
            None => {
                return None;
            },
        };
        let grown = g * PAGE_SIZE;
        if m > usize::MAX - grown || !self.is_disjoint(m, grown) {
            return None;
        }
        self.free.insert(m, grown);
        let ghost t = self.free.blocks@;
        let ghost f = (m - RAM_START) / (PAGE_SIZE as int);
        assert(m == RAM_START + f * PAGE_SIZE && m + grown == RAM_START + (f + g) * PAGE_SIZE) by (nonlinear_arith)
            requires
                m >= RAM_START,
                (m - RAM_START) % 4096 == 0,
                f == (m - RAM_START) / 4096,
                grown == g * 4096,
        ;
        proof {
            let i = lemma_range_in_one_block(t, m as int, grown as int);
            let st = t[i].0 as int;
            assert(align_up(st, al as int) < st + al) by (nonlinear_arith)
                requires
                    al > 0,
                    st >= 0,
            {
                if st % (al as int) != 0 {
                    assert(st % (al as int) > 0);
                }
            }
            assert(grown > bs + al) by (nonlinear_arith)
                requires
                    grown == g * 4096,
                    g >= (bs + al) / 4096 + 1,
            ;
            assert(fits(t[i], bs as int, al as int));
        }
        let r = self.free.take(bs, al);
        proof {
            if let Some(a) = r {
                assert(grown_carved(self.free.blocks@, s, a as int, bs as int, m as int, (m + grown) as int));
                assert(is_first_fit(old(pages)@, old(pages).first_frame as int, g as int, f));
                assert(g == grow_count(bs as int, al as int));
                assert(al == heap_align(align as int));
                assert(bs == block_bytes(size as int));
                assert(pages@ == mark(old(pages)@, f, g as int, true));
                assert(grown_carved(
                    self.free.blocks@,
                    s,
                    a as int,
                    bs as int,
                    RAM_START + f * PAGE_SIZE,
                    RAM_START + (f + g) * PAGE_SIZE,
                ));
            }
        }
        r
    }

    /// Returns a block of `size` bytes at `addr` that `alloc` handed out.
    pub fn dealloc(&mut self, addr: usize, size: usize)
        requires
            old(self).wf(),
            size + 15 <= usize::MAX,
            addr + block_bytes(size as int) <= usize::MAX,
            forall|x: int| addr <= x < addr + block_bytes(size as int) ==> !is_free(old(self).free.blocks@, x),
        ensures
            final(self).wf(),
            adds_range(final(self).free.blocks@, old(self).free.blocks@, addr as int, block_bytes(size as int)),
    {
        let bs = block_size(size);
        self.free.insert(addr, bs);
    }
}

} // verus!
