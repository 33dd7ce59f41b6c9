//! Page-frame allocator: a bitmap over all 4 KiB frames of RAM, with
//! first-fit allocation of contiguous runs.

use vstd::prelude::*;
use super::layout::{PAGE_SIZE, RAM_SIZE, RAM_START, RAM_END, page_up, spec_page_up};

verus! {

/// One bit per 4 KiB frame of RAM (128 MiB / 4 KiB = 32768 frames).
pub const MAX_FRAMES: usize = 32768;
pub const BITMAP_WORDS: usize = 512;

/// Whether bit `b` of `w` is set.
pub open spec fn bit_set(w: u64, b: u64) -> bool {
    w & (1u64 << b) != 0
}

proof fn lemma_bit_or(w: u64, b: u64, c: u64)
    requires
        b < 64,
        c < 64,
    ensures
        bit_set(w | (1u64 << b), c) == (c == b || bit_set(w, c)),
{
    assert(b < 64 && c < 64 ==> ((w | (1u64 << b)) & (1u64 << c) != 0) == (c == b || w & (1u64 << c) != 0))
        by (bit_vector);
}

proof fn lemma_bit_clear(w: u64, b: u64, c: u64)
    requires
        b < 64,
        c < 64,
    ensures
        bit_set(w & !(1u64 << b), c) == (c != b && bit_set(w, c)),
{
    assert(b < 64 && c < 64 ==> ((w & !(1u64 << b)) & (1u64 << c) != 0) == (c != b && w & (1u64 << c) != 0))
        by (bit_vector);
}

proof fn lemma_bit_all(c: u64)
    requires
        c < 64,
    ensures
        bit_set(0xffff_ffff_ffff_ffffu64, c),
{
    assert(c < 64 ==> 0xffff_ffff_ffff_ffffu64 & (1u64 << c) != 0) by (bit_vector);
}

/// Number of free (false) entries.
pub open spec fn count_free(s: Seq<bool>) -> nat
    decreases s.len(),
{
    if s.len() == 0 {
        0
    } else {
        count_free(s.drop_last()) + if s.last() { 0nat } else { 1nat }
    }
}

proof fn lemma_count_update(s: Seq<bool>, i: int, v: bool)
    requires
        0 <= i < s.len(),
    ensures
        count_free(s.update(i, v)) + (if s[i] { 0nat } else { 1nat }) == count_free(s) + (if v { 0nat } else { 1nat }),
    decreases s.len(),
{
    let t = s.update(i, v);
    if i < s.len() - 1 {
        assert(t.drop_last() =~= s.drop_last().update(i, v));
        lemma_count_update(s.drop_last(), i, v);
    } else {
        assert(t.drop_last() =~= s.drop_last());
    }
}

proof fn lemma_count_all_used(s: Seq<bool>)
    requires
        count_free(s) == 0,
    ensures
        forall|i: int| 0 <= i < s.len() ==> s[i],
    decreases s.len(),
{
    if s.len() > 0 {
        lemma_count_all_used(s.drop_last());
        assert forall|i: int| 0 <= i < s.len() implies s[i] by {
            if i < s.len() - 1 {
                assert(s.drop_last()[i] == s[i]);
            }
        }
    }
}

proof fn lemma_count_bounded(s: Seq<bool>)
    ensures
        count_free(s) <= s.len(),
    decreases s.len(),
{
    if s.len() > 0 {
        lemma_count_bounded(s.drop_last());
    }
}

/// Frames `[s, s + n)` are in range and all free.
pub open spec fn run_free(used: Seq<bool>, s: int, n: int) -> bool {
    &&& 0 <= s
    &&& s + n <= used.len()
    &&& forall|k: int| s <= k < s + n ==> !used[k]
}

/// `s` is where first-fit places a run of `n` frames at or above `first`.
pub open spec fn is_first_fit(used: Seq<bool>, first: int, n: int, s: int) -> bool {
    &&& first <= s
    &&& run_free(used, s, n)
    &&& forall|t: int| first <= t < s ==> !run_free(used, t, n)
}

pub struct PageAllocator {
    /// Bit set = frame in use (or reserved/kernel image).
    pub bitmap: Vec<u64>,
    /// Frame index of the first allocatable page.
    pub first_frame: usize,
    pub free_frames: usize,
}

impl View for PageAllocator {
    /// `used[f]`: whether frame `f` is in use.
    type V = Seq<bool>;

    open spec fn view(&self) -> Seq<bool> {
        Seq::new(MAX_FRAMES as nat, |f: int| bit_set(self.bitmap@[f / 64], (f % 64) as u64))
    }
}

impl PageAllocator {
    /// Invariant: frames below `first_frame` stay reserved, and
    /// `free_frames` counts the free frames exactly.
    pub open spec fn wf(&self) -> bool {
        &&& self.bitmap@.len() == BITMAP_WORDS
        &&& self.first_frame <= MAX_FRAMES
        &&& forall|f: int| 0 <= f < self.first_frame ==> #[trigger] self@[f]
        &&& self.free_frames == count_free(self@)
    }

    /// Every frame reserved; nothing allocatable until `init`.
    pub fn new() -> (a: PageAllocator)
        ensures
            a.wf(),
            a.free_frames == 0,
            a.first_frame == 0,
            forall|f: int| 0 <= f < MAX_FRAMES ==> #[trigger] a@[f],
    {
        let mut bitmap: Vec<u64> = Vec::new();
        let mut i: usize = 0;
        while i < BITMAP_WORDS
            invariant
                i <= BITMAP_WORDS,
                bitmap@.len() == i,
                forall|j: int| 0 <= j < i ==> bitmap@[j] == 0xffff_ffff_ffff_ffffu64,
            decreases BITMAP_WORDS - i,
        {
            bitmap.push(0xffff_ffff_ffff_ffffu64);
            i = i + 1;
        }
        let a = PageAllocator { bitmap, first_frame: 0, free_frames: 0 };
        assert forall|f: int| 0 <= f < MAX_FRAMES implies #[trigger] a@[f] by {
            lemma_bit_all((f % 64) as u64);
        }
        assert(count_free(a@) == 0) by {
            lemma_count_zero(a@);
        }
        a
    }

    /// Physical address of frame `frame`.
    pub fn frame_to_addr(&self, frame: usize) -> (r: usize)
        requires
            frame <= MAX_FRAMES,
        ensures
            r == RAM_START + frame * PAGE_SIZE,
    {
        RAM_START + frame * PAGE_SIZE
    }

    /// Frame index of physical address `addr`.
    pub fn addr_to_frame(&self, addr: usize) -> (r: usize)
        requires
            addr >= RAM_START,
        ensures
            r == (addr - RAM_START) / (PAGE_SIZE as int),
    {
        (addr - RAM_START) / PAGE_SIZE
    }

    pub fn is_used(&self, frame: usize) -> (r: bool)
        requires
            self.wf(),
            frame < MAX_FRAMES,
        ensures
            r == self@[frame as int],
    {
        self.bitmap[frame / 64] & (1u64 << ((frame % 64) as u64)) != 0
    }

    pub fn set_used(&mut self, frame: usize)
        requires
            old(self).bitmap@.len() == BITMAP_WORDS,
            frame < MAX_FRAMES,
        ensures
            final(self).bitmap@.len() == BITMAP_WORDS,
            final(self)@ == old(self)@.update(frame as int, true),
            final(self).first_frame == old(self).first_frame,
            final(self).free_frames == old(self).free_frames,
    {
        let w = frame / 64;
        let b = (frame % 64) as u64;
        let v = self.bitmap[w] | (1u64 << b);
        self.bitmap.set(w, v);
        proof {
            assert forall|f: int| 0 <= f < MAX_FRAMES implies #[trigger] self@[f] == old(self)@.update(frame as int, true)[f] by {
                if f / 64 == w as int {
                    lemma_bit_or(old(self).bitmap@[w as int], b, (f % 64) as u64);
                }
            }
            assert(self@ =~= old(self)@.update(frame as int, true));
        }
    }

    pub fn set_free(&mut self, frame: usize)
        requires
            old(self).bitmap@.len() == BITMAP_WORDS,
            frame < MAX_FRAMES,
        ensures
            final(self).bitmap@.len() == BITMAP_WORDS,
            final(self)@ == old(self)@.update(frame as int, false),
            final(self).first_frame == old(self).first_frame,
            final(self).free_frames == old(self).free_frames,
    {
        let w = frame / 64;
        let b = (frame % 64) as u64;
        let v = self.bitmap[w] & !(1u64 << b);
        self.bitmap.set(w, v);
        proof {
            assert forall|f: int| 0 <= f < MAX_FRAMES implies #[trigger] self@[f] == old(self)@.update(frame as int, false)[f] by {
                if f / 64 == w as int {
                    lemma_bit_clear(old(self).bitmap@[w as int], b, (f % 64) as u64);
                }
            }
            assert(self@ =~= old(self)@.update(frame as int, false));
        }
    }
}

proof fn lemma_count_zero(s: Seq<bool>)
    requires
        forall|i: int| 0 <= i < s.len() ==> s[i],
    ensures
        count_free(s) == 0,
    decreases s.len(),
{
    if s.len() > 0 {
        lemma_count_zero(s.drop_last());
    }
}


/// An allocator that counts a free frame has one at or above its first
/// allocatable frame.
pub proof fn lemma_free_frame_exists(a: PageAllocator)
    requires
        a.wf(),
        a.free_frames > 0,
    ensures
        exists|t: int| a.first_frame <= t && #[trigger] run_free(a@, t, 1),
{
    if forall|i: int| 0 <= i < a@.len() ==> a@[i] {
        lemma_count_zero(a@);
    } else {
        let i = choose|i: int| 0 <= i < a@.len() && !a@[i];
        assert(run_free(a@, i, 1));
    }
}

/// `used` with frames `[s, s + n)` set to `v`.
pub open spec fn mark(used: Seq<bool>, s: int, n: int, v: bool) -> Seq<bool> {
    Seq::new(used.len(), |k: int| if s <= k < s + n { v } else { used[k] })
}

impl PageAllocator {
    /// Mark the free run `[start, start + n)` used.
    fn mark_used_range(&mut self, start: usize, n: usize)
        requires
            old(self).wf(),
            run_free(old(self)@, start as int, n as int),
        ensures
            final(self).wf(),
            final(self).first_frame == old(self).first_frame,
            final(self)@ == mark(old(self)@, start as int, n as int, true),
            final(self).free_frames == old(self).free_frames - n,
    {
        let mut k: usize = 0;
        while k < n
            invariant
                self.wf(),
                self.first_frame == old(self).first_frame,
                run_free(old(self)@, start as int, n as int),
                k <= n,
                self@ == mark(old(self)@, start as int, k as int, true),
                self.free_frames == old(self).free_frames - k,
            decreases n - k,
        {
            let f = start + k;
            proof {
                lemma_count_update(self@, f as int, true);
            }
            self.set_used(f);
            self.free_frames = self.free_frames - 1;
            k = k + 1;
            assert(self@ =~= mark(old(self)@, start as int, k as int, true));
        }
    }

    /// First-fit allocation of `n` contiguous free frames at or above
    /// `first_frame`; returns the physical address of the first one.
    pub fn allocate(&mut self, n: usize) -> (r: Option<usize>)
        requires
            old(self).wf(),
        ensures
            final(self).wf(),
            final(self).first_frame == old(self).first_frame,
            match r {
                None => {
                    &&& final(self)@ == old(self)@
                    &&& final(self).free_frames == old(self).free_frames
                    &&& (n == 0 || old(self).free_frames < n || forall|t: int|
                        old(self).first_frame <= t ==> !run_free(old(self)@, t, n as int))
                },
                Some(addr) => {
                    let s = (addr - RAM_START) / (PAGE_SIZE as int);
                    &&& n > 0
                    &&& addr >= RAM_START
                    &&& (addr - RAM_START) % (PAGE_SIZE as int) == 0
                    &&& is_first_fit(old(self)@, old(self).first_frame as int, n as int, s)
                    &&& final(self)@ == mark(old(self)@, s, n as int, true)
                    &&& final(self).free_frames == old(self).free_frames - n
                },
            },
    {
        if n == 0 || self.free_frames < n {
            return None;
        }
        let first = self.first_frame;
        let mut run: usize = 0;
        let mut start: usize = first;
        let mut frame: usize = first;
        while frame < MAX_FRAMES
            invariant
                self.wf(),
                *self == *old(self),
                first == self.first_frame,
                0 < n,
                first <= start <= frame <= MAX_FRAMES,
                run == frame - start,
                run < n,
                forall|k: int| start <= k < frame ==> !self@[k],
                start == first || self@[start - 1],
                forall|t: int| first <= t && t + n <= frame ==> !run_free(self@, t, n as int),
            decreases MAX_FRAMES - frame,
        {
            if self.is_used(frame) {
                assert forall|t: int| first <= t && t + n <= frame + 1 implies !run_free(self@, t, n as int) by {
                    if t + n == frame + 1 {
                        assert(t <= frame < t + n);
                    }
                }
                run = 0;
                start = frame + 1;
            } else {
                run = run + 1;
                if run == n {
                    let s = frame + 1 - n;
                    assert(s == start);
                    assert forall|t: int| first <= t < s implies !run_free(self@, t, n as int) by {
                        if t + n > frame {
                            assert(start > first);
                            assert(t <= start - 1 < t + n);
                        }
                    }
                    self.mark_used_range(s, n);
                    let addr = self.frame_to_addr(s);
                    assert((addr - RAM_START) / (PAGE_SIZE as int) == s) by (nonlinear_arith)
                        requires addr == RAM_START + s * PAGE_SIZE;
                    assert((addr - RAM_START) % (PAGE_SIZE as int) == 0) by (nonlinear_arith)
                        requires addr == RAM_START + s * PAGE_SIZE;
                    return Some(addr);
                }
                assert forall|t: int| first <= t && t + n <= frame + 1 implies !run_free(self@, t, n as int) by {
                    if t + n == frame + 1 {
                        assert(start > first);
                        assert(t <= start - 1 < t + n);
                    }
                }
            }
            frame = frame + 1;
        }
        None
    }

    /// Return the run of `n` frames starting at physical address `addr`.
    /// The frames must have come from `alloc` (used, at or above
    /// `first_frame`) and not be freed twice.
    pub fn free(&mut self, addr: usize, n: usize)
        requires
            old(self).wf(),
            addr >= RAM_START,
            old(self).first_frame <= (addr - RAM_START) / (PAGE_SIZE as int),
            (addr - RAM_START) / (PAGE_SIZE as int) + n <= MAX_FRAMES,
            forall|k: int|
                (addr - RAM_START) / (PAGE_SIZE as int) <= k < (addr - RAM_START) / (PAGE_SIZE as int) + n
                    ==> #[trigger] old(self)@[k],
        ensures
            final(self).wf(),
            final(self).first_frame == old(self).first_frame,
            final(self)@ == mark(old(self)@, (addr - RAM_START) / (PAGE_SIZE as int), n as int, false),
            final(self).free_frames == old(self).free_frames + n,
    {
        let start = self.addr_to_frame(addr);
        let mut k: usize = 0;
        while k < n
            invariant
                self.wf(),
                self.first_frame == old(self).first_frame,
                old(self).first_frame <= start,
                start + n <= MAX_FRAMES,
                forall|j: int| start <= j < start + n ==> #[trigger] old(self)@[j],
                k <= n,
                self@ == mark(old(self)@, start as int, k as int, false),
                self.free_frames == old(self).free_frames + k,
            decreases n - k,
        {
            let f = start + k;
            proof {
                lemma_count_update(self@, f as int, false);
                lemma_count_bounded(self@.update(f as int, false));
            }
            self.set_free(f);
            self.free_frames = self.free_frames + 1;
            k = k + 1;
            assert(self@ =~= mark(old(self)@, start as int, k as int, false));
        }
    }
}

/// Mark every frame from the page above `heap_start` to the end of RAM
/// free. Everything below (kernel image, boot stacks) stays reserved.
/// Call once, on the allocator `PageAllocator::new` returns.
pub fn init(a: &mut PageAllocator, heap_start: usize)
    requires
        old(a).wf(),
        old(a).free_frames == 0,
        RAM_START <= heap_start,
        spec_page_up(heap_start as int) <= RAM_END,
    ensures
        final(a).wf(),
        final(a).first_frame == (spec_page_up(heap_start as int) - RAM_START) / (PAGE_SIZE as int),
        forall|f: int| 0 <= f < MAX_FRAMES ==> #[trigger] final(a)@[f] == (f < final(a).first_frame),
        final(a).free_frames == MAX_FRAMES - final(a).first_frame,
{
    proof {
        lemma_count_all_used(a@);
    }
    let first = a.addr_to_frame(page_up(heap_start));
    assert(first <= MAX_FRAMES);
    let mut frame = first;
    while frame < MAX_FRAMES
        invariant
            a.bitmap@.len() == BITMAP_WORDS,
            first <= frame <= MAX_FRAMES,
            first <= MAX_FRAMES,
            a.free_frames == 0,
            forall|f: int| 0 <= f < MAX_FRAMES ==> #[trigger] a@[f] == (f < first || f >= frame),
        decreases MAX_FRAMES - frame,
    {
        a.set_free(frame);
        frame = frame + 1;
    }
    assert(frame == MAX_FRAMES);
    assert(forall|f: int| 0 <= f < MAX_FRAMES ==> #[trigger] a@[f] == (f < first));
    let ghost v = a@;
    a.first_frame = first;
    assert(a@ =~= v);
    proof {
        assert forall|f: int| 0 <= f < a@.len() implies #[trigger] a@[f] == (f < first) by {
            assert(f < MAX_FRAMES);
        }
        lemma_count_prefix_used(a@, first as int);
    }
    a.free_frames = MAX_FRAMES - first;
}

/// `count_free` of a sequence whose first `p` entries are used and the
/// rest free.
proof fn lemma_count_prefix_used(s: Seq<bool>, p: int)
    requires
        0 <= p <= s.len(),
        forall|f: int| 0 <= f < s.len() ==> #[trigger] s[f] == (f < p),
    ensures
        count_free(s) == s.len() - p,
    decreases s.len(),
{
    if s.len() > 0 {
        if p == s.len() {
            lemma_count_zero(s);
        } else {
            lemma_count_prefix_used(s.drop_last(), p);
        }
    }
}

/// Allocate `n` contiguous 4 KiB frames; `None` when physical memory
/// has no such run. Returns the physical address of the first frame.
pub fn page_alloc(a: &mut PageAllocator, n: usize) -> (r: Option<usize>)
    requires
        old(a).wf(),
    ensures
        final(a).wf(),
        final(a).first_frame == old(a).first_frame,
        match r {
            None => final(a)@ == old(a)@ && final(a).free_frames == old(a).free_frames && (n == 0
                || old(a).free_frames < n || forall|t: int|
                old(a).first_frame <= t ==> !run_free(old(a)@, t, n as int)),
            Some(addr) => {
                let s = (addr - RAM_START) / (PAGE_SIZE as int);
                &&& n > 0
                &&& addr >= RAM_START
                &&& (addr - RAM_START) % (PAGE_SIZE as int) == 0
                &&& is_first_fit(old(a)@, old(a).first_frame as int, n as int, s)
                &&& final(a)@ == mark(old(a)@, s, n as int, true)
                &&& final(a).free_frames == old(a).free_frames - n
            },
        },
{
    a.allocate(n)
}

/// Return `n` frames starting at `addr`, which must come from
/// `page_alloc(n)` and not be freed twice.
pub fn page_free(a: &mut PageAllocator, addr: usize, n: usize)
    requires
        old(a).wf(),
        addr >= RAM_START,
        old(a).first_frame <= (addr - RAM_START) / (PAGE_SIZE as int),
        (addr - RAM_START) / (PAGE_SIZE as int) + n <= MAX_FRAMES,
        forall|k: int|
            (addr - RAM_START) / (PAGE_SIZE as int) <= k < (addr - RAM_START) / (PAGE_SIZE as int) + n
                ==> #[trigger] old(a)@[k],
    ensures
        final(a).wf(),
        final(a).first_frame == old(a).first_frame,
        final(a)@ == mark(old(a)@, (addr - RAM_START) / (PAGE_SIZE as int), n as int, false),
        final(a).free_frames == old(a).free_frames + n,
{
    a.free(addr, n)
}

/// Number of currently free 4 KiB frames.
pub fn free_frames(a: &PageAllocator) -> (r: usize)
    requires
        a.wf(),
    ensures
        r == count_free(a@),
        r <= MAX_FRAMES,
{
    proof {
        lemma_count_bounded(a@);
    }
    a.free_frames
}

/// Law: freeing what an allocation returned restores the allocator's
/// frame map and free count.
pub proof fn lemma_alloc_free_roundtrip(used: Seq<bool>, s: int, n: int)
    requires
        n >= 0,
        run_free(used, s, n),
    ensures
        mark(mark(used, s, n, true), s, n, false) == used,
        count_free(mark(used, s, n, true)) + n == count_free(used),
{
    assert(mark(mark(used, s, n, true), s, n, false) =~= used);
    lemma_count_mark(used, s, n);
}

proof fn lemma_count_mark(used: Seq<bool>, s: int, n: int)
    requires
        n >= 0,
        run_free(used, s, n),
    ensures
        count_free(mark(used, s, n, true)) + n == count_free(used),
    decreases n,
{
    if n > 0 {
        lemma_count_mark(used, s, n - 1);
        let m = mark(used, s, n - 1, true);
        assert(m[s + n - 1] == used[s + n - 1]);
        assert(!used[s + n - 1]);
        lemma_count_update(m, s + n - 1, true);
        assert(count_free(m.update(s + n - 1, true)) + 1 == count_free(m));
        assert(m.update(s + n - 1, true) =~= mark(used, s, n, true));
        assert(count_free(mark(used, s, n, true)) + 1 == count_free(m));
        assert(count_free(m) + (n - 1) == count_free(used));
    } else {
        assert(mark(used, s, n, true) =~= used);
    }
}

} // verus!
