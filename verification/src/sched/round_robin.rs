//! Round-robin pick policy: scan the process table starting after the
//! last-run slot; the first Ready process wins.

use vstd::prelude::*;
use super::process::{ProcTable, ProcState, Process, MAX_PROCS, is_ready, replace_slot};

verus! {

/// Position of slot `s` in the scan that starts after `start`: 1 for
/// the slot right after it, MAX_PROCS for `start` itself.
pub open spec fn rr_dist(start: int, s: int) -> int {
    (s - start + MAX_PROCS - 1) % (MAX_PROCS as int) + 1
}

proof fn lemma_rr_dist(start: int, s: int)
    requires
        0 <= start < MAX_PROCS,
        0 <= s < MAX_PROCS,
    ensures
        1 <= rr_dist(start, s) <= MAX_PROCS,
        (start + rr_dist(start, s)) % (MAX_PROCS as int) == s,
{
}

/// Choose the next Ready slot and mark it Running; `(slot, root_pa)`,
/// or `None` when everyone is blocked.
pub fn pick_next(t: &mut ProcTable) -> (r: Option<(usize, usize)>)
    requires
        old(t).wf(),
    ensures
        final(t).wf(),
        final(t).next_pid == old(t).next_pid,
        final(t).frames == old(t).frames,
        final(t).current == old(t).current,
        match r {
            None => {
                &&& forall|s: int| 0 <= s < MAX_PROCS ==> !#[trigger] is_ready(old(t).slots@, s)
                &&& final(t).slots@ == old(t).slots@
                &&& final(t).last_run == old(t).last_run
            },
            Some((slot, root_pa)) => {
                let p = old(t).slots@[slot as int]->0;
                &&& slot < MAX_PROCS
                &&& is_ready(old(t).slots@, slot as int)
                &&& forall|j: int| 1 <= j < rr_dist(old(t).last_run as int, slot as int)
                    ==> !#[trigger] is_ready(old(t).slots@, (old(t).last_run + j) % (MAX_PROCS as int))
                &&& root_pa == p.root_pa
                &&& final(t).slots@ == old(t).slots@.update(slot as int, Some(Process { state: ProcState::Running, ..p }))
                &&& final(t).last_run == slot
            },
        },
{
    let start = t.last_run;
    let mut i: usize = 1;
    while i <= MAX_PROCS
        invariant
            t.wf(),
            *t == *old(t),
            start == t.last_run,
            1 <= i <= MAX_PROCS + 1,
            forall|j: int| 1 <= j < i ==> !#[trigger] is_ready(t.slots@, (start + j) % (MAX_PROCS as int)),
        decreases MAX_PROCS + 1 - i,
    {
        let slot = (start + i) % MAX_PROCS;
        let ready = match &t.slots[slot] {
            Some(p) => p.state == ProcState::Ready,
            None => false,
        };
        if ready {
            let taken = replace_slot(&mut t.slots, slot, None);
            let mut p = taken.unwrap();
            let root_pa = p.root_pa;
            p.state = ProcState::Running;
            replace_slot(&mut t.slots, slot, Some(p));
            t.last_run = slot;
            proof {
                lemma_rr_dist(start as int, slot as int);
                assert(rr_dist(start as int, slot as int) == i) by {
                    assert((start + i) % (MAX_PROCS as int) == slot);
                }
                assert(t.slots@ =~= old(t).slots@.update(slot as int, Some(Process { state: ProcState::Running, ..old(t).slots@[slot as int]->0 })));
            }
            return Some((slot, root_pa));
        }
        i = i + 1;
    }
    proof {
        assert forall|s: int| 0 <= s < MAX_PROCS implies !#[trigger] is_ready(old(t).slots@, s) by {
            lemma_rr_dist(start as int, s);
            let j = rr_dist(start as int, s);
            assert(!is_ready(t.slots@, (start + j) % (MAX_PROCS as int)));
        }
    }
    None
}

} // verus!
