//! NCE-aware affinity hints.
//!
//! Userspace declares which NCE slots it wants to sit near via a
//! sched_setaffinity-style syscall; the mask is stored per process. On
//! the single-hart scheduler it is a recorded hint.

use vstd::prelude::*;
use crate::sched::process::{ProcTable, Process, MAX_PROCS, replace_slot};

verus! {

/// Store the affinity mask for the current process: 0, or -3 (ESRCH)
/// when the current slot is empty.
pub fn set_current(t: &mut ProcTable, mask: usize) -> (r: isize)
    requires
        old(t).wf(),
        old(t).current < MAX_PROCS,
    ensures
        final(t).wf(),
        final(t).current == old(t).current,
        final(t).next_pid == old(t).next_pid,
        final(t).last_run == old(t).last_run,
        final(t).frames == old(t).frames,
        match old(t).slots@[old(t).current as int] {
            Some(p) => r == 0 && final(t).slots@ == old(t).slots@.update(
                old(t).current as int,
                Some(Process { nce_affinity: mask, ..p }),
            ),
            None => r == -3 && final(t).slots@ == old(t).slots@,
        },
{
    let cur = t.current;
    if t.slots[cur].is_none() {
        return -3;
    }
    let mut p = replace_slot(&mut t.slots, cur, None).unwrap();
    p.nce_affinity = mask;
    replace_slot(&mut t.slots, cur, Some(p));
    0
}

/// The affinity mask of the current process (0 for an empty slot).
pub fn get_current(t: &ProcTable) -> (r: usize)
    requires
        t.wf(),
        t.current < MAX_PROCS,
    ensures
        r == match t.slots@[t.current as int] {
            Some(p) => p.nce_affinity,
            None => 0,
        },
{
    match &t.slots[t.current] {
        Some(p) => p.nce_affinity,
        None => 0,
    }
}

/// Law: the mask stored by `set_current` is what `get_current` reads
/// back.
pub proof fn lemma_affinity_roundtrip(slots: Seq<Option<Process>>, cur: int, mask: usize)
    requires
        0 <= cur < slots.len(),
        slots[cur] is Some,
    ensures
        slots.update(cur, Some(Process { nce_affinity: mask, ..slots[cur]->0 }))[cur]->0.nce_affinity == mask,
{
}

} // verus!
