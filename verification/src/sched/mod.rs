//! Scheduler: preemptive round-robin over user processes.
//!
//! The kernel switches trap frames, not kernel stacks: every kernel
//! entry runs to completion, and returning to user space restores the
//! chosen process's frame. What is decided here: which process runs,
//! and the state changes around a switch; entering user mode is the
//! caller's work.

pub mod process;
pub mod round_robin;

use vstd::prelude::*;
use process::{ProcTable, ProcState, Process, MAX_PROCS, NO_PROC, replace_slot};

verus! {

/// Timer preemption: the current process goes back to Ready and leaves
/// the CPU.
pub fn yield_current(t: &mut ProcTable)
    requires
        old(t).wf(),
        old(t).current < MAX_PROCS,
    ensures
        final(t).wf(),
        final(t).current == NO_PROC,
        final(t).next_pid == old(t).next_pid,
        final(t).last_run == old(t).last_run,
        final(t).frames == old(t).frames,
        ({
            let c = old(t).current as int;
            match old(t).slots@[c] {
                Some(p) => if p.state == ProcState::Running {
                    final(t).slots@ == old(t).slots@.update(c, Some(Process { state: ProcState::Ready, ..p }))
                } else {
                    final(t).slots@ == old(t).slots@
                },
                None => final(t).slots@ == old(t).slots@,
            }
        }),
{
    let cur = t.current;
    let running = match &t.slots[cur] {
        Some(p) => p.state == ProcState::Running,
        None => false,
    };
    if running {
        let mut p = replace_slot(&mut t.slots, cur, None).unwrap();
        p.state = ProcState::Ready;
        replace_slot(&mut t.slots, cur, Some(p));
    }
    t.current = NO_PROC;
}

/// Re-enter the current process (non-blocking trap exit): its slot and
/// root table.
pub fn resume_current(t: &ProcTable) -> (r: (usize, usize))
    requires
        t.has_current(),
    ensures
        r == (t.current, t.cur().root_pa),
{
    let (root_pa, _) = process::current_info(t);
    (t.current, root_pa)
}

} // verus!
