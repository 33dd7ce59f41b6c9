//! Trap context: the register state captured on every trap entry.

use vstd::prelude::*;

verus! {

/// Full CPU context saved by the trap trampoline.
///
/// `regs[i]` is register `x{i}`; x0 is never written (hardwired zero),
/// x2 holds the interrupted stack pointer.
#[derive(Clone, Copy)]
pub struct TrapFrame {
    pub regs: [usize; 32],
    pub sepc: usize,
    pub sstatus: usize,
}

impl TrapFrame {
    pub fn zeroed() -> (r: Self)
        ensures
            forall|i: int| 0 <= i < 32 ==> #[trigger] r.regs@[i] == 0,
            r.sepc == 0,
            r.sstatus == 0,
    {
        Self { regs: [0; 32], sepc: 0, sstatus: 0 }
    }

    pub fn sp(&self) -> (r: usize)
        ensures
            r == self.regs@[2],
    {
        self.regs[2]
    }

    pub fn a0(&self) -> (r: usize)
        ensures
            r == self.regs@[10],
    {
        self.regs[10]
    }

    pub fn set_a0(&mut self, v: usize)
        ensures
            final(self).regs@ == old(self).regs@.update(10, v),
            final(self).sepc == old(self).sepc,
            final(self).sstatus == old(self).sstatus,
    {
        self.regs[10] = v;
    }

    pub fn a1(&self) -> (r: usize)
        ensures
            r == self.regs@[11],
    {
        self.regs[11]
    }

    pub fn a2(&self) -> (r: usize)
        ensures
            r == self.regs@[12],
    {
        self.regs[12]
    }

    pub fn a3(&self) -> (r: usize)
        ensures
            r == self.regs@[13],
    {
        self.regs[13]
    }

    pub fn a4(&self) -> (r: usize)
        ensures
            r == self.regs@[14],
    {
        self.regs[14]
    }

    pub fn a5(&self) -> (r: usize)
        ensures
            r == self.regs@[15],
    {
        self.regs[15]
    }

    pub fn a7(&self) -> (r: usize)
        ensures
            r == self.regs@[17],
    {
        self.regs[17]
    }
}

/// Law: setting a0 and reading it back gives the value written, and
/// leaves every other register alone.
pub proof fn lemma_set_a0_get(regs: Seq<usize>, v: usize, i: int)
    requires
        regs.len() == 32,
        0 <= i < 32,
    ensures
        regs.update(10, v)[10] == v,
        i != 10 ==> regs.update(10, v)[i] == regs[i],
{
}

} // verus!
