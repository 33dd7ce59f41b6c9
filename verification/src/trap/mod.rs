//! Trap context and trap-cause decoding: what the trap handler does for
//! each value of `scause`, each claimed PLIC interrupt and each timer
//! tick. The CSR and MMIO accesses themselves are the caller's.

pub mod context;

use vstd::prelude::*;
use crate::mem::layout::PLIC_BASE;

verus! {

/// The interrupt bit of `scause`.
pub const SCAUSE_INTERRUPT: u64 = 0x8000_0000_0000_0000;

pub const IRQ_S_SOFT: u64 = 1;
pub const IRQ_S_TIMER: u64 = 5;
pub const IRQ_S_EXTERNAL: u64 = 9;

/// PLIC source of the UART.
pub const IRQ_UART0: u32 = 10;

/// PLIC source of the first virtio device.
pub const IRQ_VIRTIO0: u32 = 1;

/// PLIC context of hart 0 in supervisor mode.
pub const CONTEXT_HART0_S: usize = 1;

/// Timer ticks per second of the CLINT clock.
pub const TIMEBASE_FREQ: u64 = 10_000_000;

/// One scheduler tick: 10 ms.
pub const TICK_INTERVAL: u64 = 100_000;

/// The tick on which the one-second milestone is reported.
pub const MILESTONE_TICK: usize = 100;

/// Why the hart trapped.
#[derive(Clone, Copy, Debug, PartialEq, Eq, Structural)]
pub enum TrapCause {
    /// Supervisor timer interrupt.
    Timer,
    /// Supervisor external interrupt (PLIC).
    External,
    /// Supervisor software interrupt.
    Software,
    /// Any other interrupt, with its code.
    UnknownInterrupt(u64),
    /// A synchronous exception, with its `scause`.
    Exception(u64),
}

/// The cause that `scause` encodes.
pub open spec fn cause_of(scause: u64) -> TrapCause {
    if scause & SCAUSE_INTERRUPT != 0 {
        let code = scause & !SCAUSE_INTERRUPT;
        if code == IRQ_S_TIMER {
            TrapCause::Timer
        } else if code == IRQ_S_EXTERNAL {
            TrapCause::External
        } else if code == IRQ_S_SOFT {
            TrapCause::Software
        } else {
            TrapCause::UnknownInterrupt(code)
        }
    } else {
        TrapCause::Exception(scause)
    }
}

/// Decodes `scause`.
pub fn classify(scause: u64) -> (r: TrapCause)
    ensures
        r == cause_of(scause),
{
    if scause & SCAUSE_INTERRUPT != 0 {
        let code = scause & !SCAUSE_INTERRUPT;
        if code == IRQ_S_TIMER {
            TrapCause::Timer
        } else if code == IRQ_S_EXTERNAL {
            TrapCause::External
        } else if code == IRQ_S_SOFT {
            TrapCause::Software
        } else {
            TrapCause::UnknownInterrupt(code)
        }
    } else {
        TrapCause::Exception(scause)
    }
}

/// The name of a synchronous exception.
pub open spec fn exception_text(scause: u64) -> &'static str {
    if scause == 0 {
        "instruction address misaligned"
    } else if scause == 1 {
        "instruction access fault"
    } else if scause == 2 {
        "illegal instruction"
    } else if scause == 3 {
        "breakpoint"
    } else if scause == 5 {
        "load access fault"
    } else if scause == 7 {
        "store access fault"
    } else if scause == 8 {
        "ecall from U-mode"
    } else if scause == 9 {
        "ecall from S-mode"
    } else if scause == 12 {
        "instruction page fault"
    } else if scause == 13 {
        "load page fault"
    } else if scause == 15 {
        "store page fault"
    } else {
        "unknown"
    }
}

/// The name of the synchronous exception `scause`.
pub fn exception_name(scause: u64) -> (r: &'static str)
    ensures
        r == exception_text(scause),
{
    match scause {
        0 => "instruction address misaligned",
        1 => "instruction access fault",
        2 => "illegal instruction",
        3 => "breakpoint",
        5 => "load access fault",
        7 => "store access fault",
        8 => "ecall from U-mode",
        9 => "ecall from S-mode",
        12 => "instruction page fault",
        13 => "load page fault",
        15 => "store page fault",
        _ => "unknown",
    }
}

/// One timer tick: the new tick count (wrapping, as an atomic counter
/// does) and whether it is the one-second milestone.
pub fn timer_tick(ticks: usize) -> (r: (usize, bool))
    ensures
        r.0 == (if ticks == usize::MAX { 0 } else { ticks + 1 }),
        r.1 == (r.0 == MILESTONE_TICK),
{
    let t = if ticks == usize::MAX { 0 } else { ticks + 1 };
    (t, t == MILESTONE_TICK)
}

/// What the handler does with a claimed PLIC source.
#[derive(Clone, Copy, Debug, PartialEq, Eq, Structural)]
pub enum IrqAction {
    /// Nothing was pending (claim returned 0): nothing to complete.
    Spurious,
    /// The UART: drain it, then complete the claim.
    Uart,
    /// Any other source: report it, then complete the claim.
    Unexpected(u32),
}

/// The action for a claimed PLIC source `irq`.
pub fn irq_action(irq: u32) -> (r: IrqAction)
    ensures
        irq == 0 ==> r == IrqAction::Spurious,
        irq == IRQ_UART0 ==> r == IrqAction::Uart,
        irq != 0 && irq != IRQ_UART0 ==> r == IrqAction::Unexpected(irq),
{
    if irq == 0 {
        IrqAction::Spurious
    } else if irq == IRQ_UART0 {
        IrqAction::Uart
    } else {
        IrqAction::Unexpected(irq)
    }
}

/// Address of the priority register of PLIC source `irq`.
pub fn plic_priority_addr(irq: u32) -> (r: usize)
    requires
        irq < 1024,
    ensures
        r == PLIC_BASE + 4 * irq,
{
    PLIC_BASE + 4 * irq as usize
}

/// Address of the enable word that holds source `irq` for `context`.
pub fn plic_enable_addr(context: usize, irq: u32) -> (r: usize)
    requires
        context < 15872,
        irq < 1024,
    ensures
        r == PLIC_BASE + 0x2000 + context * 0x80 + (irq / 32) * 4,
{
    PLIC_BASE + 0x2000 + context * 0x80 + (irq as usize / 32) * 4
}

/// The enable word with source `irq`'s bit set.
pub fn plic_enable_bit(word: u32, irq: u32) -> (r: u32)
    ensures
        r == word | (1u32 << (irq % 32)),
{
    word | (1u32 << (irq % 32))
}

/// Address of the claim/complete register of `context`.
pub fn plic_claim_addr(context: usize) -> (r: usize)
    requires
        context < 15872,
    ensures
        r == PLIC_BASE + 0x20_0004 + context * 0x1000,
{
    PLIC_BASE + 0x20_0004 + context * 0x1000
}

/// Address of the priority-threshold register of `context`.
pub fn plic_threshold_addr(context: usize) -> (r: usize)
    requires
        context < 15872,
    ensures
        r == PLIC_BASE + 0x20_0000 + context * 0x1000,
{
    PLIC_BASE + 0x20_0000 + context * 0x1000
}

/// The next timer deadline: `interval` after `now`, wrapping as the
/// 64-bit counter does.
pub fn next_deadline(now: u64, interval: u64) -> (r: u64)
    ensures
        r == (now + interval) % 0x1_0000_0000_0000_0000,
{
    now.wrapping_add(interval)
}

} // verus!
