//! Physical/virtual memory map constants for the QEMU `virt` machine.

use vstd::prelude::*;

verus! {

/// 4 KiB pages everywhere (Sv39 leaf granularity).
pub const PAGE_SIZE: usize = 4096;

/// Start of DRAM on QEMU virt; the kernel is loaded here.
pub const RAM_START: usize = 0x8000_0000;

/// 128 MiB of RAM.
pub const RAM_SIZE: usize = 0x800_0000;

pub const RAM_END: usize = 0x8800_0000;

/// Kernel virtual base == physical base (identity map).
pub const KERNEL_BASE: usize = 0x8000_0000;

pub const UART0_BASE: usize = 0x1000_0000;
pub const UART0_SIZE: usize = 4096;
pub const VIRTIO_BASE: usize = 0x1000_1000;
pub const VIRTIO_SIZE: usize = 0x8000;
pub const CLINT_BASE: usize = 0x0200_0000;
pub const CLINT_SIZE: usize = 0x1_0000;
pub const PLIC_BASE: usize = 0x0c00_0000;
pub const PLIC_SIZE: usize = 0x40_0000;
pub const TEST_BASE: usize = 0x0010_0000;

/// Number of harts the boot code stacks are sized for.
pub const NUM_HARTS: usize = 4;

/// `addr` rounded down to a multiple of the page size.
pub open spec fn spec_page_down(addr: int) -> int {
    addr - addr % (PAGE_SIZE as int)
}

/// `addr` rounded up to a multiple of the page size.
pub open spec fn spec_page_up(addr: int) -> int {
    if addr % (PAGE_SIZE as int) == 0 {
        addr
    } else {
        addr - addr % (PAGE_SIZE as int) + PAGE_SIZE as int
    }
}

/// Round `addr` down to a page boundary.
pub fn page_down(addr: usize) -> (r: usize)
    ensures
        r == spec_page_down(addr as int),
        r <= addr,
        r % PAGE_SIZE == 0,
        addr - r < PAGE_SIZE,
{
    assert(addr & !(4095usize) == addr - addr % 4096) by (bit_vector);
    addr & !(PAGE_SIZE - 1)
}

/// Round `addr` up to a page boundary.
pub fn page_up(addr: usize) -> (r: usize)
    requires
        addr <= usize::MAX - (PAGE_SIZE - 1),
    ensures
        r == spec_page_up(addr as int),
        r >= addr,
        r % PAGE_SIZE == 0,
        r - addr < PAGE_SIZE,
{
    let a: usize = addr + (PAGE_SIZE - 1);
    assert(a & !(4095usize) == a - a % 4096) by (bit_vector);
    a & !(PAGE_SIZE - 1)
}

} // verus!
