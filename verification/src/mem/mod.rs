//! Memory subsystem: physical page frames, Sv39 paging, user copies.

pub mod layout;
pub mod page;
pub mod kalloc;
pub mod mmu;
pub mod uaccess;
