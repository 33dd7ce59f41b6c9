//! LightOS kernel logic: memory management, networking, filesystem,
//! processes and syscalls of a small RISC-V kernel, with contracts.

pub mod mem;
pub mod net;
pub mod nce;
pub mod text;
pub mod trap;
pub mod drivers;
pub mod fs;
pub mod prog;
pub mod elf;
pub mod sched;
pub mod syscall;
pub mod user;
pub mod boot;
