//! Userspace: the computing parts of the C-library shim and of the
//! programs (shell, DNS probe, HTTP fetch). The system calls themselves are
//! instructions the programs execute, not logic.

pub mod libc;
pub mod shell;
pub mod netprobe;
pub mod httpget;
