//! The MIPS side of the kernel: the trap frame and the system call numbers.

pub mod syscall;
pub mod syscall_impl;
pub mod trap;
