//! The *MOS* teaching kernel's core bookkeeping, written in Verus.
//!
//! The kernel keeps its state in a handful of plain data structures: a bitmap,
//! index-linked lists, a buddy allocator over page frames, a physical page
//! manager with two-level page tables, the process (env) table with its
//! scheduler, the ELF segment loader and a shared memory pool. Each of them is
//! specified here over a mathematical view and proved against it.

pub mod arch_mipsel;
pub mod consts;
pub mod utils;
pub mod memory;
pub mod process;
pub mod library;
