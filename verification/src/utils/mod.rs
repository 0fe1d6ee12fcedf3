//! General data structures used by the kernel.

pub mod array_based_list;
pub mod bitmap;
pub mod bits;
pub mod linked_list;
