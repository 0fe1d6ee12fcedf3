//! Text the kernel prints.

pub mod print;
