//! The status bits of the CP0 Status register.

use vstd::prelude::*;

verus! {

/// Coprocessor 3 usable.
pub const STATUS_CU3: u32 = 0x80000000;
/// Coprocessor 2 usable.
pub const STATUS_CU2: u32 = 0x40000000;
/// Coprocessor 1 usable.
pub const STATUS_CU1: u32 = 0x20000000;
/// Coprocessor 0 usable.
pub const STATUS_CU0: u32 = 0x10000000;
/// Bootstrap exception vectors.
pub const STATUS_BEV: u32 = 0x00400000;
/// Interrupt mask bit 0.
pub const STATUS_IM0: u32 = 0x0100;
/// Interrupt mask bit 1.
pub const STATUS_IM1: u32 = 0x0200;
/// Interrupt mask bit 2.
pub const STATUS_IM2: u32 = 0x0400;
/// Interrupt mask bit 3.
pub const STATUS_IM3: u32 = 0x0800;
/// Interrupt mask bit 4.
pub const STATUS_IM4: u32 = 0x1000;
/// Interrupt mask bit 5.
pub const STATUS_IM5: u32 = 0x2000;
/// Interrupt mask bit 6.
pub const STATUS_IM6: u32 = 0x4000;
/// Interrupt mask bit 7: the timer interrupt.
pub const STATUS_IM7: u32 = 0x8000;
/// User mode.
pub const STATUS_UM: u32 = 0x0010;
/// Reserved bit.
pub const STATUS_R0: u32 = 0x0008;
/// Error level.
pub const STATUS_ERL: u32 = 0x0004;
/// Exception level.
pub const STATUS_EXL: u32 = 0x0002;
/// Interrupts enabled.
pub const STATUS_IE: u32 = 0x0001;

} // verus!
