//! The trap frame that an exception saves, and the handlers' decisions on it.

use vstd::prelude::*;

verus! {

/// Things need to be stored in the trapframe.
#[derive(Clone, Copy, Debug)]
pub struct TrapFrame {
    /// All the regular registers.
    pub regs: [u32; 32],
    /// The Status register in CP0.
    pub cp0_status: u32,
    /// The HI register.
    pub hi: u32,
    /// The LO register.
    pub lo: u32,
    /// The BadAddr register in CP0.
    pub cp0_badvaddr: u32,
    /// The Cause register in CP0.
    pub cp0_cause: u32,
    /// The EPC register in CP0.
    pub cp0_epc: u32,
}

/// The size of a trap frame in bytes: 38 words.
pub const TRAP_FRAME_SIZE: u32 = 152;

/// Whether every register of the trap frame is zero.
pub open spec fn is_zero_frame(tf: TrapFrame) -> bool {
    &&& forall|i: int| 0 <= i < 32 ==> #[trigger] tf.regs@[i] == 0
    &&& tf.cp0_status == 0
    &&& tf.hi == 0
    &&& tf.lo == 0
    &&& tf.cp0_badvaddr == 0
    &&& tf.cp0_cause == 0
    &&& tf.cp0_epc == 0
}

impl TrapFrame {
    /// The default value of the registers: all zero.
    pub fn const_construct() -> (r: Self)
        ensures
            is_zero_frame(r),
    {
        TrapFrame {
            regs: [0u32; 32],
            cp0_status: 0,
            hi: 0,
            lo: 0,
            cp0_badvaddr: 0,
            cp0_cause: 0,
            cp0_epc: 0,
        }
    }
}

impl Default for TrapFrame {
    /// All registers zero, see [TrapFrame::const_construct].
    fn default() -> (r: Self)
        ensures
            is_zero_frame(r),
    {
        TrapFrame::const_construct()
    }
}

/// The exception code of the Cause register: its bits 6..2.
pub open spec fn exc_code_spec(cause: u32) -> u32 {
    (cause >> 2u32) & 0x1fu32
}

/// The exception code of the trap, as the handlers report it.
pub fn exc_code(tf: &TrapFrame) -> (r: u32)
    ensures
        r == exc_code_spec(tf.cp0_cause),
        r < 32,
{
    proof {
        crate::utils::bits::lemma_u32_bits(tf.cp0_cause);
    }
    (tf.cp0_cause >> 2) & 0x1f
}

/// Skip the current instruction: the trap returns to the next one.
pub fn do_skip(tf: &mut TrapFrame)
    requires
        old(tf).cp0_epc + 4 <= u32::MAX,
    ensures
        *final(tf) == (TrapFrame { cp0_epc: (old(tf).cp0_epc + 4) as u32, ..*old(tf) }),
{
    tf.cp0_epc = tf.cp0_epc + 4;
}

/// The handler an exception code is dispatched to.
#[derive(Clone, Copy, Debug, PartialEq, Eq, Structural)]
pub enum ExcHandler {
    /// The clock interrupt.
    Int,
    /// A write to a page mapped read-only: the TLB modification handler.
    Mod,
    /// A TLB miss on a load or a store: the TLB refill handler.
    Tlb,
    /// An address error, a reserved instruction or an overflow: the
    /// instruction is skipped, see [do_skip].
    Skip,
    /// A system call.
    Sys,
    /// Any other code: a kernel panic.
    Reserved,
}

/// The handler of the exception code `code`.
pub open spec fn handler_spec(code: u32) -> ExcHandler {
    if code == 0 {
        ExcHandler::Int
    } else if code == 1 {
        ExcHandler::Mod
    } else if code == 2 || code == 3 {
        ExcHandler::Tlb
    } else if code == 4 || code == 5 || code == 10 || code == 12 {
        ExcHandler::Skip
    } else if code == 8 {
        ExcHandler::Sys
    } else {
        ExcHandler::Reserved
    }
}

/// The handler the exception code `code` is dispatched to, as the
/// exception table lists them.
pub fn handler_of(code: u32) -> (r: ExcHandler)
    ensures
        r == handler_spec(code),
{
    match code {
        0 => ExcHandler::Int,
        1 => ExcHandler::Mod,
        2 | 3 => ExcHandler::Tlb,
        4 | 5 | 10 | 12 => ExcHandler::Skip,
        8 => ExcHandler::Sys,
        _ => ExcHandler::Reserved,
    }
}

} // verus!
