//! The system call numbers.

use vstd::prelude::*;

verus! {

/// Syscall identifier. The number is ordered by enum automatically.
#[derive(Clone, Copy, Debug, PartialEq, Eq, Structural)]
pub enum SyscallNo {
    /// Print a char into the console.
    SysPutchar,
    /// Print a straight string ends with zero into the console.
    SysPrintCons,
    /// Get the id of the current env.
    SysGetenvid,
    /// Give out the CPU time and re-schedule.
    SysYield,
    /// Destory a env by its id and kill it.
    SysEnvDestroy,
    /// Register the user-space TLB mod handler for the specified env.
    SysSetTlbModEntry,
    /// Allocate memory and map it.
    SysMemAlloc,
    /// Map the virtual address to a specified physical page.
    SysMemMap,
    /// Unmap the address and the page.
    SysMemUnmap,
    /// Allocate a new env and make it child of the current env.
    SysExofork,
    /// Set the env status and move it between the lists.
    SysSetEnvStatus,
    /// Set the trapframe to he specified env.
    SysSetTrapframe,
    /// Do kernel panic.
    SysPanic,
    /// Try to send an ipc data to a env.
    SysIpcTrySend,
    /// Receive a ipc data or wait.
    SysIpcRecv,
    /// Scan a char from the console
    SysCgetc,
    /// Write to a dev.
    SysWriteDev,
    /// Read from a dev.
    SysReadDev,
    /// Create a memory pool.
    SysCreatePool,
    /// Bind a memory pool.
    SysFetchPool,
    /// Try to lock a memory pool.
    SysTryLock,
    /// Unlock a memory pool.
    SysUnlock,
}

/// The count of the syscalls.
pub const MAX_SYS_NO: usize = 22;

/// The number of each system call, counted from zero in declaration order.
pub open spec fn syscall_number(s: SyscallNo) -> u32 {
    match s {
        SyscallNo::SysPutchar => 0,
        SyscallNo::SysPrintCons => 1,
        SyscallNo::SysGetenvid => 2,
        SyscallNo::SysYield => 3,
        SyscallNo::SysEnvDestroy => 4,
        SyscallNo::SysSetTlbModEntry => 5,
        SyscallNo::SysMemAlloc => 6,
        SyscallNo::SysMemMap => 7,
        SyscallNo::SysMemUnmap => 8,
        SyscallNo::SysExofork => 9,
        SyscallNo::SysSetEnvStatus => 10,
        SyscallNo::SysSetTrapframe => 11,
        SyscallNo::SysPanic => 12,
        SyscallNo::SysIpcTrySend => 13,
        SyscallNo::SysIpcRecv => 14,
        SyscallNo::SysCgetc => 15,
        SyscallNo::SysWriteDev => 16,
        SyscallNo::SysReadDev => 17,
        SyscallNo::SysCreatePool => 18,
        SyscallNo::SysFetchPool => 19,
        SyscallNo::SysTryLock => 20,
        SyscallNo::SysUnlock => 21,
    }
}

impl SyscallNo {
    /// The system call with the number `n`, or `None` if `n` is not below
    /// [MAX_SYS_NO].
    pub fn from_number(n: u32) -> (r: Option<SyscallNo>)
        ensures
            n < MAX_SYS_NO ==> (r matches Some(s) && syscall_number(s) == n),
            n >= MAX_SYS_NO ==> r is None,
    {
        match n {
            0 => Some(SyscallNo::SysPutchar),
            1 => Some(SyscallNo::SysPrintCons),
            2 => Some(SyscallNo::SysGetenvid),
            3 => Some(SyscallNo::SysYield),
            4 => Some(SyscallNo::SysEnvDestroy),
            5 => Some(SyscallNo::SysSetTlbModEntry),
            6 => Some(SyscallNo::SysMemAlloc),
            7 => Some(SyscallNo::SysMemMap),
            8 => Some(SyscallNo::SysMemUnmap),
            9 => Some(SyscallNo::SysExofork),
            10 => Some(SyscallNo::SysSetEnvStatus),
            11 => Some(SyscallNo::SysSetTrapframe),
            12 => Some(SyscallNo::SysPanic),
            13 => Some(SyscallNo::SysIpcTrySend),
            14 => Some(SyscallNo::SysIpcRecv),
            15 => Some(SyscallNo::SysCgetc),
            16 => Some(SyscallNo::SysWriteDev),
            17 => Some(SyscallNo::SysReadDev),
            18 => Some(SyscallNo::SysCreatePool),
            19 => Some(SyscallNo::SysFetchPool),
            20 => Some(SyscallNo::SysTryLock),
            21 => Some(SyscallNo::SysUnlock),
            _ => None,
        }
    }
}

} // verus!
