//! Error codes of the kernel ([KError]) and of the user's file system
//! ([UError]).

use vstd::prelude::*;

verus! {

/// Error codes used only by **the kernel**.
///
/// A system call hands an error back to user space as the negated error
/// number, see [KError::errno] and [KError::to_syscall_ret].
#[derive(Debug, Clone, Copy, PartialEq, Eq, Structural)]
pub enum KError {
    /// Unspecified or unknown problem.
    Unspecified,
    /// The environment does not exist or otherwise cannot be used in the
    /// requested action.
    BadEnv,
    /// The parameter is invalid.
    Invalid,
    /// Run out of memory.
    NoMem,
    /// Invalid syscall number.
    NoSys,
    /// The environment maximum count exceeded.
    NoFreeEnv,
    /// Attempt to send to an env that is not receiving.
    IpcNotRecv,
    /// The shared memory pool does not exist.
    PoolNotFound,
    /// The env is not bound to the shared memory pool.
    PoolNotBind,
    /// The env is bound to the shared memory pool already.
    PoolDoubleBind,
    /// The shared memory pool is not locked.
    NoLock,
    /// The shared memory pool is locked by another env.
    LockByOthers,
}

/// The error number of each kernel error, counted from one in declaration
/// order.
pub open spec fn kerror_errno(e: KError) -> u32 {
    match e {
        KError::Unspecified => 1,
        KError::BadEnv => 2,
        KError::Invalid => 3,
        KError::NoMem => 4,
        KError::NoSys => 5,
        KError::NoFreeEnv => 6,
        KError::IpcNotRecv => 7,
        KError::PoolNotFound => 8,
        KError::PoolNotBind => 9,
        KError::PoolDoubleBind => 10,
        KError::NoLock => 11,
        KError::LockByOthers => 12,
    }
}

/// The 32-bit system call return value of an error: its error number negated
/// in two's complement.
pub open spec fn kerror_ret(e: KError) -> u32 {
    (0x1_0000_0000int - kerror_errno(e)) as u32
}

impl KError {
    /// The (positive) error number of this error.
    pub fn errno(self) -> (r: u32)
        ensures
            r == kerror_errno(self),
            1 <= r <= 12,
    {
        match self {
            KError::Unspecified => 1,
            KError::BadEnv => 2,
            KError::Invalid => 3,
            KError::NoMem => 4,
            KError::NoSys => 5,
            KError::NoFreeEnv => 6,
            KError::IpcNotRecv => 7,
            KError::PoolNotFound => 8,
            KError::PoolNotBind => 9,
            KError::PoolDoubleBind => 10,
            KError::NoLock => 11,
            KError::LockByOthers => 12,
        }
    }

    /// The value a system call returns for this error: the negated error
    /// number as an unsigned 32-bit word.
    pub fn to_syscall_ret(self) -> (r: u32)
        ensures
            r == kerror_ret(self),
            r as int + kerror_errno(self) == 0x1_0000_0000int,
    {
        let n = self.errno();
        0u32.wrapping_sub(n)
    }
}

/// Error codes used only by **the user's file system**. They continue the
/// numbering of [KError]'s first seven codes.
#[derive(Debug, Clone, Copy, PartialEq, Eq, Structural)]
pub enum UError {
    /// No free space left on disk.
    NoDisk,
    /// The maximum count of opened file exceeded.
    MaxOpen,
    /// File or block not found.
    NotFound,
    /// Bad path.
    BadPath,
    /// File already exists.
    FileExists,
    /// File is not a valid executable.
    NotExec,
}

impl UError {
    /// The error number of this file system error.
    pub fn errno(self) -> (r: u32)
        ensures
            8 <= r <= 13,
            r == match self {
                UError::NoDisk => 8u32,
                UError::MaxOpen => 9u32,
                UError::NotFound => 10u32,
                UError::BadPath => 11u32,
                UError::FileExists => 12u32,
                UError::NotExec => 13u32,
            },
    {
        match self {
            UError::NoDisk => 8,
            UError::MaxOpen => 9,
            UError::NotFound => 10,
            UError::BadPath => 11,
            UError::FileExists => 12,
            UError::NotExec => 13,
        }
    }
}

/// The error codes of the whole system in one list, numbered from one:
/// the first seven for the *operating system*, the rest for the *file
/// system*, which only user programs see.
#[derive(Debug, Clone, Copy, PartialEq, Eq, Structural)]
pub enum Error {
    /// Unspecified or unknown problem.
    Unspecified,
    /// Environment doesn't exist or otherwise cannot be used in requested
    /// action.
    BadEnv,
    /// Invalid parameter.
    Invalid,
    /// Request failed due to memory shortage.
    NoMem,
    /// Invalid syscall number.
    NoSys,
    /// Attempt to create a new environment beyond the maximum allowed.
    NoFreeEnv,
    /// Attempt to send to env that is not recving.
    IpcNotRecv,
    /// No free space left on disk.
    NoDisk,
    /// The maximum count of opened file exceeded.
    MaxOpen,
    /// File or block not found.
    NotFound,
    /// Bad path.
    BadPath,
    /// File already exists.
    FileExists,
    /// File is not a valid executable.
    NotExec,
}

impl Error {
    /// The number of this error: its place in the list, from one.
    pub fn code(self) -> (r: u32)
        ensures
            1 <= r <= 13,
            r == match self {
                Error::Unspecified => 1u32,
                Error::BadEnv => 2u32,
                Error::Invalid => 3u32,
                Error::NoMem => 4u32,
                Error::NoSys => 5u32,
                Error::NoFreeEnv => 6u32,
                Error::IpcNotRecv => 7u32,
                Error::NoDisk => 8u32,
                Error::MaxOpen => 9u32,
                Error::NotFound => 10u32,
                Error::BadPath => 11u32,
                Error::FileExists => 12u32,
                Error::NotExec => 13u32,
            },
    {
        match self {
            Error::Unspecified => 1,
            Error::BadEnv => 2,
            Error::Invalid => 3,
            Error::NoMem => 4,
            Error::NoSys => 5,
            Error::NoFreeEnv => 6,
            Error::IpcNotRecv => 7,
            Error::NoDisk => 8,
            Error::MaxOpen => 9,
            Error::NotFound => 10,
            Error::BadPath => 11,
            Error::FileExists => 12,
            Error::NotExec => 13,
        }
    }
}

} // verus!
