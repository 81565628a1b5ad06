//! The error kinds that the dispatcher itself replies with, and the errno
//! that each stands for.

use vstd::prelude::*;

verus! {

/// errno of "no such file or directory".
pub const ENOENT: i32 = 2;

/// errno of "invalid argument".
pub const EINVAL: i32 = 22;

/// errno of "function not implemented".
pub const ENOSYS: i32 = 38;

/// What went wrong, as the kernel is told.
#[derive(Debug, Clone, Copy, PartialEq, Eq, Structural)]
pub enum ErrorKind {
    FileNotFound,
    InvalidArgument,
    FunctionNotImplemented,
    /// Any other errno, passed through as it is.
    Errno(i32),
}

impl ErrorKind {
    /// The errno that this kind stands for.
    pub open spec fn errno(self) -> i32 {
        match self {
            ErrorKind::FileNotFound => ENOENT,
            ErrorKind::InvalidArgument => EINVAL,
            ErrorKind::FunctionNotImplemented => ENOSYS,
            ErrorKind::Errno(raw) => raw,
        }
    }

    /// The errno for the kernel's reply.
    pub fn raw_error(&self) -> (raw: i32)
        ensures
            raw == self.errno(),
    {
        match self {
            ErrorKind::FileNotFound => ENOENT,
            ErrorKind::InvalidArgument => EINVAL,
            ErrorKind::FunctionNotImplemented => ENOSYS,
            ErrorKind::Errno(raw) => *raw,
        }
    }

    /// The kind for an errno: one of the named kinds where the errno is
    /// theirs, else the errno passed through.
    pub fn from_raw(raw: i32) -> (kind: ErrorKind)
        ensures
            kind.errno() == raw,
            kind == (if raw == ENOENT {
                ErrorKind::FileNotFound
            } else if raw == EINVAL {
                ErrorKind::InvalidArgument
            } else if raw == ENOSYS {
                ErrorKind::FunctionNotImplemented
            } else {
                ErrorKind::Errno(raw)
            }),
    {
        if raw == ENOENT {
            ErrorKind::FileNotFound
        } else if raw == EINVAL {
            ErrorKind::InvalidArgument
        } else if raw == ENOSYS {
            ErrorKind::FunctionNotImplemented
        } else {
            ErrorKind::Errno(raw)
        }
    }
}

} // verus!
