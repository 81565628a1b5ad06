//! The handler at the end of every chain of handlers: it implements no
//! operation, and says what an operation that nobody implemented answers.

use vstd::prelude::*;
use crate::errors::ErrorKind;

verus! {

/// Seconds for which the kernel may keep attributes that came without a
/// time to live of their own.
pub const DEFAULT_TTL_SECS: u64 = 1;

/// What the handler does with an operation that it does not implement.
#[derive(Debug, Clone, Copy, PartialEq, Eq, Structural)]
pub enum HandlingMethod {
    /// It panics.
    Panic,
    /// It fails with this error.
    Error(ErrorKind),
}

/// A handler that implements no operation.
pub struct DefaultFuseHandler {
    handling: HandlingMethod,
}

impl View for DefaultFuseHandler {
    type V = HandlingMethod;

    closed spec fn view(&self) -> HandlingMethod {
        self.handling
    }
}

impl DefaultFuseHandler {
    /// A handler that answers "function not implemented".
    pub fn new() -> (handler: Self)
        ensures
            handler@ == HandlingMethod::Error(ErrorKind::FunctionNotImplemented),
    {
        DefaultFuseHandler { handling: HandlingMethod::Error(ErrorKind::FunctionNotImplemented) }
    }

    /// A handler that panics, to show which operations are asked for.
    pub fn new_with_panic() -> (handler: Self)
        ensures
            handler@ == HandlingMethod::Panic,
    {
        DefaultFuseHandler { handling: HandlingMethod::Panic }
    }

    /// A handler that answers with `error_kind`.
    pub fn new_with_custom_error(error_kind: ErrorKind) -> (handler: Self)
        ensures
            handler@ == HandlingMethod::Error(error_kind),
    {
        DefaultFuseHandler { handling: HandlingMethod::Error(error_kind) }
    }

    /// What the handler was set up to do.
    pub fn handling(&self) -> (method: HandlingMethod)
        ensures
            method == self@,
    {
        self.handling
    }

    /// The error that an operation without an implementation fails with, or
    /// nothing where the handler panics instead.
    pub fn not_implemented(&self) -> (answer: Option<ErrorKind>)
        ensures
            answer == (match self@ {
                HandlingMethod::Panic => None,
                HandlingMethod::Error(kind) => Some(kind),
            }),
    {
        match self.handling {
            HandlingMethod::Panic => None,
            HandlingMethod::Error(kind) => Some(kind),
        }
    }
}

} // verus!
