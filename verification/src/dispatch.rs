//! The decisions that the dispatcher takes around a handler's answer.

use vstd::prelude::*;
use crate::errors::ErrorKind;

verus! {

/// How loudly a handler's error is logged.
#[derive(Debug, Clone, Copy, PartialEq, Eq, Structural)]
pub enum LogLevel {
    Info,
    Warn,
}

/// The level at which the error of an operation is logged. A lookup that
/// finds no file is what happens before every creation and is logged as
/// information; every other error is a warning.
pub fn error_log_level(is_lookup: bool, kind: ErrorKind) -> (level: LogLevel)
    ensures
        level == (if is_lookup && kind == ErrorKind::FileNotFound {
            LogLevel::Info
        } else {
            LogLevel::Warn
        }),
{
    if is_lookup {
        match kind {
            ErrorKind::FileNotFound => LogLevel::Info,
            _ => LogLevel::Warn,
        }
    } else {
        LogLevel::Warn
    }
}

/// What goes into an entry reply beside the attributes: the time for which
/// the kernel may keep them, and the generation of the inode.
pub struct EntryReply<D> {
    pub ttl: D,
    pub generation: u64,
}

/// The time to live and the generation of an entry reply: those that came
/// with the attributes, else the handler's default time to live and the
/// generation drawn for this reply.
pub fn entry_reply<D>(ttl: Option<D>, default_ttl: D, generation: Option<u64>, drawn: u64) -> (reply:
    EntryReply<D>)
    ensures
        reply.ttl == (match ttl {
            Some(given) => given,
            None => default_ttl,
        }),
        reply.generation == (match generation {
            Some(given) => given,
            None => drawn,
        }),
{
    let ttl = match ttl {
        Some(given) => given,
        None => default_ttl,
    };
    let generation = match generation {
        Some(given) => given,
        None => drawn,
    };
    EntryReply { ttl, generation }
}

} // verus!
