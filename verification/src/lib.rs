//! A persistent key-value store backed by an append-only command log: a
//! record codec, a replay model of the log, an in-memory index from key to
//! record extent, and the engine that keeps log and index consistent.
use vstd::prelude::*;

verus! {

use vstd::string::*;

/// The error kinds that store operations can report.
#[derive(Debug, Clone, Copy, PartialEq, Eq, Structural)]
pub enum KvsError {
    /// `remove` targeted a key that is not present.
    KeyNotFound,
    /// A log record failed to decode as a known command.
    CorruptRecord,
    /// A read extent reaches past the end of the log.
    ShortRead,
}

impl KvsError {
    /// The diagnostic text for this error.
    pub fn message(&self) -> (r: String)
        ensures
            match self {
                KvsError::KeyNotFound => r@ == "Key not found"@,
                KvsError::CorruptRecord => r@ == "corrupt log record"@,
                KvsError::ShortRead => r@ == "short read"@,
            },
    {
        match self {
            KvsError::KeyNotFound => String::from_str("Key not found"),
            KvsError::CorruptRecord => String::from_str("corrupt log record"),
            KvsError::ShortRead => String::from_str("short read"),
        }
    }
}

} // verus!
pub mod codec;
pub mod kv;
pub mod laws;
pub mod log;
