//! Errors of the store, the engines and the protocol.
use vstd::prelude::*;

verus! {

/// What went wrong.
#[derive(Debug, Clone, Copy, PartialEq, Eq, Structural)]
pub enum KvsError {
    /// An underlying stream or file failed.
    Io,
    /// A record could not be decoded, or held an unexpected command.
    CorruptLog,
    /// `remove` of a key that has no live value.
    KeyNotFound,
    /// Stored bytes are not valid UTF-8.
    Encoding,
    /// A frame broke the wire protocol.
    Protocol,
    /// An unknown engine name or an unusable address.
    Config,
}

} // verus!
