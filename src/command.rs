//! Commands carried in the log and on the wire.
use vstd::prelude::*;

verus! {

/// A command: `Get` travels only on the wire; `Put` and `Rm` are logged.
#[derive(Debug, Clone)]
pub enum MPCommand {
    /// Read the value of `key`.
    Get { key: String },
    /// Bind `key` to `value`.
    Put { key: String, value: String },
    /// Remove `key`.
    Rm { key: String },
}

/// The key a command is about.
pub open spec fn key_of(c: MPCommand) -> Seq<char> {
    match c {
        MPCommand::Get { key } => key@,
        MPCommand::Put { key, .. } => key@,
        MPCommand::Rm { key } => key@,
    }
}

/// The value a `Put` binds; empty for the other commands.
pub open spec fn value_of(c: MPCommand) -> Seq<char> {
    match c {
        MPCommand::Put { value, .. } => value@,
        _ => Seq::empty(),
    }
}

} // verus!
