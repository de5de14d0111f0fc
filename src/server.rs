//! Serving a request: each command goes to the engine, and each outcome
//! becomes one reply.
use vstd::prelude::*;

use crate::codec::append_bytes;
use crate::command::MPCommand;
use crate::error::KvsError;
use crate::protocol::{response_frame, KvsServer, Reply};
use vstd::string::StringSliceAdditionalSpecFns;

verus! {

/// A storage backend that the server can drive.
pub trait KvsEngine {
    /// Binds `key` to `value`.
    fn set(&mut self, key: String, value: String) -> Result<(), KvsError>;

    /// The value of `key`, if it has one.
    fn get(&mut self, key: String) -> Result<Option<String>, KvsError>;

    /// Removes `key`.
    fn remove(&mut self, key: String) -> Result<(), KvsError>;
}

/// The UTF-8 bytes of a string.
pub open spec fn utf8(s: Seq<char>) -> Seq<u8> {
    vstd::utf8::encode_utf8(s)
}

/// The reply to a `get` of an absent key, and to a `remove` of one.
pub const KEY_NOT_FOUND: &'static str = "Key not found";

/// The reply to a `get` that failed.
pub const GET_FAILED: &'static str = "Error getting key";

/// The reply to a `set` that failed.
pub const SET_FAILED: &'static str = "Error setting key value pair";

/// The reply to a `remove` that failed for another reason than an absent key.
pub const REMOVE_FAILED: &'static str = "Error removing key";

fn text_bytes(s: &str) -> (r: Vec<u8>)
    ensures
        r@ == utf8(s@),
{
    let mut r: Vec<u8> = Vec::new();
    append_bytes(&mut r, s.as_bytes());
    r
}

/// The reply to a `get`: `'+'` with the value, `'+'` with `Key not found`
/// when there is none, `'-'` when the engine failed.
pub fn get_reply(outcome: Result<Option<String>, KvsError>) -> (r: Reply)
    ensures
        match outcome {
            Ok(Some(v)) => r.ok && r.msg@ == utf8(v@),
            Ok(None) => r.ok && r.msg@ == utf8(KEY_NOT_FOUND@),
            Err(_) => !r.ok && r.msg@ == utf8(GET_FAILED@),
        },
{
    match outcome {
        Ok(Some(v)) => Reply { ok: true, msg: text_bytes(v.as_str()) },
        Ok(None) => Reply { ok: true, msg: text_bytes(KEY_NOT_FOUND) },
        Err(_) => Reply { ok: false, msg: text_bytes(GET_FAILED) },
    }
}

/// The reply to a `set`: `'+'` with an empty message, or `'-'`.
pub fn set_reply(outcome: Result<(), KvsError>) -> (r: Reply)
    ensures
        match outcome {
            Ok(()) => r.ok && r.msg@.len() == 0,
            Err(_) => !r.ok && r.msg@ == utf8(SET_FAILED@),
        },
{
    match outcome {
        Ok(()) => Reply { ok: true, msg: Vec::new() },
        Err(_) => Reply { ok: false, msg: text_bytes(SET_FAILED) },
    }
}

/// The reply to a `remove`: `'+'` with an empty message, `'-'` with
/// `Key not found` for an absent key, `'-'` otherwise.
pub fn remove_reply(outcome: Result<(), KvsError>) -> (r: Reply)
    ensures
        match outcome {
            Ok(()) => r.ok && r.msg@.len() == 0,
            Err(KvsError::KeyNotFound) => !r.ok && r.msg@ == utf8(KEY_NOT_FOUND@),
            Err(_) => !r.ok && r.msg@ == utf8(REMOVE_FAILED@),
        },
{
    match outcome {
        Ok(()) => Reply { ok: true, msg: Vec::new() },
        Err(KvsError::KeyNotFound) => Reply { ok: false, msg: text_bytes(KEY_NOT_FOUND) },
        Err(_) => Reply { ok: false, msg: text_bytes(REMOVE_FAILED) },
    }
}

/// Whether a reply is one that a command of this kind can receive.
pub open spec fn fits(cmd: MPCommand, r: Reply) -> bool {
    match cmd {
        MPCommand::Get { .. } => (r.ok) || (r.msg@ == utf8(GET_FAILED@)),
        MPCommand::Put { .. } => (r.ok && r.msg@.len() == 0) || (!r.ok && r.msg@ == utf8(
            SET_FAILED@,
        )),
        MPCommand::Rm { .. } => (r.ok && r.msg@.len() == 0) || (!r.ok && (r.msg@ == utf8(
            KEY_NOT_FOUND@,
        ) || r.msg@ == utf8(REMOVE_FAILED@))),
    }
}

/// Runs one command against the engine and gives its reply.
pub fn execute<E: KvsEngine>(engine: &mut E, cmd: MPCommand) -> (r: Reply)
    ensures
        fits(cmd, r),
{
    match cmd {
        MPCommand::Get { key } => get_reply(engine.get(key)),
        MPCommand::Put { key, value } => set_reply(engine.set(key, value)),
        MPCommand::Rm { key } => remove_reply(engine.remove(key)),
    }
}

/// Runs a batch of commands in order, one reply per command.
pub fn serve<E: KvsEngine>(engine: &mut E, cmds: Vec<MPCommand>) -> (r: Vec<Reply>)
    ensures
        r@.len() == cmds@.len(),
        forall|i: int| 0 <= i < r@.len() ==> fits(cmds@[i], #[trigger] r@[i]),
{
    let mut replies: Vec<Reply> = Vec::new();
    let mut rest = cmds;
    let ghost all = rest@;
    let mut i: usize = 0;
    let n = rest.len();
    while i < n
        invariant
            n == all.len(),
            i <= n,
            rest@ == all.subrange(i as int, n as int),
            replies@.len() == i,
            forall|j: int| 0 <= j < i ==> fits(all[j], #[trigger] replies@[j]),
        decreases n - i,
    {
        let cmd = rest.remove(0);
        assert(cmd == all[i as int]);
        let reply = execute(engine, cmd);
        replies.push(reply);
        i = i + 1;
        assert(rest@ =~= all.subrange(i as int, n as int));
    }
    replies
}

impl KvsServer {
    /// Runs a batch of decoded commands and builds the one response frame
    /// that answers it: one reply per command, in order.
    pub fn respond<E: KvsEngine>(engine: &mut E, cmds: Vec<MPCommand>) -> (r: Vec<u8>)
        requires
            cmds@.len() <= u64::MAX,
        ensures
            exists|rs: Seq<Reply>|
                rs.len() == cmds@.len() && r@ == response_frame(rs) && forall|i: int|
                    0 <= i < rs.len() ==> fits(cmds@[i], #[trigger] rs[i]),
    {
        let replies = serve(engine, cmds);
        let r = KvsServer::encode_response(&replies);
        assert(r@ == response_frame(replies@));
        r
    }
}

} // verus!
