//! The log engine's index: which record holds each live key, how many
//! records have become redundant, and how a compacted log is laid out.
//!
//! The records themselves live in the log file; this index decides where
//! each one goes and which one a read must fetch.
use vstd::prelude::*;

use crate::codec::{frame_record, framed, PREFIX_LEN};
use crate::command::{key_of, value_of, MPCommand};
use crate::error::KvsError;

verus! {

/// One record of the log: its command, the offset of its length prefix, and
/// its size on disk.
pub type Entry = (MPCommand, nat, nat);

/// The offset just past the last record.
pub open spec fn log_end(log: Seq<Entry>) -> nat {
    if log.len() == 0 {
        0
    } else {
        log.last().1 + log.last().2
    }
}

/// Replaying a log: each live key maps to the record of its last `Put`.
pub open spec fn replay(log: Seq<Entry>) -> Map<Seq<char>, Entry>
    decreases log.len(),
{
    if log.len() == 0 {
        Map::empty()
    } else {
        let prev = replay(log.drop_last());
        let e = log.last();
        match e.0 {
            MPCommand::Put { key, .. } => prev.insert(key@, e),
            MPCommand::Rm { key } => prev.remove(key@),
            MPCommand::Get { .. } => prev,
        }
    }
}

/// The live state of a log: each live key with its value.
pub open spec fn state(log: Seq<Entry>) -> Map<Seq<char>, Seq<char>> {
    replay(log).map_values(|e: Entry| value_of(e.0))
}

/// Redundancy counted while replaying: one for each overwrite, two for each
/// removal.
pub open spec fn redundancy(log: Seq<Entry>) -> nat
    decreases log.len(),
{
    if log.len() == 0 {
        0
    } else {
        let prev = redundancy(log.drop_last());
        match log.last().0 {
            MPCommand::Put { key, .. } => if replay(log.drop_last()).contains_key(key@) {
                prev + 1
            } else {
                prev
            },
            MPCommand::Rm { .. } => prev + 2,
            MPCommand::Get { .. } => prev,
        }
    }
}

/// Sum of the record sizes held by index slots.
pub open spec fn total_len(s: Seq<(String, u64, u64)>) -> nat
    decreases s.len(),
{
    if s.len() == 0 {
        0
    } else {
        total_len(s.drop_last()) + s.last().2 as nat
    }
}

/// Where a record lies in the log file.
#[derive(Debug, Clone, Copy, PartialEq, Eq, Structural)]
pub struct Location {
    /// Offset of the record's length prefix.
    pub offset: u64,
    /// Size of the record, prefix included.
    pub len: u64,
}

/// A record to append to the log file, and where it will start.
pub struct Append {
    /// Offset at which the record's length prefix is written.
    pub offset: u64,
    /// The stored record: length prefix and payload.
    pub record: Vec<u8>,
    /// Whether, once the record is appended, redundancy exceeds three times
    /// the number of live keys, so that the log is due for compaction.
    pub compact: bool,
}

/// A record read back from the log file while opening it.
pub struct Record {
    /// The decoded command.
    pub cmd: MPCommand,
    /// Its size on disk, length prefix included.
    pub len: u64,
}

/// The log a sequence of records forms when laid end to end from offset 0.
pub open spec fn log_of(records: Seq<Record>) -> Seq<Entry>
    decreases records.len(),
{
    if records.len() == 0 {
        Seq::empty()
    } else {
        let prev = log_of(records.drop_last());
        prev.push((records.last().cmd, log_end(prev), records.last().len as nat))
    }
}

/// Whether a sequence of records can be replayed: none is a `Get`, each is
/// at least a length prefix long, and the log fits in `u64` offsets.
pub open spec fn replayable(records: Seq<Record>) -> bool {
    &&& forall|i: int|
        0 <= i < records.len() ==> !(#[trigger] records[i].cmd is Get) && records[i].len
            >= PREFIX_LEN
    &&& log_end(log_of(records)) <= u64::MAX
}

proof fn lemma_total_update(s: Seq<(String, u64, u64)>, i: int, x: (String, u64, u64))
    requires
        0 <= i < s.len(),
    ensures
        total_len(s.update(i, x)) + s[i].2 == total_len(s) + x.2,
    decreases s.len(),
{
    if i == s.len() - 1 {
        assert(s.update(i, x).drop_last() =~= s.drop_last());
    } else {
        assert(s.update(i, x).drop_last() =~= s.drop_last().update(i, x));
        lemma_total_update(s.drop_last(), i, x);
    }
}

proof fn lemma_total_remove(s: Seq<(String, u64, u64)>, i: int)
    requires
        0 <= i < s.len(),
    ensures
        total_len(s.remove(i)) + s[i].2 == total_len(s),
    decreases s.len(),
{
    if i == s.len() - 1 {
        assert(s.remove(i) =~= s.drop_last());
    } else {
        assert(s.remove(i).drop_last() =~= s.drop_last().remove(i));
        lemma_total_remove(s.drop_last(), i);
    }
}

proof fn lemma_total_push(s: Seq<(String, u64, u64)>, x: (String, u64, u64))
    ensures
        total_len(s.push(x)) == total_len(s) + x.2,
{
    assert(s.push(x).drop_last() =~= s);
}

proof fn lemma_replay_push(log: Seq<Entry>, e: Entry)
    ensures
        replay(log.push(e)) == match e.0 {
            MPCommand::Put { key, .. } => replay(log).insert(key@, e),
            MPCommand::Rm { key } => replay(log).remove(key@),
            MPCommand::Get { .. } => replay(log),
        },
        redundancy(log.push(e)) == match e.0 {
            MPCommand::Put { key, .. } => if replay(log).contains_key(key@) {
                redundancy(log) + 1
            } else {
                redundancy(log)
            },
            MPCommand::Rm { .. } => redundancy(log) + 2,
            MPCommand::Get { .. } => redundancy(log),
        },
        log_end(log.push(e)) == e.1 + e.2,
{
    assert(log.push(e).drop_last() =~= log);
}

/// A log that is replayed after a `Put` of `key` holds `key`'s new value.
pub proof fn lemma_state_push_put(log: Seq<Entry>, key: String, value: String, start: nat, len: nat)
    ensures
        state(log.push((MPCommand::Put { key, value }, start, len))) == state(log).insert(
            key@,
            value@,
        ),
{
    let e = (MPCommand::Put { key, value }, start, len);
    lemma_replay_push(log, e);
    assert(state(log.push(e)) =~= state(log).insert(key@, value@));
}

/// A log that is replayed after a removal of `key` no longer holds `key`.
pub proof fn lemma_state_push_rm(log: Seq<Entry>, key: String, start: nat, len: nat)
    ensures
        state(log.push((MPCommand::Rm { key }, start, len))) == state(log).remove(key@),
{
    let e = (MPCommand::Rm { key }, start, len);
    lemma_replay_push(log, e);
    assert(state(log.push(e)) =~= state(log).remove(key@));
}

proof fn lemma_total_take(s: Seq<(String, u64, u64)>, i: int)
    requires
        0 <= i < s.len(),
    ensures
        total_len(s.take(i + 1)) == total_len(s.take(i)) + s[i].2,
        total_len(s.take(i + 1)) <= total_len(s),
    decreases s.len(),
{
    assert(s.take(i + 1).drop_last() =~= s.take(i));
    if i + 1 == s.len() {
        assert(s.take(i + 1) =~= s);
    } else {
        assert(s.take(i + 1) =~= s.drop_last().take(i + 1));
        lemma_total_take(s.drop_last(), i);
    }
}

proof fn lemma_total_lower(s: Seq<(String, u64, u64)>)
    requires
        forall|i: int| 0 <= i < s.len() ==> (#[trigger] s[i]).2 >= PREFIX_LEN,
    ensures
        total_len(s) >= PREFIX_LEN * s.len(),
    decreases s.len(),
{
    if s.len() > 0 {
        lemma_total_lower(s.drop_last());
    }
}

/// Every live key of a replayed log maps to a `Put` of that key, taken from
/// the log itself.
pub proof fn lemma_replay_entries(log: Seq<Entry>)
    ensures
        forall|k: Seq<char>| #[trigger]
            replay(log).contains_key(k) ==> replay(log)[k].0 is Put && key_of(replay(log)[k].0)
                == k && log.contains(replay(log)[k]),
    decreases log.len(),
{
    if log.len() > 0 {
        let prev = log.drop_last();
        lemma_replay_entries(prev);
        assert forall|k: Seq<char>| #[trigger]
            replay(log).contains_key(k) implies replay(log)[k].0 is Put && key_of(replay(log)[k].0)
            == k && log.contains(replay(log)[k]) by {
            if replay(log)[k] == log.last() {
                assert(log[log.len() - 1] == log.last());
            } else {
                assert(replay(prev).contains_key(k) && replay(log)[k] == replay(prev)[k]);
                let j = choose|j: int| 0 <= j < prev.len() && prev[j] == replay(prev)[k];
                assert(log[j] == prev[j]);
            }
        }
    }
}

/// A log of `Put`s of distinct keys replays to exactly those records.
proof fn lemma_replay_distinct_puts(log: Seq<Entry>)
    requires
        forall|i: int| 0 <= i < log.len() ==> (#[trigger] log[i]).0 is Put,
        forall|i: int, j: int|
            0 <= i < j < log.len() ==> key_of((#[trigger] log[i]).0) != key_of((#[trigger] log[j]).0),
    ensures
        forall|i: int|
            0 <= i < log.len() ==> replay(log).contains_key(key_of((#[trigger] log[i]).0)) && replay(
                log,
            )[key_of(log[i].0)] == log[i],
        forall|k: Seq<char>| #[trigger]
            replay(log).contains_key(k) ==> exists|i: int|
                0 <= i < log.len() && key_of((#[trigger] log[i]).0) == k,
    decreases log.len(),
{
    if log.len() > 0 {
        let prev = log.drop_last();
        assert forall|i: int, j: int|
            0 <= i < j < prev.len() implies key_of((#[trigger] prev[i]).0) != key_of(
            (#[trigger] prev[j]).0) by {
            assert(prev[i] == log[i] && prev[j] == log[j]);
        }
        lemma_replay_distinct_puts(prev);
        let n = log.len() - 1;
        assert(log[n] == log.last());
        assert forall|i: int|
            0 <= i < log.len() implies replay(log).contains_key(key_of((#[trigger] log[i]).0))
            && replay(log)[key_of(log[i].0)] == log[i] by {
            if i < n {
                assert(prev[i] == log[i]);
            }
        }
        assert forall|k: Seq<char>| #[trigger] replay(log).contains_key(k) implies exists|i: int|
            0 <= i < log.len() && key_of((#[trigger] log[i]).0) == k by {
            if k != key_of(log[n].0) {
                assert(replay(prev).contains_key(k));
                let j = choose|j: int| 0 <= j < prev.len() && key_of((#[trigger] prev[j]).0) == k;
                assert(log[j] == prev[j]);
            }
        }
    }
}

/// Laying records end to end, a prefix of the records gives the same prefix
/// of the log: a log cut at a record boundary replays as the surviving
/// records alone.
pub proof fn lemma_log_of_prefix(records: Seq<Record>, j: int)
    requires
        0 <= j <= records.len(),
    ensures
        log_of(records.take(j)) == log_of(records).take(j),
        log_end(log_of(records.take(j))) <= log_end(log_of(records)),
        log_of(records).len() == records.len(),
    decreases records.len(),
{
    if records.len() > 0 {
        lemma_log_of_prefix(records.drop_last(), if j == records.len() { j - 1 } else { j });
    }
    if j == records.len() {
        assert(records.take(j) =~= records);
        assert(log_of(records).take(j) =~= log_of(records));
    } else {
        assert(records.take(j) =~= records.drop_last().take(j));
        assert(log_of(records).take(j) =~= log_of(records.drop_last()).take(j));
    }
}

/// After any records, appending a `Put` of `key` and reopening the log
/// gives `key` that value.
pub proof fn lemma_reopen_after_set(records: Seq<Record>, key: String, value: String, len: u64)
    ensures
        log_of(records.push(Record { cmd: MPCommand::Put { key, value }, len })) == log_of(
            records,
        ).push((MPCommand::Put { key, value }, log_end(log_of(records)), len as nat)),
        state(log_of(records.push(Record { cmd: MPCommand::Put { key, value }, len }))).contains_key(
            key@,
        ),
        state(log_of(records.push(Record { cmd: MPCommand::Put { key, value }, len })))[key@]
            == value@,
{
    let rs = records.push(Record { cmd: MPCommand::Put { key, value }, len });
    assert(rs.drop_last() =~= records);
    lemma_state_push_put(log_of(records), key, value, log_end(log_of(records)), len as nat);
}

/// After any records, appending a removal of `key` and reopening the log
/// leaves `key` without a value.
pub proof fn lemma_reopen_after_remove(records: Seq<Record>, key: String, len: u64)
    ensures
        log_of(records.push(Record { cmd: MPCommand::Rm { key }, len })) == log_of(records).push(
            (MPCommand::Rm { key }, log_end(log_of(records)), len as nat),
        ),
        !state(log_of(records.push(Record { cmd: MPCommand::Rm { key }, len }))).contains_key(
            key@,
        ),
{
    let rs = records.push(Record { cmd: MPCommand::Rm { key }, len });
    assert(rs.drop_last() =~= records);
    lemma_state_push_rm(log_of(records), key, log_end(log_of(records)), len as nat);
}

/// Setting the same key to the same value twice leaves the state of a
/// single set, and the second set adds exactly one to redundancy.
pub proof fn lemma_set_twice(
    log: Seq<Entry>,
    key: String,
    value: String,
    s1: nat,
    n1: nat,
    s2: nat,
    n2: nat,
)
    ensures
        state(log.push((MPCommand::Put { key, value }, s1, n1)).push(
            (MPCommand::Put { key, value }, s2, n2),
        )) == state(log.push((MPCommand::Put { key, value }, s1, n1))),
        state(log.push((MPCommand::Put { key, value }, s1, n1)))[key@] == value@,
        redundancy(
            log.push((MPCommand::Put { key, value }, s1, n1)).push(
                (MPCommand::Put { key, value }, s2, n2),
            ),
        ) == redundancy(log.push((MPCommand::Put { key, value }, s1, n1))) + 1,
{
    let l1 = log.push((MPCommand::Put { key, value }, s1, n1));
    lemma_state_push_put(log, key, value, s1, n1);
    lemma_state_push_put(l1, key, value, s2, n2);
    lemma_replay_push(log, (MPCommand::Put { key, value }, s1, n1));
    lemma_replay_push(l1, (MPCommand::Put { key, value }, s2, n2));
    assert(state(l1).insert(key@, value@) =~= state(l1));
}

/// The value that a record read back for `get` holds: it must be a `Put`;
/// any other command at a live key's offset means the log is corrupt.
pub fn value_in_record(cmd: MPCommand) -> (r: Result<String, KvsError>)
    ensures
        match cmd {
            MPCommand::Put { value, .. } => r == Ok::<String, KvsError>(value),
            _ => r == Err::<String, KvsError>(KvsError::CorruptLog),
        },
{
    match cmd {
        MPCommand::Put { value, .. } => Ok(value),
        _ => Err(KvsError::CorruptLog),
    }
}

/// The log engine's in-memory index over an append-only log.
pub struct KvStore {
    index: Vec<(String, u64, u64)>,
    redundancies: u64,
    log_len: u64,
    log: Ghost<Seq<Entry>>,
}

impl View for KvStore {
    type V = Map<Seq<char>, Seq<char>>;

    /// Each live key with its value.
    open spec fn view(&self) -> Map<Seq<char>, Seq<char>> {
        state(self.log())
    }
}

impl Default for KvStore {
    /// An empty store over an empty log.
    fn default() -> (r: KvStore)
        ensures
            r.wf(),
            r.log() == Seq::<Entry>::empty(),
            r.redundancies() == 0,
            r.log_len() == 0,
    {
        KvStore::new()
    }
}

impl KvStore {
    /// The records of the log, in order.
    pub closed spec fn log(&self) -> Seq<Entry> {
        self.log@
    }

    /// The redundancy counter.
    pub closed spec fn redundancies(&self) -> nat {
        self.redundancies as nat
    }

    /// The size of the log file.
    pub closed spec fn log_len(&self) -> nat {
        self.log_len as nat
    }

    /// The live keys, in the order in which they entered the index.
    pub closed spec fn keys(&self) -> Seq<Seq<char>> {
        self.index@.map_values(|s: (String, u64, u64)| s.0@)
    }

    spec fn slot_ok(m: Map<Seq<char>, Entry>, s: (String, u64, u64)) -> bool {
        &&& m.contains_key(s.0@)
        &&& m[s.0@].1 == s.1
        &&& m[s.0@].2 == s.2
        &&& s.2 >= PREFIX_LEN
    }

    /// The index agrees with a replay of the log.
    pub closed spec fn wf(&self) -> bool {
        &&& self.log_len == log_end(self.log@)
        &&& PREFIX_LEN * self.log@.len() <= self.log_len
        &&& self.redundancies <= 2 * self.log@.len()
        &&& total_len(self.index@) <= self.log_len
        &&& forall|i: int, j: int|
            0 <= i < j < self.index@.len() ==> (#[trigger] self.index@[i]).0@ != (
            #[trigger] self.index@[j]).0@
        &&& forall|i: int|
            0 <= i < self.index@.len() ==> Self::slot_ok(replay(self.log@), #[trigger] self.index@[i])
        &&& forall|k: Seq<char>| #[trigger]
            replay(self.log@).contains_key(k) ==> exists|i: int|
                0 <= i < self.index@.len() && (#[trigger] self.index@[i]).0@ == k
    }

    /// An empty store over an empty log.
    pub fn new() -> (r: KvStore)
        ensures
            r.wf(),
            r.log() == Seq::<Entry>::empty(),
            r.redundancies() == 0,
            r.log_len() == 0,
            r@ == Map::<Seq<char>, Seq<char>>::empty(),
    {
        let r = KvStore { index: Vec::new(), redundancies: 0, log_len: 0, log: Ghost(Seq::empty()) };
        assert(r@ =~= Map::<Seq<char>, Seq<char>>::empty());
        r
    }

    fn find(&self, key: &String) -> (r: Option<usize>)
        ensures
            match r {
                Some(i) => i < self.index@.len() && self.index@[i as int].0@ == key@,
                None => forall|i: int| 0 <= i < self.index@.len() ==> self.index@[i].0@ != key@,
            },
    {
        let mut i: usize = 0;
        while i < self.index.len()
            invariant
                i <= self.index@.len(),
                forall|j: int| 0 <= j < i ==> self.index@[j].0@ != key@,
            decreases self.index@.len() - i,
        {
            if self.index[i].0 == *key {
                return Some(i);
            }
            i = i + 1;
        }
        None
    }
    fn record_put(&mut self, key: String, value: String, len: u64)
        requires
            old(self).wf(),
            len >= PREFIX_LEN,
            old(self).log_len + len <= u64::MAX,
        ensures
            final(self).wf(),
            final(self).log@ == old(self).log@.push(
                (MPCommand::Put { key, value }, old(self).log_len as nat, len as nat),
            ),
            final(self).log_len == old(self).log_len + len,
            final(self).redundancies == old(self).redundancies + if old(self)@.contains_key(
                key@,
            ) {
                1int
            } else {
                0int
            },
            final(self).redundancies == old(self).redundancies + redundancy(final(self).log@)
                - redundancy(old(self).log@),
    {
        let ghost e: Entry = (MPCommand::Put { key: key, value: value }, self.log_len as nat, len as nat);
        let ghost old_index = self.index@;
        let ghost old_log = self.log@;
        proof {
            lemma_replay_push(old_log, e);
        }
        let offset = self.log_len;
        let found = self.find(&key);
        match found {
            Some(i) => {
                self.redundancies = self.redundancies + 1;
                proof {
                    lemma_total_update(old_index, i as int, (key, offset, len));
                }
                self.index.set(i, (key, offset, len));
            },
            None => {
                proof {
                    lemma_total_push(old_index, (key, offset, len));
                }
                self.index.push((key, offset, len));
            },
        }
        self.log_len = self.log_len + len;
        self.log = Ghost(old_log.push(e));
        proof {
            let m = replay(self.log@);
            assert(m == replay(old_log).insert(key@, e));
            assert forall|i: int| 0 <= i < self.index@.len() implies Self::slot_ok(
                m,
                #[trigger] self.index@[i],
            ) by {
                if self.index@[i].0@ != key@ {
                    assert(self.index@[i] == old_index[i]);
                }
            }
            assert forall|k: Seq<char>| #[trigger] m.contains_key(k) implies exists|i: int|
                0 <= i < self.index@.len() && (#[trigger] self.index@[i]).0@ == k by {
                if k == key@ {
                    match found {
                        Some(i) => assert(self.index@[i as int].0@ == k),
                        None => assert(self.index@[old_index.len() as int].0@ == k),
                    }
                } else {
                    assert(replay(old_log).contains_key(k));
                    let i = choose|i: int| 0 <= i < old_index.len() && (#[trigger] old_index[i]).0@ == k;
                    assert(self.index@[i] == old_index[i]);
                }
            }
            assert forall|i: int, j: int|
                0 <= i < j < self.index@.len() implies (#[trigger] self.index@[i]).0@ != (
            #[trigger] self.index@[j]).0@ by {
                if j < old_index.len() {
                    if self.index@[i].0@ == key@ || self.index@[j].0@ == key@ {
                    } else {
                        assert(self.index@[i] == old_index[i]);
                        assert(self.index@[j] == old_index[j]);
                    }
                }
            }
            assert(old(self)@.contains_key(key@) == replay(old_log).contains_key(key@));
            assert(old(self)@.contains_key(key@) == found is Some) by {
                if replay(old_log).contains_key(key@) {
                    let i = choose|i: int| 0 <= i < old_index.len() && (#[trigger] old_index[i]).0@ == key@;
                }
            }
        }
    }

    fn record_remove(&mut self, i: usize, key: String, len: u64)
        requires
            old(self).wf(),
            i < old(self).index@.len(),
            old(self).index@[i as int].0@ == key@,
            len >= PREFIX_LEN,
            old(self).log_len + len <= u64::MAX,
        ensures
            final(self).wf(),
            final(self).log@ == old(self).log@.push(
                (MPCommand::Rm { key }, old(self).log_len as nat, len as nat),
            ),
            final(self).log_len == old(self).log_len + len,
            final(self).redundancies == old(self).redundancies + 2,
    {
        let ghost old_index = self.index@;
        let ghost old_log = self.log@;
        proof {
            lemma_total_remove(old_index, i as int);
        }
        let _slot = self.index.remove(i);
        let ghost e: Entry = (MPCommand::Rm { key: key }, self.log_len as nat, len as nat);
        proof {
            lemma_replay_push(old_log, e);
        }
        self.redundancies = self.redundancies + 2;
        self.log_len = self.log_len + len;
        self.log = Ghost(old_log.push(e));
        proof {
            let m = replay(self.log@);
            assert(m == replay(old_log).remove(key@));
            assert forall|j: int| 0 <= j < self.index@.len() implies Self::slot_ok(
                m,
                #[trigger] self.index@[j],
            ) by {
                if j < i {
                    assert(self.index@[j] == old_index[j]);
                    assert(old_index[j].0@ != old_index[i as int].0@);
                } else {
                    assert(self.index@[j] == old_index[j + 1]);
                    assert(old_index[j + 1].0@ != old_index[i as int].0@);
                }
            }
            assert forall|k: Seq<char>| #[trigger] m.contains_key(k) implies exists|j: int|
                0 <= j < self.index@.len() && (#[trigger] self.index@[j]).0@ == k by {
                assert(replay(old_log).contains_key(k));
                let p = choose|p: int| 0 <= p < old_index.len() && (#[trigger] old_index[p]).0@ == k;
                if p < i {
                    assert(self.index@[p] == old_index[p]);
                } else {
                    assert(p != i);
                    assert(self.index@[p - 1] == old_index[p]);
                }
            }
            assert forall|a: int, b: int|
                0 <= a < b < self.index@.len() implies (#[trigger] self.index@[a]).0@ != (
            #[trigger] self.index@[b]).0@ by {
                let a2 = if a < i { a } else { a + 1 };
                let b2 = if b < i { b } else { b + 1 };
                assert(self.index@[a] == old_index[a2]);
                assert(self.index@[b] == old_index[b2]);
            }
        }
    }
    /// Where the record holding `key`'s value lies, or `None` when `key` has
    /// no live value.
    pub fn get(&self, key: String) -> (r: Option<Location>)
        requires
            self.wf(),
        ensures
            r is Some <==> self@.contains_key(key@),
            r matches Some(loc) ==> loc.offset == replay(self.log())[key@].1 && loc.len == replay(
                self.log(),
            )[key@].2,
    {
        match self.find(&key) {
            Some(i) => {
                let loc = Location { offset: self.index[i].1, len: self.index[i].2 };
                Some(loc)
            },
            None => {
                proof {
                    if replay(self.log@).contains_key(key@) {
                        let i = choose|i: int|
                            0 <= i < self.index@.len() && (#[trigger] self.index@[i]).0@ == key@;
                    }
                }
                None
            },
        }
    }

    /// Binds `key` to `value`. `payload` is the encoded `Put` command; the
    /// result is the record to append to the log file and its offset.
    pub fn set(&mut self, key: String, value: String, payload: &[u8]) -> (r: Append)
        requires
            old(self).wf(),
            old(self).log_len() + PREFIX_LEN + payload@.len() <= u64::MAX,
        ensures
            final(self).wf(),
            r.record@ == framed(payload@),
            r.offset == old(self).log_len(),
            final(self).log() == old(self).log().push(
                (MPCommand::Put { key, value }, r.offset as nat, r.record@.len()),
            ),
            final(self).log_len() == old(self).log_len() + r.record@.len(),
            final(self).redundancies() == old(self).redundancies() + if old(self)@.contains_key(
                key@,
            ) {
                1int
            } else {
                0int
            },
            final(self)@ == old(self)@.insert(key@, value@),
            r.compact == (final(self).redundancies() > 3 * final(self).keys().len()),
    {
        let record = frame_record(payload);
        let offset = self.log_len;
        proof {
            lemma_state_push_put(self.log@, key, value, self.log_len as nat, record@.len());
        }
        self.record_put(key, value, record.len() as u64);
        let compact = self.needs_compaction();
        Append { offset, record, compact }
    }

    /// Removes `key`. `payload` is the encoded `Rm` command. Fails with
    /// `KeyNotFound`, leaving the store as it was, when `key` has no live
    /// value.
    pub fn remove(&mut self, key: String, payload: &[u8]) -> (r: Result<Append, KvsError>)
        requires
            old(self).wf(),
            old(self)@.contains_key(key@) ==> old(self).log_len() + PREFIX_LEN + payload@.len()
                <= u64::MAX,
        ensures
            final(self).wf(),
            match r {
                Err(e) => {
                    &&& e == KvsError::KeyNotFound
                    &&& !old(self)@.contains_key(key@)
                    &&& *final(self) == *old(self)
                },
                Ok(a) => {
                    &&& old(self)@.contains_key(key@)
                    &&& a.record@ == framed(payload@)
                    &&& a.offset == old(self).log_len()
                    &&& final(self).log() == old(self).log().push(
                        (MPCommand::Rm { key }, a.offset as nat, a.record@.len()),
                    )
                    &&& final(self).log_len() == old(self).log_len() + a.record@.len()
                    &&& final(self).redundancies() == old(self).redundancies() + 2
                    &&& final(self)@ == old(self)@.remove(key@)
                    &&& a.compact == (final(self).redundancies() > 3 * final(self).keys().len())
                },
            },
    {
        match self.find(&key) {
            None => {
                proof {
                    if replay(self.log@).contains_key(key@) {
                        let i = choose|i: int|
                            0 <= i < self.index@.len() && (#[trigger] self.index@[i]).0@ == key@;
                    }
                }
                Err(KvsError::KeyNotFound)
            },
            Some(i) => {
                proof {
                    assert(Self::slot_ok(replay(self.log@), self.index@[i as int]));
                }
                let record = frame_record(payload);
                let offset = self.log_len;
                proof {
                    lemma_state_push_rm(self.log@, key, self.log_len as nat, record@.len());
                }
                self.record_remove(i, key, record.len() as u64);
                let compact = self.needs_compaction();
                Ok(Append { offset, record, compact })
            },
        }
    }

    /// Whether redundancy has outgrown three times the number of live keys,
    /// the point at which the log is compacted.
    pub fn needs_compaction(&self) -> (r: bool)
        ensures
            r == (self.redundancies() > 3 * self.keys().len()),
    {
        let n = self.index.len() as u64;
        if n > u64::MAX / 3 {
            false
        } else {
            self.redundancies > 3 * n
        }
    }
    fn record_tombstone(&mut self, key: String, len: u64)
        requires
            old(self).wf(),
            !replay(old(self).log@).contains_key(key@),
            len >= PREFIX_LEN,
            old(self).log_len + len <= u64::MAX,
        ensures
            final(self).wf(),
            final(self).log@ == old(self).log@.push(
                (MPCommand::Rm { key }, old(self).log_len as nat, len as nat),
            ),
            final(self).log_len == old(self).log_len + len,
            final(self).redundancies == old(self).redundancies + 2,
    {
        let ghost e: Entry = (MPCommand::Rm { key: key }, self.log_len as nat, len as nat);
        let ghost old_log = self.log@;
        proof {
            lemma_replay_push(old_log, e);
            assert(replay(old_log).remove(key@) =~= replay(old_log));
        }
        self.redundancies = self.redundancies + 2;
        self.log_len = self.log_len + len;
        self.log = Ghost(old_log.push(e));
    }

    /// Rebuilds the index by replaying the records of a log file, in order.
    /// Fails with `CorruptLog` when a record is a `Get`, is shorter than a
    /// length prefix, or would end past the largest `u64` offset.
    pub fn open(records: &Vec<Record>) -> (r: Result<KvStore, KvsError>)
        ensures
            r is Ok <==> replayable(records@),
            match r {
                Ok(s) => {
                    &&& s.wf()
                    &&& s.log() == log_of(records@)
                    &&& s.redundancies() == redundancy(log_of(records@))
                    &&& s.log_len() == log_end(log_of(records@))
                    &&& s@ == state(log_of(records@))
                },
                Err(e) => e == KvsError::CorruptLog,
            },
    {
        let mut store = KvStore::new();
        let mut i: usize = 0;
        while i < records.len()
            invariant
                i <= records@.len(),
                store.wf(),
                store.log@ == log_of(records@.take(i as int)),
                store.redundancies == redundancy(store.log@),
                forall|j: int|
                    0 <= j < i ==> !(#[trigger] records@[j].cmd is Get) && records@[j].len
                        >= PREFIX_LEN,
            decreases records@.len() - i,
        {
            let ghost prev = store.log@;
            let len = records[i].len;
            proof {
                assert(records@.take(i + 1).drop_last() =~= records@.take(i as int));
                assert(records@.take(i + 1).last() == records@[i as int]);
                lemma_log_of_prefix(records@, i + 1);
            }
            if len < PREFIX_LEN as u64 || store.log_len > u64::MAX - len {
                return Err(KvsError::CorruptLog);
            }
            match &records[i].cmd {
                MPCommand::Get { .. } => {
                    return Err(KvsError::CorruptLog);
                },
                MPCommand::Put { key, value } => {
                    proof {
                        lemma_replay_push(prev, (records@[i as int].cmd, prev.len() as nat, 0));
                    }
                    store.record_put(key.clone(), value.clone(), len);
                    proof {
                        lemma_replay_push(prev, store.log@.last());
                        assert(store.log@.drop_last() =~= prev);
                    }
                },
                MPCommand::Rm { key } => {
                    proof {
                        lemma_replay_push(prev, (records@[i as int].cmd, store.log_len as nat, len as nat));
                    }
                    match store.find(key) {
                        Some(p) => store.record_remove(p, key.clone(), len),
                        None => {
                            proof {
                                if replay(prev).contains_key(key@) {
                                    let p = choose|p: int|
                                        0 <= p < store.index@.len() && (
                                        #[trigger] store.index@[p]).0@ == key@;
                                }
                            }
                            store.record_tombstone(key.clone(), len)
                        },
                    }
                },
            }
            i = i + 1;
        }
        proof {
            assert(records@.take(i as int) =~= records@);
        }
        Ok(store)
    }

    /// The locations of the live records, in the order of `keys()`: the
    /// records a compaction copies, one after another, into the new log.
    pub fn compaction_plan(&self) -> (r: Vec<Location>)
        requires
            self.wf(),
        ensures
            r@.len() == self.keys().len(),
            forall|i: int|
                0 <= i < r@.len() ==> (#[trigger] r@[i]).offset == replay(self.log())[self.keys()[i]].1
                    && r@[i].len == replay(self.log())[self.keys()[i]].2,
    {
        let mut r: Vec<Location> = Vec::new();
        let mut i: usize = 0;
        while i < self.index.len()
            invariant
                self.wf(),
                i <= self.index@.len(),
                r@.len() == i,
                forall|j: int|
                    0 <= j < i ==> (#[trigger] r@[j]).offset == self.index@[j].1 && r@[j].len
                        == self.index@[j].2,
            decreases self.index@.len() - i,
        {
            r.push(Location { offset: self.index[i].1, len: self.index[i].2 });
            i = i + 1;
        }
        proof {
            assert forall|j: int| 0 <= j < r@.len() implies (#[trigger] r@[j]).offset == replay(
                self.log(),
            )[self.keys()[j]].1 && r@[j].len == replay(self.log())[self.keys()[j]].2 by {
                assert(Self::slot_ok(replay(self.log@), self.index@[j]));
            }
        }
        r
    }

    /// Compacts the log: installs the log that holds one `Put` per live key,
    /// copied in the order of `compaction_plan()` and laid end to end from
    /// offset 0. Call it once those records have been written and the new
    /// file has replaced the old one. The live state is unchanged, the log is no longer than
    /// before, and the redundancy counter is reset.
    pub fn compact(&mut self)
        requires
            old(self).wf(),
        ensures
            final(self).wf(),
            final(self)@ == old(self)@,
            final(self).redundancies() == 0,
            final(self).log_len() <= old(self).log_len(),
            final(self).keys() == old(self).keys(),
            final(self).log().len() == old(self).keys().len(),
            forall|i: int|
                0 <= i < final(self).log().len() ==> (#[trigger] final(self).log()[i]).0 == replay(
                    old(self).log(),
                )[old(self).keys()[i]].0 && final(self).log()[i].2 == replay(
                    old(self).log(),
                )[old(self).keys()[i]].2,
            forall|i: int|
                0 < i < final(self).log().len() ==> (#[trigger] final(self).log()[i]).1
                    == final(self).log()[i - 1].1 + final(self).log()[i - 1].2,
            final(self).log().len() > 0 ==> final(self).log()[0].1 == 0,
    {
        let ghost old_index = self.index@;
        let ghost old_log = self.log@;
        let ghost m = replay(old_log);
        let mut new_index: Vec<(String, u64, u64)> = Vec::new();
        let mut off: u64 = 0;
        let mut i: usize = 0;
        while i < self.index.len()
            invariant
                self.wf(),
                self.index@ == old_index,
                i <= old_index.len(),
                off == total_len(old_index.take(i as int)),
                total_len(new_index@) == off,
                new_index@.len() == i,
                forall|j: int|
                    0 <= j < i ==> (#[trigger] new_index@[j]).0 == old_index[j].0 && new_index@[j].1
                        == total_len(old_index.take(j)) && new_index@[j].2 == old_index[j].2,
            decreases old_index.len() - i,
        {
            proof {
                lemma_total_take(old_index, i as int);
                lemma_total_push(new_index@, (old_index[i as int].0, off, old_index[i as int].2));
            }
            let len = self.index[i].2;
            new_index.push((self.index[i].0.clone(), off, len));
            off = off + len;
            i = i + 1;
        }
        let ghost n = old_index.len();
        let ghost new_log = Seq::new(
            n,
            |j: int| (m[old_index[j].0@].0, total_len(old_index.take(j)), old_index[j].2 as nat),
        );
        proof {
            assert(old_index.take(n as int) =~= old_index);
            lemma_replay_entries(old_log);
            assert forall|j: int| 0 <= j < n implies (#[trigger] new_log[j]).0 is Put && key_of(
                new_log[j].0,
            ) == old_index[j].0@ by {
                assert(Self::slot_ok(m, old_index[j]));
            }
            assert forall|a: int, b: int| 0 <= a < b < n implies key_of((#[trigger] new_log[a]).0)
                != key_of((#[trigger] new_log[b]).0) by {
                assert(old_index[a].0@ != old_index[b].0@);
            }
            lemma_replay_distinct_puts(new_log);
            if n > 0 {
                lemma_total_take(old_index, n - 1);
                assert(old_index.take(n - 1 + 1) =~= old_index);
            }
            assert forall|j: int| 0 <= j < n implies (#[trigger] old_index[j]).2 >= PREFIX_LEN by {
                assert(Self::slot_ok(m, old_index[j]));
            }
            lemma_total_lower(old_index);
            assert forall|j: int| 0 < j < n implies (#[trigger] new_log[j]).1 == new_log[j - 1].1
                + new_log[j - 1].2 by {
                lemma_total_take(old_index, j - 1);
            }
            assert(n > 0 ==> new_log[0].1 == 0) by {
                if n > 0 {
                    assert(old_index.take(0) =~= Seq::<(String, u64, u64)>::empty());
                }
            }
        }
        self.index = new_index;
        self.log_len = off;
        self.redundancies = 0;
        self.log = Ghost(new_log);
        proof {
            let m2 = replay(new_log);
            assert forall|j: int| 0 <= j < self.index@.len() implies Self::slot_ok(
                m2,
                #[trigger] self.index@[j],
            ) by {
                assert(key_of(new_log[j].0) == self.index@[j].0@);
                assert(Self::slot_ok(m, old_index[j]));
            }
            assert forall|k: Seq<char>| #[trigger] m2.contains_key(k) implies exists|j: int|
                0 <= j < self.index@.len() && (#[trigger] self.index@[j]).0@ == k by {
                let j = choose|j: int| 0 <= j < new_log.len() && key_of((#[trigger] new_log[j]).0) == k;
                assert(self.index@[j].0@ == k);
            }
            assert forall|a: int, b: int|
                0 <= a < b < self.index@.len() implies (#[trigger] self.index@[a]).0@ != (
            #[trigger] self.index@[b]).0@ by {
                assert(old_index[a].0@ != old_index[b].0@);
            }
            assert(self.keys() =~= old(self).keys());
            assert forall|k: Seq<char>| #[trigger] m2.contains_key(k) <==> m.contains_key(k) by {
                if m2.contains_key(k) {
                    let j = choose|j: int| 0 <= j < new_log.len() && key_of((#[trigger] new_log[j]).0) == k;
                    assert(Self::slot_ok(m, old_index[j]));
                }
                if m.contains_key(k) {
                    let j = choose|j: int| 0 <= j < old_index.len() && (#[trigger] old_index[j]).0@ == k;
                    assert(key_of(new_log[j].0) == k);
                }
            }
            assert forall|k: Seq<char>| #[trigger] m2.contains_key(k) implies value_of(m2[k].0)
                == value_of(m[k].0) by {
                let j = choose|j: int| 0 <= j < new_log.len() && key_of((#[trigger] new_log[j]).0) == k;
                assert(key_of(new_log[j].0) == old_index[j].0@);
            }
            assert(state(new_log) =~= state(old_log));
        }
    }
    /// The size of the log file, in bytes.
    pub fn log_size(&self) -> (r: u64)
        ensures
            r == self.log_len(),
    {
        self.log_len
    }

    /// The redundancy counter.
    pub fn redundancy_count(&self) -> (r: u64)
        ensures
            r == self.redundancies(),
    {
        self.redundancies
    }
}

} // verus!
