//! The alternate engine: an embedded sled database, keyed by the UTF-8
//! bytes of each key.
//!
//! `remove` of an absent key fails with `KeyNotFound`, as in the log
//! engine: sled reports whether the key held a value, and the adapter
//! passes that on.
use vstd::prelude::*;

use crate::error::KvsError;
use crate::server::{utf8, KvsEngine};

verus! {

#[verifier::external_type_specification]
#[verifier::external_body]
pub struct ExDb(sled::Db);

#[verifier::external_type_specification]
#[verifier::external_body]
pub struct ExSledError(sled::Error);

/// What a sled database holds: each key's bytes with its value's bytes.
pub uninterp spec fn db_contents(db: sled::Db) -> Map<Seq<u8>, Seq<u8>>;

/// Relies on sled's `Tree::insert` (reached through `Db`): on success `key`
/// holds `value`; the previous value it hands back is dropped.
#[verifier::external_body]
fn db_insert(db: &mut sled::Db, key: &[u8], value: &[u8]) -> (r: Result<(), sled::Error>)
    ensures
        r is Ok ==> db_contents(*final(db)) == db_contents(*old(db)).insert(key@, value@),
{
    db.insert(key, value).map(|_previous| ())
}

/// Relies on sled's `Tree::get`: the bytes stored under `key`, or `None`
/// when it holds none.
#[verifier::external_body]
fn db_get(db: &sled::Db, key: &[u8]) -> (r: Result<Option<Vec<u8>>, sled::Error>)
    ensures
        r matches Ok(Some(v)) ==> db_contents(*db).contains_key(key@) && db_contents(*db)[key@]
            == v@,
        r matches Ok(None) ==> !db_contents(*db).contains_key(key@),
{
    db.get(key).map(|found| found.map(|v| v.to_vec()))
}

/// Relies on sled's `Tree::remove`: deletes `key`, handing back the bytes it
/// held, or `None` when it held none.
#[verifier::external_body]
fn db_remove(db: &mut sled::Db, key: &[u8]) -> (r: Result<Option<Vec<u8>>, sled::Error>)
    ensures
        r matches Ok(Some(v)) ==> db_contents(*old(db)).contains_key(key@) && db_contents(
            *old(db),
        )[key@] == v@,
        r matches Ok(None) ==> !db_contents(*old(db)).contains_key(key@),
        r is Ok ==> db_contents(*final(db)) == db_contents(*old(db)).remove(key@),
{
    db.remove(key).map(|found| found.map(|v| v.to_vec()))
}

/// Relies on std's `String::from_utf8`: it succeeds exactly on valid UTF-8,
/// and then holds the characters that the bytes encode.
#[verifier::external_body]
fn string_from_utf8(b: Vec<u8>) -> (r: Option<String>)
    ensures
        r matches Some(s) ==> utf8(s@) == b@,
        r is None ==> forall|cs: Seq<char>| utf8(cs) != b@,
{
    String::from_utf8(b).ok()
}

/// What `get` yields for what the database returned: the value decoded as
/// UTF-8, `Encoding` when it is not, `Io` when the database failed.
pub fn stored_value(stored: Result<Option<Vec<u8>>, sled::Error>) -> (r: Result<
    Option<String>,
    KvsError,
>)
    ensures
        match stored {
            Err(_) => r == Err::<Option<String>, KvsError>(KvsError::Io),
            Ok(None) => r == Ok::<Option<String>, KvsError>(None),
            Ok(Some(b)) => match r {
                Ok(Some(s)) => utf8(s@) == b@,
                Ok(None) => false,
                Err(e) => e == KvsError::Encoding && forall|cs: Seq<char>| utf8(cs) != b@,
            },
        },
{
    match stored {
        Err(_) => Err(KvsError::Io),
        Ok(None) => Ok(None),
        Ok(Some(b)) => match string_from_utf8(b) {
            Some(s) => Ok(Some(s)),
            None => Err(KvsError::Encoding),
        },
    }
}

/// What `remove` yields for what the database returned: success when the
/// key held a value, `KeyNotFound` when it held none, `Io` when the
/// database failed.
pub fn removed_outcome(stored: Result<Option<Vec<u8>>, sled::Error>) -> (r: Result<(), KvsError>)
    ensures
        match stored {
            Err(_) => r == Err::<(), KvsError>(KvsError::Io),
            Ok(None) => r == Err::<(), KvsError>(KvsError::KeyNotFound),
            Ok(Some(_)) => r == Ok::<(), KvsError>(()),
        },
{
    match stored {
        Err(_) => Err(KvsError::Io),
        Ok(None) => Err(KvsError::KeyNotFound),
        Ok(Some(_)) => Ok(()),
    }
}

/// An engine over an opened sled database, which it alone writes to.
pub struct SledEngine {
    db: sled::Db,
}

impl SledEngine {
    /// What the database holds.
    pub closed spec fn contents(&self) -> Map<Seq<u8>, Seq<u8>> {
        db_contents(self.db)
    }

    /// An engine over `db`.
    pub fn new(db: sled::Db) -> (r: SledEngine)
        ensures
            r.contents() == db_contents(db),
    {
        SledEngine { db }
    }
}

impl KvsEngine for SledEngine {
    /// Stores `value`'s bytes under `key`'s bytes; a failed insert is `Io`.
    fn set(&mut self, key: String, value: String) -> (r: Result<(), KvsError>)
        ensures
            match r {
                Ok(()) => final(self).contents() == old(self).contents().insert(
                    utf8(key@),
                    utf8(value@),
                ),
                Err(e) => e == KvsError::Io,
            },
    {
        match db_insert(&mut self.db, key.as_str().as_bytes(), value.as_str().as_bytes()) {
            Ok(()) => Ok(()),
            Err(_) => Err(KvsError::Io),
        }
    }

    /// The value stored under `key`'s bytes, decoded as UTF-8; `Encoding`
    /// when it is not valid UTF-8, `Io` when the database failed.
    fn get(&mut self, key: String) -> (r: Result<Option<String>, KvsError>)
        ensures
            final(self).contents() == old(self).contents(),
            match r {
                Ok(Some(v)) => old(self).contents().contains_key(utf8(key@)) && old(
                    self,
                ).contents()[utf8(key@)] == utf8(v@),
                Ok(None) => !old(self).contents().contains_key(utf8(key@)),
                Err(e) => e == KvsError::Io || (e == KvsError::Encoding && old(
                    self,
                ).contents().contains_key(utf8(key@)) && forall|cs: Seq<char>|
                    #[trigger] utf8(cs) != old(self).contents()[utf8(key@)]),
            },
    {
        stored_value(db_get(&self.db, key.as_str().as_bytes()))
    }

    /// Deletes `key`; `KeyNotFound` when it held no value, as in the log
    /// engine; `Io` when the database failed.
    fn remove(&mut self, key: String) -> (r: Result<(), KvsError>)
        ensures
            match r {
                Ok(()) => old(self).contents().contains_key(utf8(key@)) && final(self).contents()
                    == old(self).contents().remove(utf8(key@)),
                Err(KvsError::KeyNotFound) => !old(self).contents().contains_key(utf8(key@))
                    && final(self).contents() == old(self).contents(),
                Err(e) => e == KvsError::Io,
            },
    {
        let found = db_remove(&mut self.db, key.as_str().as_bytes());
        proof {
            if found is Ok && !(found matches Ok(Some(_))) {
                assert(db_contents(self.db) =~= db_contents(old(self).db));
            }
        }
        removed_outcome(found)
    }
}

} // verus!
