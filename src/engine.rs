//! The operations that a server needs of a store, and the store that sled,
//! an embedded B-tree database, provides.
use vstd::prelude::*;
use vstd::utf8::{decode_utf8, valid_utf8};
use crate::error::KvsError;

verus! {

/// A key-value store behind a server.
pub trait KvsEngine {
    /// Gives `key` the value `value`.
    fn set(&self, key: String, value: String) -> Result<(), KvsError>;

    /// The value of `key`; `None` where the key has none.
    fn get(&self, key: String) -> Result<Option<String>, KvsError>;

    /// Drops `key`; `KeyNotFound` where the key has no value.
    fn remove(&self, key: String) -> Result<(), KvsError>;
}

#[verifier::external_type_specification]
#[verifier::external_body]
pub struct ExDb(sled::Db);

#[verifier::external_type_specification]
#[verifier::external_body]
pub struct ExSledError(sled::Error);

/// Relies on sled::Tree::insert: stores the value's bytes under the key's.
#[verifier::external_body]
fn db_insert(db: &sled::Db, key: &str, value: &str) -> (r: Result<(), sled::Error>) {
    db.insert(key, value.as_bytes()).map(|_| ())
}

/// Relies on sled::Tree::flush: writes the dirty buffers to disk.
#[verifier::external_body]
fn db_flush(db: &sled::Db) -> (r: Result<(), sled::Error>) {
    db.flush().map(|_| ())
}

/// Relies on sled::Tree::get: the bytes stored under the key, if any.
#[verifier::external_body]
fn db_get(db: &sled::Db, key: &str) -> (r: Result<Option<Vec<u8>>, sled::Error>) {
    db.get(key).map(|o| o.map(|v| v.to_vec()))
}

/// Relies on sled::Tree::remove: drops the key and hands back the bytes that
/// were stored under it, if any.
#[verifier::external_body]
fn db_remove(db: &sled::Db, key: &str) -> (r: Result<Option<Vec<u8>>, sled::Error>) {
    db.remove(key).map(|o| o.map(|v| v.to_vec()))
}

/// Relies on String::from_utf8: the text of bytes that are valid UTF-8.
#[verifier::external_body]
fn utf8_string(b: Vec<u8>) -> (r: Option<String>)
    ensures
        match r {
            Some(s) => valid_utf8(b@) && s@ == decode_utf8(b@),
            None => !valid_utf8(b@),
        },
{
    String::from_utf8(b).ok()
}

/// The value of a lookup that found `found`: absent, or stored bytes that
/// must be UTF-8.
pub fn found_value(found: Option<Vec<u8>>) -> (r: Result<Option<String>, KvsError>)
    ensures
        match found {
            None => r == Ok::<Option<String>, KvsError>(None),
            Some(b) => if valid_utf8(b@) {
                r is Ok && r->Ok_0 is Some && r->Ok_0->Some_0@ == decode_utf8(b@)
            } else {
                r == Err::<Option<String>, KvsError>(KvsError::Parse)
            },
        },
{
    match found {
        None => Ok(None),
        Some(b) => match utf8_string(b) {
            Some(s) => Ok(Some(s)),
            None => Err(KvsError::Parse),
        },
    }
}

/// The outcome of a removal that found `found`: `KeyNotFound` where nothing
/// was stored under the key.
pub fn removal_outcome(found: &Option<Vec<u8>>) -> (r: Result<(), KvsError>)
    ensures
        r == (if found is Some {
            Ok::<(), KvsError>(())
        } else {
            Err::<(), KvsError>(KvsError::KeyNotFound)
        }),
{
    match found {
        Some(_) => Ok(()),
        None => Err(KvsError::KeyNotFound),
    }
}

/// A store kept in a sled database; every write is flushed.
pub struct SledKvsEngine {
    db: sled::Db,
}

impl SledKvsEngine {
    pub closed spec fn spec_db(&self) -> sled::Db {
        self.db
    }

    /// A store over an opened database.
    pub fn new(db: sled::Db) -> (r: SledKvsEngine)
        ensures
            r.spec_db() == db,
    {
        SledKvsEngine { db }
    }
}

impl KvsEngine for SledKvsEngine {
    /// Fails only with `Io`, where sled fails to store or flush.
    fn set(&self, key: String, value: String) -> (r: Result<(), KvsError>)
        ensures
            r is Err ==> r->Err_0 == KvsError::Io,
    {
        match db_insert(&self.db, key.as_str(), value.as_str()) {
            Err(_) => Err(KvsError::Io),
            Ok(()) => match db_flush(&self.db) {
                Err(_) => Err(KvsError::Io),
                Ok(()) => Ok(()),
            },
        }
    }

    /// Fails with `Io` where sled fails, and with `Parse` where the stored
    /// bytes are not UTF-8.
    fn get(&self, key: String) -> (r: Result<Option<String>, KvsError>)
        ensures
            r is Err ==> (r->Err_0 == KvsError::Io || r->Err_0 == KvsError::Parse),
    {
        match db_get(&self.db, key.as_str()) {
            Err(_) => Err(KvsError::Io),
            Ok(found) => found_value(found),
        }
    }

    /// Fails with `KeyNotFound` where sled held nothing under the key, and
    /// with `Io` where sled fails to remove or flush.
    fn remove(&self, key: String) -> (r: Result<(), KvsError>)
        ensures
            r is Err ==> (r->Err_0 == KvsError::Io || r->Err_0 == KvsError::KeyNotFound),
    {
        match db_remove(&self.db, key.as_str()) {
            Err(_) => Err(KvsError::Io),
            Ok(found) => {
                let r = removal_outcome(&found);
                if r.is_err() {
                    return r;
                }
                match db_flush(&self.db) {
                    Err(_) => Err(KvsError::Io),
                    Ok(()) => Ok(()),
                }
            },
        }
    }
}

} // verus!
