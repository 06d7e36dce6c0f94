//! The external embedded-database engine: a thin adapter over a `sled`
//! tree, mapping `set`/`get`/`remove` onto its byte-oriented operations and
//! surfacing UTF-8 conversion failures as engine errors.
//!
//! The tree's contents are modelled by the uninterpreted `sled_kv`: the
//! mapping of the pairs whose values decode as UTF-8 text. Each trusted
//! wrapper states over that model only what `sled`'s documentation gives.

use vstd::prelude::*;

use crate::engine::KvsEngine;
use crate::err::Error;

verus! {

/// The name of the sled directory inside a working directory.
pub const DEFAULT_FILE_NAME: &'static str = "sled.db";

#[verifier::external_type_specification]
#[verifier::external_body]
pub struct ExDb(sled::Db);

/// The text mapping a sled tree holds: its pairs with UTF-8 keys and
/// values, decoded.
pub uninterp spec fn sled_kv(db: sled::Db) -> Map<Seq<char>, Seq<char>>;

/// Relies on `sled::open`: opens the tree rooted at the path, creating the
/// storage directory if it is absent. What the tree holds comes from disk,
/// so nothing is assumed of the contents.
#[verifier::external_body]
fn sled_open(path: &String) -> (r: Result<sled::Db, Error>) {
    match sled::open(path.as_str()) {
        Ok(db) => Ok(db),
        Err(e) => Err(Error::Whatever { message: e.to_string() }),
    }
}

/// Relies on `sled::Tree::insert` (through `Db`'s deref): inserts the key
/// with the new value, returning the last value if one was set.
#[verifier::external_body]
fn sled_insert(db: &mut sled::Db, key: &String, value: &String) -> (r: Result<(), Error>)
    ensures
        r is Ok ==> sled_kv(*final(db)) == sled_kv(*old(db)).insert(key@, value@),
{
    match db.insert(key.as_str(), value.as_str().as_bytes()) {
        Ok(_) => Ok(()),
        Err(e) => Err(Error::Whatever { message: e.to_string() }),
    }
}

/// Relies on `sled::Tree::get`: retrieves the value for the key if it
/// exists. A value that is not UTF-8 text is reported as an error.
#[verifier::external_body]
fn sled_get(db: &sled::Db, key: &String) -> (r: Result<Option<String>, Error>)
    ensures
        r matches Ok(v) ==> (v matches Some(s) ==> sled_kv(*db).contains_key(key@) && s@ == sled_kv(
            *db,
        )[key@]) && (v is None ==> !sled_kv(*db).contains_key(key@)),
{
    match db.get(key.as_str()) {
        Ok(Some(ivec)) => match String::from_utf8(ivec.to_vec()) {
            Ok(value) => Ok(Some(value)),
            Err(e) => Err(Error::Whatever { message: e.to_string() }),
        },
        Ok(None) => Ok(None),
        Err(e) => Err(Error::Whatever { message: e.to_string() }),
    }
}

/// Relies on `sled::Tree::remove`: deletes the value for the key, returning
/// the old value if it existed. A removed value that is not UTF-8 text is
/// reported as an error, though the deletion has happened.
#[verifier::external_body]
fn sled_remove(db: &mut sled::Db, key: &String) -> (r: Result<Option<String>, Error>)
    ensures
        r matches Ok(v) ==> sled_kv(*final(db)) == sled_kv(*old(db)).remove(key@) && (
        v matches Some(s) ==> sled_kv(*old(db)).contains_key(key@) && s@ == sled_kv(*old(db))[key@])
            && (v is None ==> !sled_kv(*old(db)).contains_key(key@)),
{
    match db.remove(key.as_str()) {
        Ok(Some(ivec)) => match String::from_utf8(ivec.to_vec()) {
            Ok(value) => Ok(Some(value)),
            Err(e) => Err(Error::Whatever { message: e.to_string() }),
        },
        Ok(None) => Ok(None),
        Err(e) => Err(Error::Whatever { message: e.to_string() }),
    }
}

/// A handle to an externally-owned sorted store rooted at a fixed path;
/// reads and writes pass straight through.
pub struct SledStore {
    file_path: Option<String>,
    db: Option<sled::Db>,
}

impl SledStore {
    /// Whether the handle is bound to an open tree. A fresh handle is not;
    /// every operation on it fails until `open` binds one.
    pub closed spec fn spec_connected(&self) -> bool {
        self.db is Some
    }

    /// An unbound handle.
    pub fn new() -> (r: Self)
        ensures
            !r.spec_connected(),
    {
        SledStore { file_path: None, db: None }
    }

    /// Opens (or creates) the store under `working_dir`, at its fixed file
    /// name.
    pub fn open(working_dir: &String) -> (r: Result<SledStore, Error>)
        ensures
            r matches Ok(s) ==> s.spec_connected(),
    {
        let mut file_path = working_dir.clone();
        file_path.append("/");
        file_path.append(DEFAULT_FILE_NAME);
        let db = match sled_open(&file_path) {
            Ok(db) => db,
            Err(e) => {
                return Err(e);
            },
        };
        Ok(SledStore { file_path: Some(file_path), db: Some(db) })
    }
}

impl KvsEngine for SledStore {
    open spec fn inv(&self) -> bool {
        true
    }

    closed spec fn kv(&self) -> Map<Seq<char>, Seq<char>> {
        if self.db is Some {
            sled_kv(self.db->Some_0)
        } else {
            Map::empty()
        }
    }

    open spec fn reliable(&self) -> bool {
        false
    }

    open spec fn spec_name(&self) -> Seq<char> {
        "sled"@
    }

    fn set(&mut self, key: String, value: String) -> (r: Result<(), Error>) {
        match &mut self.db {
            Some(db) => sled_insert(db, &key, &value),
            None => Err(Error::Whatever { message: String::from_str("Sled store not initialized") }),
        }
    }

    fn get(&self, key: String) -> (r: Result<Option<String>, Error>) {
        match &self.db {
            Some(db) => sled_get(db, &key),
            None => Err(Error::Whatever { message: String::from_str("Sled store not initialized") }),
        }
    }

    fn remove(&mut self, key: String) -> (r: Result<Option<String>, Error>) {
        match &mut self.db {
            Some(db) => sled_remove(db, &key),
            None => Err(Error::Whatever { message: String::from_str("Sled store not initialized") }),
        }
    }

    fn name(&self) -> (r: &'static str) {
        "sled"
    }
}

} // verus!
