//! The alternative engine: a wrapper over the sled embedded database.
use crate::codec::string_from_utf8;
use crate::enums::KvsEngineType;
use crate::errors::{KvsError, KvsNotFound};
use crate::traits::KvsEngine;
use crate::utilities::{check_engine_dir, foreign_files, views};
use vstd::prelude::*;
use vstd::utf8::{decode_utf8, encode_utf8, valid_utf8};

verus! {

broadcast use {vstd::utf8::encode_utf8_decode_utf8, vstd::utf8::encode_utf8_valid_utf8};

/// The embedded database, opaque to the proofs.
#[verifier::external_type_specification]
#[verifier::external_body]
pub struct ExDb(::sled::Db);

/// The embedded database's error, opaque to the proofs.
#[verifier::external_type_specification]
#[verifier::external_body]
pub struct ExSledError(::sled::Error);

/// The key-value pairs that a database holds, as bytes.
pub uninterp spec fn sled_contents(db: ::sled::Db) -> Map<Seq<u8>, Seq<u8>>;

/// Relies on `sled::open`: opens, or creates, the database in the directory
/// `path`. What it then holds depends on the disk, so nothing is stated.
#[verifier::external_body]
fn sled_open(path: &str) -> (r: Result<::sled::Db, ::sled::Error>) {
    ::sled::open(path)
}

/// Relies on `sled::Tree::insert`: on success the key maps to the value and
/// every other key is as it was.
#[verifier::external_body]
fn sled_insert(db: &mut ::sled::Db, key: &[u8], value: &[u8]) -> (r: Result<(), ::sled::Error>)
    ensures
        r is Ok ==> sled_contents(*final(db)) == sled_contents(*old(db)).insert(key@, value@),
{
    db.insert(key, value).map(|_| ())
}

/// Relies on `sled::Tree::get`: on success, the value of the key, if any.
#[verifier::external_body]
fn sled_get(db: &::sled::Db, key: &[u8]) -> (r: Result<Option<Vec<u8>>, ::sled::Error>)
    ensures
        r matches Ok(Some(v)) ==> sled_contents(*db).contains_key(key@) && sled_contents(*db)[key@]
            == v@,
        r matches Ok(None) ==> !sled_contents(*db).contains_key(key@),
{
    db.get(key).map(|o| o.map(|v| v.to_vec()))
}

/// Relies on `sled::Tree::remove`: on success, whether the key had a value,
/// and the key no longer has one.
#[verifier::external_body]
fn sled_remove(db: &mut ::sled::Db, key: &[u8]) -> (r: Result<bool, ::sled::Error>)
    ensures
        r matches Ok(b) ==> b == sled_contents(*old(db)).contains_key(key@) && sled_contents(
            *final(db),
        ) == sled_contents(*old(db)).remove(key@),
{
    db.remove(key).map(|o| o.is_some())
}

/// The engine over the embedded database. Keys and values are stored as their
/// UTF-8 bytes.
pub struct SledStore(pub ::sled::Db);

/// The text entries that byte contents stand for: each key whose UTF-8 bytes
/// are stored, with the text of the stored bytes.
pub open spec fn text_entries(contents: Map<Seq<u8>, Seq<u8>>) -> Map<Seq<char>, Seq<char>> {
    Map::new(
        |k: Seq<char>| contents.contains_key(encode_utf8(k)),
        |k: Seq<char>| decode_utf8(contents[encode_utf8(k)]),
    )
}

/// The text of stored bytes: an error where they are not UTF-8.
pub fn convert_ivec_to_string(bytes: Vec<u8>) -> (r: Result<String, KvsError>)
    ensures
        r matches Ok(s) ==> s@ == decode_utf8(bytes@) && valid_utf8(bytes@),
        r is Err <==> !valid_utf8(bytes@),
        r is Err ==> r matches Err(KvsError::InvalidUtf8),
{
    let ghost b = bytes@;
    match string_from_utf8(bytes) {
        Some(s) => {
            assert(decode_utf8(encode_utf8(s@)) == s@);
            Ok(s)
        },
        None => Err(KvsError::InvalidUtf8),
    }
}

impl SledStore {
    /// Opens the embedded engine in the directory `path`, whose file names are
    /// `names`: fails with a mismatch, before opening anything, where the
    /// directory holds segment files of the log-structured engine.
    pub fn open(path: &str, names: &Vec<String>) -> (r: Result<SledStore, KvsError>)
        ensures
            (r matches Err(KvsError::Mismatch(_))) <==> foreign_files(
                KvsEngineType::Sled,
                views(names@),
            ),
            r is Err ==> (r matches Err(KvsError::Mismatch(_))) || (r matches Err(KvsError::Sled(_))),
    {
        match check_engine_dir(KvsEngineType::Sled, names) {
            Err(m) => Err(KvsError::Mismatch(m)),
            Ok(()) => match sled_open(path) {
                Ok(db) => Ok(SledStore(db)),
                Err(e) => Err(KvsError::Sled(e)),
            },
        }
    }
}

impl KvsEngine for SledStore {
    open spec fn entries(&self) -> Map<Seq<char>, Seq<char>> {
        text_entries(sled_contents(self.0))
    }

    open spec fn ready(&self) -> bool {
        true
    }

    open spec fn set_owed(&self, key: Seq<char>, value: Seq<char>) -> bool {
        false
    }

    open spec fn get_owed(&self, key: Seq<char>) -> bool {
        false
    }

    open spec fn remove_owed(&self, key: Seq<char>) -> bool {
        false
    }

    open spec fn allowed_error(&self, e: KvsError) -> bool {
        e is Sled || e is InvalidUtf8 || e is NotFound
    }

    open spec fn exact_errors(&self) -> bool {
        false
    }

    fn set(&mut self, key: String, value: String) -> (r: Result<(), KvsError>) {
        let ghost before = sled_contents(self.0);
        match sled_insert(&mut self.0, key.as_str().as_bytes(), value.as_str().as_bytes()) {
            Ok(()) => {
                proof {
                    let after = sled_contents(self.0);
                    assert forall|k: Seq<char>| #[trigger] text_entries(after).contains_key(k)
                        <==> text_entries(before).insert(key@, value@).contains_key(k) by {
                        if k != key@ {
                            assert(decode_utf8(encode_utf8(k)) == k);
                            assert(decode_utf8(encode_utf8(key@)) == key@);
                        }
                    }
                    assert forall|k: Seq<char>| #[trigger] text_entries(after).contains_key(k)
                        implies text_entries(after)[k] == text_entries(before).insert(key@, value@)[k] by {
                        if k != key@ {
                            assert(decode_utf8(encode_utf8(k)) == k);
                            assert(decode_utf8(encode_utf8(key@)) == key@);
                        }
                    }
                    assert(text_entries(after) =~= text_entries(before).insert(key@, value@));
                }
                Ok(())
            },
            Err(e) => Err(KvsError::Sled(e)),
        }
    }

    fn get(&mut self, key: String) -> (r: Result<Option<String>, KvsError>) {
        match sled_get(&self.0, key.as_str().as_bytes()) {
            Ok(Some(bytes)) => match convert_ivec_to_string(bytes) {
                Ok(s) => Ok(Some(s)),
                Err(e) => Err(e),
            },
            Ok(None) => Ok(None),
            Err(e) => Err(KvsError::Sled(e)),
        }
    }

    fn remove(&mut self, key: String) -> (r: Result<(), KvsError>) {
        let ghost before = sled_contents(self.0);
        match sled_remove(&mut self.0, key.as_str().as_bytes()) {
            Ok(true) => {
                proof {
                    let after = sled_contents(self.0);
                    assert forall|k: Seq<char>| #[trigger] text_entries(after).contains_key(k)
                        <==> text_entries(before).remove(key@).contains_key(k) by {
                        if k != key@ {
                            assert(decode_utf8(encode_utf8(k)) == k);
                            assert(decode_utf8(encode_utf8(key@)) == key@);
                        }
                    }
                    assert(text_entries(after) =~= text_entries(before).remove(key@));
                }
                Ok(())
            },
            Ok(false) => {
                proof {
                    assert(sled_contents(self.0) =~= before);
                }
                Err(KvsError::NotFound(KvsNotFound))
            },
            Err(e) => Err(KvsError::Sled(e)),
        }
    }
}

} // verus!
