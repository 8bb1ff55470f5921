//! The capability set that every storage engine offers.
use crate::errors::KvsError;
use crate::kvs::KvStore;
use crate::sled::SledStore;
use vstd::prelude::*;

verus! {

/// An error that reports a key with no value.
pub open spec fn absence_error(e: KvsError) -> bool {
    e is NotFound || e is Command
}

/// A key-value storage engine.
pub trait KvsEngine {
    /// The key-value map that the engine holds.
    spec fn entries(&self) -> Map<Seq<char>, Seq<char>>;

    /// The engine's invariant.
    spec fn ready(&self) -> bool;

    /// Whether `set(key, value)` is owed success: nothing outside decides it.
    spec fn set_owed(&self, key: Seq<char>, value: Seq<char>) -> bool;

    /// Whether `get(key)` is owed success.
    spec fn get_owed(&self, key: Seq<char>) -> bool;

    /// Whether `remove(key)` is owed success.
    spec fn remove_owed(&self, key: Seq<char>) -> bool;

    /// The errors that the engine may report.
    spec fn allowed_error(&self, e: KvsError) -> bool;

    /// Whether the engine decides all its errors itself: an error then leaves
    /// the entries as they were, and removing an absent key reports it.
    spec fn exact_errors(&self) -> bool;

    /// Sets `key` to `value`.
    fn set(&mut self, key: String, value: String) -> (r: Result<(), KvsError>)
        requires
            old(self).ready(),
        ensures
            final(self).ready(),
            r is Ok ==> final(self).entries() == old(self).entries().insert(key@, value@),
            old(self).set_owed(key@, value@) ==> r is Ok,
            r matches Err(e) ==> old(self).allowed_error(e),
            old(self).exact_errors() && r is Err ==> final(self).entries() == old(self).entries(),
    ;

    /// The value of `key`, if it has one.
    fn get(&mut self, key: String) -> (r: Result<Option<String>, KvsError>)
        requires
            old(self).ready(),
        ensures
            final(self).ready(),
            final(self).entries() == old(self).entries(),
            r matches Ok(Some(v)) ==> old(self).entries().contains_key(key@)
                && old(self).entries()[key@] == v@,
            r matches Ok(None) ==> !old(self).entries().contains_key(key@),
            old(self).get_owed(key@) ==> r is Ok,
            r matches Err(e) ==> old(self).allowed_error(e),
    ;

    /// Removes `key`; an error where it has no value.
    fn remove(&mut self, key: String) -> (r: Result<(), KvsError>)
        requires
            old(self).ready(),
        ensures
            final(self).ready(),
            r is Ok ==> old(self).entries().contains_key(key@) && final(self).entries() == old(
                self,
            ).entries().remove(key@),
            !old(self).entries().contains_key(key@) ==> r is Err,
            (r matches Err(e) && absence_error(e)) ==> !old(self).entries().contains_key(key@)
                && final(self).entries() == old(self).entries(),
            old(self).exact_errors() && !old(self).entries().contains_key(key@) ==> (r matches Err(
                e,
            ) && absence_error(e)),
            old(self).exact_errors() && r is Err ==> final(self).entries() == old(self).entries(),
            old(self).remove_owed(key@) ==> r is Ok,
            r matches Err(e) ==> old(self).allowed_error(e),
    ;
}

/// The engine that a server runs, chosen when it starts.
pub enum Engine {
    Kvs(KvStore),
    Sled(SledStore),
}

impl KvsEngine for Engine {
    open spec fn entries(&self) -> Map<Seq<char>, Seq<char>> {
        match self {
            Engine::Kvs(e) => e.entries(),
            Engine::Sled(e) => e.entries(),
        }
    }

    open spec fn ready(&self) -> bool {
        match self {
            Engine::Kvs(e) => e.ready(),
            Engine::Sled(e) => e.ready(),
        }
    }

    open spec fn set_owed(&self, key: Seq<char>, value: Seq<char>) -> bool {
        match self {
            Engine::Kvs(s) => s.set_owed(key, value),
            Engine::Sled(s) => s.set_owed(key, value),
        }
    }

    open spec fn get_owed(&self, key: Seq<char>) -> bool {
        match self {
            Engine::Kvs(s) => s.get_owed(key),
            Engine::Sled(s) => s.get_owed(key),
        }
    }

    open spec fn remove_owed(&self, key: Seq<char>) -> bool {
        match self {
            Engine::Kvs(s) => s.remove_owed(key),
            Engine::Sled(s) => s.remove_owed(key),
        }
    }

    open spec fn allowed_error(&self, e: KvsError) -> bool {
        match self {
            Engine::Kvs(s) => s.allowed_error(e),
            Engine::Sled(s) => s.allowed_error(e),
        }
    }

    open spec fn exact_errors(&self) -> bool {
        match self {
            Engine::Kvs(s) => s.exact_errors(),
            Engine::Sled(s) => s.exact_errors(),
        }
    }

    fn set(&mut self, key: String, value: String) -> (r: Result<(), KvsError>) {
        match self {
            Engine::Kvs(e) => KvsEngine::set(e, key, value),
            Engine::Sled(e) => KvsEngine::set(e, key, value),
        }
    }

    fn get(&mut self, key: String) -> (r: Result<Option<String>, KvsError>) {
        match self {
            Engine::Kvs(e) => KvsEngine::get(e, key),
            Engine::Sled(e) => KvsEngine::get(e, key),
        }
    }

    fn remove(&mut self, key: String) -> (r: Result<(), KvsError>) {
        match self {
            Engine::Kvs(e) => KvsEngine::remove(e, key),
            Engine::Sled(e) => KvsEngine::remove(e, key),
        }
    }
}

} // verus!
