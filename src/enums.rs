//! The commands and responses that the store and its server exchange.
use crate::errors::InvalidEngine;
use crate::text::str_eq;
use vstd::prelude::*;

verus! {

/// A durable record of the log: a write of a value, or a tombstone.
#[derive(Debug)]
pub enum WriteCommand {
    Put(String, String),
    Remove(String),
}

/// What a `WriteCommand` holds, as character sequences.
pub enum CommandView {
    Put(Seq<char>, Seq<char>),
    Remove(Seq<char>),
}

impl CommandView {
    /// The key that the record is about.
    pub open spec fn key(self) -> Seq<char> {
        match self {
            CommandView::Put(k, _) => k,
            CommandView::Remove(k) => k,
        }
    }
}

impl View for WriteCommand {
    type V = CommandView;

    open spec fn view(&self) -> CommandView {
        match self {
            WriteCommand::Put(k, v) => CommandView::Put(k@, v@),
            WriteCommand::Remove(k) => CommandView::Remove(k@),
        }
    }
}

impl WriteCommand {
    /// The key of the record.
    pub fn key(&self) -> (r: &String)
        ensures
            r@ == self@.key(),
    {
        match self {
            WriteCommand::Put(k, _) => k,
            WriteCommand::Remove(k) => k,
        }
    }
}

/// A request of the wire protocol, parsed.
#[derive(Debug)]
pub enum KvsCommand {
    Put(String, String),
    Get(String),
    Remove(String),
}

/// What a `KvsCommand` holds, as character sequences.
pub enum KvsCommandView {
    Put(Seq<char>, Seq<char>),
    Get(Seq<char>),
    Remove(Seq<char>),
}

impl View for KvsCommand {
    type V = KvsCommandView;

    open spec fn view(&self) -> KvsCommandView {
        match self {
            KvsCommand::Put(k, v) => KvsCommandView::Put(k@, v@),
            KvsCommand::Get(k) => KvsCommandView::Get(k@),
            KvsCommand::Remove(k) => KvsCommandView::Remove(k@),
        }
    }
}

/// A response of the wire protocol.
#[derive(Debug)]
pub enum KvsResponse {
    Success,
    NotFound,
    BadNotFound,
    Message(String),
}

/// The storage engines.
#[derive(Debug, Clone, Copy, PartialEq, Eq, Structural)]
pub enum KvsEngineType {
    KvStore,
    Sled,
}

/// The file extension of the log-structured engine's segments.
pub const KVS_EXT: &'static str = "kvs";

/// The extension that marks the embedded engine.
pub const SLED_EXT: &'static str = "sled";

/// The characters `kvs`.
pub open spec fn kvs_name() -> Seq<char> {
    seq!['k', 'v', 's']
}

/// The characters `sled`.
pub open spec fn sled_name() -> Seq<char> {
    seq!['s', 'l', 'e', 'd']
}

/// The engine that a name selects.
pub open spec fn engine_named(name: Seq<char>) -> Option<KvsEngineType> {
    if name == kvs_name() {
        Some(KvsEngineType::KvStore)
    } else if name == sled_name() {
        Some(KvsEngineType::Sled)
    } else {
        None
    }
}

impl KvsEngineType {
    /// The engine named `value`: `kvs` or `sled`; any other name is an error
    /// that carries it.
    pub fn try_from(value: &str) -> (r: Result<KvsEngineType, InvalidEngine>)
        ensures
            match r {
                Ok(e) => engine_named(value@) == Some(e),
                Err(InvalidEngine(name)) => engine_named(value@) is None && name@ == value@,
            },
    {
        proof {
            reveal_strlit("kvs");
            reveal_strlit("sled");
            assert(KVS_EXT@ =~= kvs_name());
            assert(SLED_EXT@ =~= sled_name());
        }
        if str_eq(value, KVS_EXT) {
            Ok(KvsEngineType::KvStore)
        } else if str_eq(value, SLED_EXT) {
            Ok(KvsEngineType::Sled)
        } else {
            Err(InvalidEngine(value.to_owned()))
        }
    }

    /// The extension of the engine's files.
    pub fn extension(&self) -> (r: &'static str)
        ensures
            r@ == match self {
                KvsEngineType::KvStore => kvs_name(),
                KvsEngineType::Sled => sled_name(),
            },
    {
        proof {
            reveal_strlit("kvs");
            reveal_strlit("sled");
        }
        match self {
            KvsEngineType::KvStore => KVS_EXT,
            KvsEngineType::Sled => SLED_EXT,
        }
    }
}

} // verus!
