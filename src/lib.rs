//! A log-structured key-value store: an append-only record log split into
//! segments, an index from keys to the latest record of each key, recovery by
//! replay, and compaction of superseded records.
pub mod buffer;
pub mod codec;
pub mod enums;
pub mod errors;
pub mod kvs;
pub mod log;
pub mod protocol;
pub mod sled;
pub mod text;
pub mod traits;
pub mod utilities;
