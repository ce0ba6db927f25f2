//! HyperionDB: a sharded, in-memory store of JSON documents with secondary
//! indexes and a line protocol, verified with Verus.
//!
//! * [`router`] deals keys out to shards by a hash.
//! * [`json`] reads documents (`serde_json::Value`): members, strings,
//!   numbers, dotted paths.
//! * [`utils`] flattens a document into its leaves by dotted path.
//! * [`number`] turns a decimal text into the integer that numeric indexes
//!   are ordered by.
//! * [`index`] holds the indexes, answers conditions from them and keeps
//!   them in step with the records.
//! * [`shard`] is one partition of the records, a `dashmap::DashMap`.
//! * [`storage`] encodes and decodes the write-ahead log and the snapshots.
//! * [`hyperion_db`] is the store: inserts, deletes, lookups, listings,
//!   queries and recovery, with the invariant that ties shards and indexes
//!   together.
//! * [`handler`] is the protocol: the predicate language of queries and the
//!   dispatcher of commands.
//! * [`laws`] states what holds of every store.
//!
//! The library does no input or output. A change that must reach the disk
//! comes back from the operation as a [`storage::FileWrite`]; what was read
//! from disk is handed to [`hyperion_db::HyperionDB::recover_shard`].

pub mod config;
pub mod handler;
pub mod hyperion_db;
pub mod index;
pub mod json;
pub mod keyset;
pub mod laws;
pub mod number;
pub mod router;
pub mod shard;
pub mod shard_manager;
pub mod storage;
pub mod strmap;
pub mod text;
pub mod utils;
