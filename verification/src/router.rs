//! Deterministic routing of record keys to shards.
//!
//! The hash of a key is the 64-bit value that the standard library's
//! `DefaultHasher`, made by `DefaultHasher::new`, gives once it has been
//! fed the key's UTF-8 bytes in one `write`. All hashers made that way
//! agree with each other, so the shard of a key does not change from one
//! run to the next. A data directory is tied to this hash and to its
//! number of shards: files written under another hash, another number of
//! shards or another release of the standard library are to be rebuilt.

use std::collections::hash_map::DefaultHasher;
use std::hash::Hasher;
use vstd::prelude::*;
use vstd::std_specs::hash::DefaultHasherAdditionalSpecFns;
use vstd::string::StringSliceAdditionalSpecFns;

verus! {

/// The 64-bit hash of a key.
pub open spec fn key_hash(key: Seq<char>) -> u64 {
    DefaultHasher::spec_finish(seq![vstd::utf8::encode_utf8(key)])
}

/// The shard that owns `key` when the key space is split in `num_shards`:
/// the key's hash modulo the number of shards.
pub open spec fn shard_of(key: Seq<char>, num_shards: u32) -> int {
    key_hash(key) as int % num_shards as int
}

/// Computes the shard that owns `key`.
pub fn get_shard(key: &str, num_shards: u32) -> (id: u32)
    requires
        num_shards > 0,
    ensures
        id as int == shard_of(key@, num_shards),
        id < num_shards,
{
    let mut hasher = DefaultHasher::new();
    hasher.write(key.as_bytes());
    assert(hasher@ =~= seq![key.spec_bytes()]);
    let hash: u64 = hasher.finish();
    (hash % (num_shards as u64)) as u32
}

} // verus!
