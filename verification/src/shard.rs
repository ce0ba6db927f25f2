//! One partition of the records: a concurrent map from key to document,
//! kept in a `dashmap::DashMap`.
//!
//! The functions here take the map by exclusive reference where they change
//! it, so that what they say of the map before and after cannot be upset by
//! another holder.

use crate::json::{json_entries, json_of, Json};
use crate::strmap::distinct_keys;
use dashmap::DashMap;
use serde_json::Value;
use vstd::prelude::*;

verus! {

#[verifier::external_type_specification]
#[verifier::external_body]
#[verifier::reject_recursive_types(K)]
#[verifier::reject_recursive_types(V)]
#[verifier::reject_recursive_types(S)]
pub struct ExDashMap<K, V, S>(DashMap<K, V, S>);

/// What a shard holds: the document stored under each key.
pub uninterp spec fn shard_entries(m: DashMap<String, Value>) -> Map<Seq<char>, Json>;

/// `DashMap::new`: a shard that holds nothing.
#[verifier::external_body]
pub(crate) fn shard_new() -> (m: DashMap<String, Value>)
    ensures
        shard_entries(m) == (Map::<Seq<char>, Json>::empty()),
{
    DashMap::new()
}

/// `DashMap::insert`: stores `value` under `key` and hands back what was
/// stored there before.
#[verifier::external_body]
pub(crate) fn shard_insert(m: &mut DashMap<String, Value>, key: String, value: Value) -> (prev:
    Option<Value>)
    ensures
        shard_entries(*final(m)) == shard_entries(*old(m)).insert(key@, json_of(value)),
        match prev {
            Some(p) => shard_entries(*old(m)).contains_key(key@) && shard_entries(*old(m))[key@]
                == json_of(p),
            None => !shard_entries(*old(m)).contains_key(key@),
        },
{
    m.insert(key, value)
}

/// `DashMap::remove`: takes `key` out and hands back the document that was
/// stored under it.
#[verifier::external_body]
pub(crate) fn shard_remove(m: &mut DashMap<String, Value>, key: &str) -> (prev: Option<Value>)
    ensures
        shard_entries(*final(m)) == shard_entries(*old(m)).remove(key@),
        match prev {
            Some(p) => shard_entries(*old(m)).contains_key(key@) && shard_entries(*old(m))[key@]
                == json_of(p),
            None => !shard_entries(*old(m)).contains_key(key@),
        },
{
    m.remove(key).map(|(_, v)| v)
}

/// `DashMap::get`, the document copied: what is stored under `key`.
#[verifier::external_body]
pub(crate) fn shard_get(m: &DashMap<String, Value>, key: &str) -> (r: Option<Value>)
    ensures
        match r {
            Some(v) => shard_entries(*m).contains_key(key@) && shard_entries(*m)[key@] == json_of(
                v,
            ),
            None => !shard_entries(*m).contains_key(key@),
        },
{
    m.get(key).map(|entry| entry.value().clone())
}

/// `DashMap::clear`: nothing is left.
#[verifier::external_body]
pub(crate) fn shard_clear(m: &mut DashMap<String, Value>)
    ensures
        shard_entries(*final(m)) == (Map::<Seq<char>, Json>::empty()),
{
    m.clear()
}

/// `DashMap::iter`, each entry copied: all that the shard holds, every key
/// once, in no particular order.
#[verifier::external_body]
pub(crate) fn shard_list(m: &DashMap<String, Value>) -> (list: Vec<(String, Value)>)
    ensures
        distinct_keys(list@),
        json_entries(list@) == shard_entries(*m),
{
    m.iter().map(|entry| (entry.key().clone(), entry.value().clone())).collect()
}

} // verus!
