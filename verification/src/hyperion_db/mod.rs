//! The store: records dealt out to shards by their key, and the indexes
//! over them.
//!
//! Every operation works in memory. Where a change must reach the disk the
//! operation hands back the [`FileWrite`]s that make it durable: a line of
//! the write-ahead log for an insert, a snapshot of the shard for a delete.

pub mod read;
pub mod recover;
pub mod write;

use crate::config::{distinct_fields, Config, ConfigError, IndexedField};
use crate::handler::parser::ExprView;
use crate::index::coherence::{
    expected_registry, is_indexed, is_populated, kind_at, lemma_added, lemma_removed,
};
use crate::index::query::selected;
use crate::index::update::{
    indexed_value, registry_view, update_indices_on_delete, update_indices_on_insert,
};
use crate::index::{Index, IndexKey, IndexView};
use crate::json::{json_of, Json};
use crate::router::shard_of;
use crate::shard::{shard_entries, shard_get, shard_insert, shard_new, shard_remove};
use crate::shard_manager::ShardManager;
use crate::strmap::StrMap;
use dashmap::DashMap;
use serde_json::Value;
use vstd::prelude::*;

verus! {

/// A store of records.
pub struct HyperionDB {
    pub shards: Vec<DashMap<String, Value>>,
    pub indices: StrMap<Index>,
    pub shard_manager: ShardManager,
    pub indexed_fields: Vec<IndexedField>,
}

/// The records after the first `n` of `entries` are written, each over
/// what its key held before.
pub open spec fn applied(
    records: Map<Seq<char>, Json>,
    entries: Seq<(Seq<char>, Json)>,
    n: int,
) -> Map<Seq<char>, Json>
    decreases n,
{
    if n <= 0 {
        records
    } else {
        applied(records, entries, n - 1).insert(entries[n - 1].0, entries[n - 1].1)
    }
}

/// `values` are the documents of the records `keys`, in the same order, and
/// no key occurs twice.
pub open spec fn lists(
    values: Seq<Json>,
    keys: Seq<Seq<char>>,
    records: Map<Seq<char>, Json>,
) -> bool {
    &&& keys.no_duplicates()
    &&& values.len() == keys.len()
    &&& forall|i: int|
        0 <= i < keys.len() ==> records.contains_key(#[trigger] keys[i]) && values[i]
            == records[keys[i]]
}

/// `values` are the documents of exactly the records whose key is in
/// `wanted`, each record once, in some order.
pub open spec fn is_listing(
    values: Seq<Json>,
    records: Map<Seq<char>, Json>,
    wanted: Set<Seq<char>>,
) -> bool {
    exists|keys: Seq<Seq<char>>| #[trigger] lists(values, keys, records) && keys.to_set() == wanted
}

/// The record keys that a predicate selects from the indexes: a condition
/// selects what the index of its field gives, nothing where the field has
/// no index; `AND` is the intersection, `OR` the union, a group what it
/// holds.
pub open spec fn eval(reg: Map<Seq<char>, IndexView>, e: ExprView) -> Set<Seq<char>>
    decreases e,
{
    match e {
        ExprView::Condition(c) => if reg.contains_key(c.field) {
            selected(reg[c.field].buckets, c.operator, c.value)
        } else {
            Set::empty()
        },
        ExprView::And(l, r) => eval(reg, *l).intersect(eval(reg, *r)),
        ExprView::Or(l, r) => eval(reg, *l).union(eval(reg, *r)),
        ExprView::Group(inner) => eval(reg, *inner),
    }
}

impl HyperionDB {
    /// Whether the store holds a record under `key`: whether the shard
    /// that owns the key does.
    pub open spec fn holds(&self, key: Seq<char>) -> bool {
        shard_entries(self.shards[shard_of(key, self.shard_manager.num_shards)]).contains_key(key)
    }

    /// The records of the store: the document under each key.
    pub open spec fn records(&self) -> Map<Seq<char>, Json> {
        Map::new(
            |key: Seq<char>| self.holds(key),
            |key: Seq<char>|
                shard_entries(self.shards[shard_of(key, self.shard_manager.num_shards)])[key],
        )
    }

    /// What the indexes hold, by field path.
    pub open spec fn registry(&self) -> Map<Seq<char>, IndexView> {
        registry_view(self.indices@)
    }

    /// The store is in order: there are as many shards as the settings
    /// say and at least one; no path is indexed twice; a shard holds only
    /// keys that it owns; and the indexes hold, for every field, exactly
    /// the records that have an indexed value there, each under that value.
    pub open spec fn wf(&self) -> bool {
        &&& self.shard_manager.num_shards > 0
        &&& self.shards.len() == self.shard_manager.num_shards
        &&& distinct_fields(self.indexed_fields@)
        &&& forall|i: int, key: Seq<char>|
            0 <= i < self.shards.len() && #[trigger] shard_entries(self.shards[i]).contains_key(key)
                ==> shard_of(key, self.shard_manager.num_shards) == i
        &&& self.registry() == expected_registry(self.records(), self.indexed_fields@)
    }

    /// An empty store with the given settings.
    pub fn new(config: Config) -> (r: Result<HyperionDB, ConfigError>)
        ensures
            match r {
                Ok(db) => {
                    &&& config.fault() is None
                    &&& db.wf()
                    &&& db.records() == Map::<Seq<char>, Json>::empty()
                    &&& db.shard_manager.num_shards == config.num_shards
                    &&& db.shard_manager.data_dir == config.data_dir
                    &&& db.indexed_fields == config.indexed_fields
                },
                Err(e) => config.fault() == Some(e),
            },
    {
        match config.validate() {
            Ok(_) => {},
            Err(e) => {
                return Err(e);
            },
        }
        let n = config.num_shards;
        let mut shards: Vec<DashMap<String, Value>> = Vec::new();
        let mut i: u32 = 0;
        while i < n
            invariant
                i <= n,
                shards.len() == i,
                forall|j: int|
                    0 <= j < i ==> shard_entries(#[trigger] shards[j]) == Map::<
                        Seq<char>,
                        Json,
                    >::empty(),
            decreases n - i,
        {
            shards.push(shard_new());
            i = i + 1;
        }
        let db = HyperionDB {
            shards,
            indices: StrMap::new(),
            shard_manager: ShardManager::new(n, config.data_dir),
            indexed_fields: config.indexed_fields,
        };
        proof {
            assert(db.records() =~= Map::<Seq<char>, Json>::empty());
            assert(db.registry() =~~= expected_registry(db.records(), db.indexed_fields@)) by {
                lemma_empty_registry(db.indexed_fields@);
                assert(db.registry() =~~= Map::<Seq<char>, IndexView>::empty());
            }
        }
        Ok(db)
    }

    /// The document stored under `key`.
    pub fn get(&self, key: &str) -> (r: Option<Value>)
        requires
            self.wf(),
        ensures
            match r {
                Some(v) => self.records().contains_key(key@) && self.records()[key@] == json_of(v),
                None => !self.records().contains_key(key@),
            },
    {
        let id = self.shard_manager.get_shard(key);
        shard_get(&self.shards[id as usize], key)
    }

    /// Writes `value` under `key`, in memory: over what the key held, if it
    /// held anything. The indexes lose the old document and gain the new.
    pub fn apply(&mut self, key: String, value: Value)
        requires
            old(self).wf(),
        ensures
            final(self).wf(),
            final(self).records() == old(self).records().insert(key@, json_of(value)),
            final(self).shard_manager == old(self).shard_manager,
            final(self).indexed_fields == old(self).indexed_fields,
    {
        let id = self.shard_manager.get_shard(key.as_str());
        let ghost before = self.records();
        let ghost fields = self.indexed_fields@;
        let ghost doc = json_of(value);
        match shard_get(&self.shards[id as usize], key.as_str()) {
            Some(old_value) => {
                update_indices_on_delete(&mut self.indices, &key, &old_value, &self.indexed_fields);
                proof {
                    lemma_removed(before, fields, key@);
                }
            },
            None => {
                assert(before.remove(key@) =~= before);
            },
        }
        update_indices_on_insert(&mut self.indices, &key, &value, &self.indexed_fields);
        proof {
            lemma_added(before.remove(key@), fields, key@, json_of(value));
            assert(before.remove(key@).insert(key@, json_of(value)) =~= before.insert(
                key@,
                json_of(value),
            ));
        }
        shard_insert(&mut self.shards[id as usize], key, value);
        proof {
            assert(self.records() =~= before.insert(key@, doc)) by {
                assert forall|k: Seq<char>| self.records().contains_key(k) <==> before.insert(
                    key@,
                    doc,
                ).contains_key(k) by {
                    let owner = shard_of(k, self.shard_manager.num_shards);
                    if owner != id {
                        assert(self.shards[owner] == old(self).shards[owner]);
                    }
                }
                assert forall|k: Seq<char>| self.records().contains_key(k) implies self.records()[k]
                    == before.insert(key@, doc)[k] by {
                    let owner = shard_of(k, self.shard_manager.num_shards);
                    if owner != id {
                        assert(self.shards[owner] == old(self).shards[owner]);
                    }
                }
            }
            assert forall|i: int, k: Seq<char>|
                0 <= i < self.shards.len() && #[trigger] shard_entries(self.shards[i]).contains_key(
                    k,
                ) implies shard_of(k, self.shard_manager.num_shards) == i by {
                if i != id {
                    assert(self.shards[i] == old(self).shards[i]);
                }
            }
        }
    }

    /// Strikes `key` out, in memory. Tells what it held.
    pub fn forget(&mut self, key: &String) -> (prev: Option<Value>)
        requires
            old(self).wf(),
        ensures
            final(self).wf(),
            final(self).records() == old(self).records().remove(key@),
            final(self).shard_manager == old(self).shard_manager,
            final(self).indexed_fields == old(self).indexed_fields,
            match prev {
                Some(v) => old(self).records().contains_key(key@) && old(self).records()[key@]
                    == json_of(v),
                None => !old(self).records().contains_key(key@),
            },
    {
        let id = self.shard_manager.get_shard(key.as_str());
        let ghost before = self.records();
        let ghost fields = self.indexed_fields@;
        let prev = shard_remove(&mut self.shards[id as usize], key.as_str());
        match &prev {
            Some(old_value) => {
                update_indices_on_delete(&mut self.indices, key, old_value, &self.indexed_fields);
                proof {
                    lemma_removed(before, fields, key@);
                }
            },
            None => {
                assert(before.remove(key@) =~= before);
            },
        }
        proof {
            assert(self.records() =~= before.remove(key@)) by {
                assert forall|k: Seq<char>| self.records().contains_key(k) <==> before.remove(
                    key@,
                ).contains_key(k) by {
                    let owner = shard_of(k, self.shard_manager.num_shards);
                    if owner != id {
                        assert(self.shards[owner] == old(self).shards[owner]);
                    }
                }
                assert forall|k: Seq<char>| self.records().contains_key(k) implies self.records()[k]
                    == before.remove(key@)[k] by {
                    let owner = shard_of(k, self.shard_manager.num_shards);
                    if owner != id {
                        assert(self.shards[owner] == old(self).shards[owner]);
                    }
                }
            }
            assert forall|i: int, k: Seq<char>|
                0 <= i < self.shards.len() && #[trigger] shard_entries(self.shards[i]).contains_key(
                    k,
                ) implies shard_of(k, self.shard_manager.num_shards) == i by {
                if i != id {
                    assert(self.shards[i] == old(self).shards[i]);
                }
            }
        }
        prev
    }
}

/// Without records there are no indexes.
pub proof fn lemma_empty_registry(fields: Seq<IndexedField>)
    ensures
        expected_registry(Map::<Seq<char>, Json>::empty(), fields) == Map::<
            Seq<char>,
            IndexView,
        >::empty(),
{
    let none = Map::<Seq<char>, Json>::empty();
    assert forall|n: Seq<char>| !expected_registry(none, fields).contains_key(n) by {
        if is_populated(none, fields, n) {
            let kind = kind_at(fields, n);
            let k = choose|k: IndexKey| #[trigger] is_indexed(none, n, kind, k);
            let w = choose|w: Seq<char>| #[trigger]
                none.contains_key(w) && indexed_value(none[w], n, kind) == Some(k);
            assert(none.contains_key(w));
        }
    }
    assert(expected_registry(none, fields) =~~= Map::<Seq<char>, IndexView>::empty());
}

} // verus!
