//! Changing the store: inserts and deletes, with the writes that make them
//! durable.

use crate::hyperion_db::{applied, lemma_empty_registry, HyperionDB};
use crate::index::IndexView;
use crate::json::{clone_value, json_of, Json};
use crate::router::shard_of;
use crate::shard::{shard_clear, shard_entries};
use crate::storage::{
    append_to_wal, is_snapshot, pairs_view, save_shard_to_disk, snapshot_bytes,
    snapshot_path_spec, wal_line, wal_path_spec, FileWrite, StoreError,
};
use crate::strmap::StrMap;
use crate::text::views;
use serde_json::Value;
use vstd::prelude::*;
use vstd::utf8::encode_utf8;

verus! {

/// `w` appends the log line of a write of `value` under `key` to the log
/// of the shard that owns `key`.
pub open spec fn logs_write(
    w: FileWrite,
    data_dir: Seq<char>,
    num_shards: u32,
    key: Seq<char>,
    value: Json,
) -> bool {
    &&& w.path@ == wal_path_spec(data_dir, shard_of(key, num_shards) as u32)
    &&& w.bytes@ == encode_utf8(wal_line(key, value))
    &&& w.append
}

/// `w` replaces the snapshot of shard `id` by one of `records`.
pub open spec fn saves_shard(
    w: FileWrite,
    data_dir: Seq<char>,
    id: u32,
    records: Map<Seq<char>, Json>,
) -> bool {
    &&& w.path@ == snapshot_path_spec(data_dir, id)
    &&& is_snapshot(w.bytes@, records)
    &&& !w.append
}

/// The shards that own the first `n` of `keys`, each once, in the order in
/// which the keys first reach them.
pub open spec fn owners(keys: Seq<Seq<char>>, num_shards: u32, n: int) -> Seq<u32>
    decreases n,
{
    if n <= 0 {
        Seq::empty()
    } else {
        let before = owners(keys, num_shards, n - 1);
        let id = shard_of(keys[n - 1], num_shards) as u32;
        if before.contains(id) {
            before
        } else {
            before.push(id)
        }
    }
}

/// The shards that own the keys are listed once each, and no other shard
/// is listed.
pub proof fn lemma_owners(keys: Seq<Seq<char>>, num_shards: u32, n: int)
    requires
        0 <= n <= keys.len(),
    ensures
        owners(keys, num_shards, n).no_duplicates(),
        forall|id: u32|
            owners(keys, num_shards, n).contains(id) <==> exists|i: int|
                0 <= i < n && #[trigger] shard_of(keys[i], num_shards) as u32 == id,
    decreases n,
{
    if n > 0 {
        lemma_owners(keys, num_shards, n - 1);
        let before = owners(keys, num_shards, n - 1);
        let after = owners(keys, num_shards, n);
        let last = shard_of(keys[n - 1], num_shards) as u32;
        assert forall|id: u32|
            after.contains(id) <==> exists|i: int|
                0 <= i < n && #[trigger] shard_of(keys[i], num_shards) as u32 == id by {
            if after.contains(id) {
                if before.contains(id) {
                    let i = choose|i: int|
                        0 <= i < n - 1 && #[trigger] shard_of(keys[i], num_shards) as u32 == id;
                    assert(0 <= i < n && shard_of(keys[i], num_shards) as u32 == id);
                } else {
                    let x = choose|x: int| 0 <= x < after.len() && after[x] == id;
                    assert(x == before.len());
                    assert(0 <= n - 1 < n && shard_of(keys[n - 1], num_shards) as u32 == id);
                }
            }
            if exists|i: int|
                0 <= i < n && #[trigger] shard_of(keys[i], num_shards) as u32 == id {
                let i = choose|i: int|
                    0 <= i < n && #[trigger] shard_of(keys[i], num_shards) as u32 == id;
                if i < n - 1 {
                    assert(before.contains(id));
                    let x = choose|x: int| 0 <= x < before.len() && before[x] == id;
                    if !before.contains(last) {
                        assert(after[x] == id);
                    }
                } else if !before.contains(last) {
                    assert(after[before.len() as int] == id);
                }
            }
        }
        if !before.contains(last) {
            assert forall|a: int, b: int|
                0 <= a < after.len() && 0 <= b < after.len() && a != b implies after[a]
                != after[b] by {
                if a < before.len() && b < before.len() {
                    assert(before[a] != before[b]);
                } else if a < before.len() {
                    assert(before.contains(before[a]));
                } else {
                    assert(before.contains(before[b]));
                }
            }
        }
    }
}

impl HyperionDB {
    /// The encoder refuses the snapshot of what shard `id` holds.
    pub open spec fn refuses(&self, id: int) -> bool {
        snapshot_bytes(shard_entries(self.shards[id])) is None
    }

    /// Writes `value` under `key`, over what the key held. To be made
    /// durable by a line in the log of the key's shard.
    pub fn insert_or_update(&mut self, key: String, value: Value) -> (w: FileWrite)
        requires
            old(self).wf(),
        ensures
            final(self).wf(),
            final(self).records() == old(self).records().insert(key@, json_of(value)),
            final(self).shard_manager == old(self).shard_manager,
            final(self).indexed_fields == old(self).indexed_fields,
            logs_write(
                w,
                old(self).shard_manager.data_dir@,
                old(self).shard_manager.num_shards,
                key@,
                json_of(value),
            ),
    {
        let id = self.shard_manager.get_shard(key.as_str());
        let w = append_to_wal(
            self.shard_manager.data_dir.as_str(),
            id,
            key.clone(),
            clone_value(&value),
        );
        self.apply(key, value);
        w
    }

    /// Writes `value` under `key`, over what the key held. To be made
    /// durable by a snapshot of the key's shard. The record is written in
    /// any case; the result is an error exactly where the encoder refuses
    /// the snapshot.
    pub fn insert(&mut self, key: String, value: Value) -> (r: Result<FileWrite, StoreError>)
        requires
            old(self).wf(),
        ensures
            final(self).wf(),
            final(self).records() == old(self).records().insert(key@, json_of(value)),
            final(self).shard_manager == old(self).shard_manager,
            final(self).indexed_fields == old(self).indexed_fields,
            match r {
                Ok(w) => saves_shard(
                    w,
                    final(self).shard_manager.data_dir@,
                    shard_of(key@, final(self).shard_manager.num_shards) as u32,
                    shard_entries(
                        final(self).shards[shard_of(key@, final(self).shard_manager.num_shards)],
                    ),
                ),
                Err(e) => e is Encoding && final(self).refuses(
                    shard_of(key@, final(self).shard_manager.num_shards),
                ),
            },
    {
        let id = self.shard_manager.get_shard(key.as_str());
        self.apply(key, value);
        save_shard_to_disk(self.shard_manager.data_dir.as_str(), id, &self.shards[id as usize])
    }

    /// Writes every pair of `data`, in order, each over what its key held.
    /// To be made durable by the log lines handed back, one for each pair
    /// and in the same order.
    pub fn insert_or_update_many(&mut self, data: Vec<(String, Value)>) -> (writes: Vec<FileWrite>)
        requires
            old(self).wf(),
        ensures
            final(self).wf(),
            final(self).records() == applied(
                old(self).records(),
                pairs_view(data@),
                data.len() as int,
            ),
            final(self).shard_manager == old(self).shard_manager,
            final(self).indexed_fields == old(self).indexed_fields,
            writes.len() == data.len(),
            forall|i: int|
                0 <= i < data.len() ==> logs_write(
                    #[trigger] writes[i],
                    old(self).shard_manager.data_dir@,
                    old(self).shard_manager.num_shards,
                    data[i].0@,
                    json_of(data[i].1),
                ),
    {
        let mut writes: Vec<FileWrite> = Vec::new();
        let mut i: usize = 0;
        while i < data.len()
            invariant
                i <= data.len(),
                self.wf(),
                self.records() == applied(old(self).records(), pairs_view(data@), i as int),
                self.shard_manager == old(self).shard_manager,
                self.indexed_fields == old(self).indexed_fields,
                writes.len() == i,
                forall|j: int|
                    0 <= j < i ==> logs_write(
                        #[trigger] writes[j],
                        old(self).shard_manager.data_dir@,
                        old(self).shard_manager.num_shards,
                        data[j].0@,
                        json_of(data[j].1),
                    ),
            decreases data.len() - i,
        {
            let w = self.insert_or_update(data[i].0.clone(), clone_value(&data[i].1));
            writes.push(w);
            i = i + 1;
        }
        writes
    }

    /// Strikes `key` out. To be made durable by a snapshot of the key's
    /// shard. Fails with `NotFound`, and changes nothing, exactly if the
    /// key holds no record. Where it holds one, the record goes in any
    /// case, and the result is an `Encoding` error exactly where the
    /// encoder refuses the snapshot.
    pub fn delete(&mut self, key: String) -> (r: Result<FileWrite, StoreError>)
        requires
            old(self).wf(),
        ensures
            final(self).wf(),
            final(self).records() == old(self).records().remove(key@),
            final(self).shard_manager == old(self).shard_manager,
            final(self).indexed_fields == old(self).indexed_fields,
            match r {
                Ok(w) => old(self).records().contains_key(key@) && saves_shard(
                    w,
                    final(self).shard_manager.data_dir@,
                    shard_of(key@, final(self).shard_manager.num_shards) as u32,
                    shard_entries(
                        final(self).shards[shard_of(key@, final(self).shard_manager.num_shards)],
                    ),
                ),
                Err(StoreError::NotFound) => !old(self).records().contains_key(key@),
                Err(StoreError::Encoding(_)) => old(self).records().contains_key(key@)
                    && final(self).refuses(shard_of(key@, final(self).shard_manager.num_shards)),
            },
    {
        let id = self.shard_manager.get_shard(key.as_str());
        match self.forget(&key) {
            None => Err(StoreError::NotFound),
            Some(_) => save_shard_to_disk(
                self.shard_manager.data_dir.as_str(),
                id,
                &self.shards[id as usize],
            ),
        }
    }

    /// Strikes out every key of `keys`; a key that holds no record is
    /// passed over. To be made durable by the snapshots handed back: one
    /// for each shard that owns a key of `keys` ([`lemma_owners`]). The
    /// records go in any case; the result is an error exactly where the
    /// encoder refuses the snapshot of one of these shards.
    pub fn delete_many(&mut self, keys: Vec<String>) -> (r: Result<Vec<FileWrite>, StoreError>)
        requires
            old(self).wf(),
        ensures
            final(self).wf(),
            final(self).records() == old(self).records().remove_keys(
                views(keys@).to_set(),
            ),
            final(self).shard_manager == old(self).shard_manager,
            final(self).indexed_fields == old(self).indexed_fields,
            match r {
                Ok(writes) => {
                    let ids = owners(
                        views(keys@),
                        final(self).shard_manager.num_shards,
                        keys.len() as int,
                    );
                    &&& writes.len() == ids.len()
                    &&& forall|j: int|
                        0 <= j < ids.len() ==> saves_shard(
                            #[trigger] writes[j],
                            final(self).shard_manager.data_dir@,
                            ids[j],
                            shard_entries(final(self).shards[ids[j] as int]),
                        )
                },
                Err(e) => e is Encoding && exists|j: int|
                    0 <= j < owners(
                        views(keys@),
                        final(self).shard_manager.num_shards,
                        keys.len() as int,
                    ).len() && final(self).refuses(
                        #[trigger] owners(
                            views(keys@),
                            final(self).shard_manager.num_shards,
                            keys.len() as int,
                        )[j] as int,
                    ),
            },
    {
        let ghost names = views(keys@);
        let mut touched: Vec<u32> = Vec::new();
        let mut i: usize = 0;
        assert(self.records() =~= self.records().remove_keys(names.take(0).to_set()));
        while i < keys.len()
            invariant
                i <= keys.len(),
                names == views(keys@),
                self.wf(),
                self.records() == old(self).records().remove_keys(names.take(i as int).to_set()),
                self.shard_manager == old(self).shard_manager,
                self.indexed_fields == old(self).indexed_fields,
                touched@ == owners(names, self.shard_manager.num_shards, i as int),
                forall|j: int| 0 <= j < touched.len() ==> #[trigger] touched[j] < self.shards.len(),
            decreases keys.len() - i,
        {
            let id = self.shard_manager.get_shard(keys[i].as_str());
            self.forget(&keys[i]);
            if !contains_id(&touched, id) {
                touched.push(id);
            }
            i = i + 1;
            proof {
                let seen = names.take(i - 1);
                assert(names.take(i as int) =~= seen.push(names[i - 1]));
                seen.lemma_push_to_set_commute(names[i - 1]);
                assert(self.records() =~= old(self).records().remove_keys(
                    names.take(i as int).to_set(),
                ));
            }
        }
        assert(names.take(keys.len() as int) =~= names);
        let mut writes: Vec<FileWrite> = Vec::new();
        let mut j: usize = 0;
        while j < touched.len()
            invariant
                j <= touched.len(),
                self.wf(),
                self.records() == old(self).records().remove_keys(names.to_set()),
                names == views(keys@),
                self.shard_manager == old(self).shard_manager,
                self.indexed_fields == old(self).indexed_fields,
                touched@ == owners(names, self.shard_manager.num_shards, keys.len() as int),
                forall|t: int| 0 <= t < touched.len() ==> #[trigger] touched[t] < self.shards.len(),
                writes.len() == j,
                forall|t: int|
                    0 <= t < j ==> saves_shard(
                        #[trigger] writes[t],
                        self.shard_manager.data_dir@,
                        touched[t],
                        shard_entries(self.shards[touched[t] as int]),
                    ),
            decreases touched.len() - j,
        {
            let id = touched[j];
            match save_shard_to_disk(
                self.shard_manager.data_dir.as_str(),
                id,
                &self.shards[id as usize],
            ) {
                Ok(w) => {
                    writes.push(w);
                },
                Err(e) => {
                    assert(self.refuses(touched@[j as int] as int));
                    return Err(e);
                },
            }
            j = j + 1;
        }
        Ok(writes)
    }

    /// A snapshot of every shard, in the order of the shards. Nothing
    /// changes. The result is an error exactly where the encoder refuses
    /// the snapshot of some shard.
    pub fn save_to_disk(&self) -> (r: Result<Vec<FileWrite>, StoreError>)
        requires
            self.wf(),
        ensures
            match r {
                Ok(writes) => {
                    &&& writes.len() == self.shard_manager.num_shards
                    &&& forall|j: int|
                        0 <= j < writes.len() ==> saves_shard(
                            #[trigger] writes[j],
                            self.shard_manager.data_dir@,
                            j as u32,
                            shard_entries(self.shards[j]),
                        )
                },
                Err(e) => e is Encoding && exists|j: int|
                    0 <= j < self.shards.len() && #[trigger] self.refuses(j),
            },
    {
        let n = self.shards.len();
        let mut writes: Vec<FileWrite> = Vec::new();
        let mut j: usize = 0;
        while j < n
            invariant
                j <= n == self.shards.len(),
                n == self.shard_manager.num_shards,
                writes.len() == j,
                forall|t: int|
                    0 <= t < j ==> saves_shard(
                        #[trigger] writes[t],
                        self.shard_manager.data_dir@,
                        t as u32,
                        shard_entries(self.shards[t]),
                    ),
            decreases n - j,
        {
            match save_shard_to_disk(self.shard_manager.data_dir.as_str(), j as u32, &self.shards[j]) {
                Ok(w) => {
                    writes.push(w);
                },
                Err(e) => {
                    assert(self.refuses(j as int));
                    return Err(e);
                },
            }
            j = j + 1;
        }
        Ok(writes)
    }

    /// Strikes out every record. To be made durable by the snapshots
    /// handed back: one for each shard, in the order of the shards. The
    /// records go in any case; the result is an error exactly where the
    /// encoder refuses the snapshot of no records.
    pub fn delete_all(&mut self) -> (r: Result<Vec<FileWrite>, StoreError>)
        requires
            old(self).wf(),
        ensures
            final(self).wf(),
            final(self).records() == Map::<Seq<char>, Json>::empty(),
            final(self).shard_manager == old(self).shard_manager,
            final(self).indexed_fields == old(self).indexed_fields,
            match r {
                Ok(writes) => {
                    &&& writes.len() == final(self).shard_manager.num_shards
                    &&& forall|j: int|
                        0 <= j < writes.len() ==> saves_shard(
                            #[trigger] writes[j],
                            final(self).shard_manager.data_dir@,
                            j as u32,
                            Map::<Seq<char>, Json>::empty(),
                        )
                },
                Err(e) => e is Encoding && snapshot_bytes(Map::<Seq<char>, Json>::empty())
                    is None,
            },
    {
        let n = self.shards.len();
        let mut i: usize = 0;
        while i < n
            invariant
                i <= n == self.shards.len(),
                self.shard_manager == old(self).shard_manager,
                self.indexed_fields == old(self).indexed_fields,
                forall|j: int|
                    0 <= j < i ==> shard_entries(#[trigger] self.shards[j]) == Map::<Seq<char>, Json>::empty(),
            decreases n - i,
        {
            shard_clear(&mut self.shards[i]);
            i = i + 1;
        }
        self.indices = StrMap::new();
        proof {
            assert(self.records() =~= Map::<Seq<char>, Json>::empty());
            lemma_empty_registry(self.indexed_fields@);
            assert(self.registry() =~~= Map::<Seq<char>, IndexView>::empty());
        }
        let mut writes: Vec<FileWrite> = Vec::new();
        let mut j: usize = 0;
        while j < n
            invariant
                j <= n == self.shards.len(),
                n == self.shard_manager.num_shards,
                self.wf(),
                self.records() == Map::<Seq<char>, Json>::empty(),
                self.shard_manager == old(self).shard_manager,
                self.indexed_fields == old(self).indexed_fields,
                forall|t: int|
                    0 <= t < n ==> shard_entries(#[trigger] self.shards[t]) == Map::<Seq<char>, Json>::empty(),
                writes.len() == j,
                forall|t: int|
                    0 <= t < j ==> saves_shard(
                        #[trigger] writes[t],
                        self.shard_manager.data_dir@,
                        t as u32,
                        Map::<Seq<char>, Json>::empty(),
                    ),
            decreases n - j,
        {
            match save_shard_to_disk(self.shard_manager.data_dir.as_str(), j as u32, &self.shards[j]) {
                Ok(w) => {
                    writes.push(w);
                },
                Err(e) => {
                    return Err(e);
                },
            }
            j = j + 1;
        }
        Ok(writes)
    }
}

/// Whether `id` is in `ids`.
fn contains_id(ids: &Vec<u32>, id: u32) -> (r: bool)
    ensures
        r == ids@.contains(id),
{
    let mut i: usize = 0;
    while i < ids.len()
        invariant
            i <= ids.len(),
            forall|j: int| 0 <= j < i ==> ids[j] != id,
        decreases ids.len() - i,
    {
        if ids[i] == id {
            return true;
        }
        i = i + 1;
    }
    false
}

} // verus!
