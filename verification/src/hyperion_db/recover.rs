//! Filling a store from what was found on disk: the snapshot of a shard,
//! then the writes of its log.

use crate::hyperion_db::{applied, HyperionDB};
use crate::json::{clone_value, json_entries, json_of, Json};
use crate::storage::{frame_records, load_from_wal, load_shard_from_disk, pairs_view, wal_entries};
use crate::strmap::{distinct_keys, entries_map, entry_keys, lemma_entries_map};
use crate::text::pieces;
use serde_json::Value;
use vstd::prelude::*;

verus! {

/// The records that a snapshot file gives: those that its content spells,
/// none where the file is missing or cannot be read.
pub open spec fn snapshot_of(snapshot: Option<&[u8]>) -> Map<Seq<char>, Json> {
    match snapshot {
        Some(frame) => frame_records(frame@),
        None => Map::empty(),
    }
}

/// The writes that a log file records; none where the file is missing.
pub open spec fn logged(wal: Option<&str>) -> Seq<(Seq<char>, Json)> {
    match wal {
        Some(text) => wal_entries(pieces(text@, '\n', 0)),
        None => Seq::empty(),
    }
}

/// What the records are after a recovery from the two files of a shard:
/// the records of the snapshot are laid over those already held, and the
/// writes of the log are made over that, in the order of the log.
pub open spec fn recovered(
    records: Map<Seq<char>, Json>,
    snapshot: Option<&[u8]>,
    wal: Option<&str>,
) -> Map<Seq<char>, Json> {
    applied(
        records.union_prefer_right(snapshot_of(snapshot)),
        logged(wal),
        logged(wal).len() as int,
    )
}

/// What the last of the first `n` writes under `key` wrote; `None` where
/// none of them is under that key.
pub open spec fn last_written(entries: Seq<(Seq<char>, Json)>, n: int, key: Seq<char>) -> Option<
    Json,
>
    decreases n,
{
    if n <= 0 {
        None
    } else if entries[n - 1].0 == key {
        Some(entries[n - 1].1)
    } else {
        last_written(entries, n - 1, key)
    }
}

/// After a sequence of writes a key holds what the last write under it
/// wrote, and a key that none of them names is as it was.
pub proof fn lemma_last_write_wins(
    records: Map<Seq<char>, Json>,
    entries: Seq<(Seq<char>, Json)>,
    n: int,
    key: Seq<char>,
)
    ensures
        match last_written(entries, n, key) {
            Some(v) => applied(records, entries, n).contains_key(key) && applied(
                records,
                entries,
                n,
            )[key] == v,
            None => applied(records, entries, n).contains_key(key) == records.contains_key(key)
                && applied(records, entries, n)[key] == records[key],
        },
    decreases n,
{
    if n > 0 {
        lemma_last_write_wins(records, entries, n - 1, key);
    }
}

/// Writing the first `n` entries of a list without a repeated key, in any
/// order, lays the map that they spell over the records.
pub proof fn lemma_applied_distinct(
    records: Map<Seq<char>, Json>,
    list: Seq<(String, Value)>,
    n: int,
)
    requires
        distinct_keys(list),
        0 <= n <= list.len(),
    ensures
        applied(records, pairs_view(list), n) == records.union_prefer_right(
            json_entries(list.take(n)),
        ),
    decreases n,
{
    let head = list.take(n);
    lemma_entries_map(head);
    if n == 0 {
        assert(entry_keys(head).len() == 0);
        assert(json_entries(head) =~= Map::empty());
        assert(records.union_prefer_right(json_entries(head)) =~= records);
    } else {
        let before = list.take(n - 1);
        lemma_applied_distinct(records, list, n - 1);
        lemma_entries_map(before);
        let key = list[n - 1].0@;
        let value = json_of(list[n - 1].1);
        assert(entry_keys(head)[n - 1] == key);
        assert(json_entries(head).contains_key(key) && json_entries(head)[key] == value);
        let left = records.union_prefer_right(json_entries(before)).insert(key, value);
        let right = records.union_prefer_right(json_entries(head));
        assert forall|k: Seq<char>| #[trigger]
            left.dom().contains(k) == right.dom().contains(k) && (left.dom().contains(k)
                ==> left[k] == right[k]) by {
            if k != key {
                if json_entries(before).contains_key(k) {
                    let i = entry_keys(before).index_of(k);
                    assert(entry_keys(before)[i] == k);
                    assert(entry_keys(head)[i] == k);
                    assert(entries_map(head)[k] == head[i].1);
                    assert(entries_map(before)[k] == before[i].1);
                }
                if json_entries(head).contains_key(k) {
                    let i = entry_keys(head).index_of(k);
                    assert(entry_keys(head)[i] == k);
                    assert(i < n - 1);
                    assert(entry_keys(before)[i] == k);
                    assert(entries_map(head)[k] == head[i].1);
                    assert(entries_map(before)[k] == before[i].1);
                }
            }
        }
        assert(left =~= right);
    }
}

impl HyperionDB {
    /// Writes every pair of `entries`, in order, in memory.
    pub fn restore(&mut self, entries: &Vec<(String, Value)>)
        requires
            old(self).wf(),
        ensures
            final(self).wf(),
            final(self).records() == applied(
                old(self).records(),
                pairs_view(entries@),
                entries.len() as int,
            ),
            final(self).shard_manager == old(self).shard_manager,
            final(self).indexed_fields == old(self).indexed_fields,
    {
        let mut i: usize = 0;
        while i < entries.len()
            invariant
                i <= entries.len(),
                self.wf(),
                self.records() == applied(old(self).records(), pairs_view(entries@), i as int),
                self.shard_manager == old(self).shard_manager,
                self.indexed_fields == old(self).indexed_fields,
            decreases entries.len() - i,
        {
            self.apply(entries[i].0.clone(), clone_value(&entries[i].1));
            i = i + 1;
        }
    }

    /// Brings in what the files of one shard hold: the records of the
    /// snapshot, then the writes of the log over them. A file that is
    /// missing or cannot be read brings nothing; each record goes to the
    /// shard that owns its key, and into the indexes.
    pub fn recover_shard(&mut self, snapshot: Option<&[u8]>, wal: Option<&str>)
        requires
            old(self).wf(),
        ensures
            final(self).wf(),
            final(self).records() == recovered(old(self).records(), snapshot, wal),
            final(self).shard_manager == old(self).shard_manager,
            final(self).indexed_fields == old(self).indexed_fields,
    {
        let saved: Vec<(String, Value)> = match snapshot {
            Some(frame) => load_shard_from_disk(frame),
            None => Vec::new(),
        };
        self.restore(&saved);
        proof {
            lemma_applied_distinct(old(self).records(), saved@, saved.len() as int);
            assert(saved@.take(saved.len() as int) =~= saved@);
            if snapshot is None {
                assert(json_entries(saved@) =~= Map::empty());
            }
        }
        let writes: Vec<(String, Value)> = match wal {
            Some(text) => load_from_wal(text),
            None => Vec::new(),
        };
        assert(pairs_view(writes@) =~= logged(wal));
        self.restore(&writes);
    }
}

} // verus!
