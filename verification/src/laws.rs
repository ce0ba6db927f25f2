//! What holds of every store in order, stated for use in proofs about
//! callers.

use crate::handler::parser::ExprView;
use crate::hyperion_db::recover::{
    last_written, lemma_last_write_wins, logged, recovered, snapshot_of,
};
use crate::hyperion_db::{applied, eval, lemma_empty_registry, HyperionDB};
use crate::index::coherence::{
    expected_index, has_field, is_indexed, is_populated, kind_at, lemma_kind_at,
};
use crate::index::query::key_matches;
use crate::index::update::indexed_value;
use crate::index::{kind_of, IndexKey, IndexView};
use crate::router::shard_of;
use crate::shard::shard_entries;
use crate::json::{json_text, survives, Json};
use crate::storage::{
    frame_records, is_snapshot, lemma_wal_entries_front, log_text, wal_entries, wal_entry,
};
use crate::text::{find_char, lemma_first_piece, pieces};
use vstd::prelude::*;
use vstd::utf8::{encode_utf8_decode_utf8, encode_utf8_valid_utf8};

verus! {

/// The index of a configured field holds a record under a value exactly if
/// the record is in the store and its document has that indexed value for
/// the field. The index is of the field's kind.
pub proof fn lemma_index_matches_records(db: HyperionDB, i: int, k: IndexKey, key: Seq<char>)
    requires
        db.wf(),
        0 <= i < db.indexed_fields.len(),
    ensures
        ({
            let path = db.indexed_fields[i].field@;
            let kind = db.indexed_fields[i].index_type;
            &&& (db.registry().contains_key(path) && db.registry()[path].holds(k, key)) <==> (
            db.records().contains_key(key) && indexed_value(db.records()[key], path, kind) == Some(
                k,
            ))
            &&& db.registry().contains_key(path) ==> db.registry()[path].kind == kind
        }),
{
    let fields = db.indexed_fields@;
    let path = fields[i].field@;
    let kind = fields[i].index_type;
    let records = db.records();
    lemma_kind_at(fields, i);
    if records.contains_key(key) && indexed_value(records[key], path, kind) == Some(k) {
        assert(is_indexed(records, path, kind, k));
        assert(is_populated(records, fields, path));
    }
}

/// There is no index but for a configured field, no index without a
/// bucket, no bucket without a record key, and no bucket under a value of
/// another kind than the index's.
pub proof fn lemma_indexes_are_tidy(db: HyperionDB, path: Seq<char>)
    requires
        db.wf(),
        db.registry().contains_key(path),
    ensures
        has_field(db.indexed_fields@, path),
        db.registry()[path].buckets != Map::<IndexKey, Set<Seq<char>>>::empty(),
        db.registry()[path].tidy(),
{
    let fields = db.indexed_fields@;
    let records = db.records();
    let kind = kind_at(fields, path);
    let index = db.registry()[path];
    assert(index == expected_index(records, path, kind));
    let some = choose|k: IndexKey| #[trigger] is_indexed(records, path, kind, k);
    assert(index.buckets.contains_key(some));
    assert forall|k: IndexKey| #[trigger] index.buckets.contains_key(k) implies kind_of(k)
        == index.kind && index.buckets[k] != Set::<Seq<char>>::empty() by {
        let w = choose|w: Seq<char>| #[trigger]
            records.contains_key(w) && indexed_value(records[w], path, kind) == Some(k);
        assert(index.buckets[k].contains(w));
    }
}

/// A key is found in no shard but the one that owns it, and the store
/// holds a record exactly if that shard does.
pub proof fn lemma_key_in_its_shard(db: HyperionDB, i: int, key: Seq<char>)
    requires
        db.wf(),
        0 <= i < db.shards.len(),
    ensures
        shard_entries(db.shards[i]).contains_key(key) ==> i == shard_of(
            key,
            db.shard_manager.num_shards,
        ),
        0 <= shard_of(key, db.shard_manager.num_shards) < db.shards.len(),
        db.records().contains_key(key) <==> shard_entries(
            db.shards[shard_of(key, db.shard_manager.num_shards)],
        ).contains_key(key),
{
}

/// After a write, the key holds the document written.
pub proof fn lemma_written_is_read(before: HyperionDB, after: HyperionDB, key: Seq<char>, value: Json)
    requires
        after.records() == before.records().insert(key, value),
    ensures
        after.records().contains_key(key),
        after.records()[key] == value,
{
}

/// Writing under a key the document that it holds already changes neither
/// the records nor the indexes.
pub proof fn lemma_rewrite_changes_nothing(
    before: HyperionDB,
    after: HyperionDB,
    key: Seq<char>,
    value: Json,
)
    requires
        before.wf(),
        after.wf(),
        after.indexed_fields@ == before.indexed_fields@,
        before.records().contains_key(key),
        before.records()[key] == value,
        after.records() == before.records().insert(key, value),
    ensures
        after.records() == before.records(),
        after.registry() == before.registry(),
{
    assert(before.records().insert(key, value) =~= before.records());
}

/// The indexes are determined by the records and the configured fields:
/// two stores in order with the same records and fields have the same
/// indexes, however they came to hold them.
pub proof fn lemma_indexes_follow_records(a: HyperionDB, b: HyperionDB)
    requires
        a.wf(),
        b.wf(),
        a.records() == b.records(),
        a.indexed_fields@ == b.indexed_fields@,
    ensures
        a.registry() == b.registry(),
{
}

/// A predicate selects only keys that hold a record.
pub proof fn lemma_selected_are_held(db: HyperionDB, e: ExprView)
    requires
        db.wf(),
    ensures
        eval(db.registry(), e).subset_of(db.records().dom()),
    decreases e,
{
    let reg = db.registry();
    let records = db.records();
    match e {
        ExprView::Condition(c) => {
            if reg.contains_key(c.field) {
                let kind = kind_at(db.indexed_fields@, c.field);
                let buckets = reg[c.field].buckets;
                assert(reg[c.field] == expected_index(records, c.field, kind));
                assert forall|key: Seq<char>| eval(reg, e).contains(key) implies records.dom().contains(
                    key,
                ) by {
                    let k = choose|k: IndexKey|
                        #![trigger buckets.contains_key(k)]
                        buckets.contains_key(k) && buckets[k].contains(key)
                            && key_matches(k, c.operator, c.value);
                    assert(buckets[k].contains(key));
                }
            }
        },
        ExprView::And(l, r) => {
            lemma_selected_are_held(db, *l);
            lemma_selected_are_held(db, *r);
        },
        ExprView::Or(l, r) => {
            lemma_selected_are_held(db, *l);
            lemma_selected_are_held(db, *r);
        },
        ExprView::Group(inner) => {
            lemma_selected_are_held(db, *inner);
        },
    }
}

/// `AND` selects the records that both sides select, `OR` those that
/// either side selects, and a group what it holds.
pub proof fn lemma_composition(reg: Map<Seq<char>, IndexView>, a: ExprView, b: ExprView)
    ensures
        eval(reg, ExprView::And(Box::new(a), Box::new(b))) == eval(reg, a).intersect(eval(reg, b)),
        eval(reg, ExprView::Or(Box::new(a), Box::new(b))) == eval(reg, a).union(eval(reg, b)),
        eval(reg, ExprView::Group(Box::new(a))) == eval(reg, a),
{
}

/// After a recovery a key holds what the last write of the log under it
/// wrote. A key that the log does not name holds what the snapshot has
/// under it, and a key of neither file is as it was before: absent, in a
/// store that was empty.
pub proof fn lemma_recovery(
    records: Map<Seq<char>, Json>,
    snapshot: Option<&[u8]>,
    wal: Option<&str>,
    key: Seq<char>,
)
    ensures
        ({
            let after = recovered(records, snapshot, wal);
            match last_written(logged(wal), logged(wal).len() as int, key) {
                Some(v) => after.contains_key(key) && after[key] == v,
                None => if snapshot_of(snapshot).contains_key(key) {
                    after.contains_key(key) && after[key] == snapshot_of(snapshot)[key]
                } else {
                    after.contains_key(key) == records.contains_key(key) && (records.contains_key(
                        key,
                    ) ==> after[key] == records[key])
                },
            }
        }),
{
    lemma_last_write_wins(
        records.union_prefer_right(snapshot_of(snapshot)),
        logged(wal),
        logged(wal).len() as int,
        key,
    );
}

/// A snapshot gives back the records that it was made of, where their
/// JSON object is read back from its own text: a store that recovers from
/// the snapshot alone holds those records, and so, by
/// [`lemma_indexes_follow_records`], the same indexes.
pub proof fn lemma_snapshot_round_trip(
    records: Map<Seq<char>, Json>,
    snapshot: &[u8],
)
    requires
        is_snapshot(snapshot@, records),
        survives(Json::Object(records)),
    ensures
        frame_records(snapshot@) == records,
        recovered(Map::empty(), Some(snapshot), None) == records,
{
    let text = json_text(Json::Object(records));
    encode_utf8_valid_utf8(text);
    encode_utf8_decode_utf8(text);
    assert(frame_records(snapshot@) == records);
    assert(Map::<Seq<char>, Json>::empty().union_prefer_right(records) =~= records);
}

/// The write of `key` and `value` is read back from its line of the log:
/// the JSON array of the two is read back from its own text, and the text
/// holds no line feed.
pub open spec fn written_back(key: Seq<char>, value: Json) -> bool {
    let pair = Json::Array(seq![Json::String(key), value]);
    survives(pair) && !json_text(pair).contains('\n')
}

/// A log is read back as the writes that it was made of, in order, where
/// each of them is read back from its line and the empty line after the
/// last records nothing.
pub proof fn lemma_log_round_trip(entries: Seq<(Seq<char>, Json)>)
    requires
        forall|i: int|
            0 <= i < entries.len() ==> written_back(
                (#[trigger] entries[i]).0,
                entries[i].1,
            ),
        wal_entry(Seq::empty()) is None,
    ensures
        wal_entries(pieces(log_text(entries), '\n', 0)) == entries,
    decreases entries.len(),
{
    let text = log_text(entries);
    if entries.len() == 0 {
        let lines = pieces(text, '\n', 0);
        assert(text.len() == 0);
        assert(find_char(text, '\n', 0) == 0);
        assert(text.subrange(0, 0) =~= Seq::<char>::empty());
        assert(lines =~= seq![Seq::<char>::empty()]);
        assert(lines.drop_last() =~= Seq::<Seq<char>>::empty());
        assert(wal_entries(lines.drop_last()) =~= Seq::<(Seq<char>, Json)>::empty());
        assert(wal_entries(lines) =~= entries);
    } else {
        let first = entries[0];
        let others = entries.drop_first();
        let pair = Json::Array(seq![Json::String(first.0), first.1]);
        let line = json_text(pair);
        assert(written_back(first.0, first.1));
        assert forall|i: int| 0 <= i < others.len() implies written_back(
            (#[trigger] others[i]).0,
            others[i].1,
        ) by {
            assert(others[i] == entries[i + 1]);
        }
        lemma_log_round_trip(others);
        lemma_first_piece(line, '\n', log_text(others));
        lemma_wal_entries_front(line, pieces(log_text(others), '\n', 0));
        assert(wal_entry(line) == Some(first));
        assert(seq![first] + others =~= entries);
    }
}

/// A restart loses nothing. Let the snapshot on disk be one of the records
/// `saved` (or let there be none yet, and `saved` be empty), and the log
/// hold the writes made since. Then a fresh store that recovers from the
/// two holds `saved` with those writes made over it, which is what the
/// first store held; and so, by [`lemma_indexes_follow_records`], it has
/// the same indexes. This is stated of documents that are read back from
/// their own JSON text.
pub proof fn lemma_restart(
    saved: Map<Seq<char>, Json>,
    snapshot: Option<&[u8]>,
    entries: Seq<(Seq<char>, Json)>,
    log: &str,
)
    requires
        match snapshot {
            Some(frame) => is_snapshot(frame@, saved) && survives(Json::Object(saved)),
            None => saved == Map::<Seq<char>, Json>::empty(),
        },
        log@ == log_text(entries),
        forall|i: int|
            0 <= i < entries.len() ==> written_back(
                (#[trigger] entries[i]).0,
                entries[i].1,
            ),
        wal_entry(Seq::empty()) is None,
    ensures
        recovered(Map::empty(), snapshot, Some(log)) == applied(
            saved,
            entries,
            entries.len() as int,
        ),
{
    lemma_log_round_trip(entries);
    match snapshot {
        Some(frame) => {
            lemma_snapshot_round_trip(saved, frame);
        },
        None => {},
    }
    assert(Map::<Seq<char>, Json>::empty().union_prefer_right(saved) =~= saved);
}

/// Without records, the expected indexes of any fields are none: a store
/// that has lost all its records has lost all its indexes.
pub proof fn lemma_no_records_no_indexes(db: HyperionDB)
    requires
        db.wf(),
        db.records() == Map::<Seq<char>, Json>::empty(),
    ensures
        db.registry() == Map::<Seq<char>, IndexView>::empty(),
{
    lemma_empty_registry(db.indexed_fields@);
}

} // verus!
