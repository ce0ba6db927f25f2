//! What the indexes must hold for given records, and the proof that the
//! updates of [`crate::index::update`] keep them so.

use crate::config::{distinct_fields, IndexType, IndexedField};
use crate::index::update::{
    entries_added, entries_removed, entry_added, entry_removed, indexed_value,
};
use crate::index::{kind_of, IndexKey, IndexView};
use crate::json::Json;
use vstd::prelude::*;

verus! {

/// The records whose document is indexed under `k` for a field.
pub open spec fn indexed_under(
    records: Map<Seq<char>, Json>,
    path: Seq<char>,
    kind: IndexType,
    k: IndexKey,
) -> Set<Seq<char>> {
    Set::new(
        |key: Seq<char>| records.contains_key(key) && indexed_value(records[key], path, kind) == Some(k),
    )
}

/// Some record is indexed under `k` for a field.
pub open spec fn is_indexed(
    records: Map<Seq<char>, Json>,
    path: Seq<char>,
    kind: IndexType,
    k: IndexKey,
) -> bool {
    exists|key: Seq<char>| #[trigger]
        records.contains_key(key) && indexed_value(records[key], path, kind) == Some(k)
}

/// The index that a field must have for given records: under each value
/// that occurs, exactly the records that have it.
pub open spec fn expected_index(
    records: Map<Seq<char>, Json>,
    path: Seq<char>,
    kind: IndexType,
) -> IndexView {
    IndexView {
        kind,
        buckets: Map::new(
            |k: IndexKey| is_indexed(records, path, kind, k),
            |k: IndexKey| indexed_under(records, path, kind, k),
        ),
    }
}

/// Some field has the path `n`.
pub open spec fn has_field(fields: Seq<IndexedField>, n: Seq<char>) -> bool {
    exists|i: int| 0 <= i < fields.len() && (#[trigger] fields[i]).field@ == n
}

/// One of the first `count` fields has the path `n`.
pub open spec fn has_early_field(fields: Seq<IndexedField>, n: Seq<char>, count: int) -> bool {
    exists|i: int| 0 <= i < count && i < fields.len() && (#[trigger] fields[i]).field@ == n
}

/// The kind of a field with the path `n`.
pub open spec fn kind_at(fields: Seq<IndexedField>, n: Seq<char>) -> IndexType {
    fields[choose|i: int| 0 <= i < fields.len() && (#[trigger] fields[i]).field@ == n].index_type
}

/// Whether the expected index of the field with path `n` has any bucket.
pub open spec fn is_populated(
    records: Map<Seq<char>, Json>,
    fields: Seq<IndexedField>,
    n: Seq<char>,
) -> bool {
    exists|k: IndexKey| #[trigger] is_indexed(records, n, kind_at(fields, n), k)
}

/// The indexes that given records must have for given fields: an index
/// for each field under which some record is indexed, and no other.
pub open spec fn expected_registry(
    records: Map<Seq<char>, Json>,
    fields: Seq<IndexedField>,
) -> Map<Seq<char>, IndexView> {
    Map::new(
        |n: Seq<char>| has_field(fields, n) && is_populated(records, fields, n),
        |n: Seq<char>| expected_index(records, n, kind_at(fields, n)),
    )
}

/// The indexes half way through an update: the expected ones of `after`
/// for the first `count` fields, those of `before` for the others.
pub open spec fn mixed_registry(
    before: Map<Seq<char>, Json>,
    after: Map<Seq<char>, Json>,
    fields: Seq<IndexedField>,
    count: int,
) -> Map<Seq<char>, IndexView> {
    Map::new(
        |n: Seq<char>|
            has_field(fields, n) && is_populated(
                if has_early_field(fields, n, count) {
                    after
                } else {
                    before
                },
                fields,
                n,
            ),
        |n: Seq<char>|
            expected_index(
                if has_early_field(fields, n, count) {
                    after
                } else {
                    before
                },
                n,
                kind_at(fields, n),
            ),
    )
}

/// With distinct paths, the field at position `i` is the one its path names.
pub proof fn lemma_kind_at(fields: Seq<IndexedField>, i: int)
    requires
        distinct_fields(fields),
        0 <= i < fields.len(),
    ensures
        kind_at(fields, fields[i].field@) == fields[i].index_type,
        has_field(fields, fields[i].field@),
        forall|count: int| #[trigger]
            has_early_field(fields, fields[i].field@, count) <==> i < count,
{
    let n = fields[i].field@;
    let j = choose|j: int| 0 <= j < fields.len() && (#[trigger] fields[j]).field@ == n;
    assert(fields[i].field@ == n);
    if j < i {
        assert(fields[j].field@ != fields[i].field@);
    } else if i < j {
        assert(fields[i].field@ != fields[j].field@);
    }
    assert forall|count: int| #[trigger] has_early_field(fields, n, count) <==> i < count by {
        if has_early_field(fields, n, count) {
            let e = choose|e: int|
                0 <= e < count && e < fields.len() && (#[trigger] fields[e]).field@ == n;
            if e < i {
                assert(fields[e].field@ != fields[i].field@);
            } else if i < e {
                assert(fields[i].field@ != fields[e].field@);
            }
        }
        if i < count {
            assert(fields[i].field@ == n);
        }
    }
}

/// Entering a new record into the expected index of a field gives the
/// expected index of the records with that record.
pub proof fn lemma_index_with_record(
    records: Map<Seq<char>, Json>,
    path: Seq<char>,
    kind: IndexType,
    key: Seq<char>,
    value: Json,
)
    requires
        !records.contains_key(key),
    ensures
        match indexed_value(value, path, kind) {
            Some(k) => expected_index(records.insert(key, value), path, kind) == expected_index(
                records,
                path,
                kind,
            ).with_key(k, key) && is_indexed(records.insert(key, value), path, kind, k),
            None => expected_index(records.insert(key, value), path, kind) == expected_index(
                records,
                path,
                kind,
            ),
        },
        forall|k: IndexKey| #[trigger]
            is_indexed(records, path, kind, k) ==> is_indexed(
                records.insert(key, value),
                path,
                kind,
                k,
            ),
        indexed_value(value, path, kind) is None ==> forall|k: IndexKey| #[trigger]
            is_indexed(records.insert(key, value), path, kind, k) ==> is_indexed(
                records,
                path,
                kind,
                k,
            ),
{
    let after = records.insert(key, value);
    let old_index = expected_index(records, path, kind);
    let new_index = expected_index(after, path, kind);
    assert forall|k: IndexKey| #[trigger] is_indexed(records, path, kind, k) implies is_indexed(
        after,
        path,
        kind,
        k,
    ) by {
        let w = choose|w: Seq<char>| #[trigger]
            records.contains_key(w) && indexed_value(records[w], path, kind) == Some(k);
        assert(after.contains_key(w) && after[w] == records[w]);
    }
    assert forall|k: IndexKey| #[trigger] is_indexed(after, path, kind, k) implies is_indexed(
        records,
        path,
        kind,
        k,
    ) || indexed_value(value, path, kind) == Some(k) by {
        let w = choose|w: Seq<char>| #[trigger]
            after.contains_key(w) && indexed_value(after[w], path, kind) == Some(k);
        if w != key {
            assert(records.contains_key(w) && records[w] == after[w]);
        }
    }
    assert forall|k: IndexKey|
        indexed_under(after, path, kind, k) =~= (if indexed_value(value, path, kind) == Some(k) {
            indexed_under(records, path, kind, k).insert(key)
        } else {
            indexed_under(records, path, kind, k)
        }) by {}
    match indexed_value(value, path, kind) {
        Some(k) => {
            assert(after.contains_key(key) && after[key] == value);
            assert(is_indexed(after, path, kind, k));
            lemma_kind_of_indexed(value, path, kind);
            let target = old_index.with_key(k, key);
            assert(old_index.bucket(k) =~= indexed_under(records, path, kind, k));
            assert(new_index.buckets =~~= target.buckets);
        },
        None => {
            assert(new_index.buckets =~~= old_index.buckets);
        },
    }
}

/// An indexed value is of the kind of the field it was found for.
pub proof fn lemma_kind_of_indexed(value: Json, path: Seq<char>, kind: IndexType)
    ensures
        indexed_value(value, path, kind) matches Some(k) ==> kind_of(k) == kind,
{
}

/// Striking a record out of the expected index of a field gives the
/// expected index of the records without that record.
pub proof fn lemma_index_without_record(
    records: Map<Seq<char>, Json>,
    path: Seq<char>,
    kind: IndexType,
    key: Seq<char>,
)
    requires
        records.contains_key(key),
    ensures
        match indexed_value(records[key], path, kind) {
            Some(k) => expected_index(records.remove(key), path, kind) == expected_index(
                records,
                path,
                kind,
            ).without_key(k, key) && is_indexed(records, path, kind, k),
            None => expected_index(records.remove(key), path, kind) == expected_index(
                records,
                path,
                kind,
            ),
        },
        forall|k: IndexKey| #[trigger]
            is_indexed(records.remove(key), path, kind, k) ==> is_indexed(records, path, kind, k),
        indexed_value(records[key], path, kind) is None ==> forall|k: IndexKey| #[trigger]
            is_indexed(records, path, kind, k) ==> is_indexed(records.remove(key), path, kind, k),
{
    let after = records.remove(key);
    let value = records[key];
    let old_index = expected_index(records, path, kind);
    let new_index = expected_index(after, path, kind);
    assert forall|k: IndexKey| #[trigger] is_indexed(after, path, kind, k) implies is_indexed(
        records,
        path,
        kind,
        k,
    ) by {
        let w = choose|w: Seq<char>| #[trigger]
            after.contains_key(w) && indexed_value(after[w], path, kind) == Some(k);
        assert(records.contains_key(w) && after[w] == records[w]);
    }
    assert forall|k: IndexKey| #[trigger] is_indexed(records, path, kind, k) implies is_indexed(
        after,
        path,
        kind,
        k,
    ) || indexed_value(value, path, kind) == Some(k) by {
        let w = choose|w: Seq<char>| #[trigger]
            records.contains_key(w) && indexed_value(records[w], path, kind) == Some(k);
        if w != key {
            assert(after.contains_key(w) && records[w] == after[w]);
        }
    }
    assert forall|k: IndexKey|
        indexed_under(after, path, kind, k) =~= (if indexed_value(value, path, kind) == Some(k) {
            indexed_under(records, path, kind, k).remove(key)
        } else {
            indexed_under(records, path, kind, k)
        }) by {}
    match indexed_value(value, path, kind) {
        Some(k) => {
            assert(is_indexed(records, path, kind, k));
            let target = old_index.without_key(k, key);
            let rest = indexed_under(records, path, kind, k).remove(key);
            assert(old_index.buckets[k] == indexed_under(records, path, kind, k));
            assert(indexed_under(after, path, kind, k) =~= rest);
            if rest == Set::<Seq<char>>::empty() {
                assert(!is_indexed(after, path, kind, k)) by {
                    if is_indexed(after, path, kind, k) {
                        let w = choose|w: Seq<char>| #[trigger]
                            after.contains_key(w) && indexed_value(after[w], path, kind) == Some(
                                k,
                            );
                        assert(indexed_under(after, path, kind, k).contains(w));
                    }
                }
            } else {
                assert(is_indexed(after, path, kind, k)) by {
                    let w = choose|w: Seq<char>| rest.contains(w);
                    assert(rest.contains(w)) by {
                        if forall|x: Seq<char>| !rest.contains(x) {
                            assert(rest =~= Set::<Seq<char>>::empty());
                        }
                    }
                    assert(after.contains_key(w) && after[w] == records[w]);
                }
            }
            assert(new_index.buckets =~~= target.buckets);
        },
        None => {
            assert(new_index.buckets =~~= old_index.buckets);
        },
    }
}

/// Entering a new record for the first `count` fields leads from the
/// expected indexes of the records to the mixed ones.
pub proof fn lemma_added_steps(
    records: Map<Seq<char>, Json>,
    fields: Seq<IndexedField>,
    key: Seq<char>,
    value: Json,
    count: int,
)
    requires
        distinct_fields(fields),
        !records.contains_key(key),
        0 <= count <= fields.len(),
    ensures
        entries_added(expected_registry(records, fields), fields, count, key, value)
            == mixed_registry(records, records.insert(key, value), fields, count),
    decreases count,
{
    let after = records.insert(key, value);
    let start = expected_registry(records, fields);
    if count == 0 {
        assert forall|n: Seq<char>| !has_early_field(fields, n, 0) by {}
        assert(start =~~= mixed_registry(records, after, fields, 0));
    } else {
        lemma_added_steps(records, fields, key, value, count - 1);
        let prev = mixed_registry(records, after, fields, count - 1);
        let next = mixed_registry(records, after, fields, count);
        let f = fields[count - 1];
        let name = f.field@;
        lemma_kind_at(fields, count - 1);
        lemma_index_with_record(records, name, f.index_type, key, value);
        assert(!has_early_field(fields, name, count - 1));
        assert(has_early_field(fields, name, count));
        assert forall|n: Seq<char>| n != name implies (has_early_field(fields, n, count)
            <==> has_early_field(fields, n, count - 1)) by {
            if has_early_field(fields, n, count) {
                let e = choose|e: int|
                    0 <= e < count && e < fields.len() && (#[trigger] fields[e]).field@ == n;
                assert(e != count - 1);
                assert(0 <= e < count - 1 && fields[e].field@ == n);
            }
            if has_early_field(fields, n, count - 1) {
                let e = choose|e: int|
                    0 <= e < count - 1 && e < fields.len() && (#[trigger] fields[e]).field@ == n;
                assert(0 <= e < count && fields[e].field@ == n);
            }
        }
        let old_index = expected_index(records, name, f.index_type);
        match indexed_value(value, name, f.index_type) {
            None => {
                assert(is_populated(records, fields, name) <==> is_populated(after, fields, name))
                    by {
                    if is_populated(records, fields, name) {
                        let k = choose|k: IndexKey| #[trigger]
                            is_indexed(records, name, f.index_type, k);
                        assert(is_indexed(after, name, f.index_type, k));
                    }
                    if is_populated(after, fields, name) {
                        let k = choose|k: IndexKey| #[trigger]
                            is_indexed(after, name, f.index_type, k);
                        assert(is_indexed(records, name, f.index_type, k));
                    }
                }
                assert(entry_added(prev, f, key, value) =~~= next);
            },
            Some(k) => {
                assert(is_populated(after, fields, name));
                let current = if prev.contains_key(name) {
                    prev[name]
                } else {
                    IndexView::empty(f.index_type)
                };
                assert(current == old_index) by {
                    if !prev.contains_key(name) {
                        assert forall|x: IndexKey| !old_index.buckets.contains_key(x) by {
                            if is_indexed(records, name, f.index_type, x) {
                                assert(is_populated(records, fields, name));
                            }
                        }
                        assert(old_index.buckets =~~= Map::<IndexKey, Set<Seq<char>>>::empty());
                    }
                }
                assert(entry_added(prev, f, key, value) =~~= next);
            },
        }
    }
}

/// Entering a new record for every field leads from the expected indexes
/// of the records to those of the records with the new one.
pub proof fn lemma_added(
    records: Map<Seq<char>, Json>,
    fields: Seq<IndexedField>,
    key: Seq<char>,
    value: Json,
)
    requires
        distinct_fields(fields),
        !records.contains_key(key),
    ensures
        entries_added(expected_registry(records, fields), fields, fields.len() as int, key, value)
            == expected_registry(records.insert(key, value), fields),
{
    let after = records.insert(key, value);
    lemma_added_steps(records, fields, key, value, fields.len() as int);
    assert forall|n: Seq<char>| has_field(fields, n) implies has_early_field(
        fields,
        n,
        fields.len() as int,
    ) by {
        let i = choose|i: int| 0 <= i < fields.len() && (#[trigger] fields[i]).field@ == n;
        assert(0 <= i < fields.len() && fields[i].field@ == n);
    }
    assert(mixed_registry(records, after, fields, fields.len() as int) =~~= expected_registry(
        after,
        fields,
    ));
}

/// Striking a record out for the first `count` fields leads from the
/// expected indexes of the records to the mixed ones.
pub proof fn lemma_removed_steps(
    records: Map<Seq<char>, Json>,
    fields: Seq<IndexedField>,
    key: Seq<char>,
    count: int,
)
    requires
        distinct_fields(fields),
        records.contains_key(key),
        0 <= count <= fields.len(),
    ensures
        entries_removed(expected_registry(records, fields), fields, count, key, records[key])
            == mixed_registry(records, records.remove(key), fields, count),
    decreases count,
{
    let after = records.remove(key);
    let value = records[key];
    let start = expected_registry(records, fields);
    if count == 0 {
        assert forall|n: Seq<char>| !has_early_field(fields, n, 0) by {}
        assert(start =~~= mixed_registry(records, after, fields, 0));
    } else {
        lemma_removed_steps(records, fields, key, count - 1);
        let prev = mixed_registry(records, after, fields, count - 1);
        let next = mixed_registry(records, after, fields, count);
        let f = fields[count - 1];
        let name = f.field@;
        lemma_kind_at(fields, count - 1);
        lemma_index_without_record(records, name, f.index_type, key);
        assert(!has_early_field(fields, name, count - 1));
        assert(has_early_field(fields, name, count));
        assert forall|n: Seq<char>| n != name implies (has_early_field(fields, n, count)
            <==> has_early_field(fields, n, count - 1)) by {
            if has_early_field(fields, n, count) {
                let e = choose|e: int|
                    0 <= e < count && e < fields.len() && (#[trigger] fields[e]).field@ == n;
                assert(e != count - 1);
                assert(0 <= e < count - 1 && fields[e].field@ == n);
            }
            if has_early_field(fields, n, count - 1) {
                let e = choose|e: int|
                    0 <= e < count - 1 && e < fields.len() && (#[trigger] fields[e]).field@ == n;
                assert(0 <= e < count && fields[e].field@ == n);
            }
        }
        let old_index = expected_index(records, name, f.index_type);
        let new_index = expected_index(after, name, f.index_type);
        match indexed_value(value, name, f.index_type) {
            None => {
                assert(is_populated(records, fields, name) <==> is_populated(after, fields, name))
                    by {
                    if is_populated(records, fields, name) {
                        let k = choose|k: IndexKey| #[trigger]
                            is_indexed(records, name, f.index_type, k);
                        assert(is_indexed(after, name, f.index_type, k));
                    }
                    if is_populated(after, fields, name) {
                        let k = choose|k: IndexKey| #[trigger]
                            is_indexed(after, name, f.index_type, k);
                        assert(is_indexed(records, name, f.index_type, k));
                    }
                }
                assert(entry_removed(prev, f, key, value) =~~= next);
            },
            Some(k) => {
                assert(is_populated(records, fields, name));
                assert(prev.contains_key(name) && prev[name] == old_index);
                assert(new_index == old_index.without_key(k, key));
                if new_index.buckets == Map::<IndexKey, Set<Seq<char>>>::empty() {
                    assert(!is_populated(after, fields, name)) by {
                        if is_populated(after, fields, name) {
                            let x = choose|x: IndexKey| #[trigger]
                                is_indexed(after, name, f.index_type, x);
                            assert(new_index.buckets.contains_key(x));
                        }
                    }
                } else {
                    assert(is_populated(after, fields, name)) by {
                        let x = choose|x: IndexKey| new_index.buckets.contains_key(x);
                        assert(new_index.buckets.contains_key(x)) by {
                            if forall|y: IndexKey| !new_index.buckets.contains_key(y) {
                                assert(new_index.buckets =~~= Map::<
                                    IndexKey,
                                    Set<Seq<char>>,
                                >::empty());
                            }
                        }
                        assert(is_indexed(after, name, f.index_type, x));
                    }
                }
                assert(entry_removed(prev, f, key, value) =~~= next);
            },
        }
    }
}

/// Striking a record out for every field leads from the expected indexes
/// of the records to those of the records without it.
pub proof fn lemma_removed(
    records: Map<Seq<char>, Json>,
    fields: Seq<IndexedField>,
    key: Seq<char>,
)
    requires
        distinct_fields(fields),
        records.contains_key(key),
    ensures
        entries_removed(
            expected_registry(records, fields),
            fields,
            fields.len() as int,
            key,
            records[key],
        ) == expected_registry(records.remove(key), fields),
{
    let after = records.remove(key);
    lemma_removed_steps(records, fields, key, fields.len() as int);
    assert forall|n: Seq<char>| has_field(fields, n) implies has_early_field(
        fields,
        n,
        fields.len() as int,
    ) by {
        let i = choose|i: int| 0 <= i < fields.len() && (#[trigger] fields[i]).field@ == n;
        assert(0 <= i < fields.len() && fields[i].field@ == n);
    }
    assert(mixed_registry(records, after, fields, fields.len() as int) =~~= expected_registry(
        after,
        fields,
    ));
}

} // verus!
