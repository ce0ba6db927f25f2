//! Keeping the indexes in step with the records: what a document
//! contributes to the index of a field, and the updates made when a record
//! comes or goes.

use crate::config::{IndexType, IndexedField};
use crate::index::{Index, IndexKey, IndexView, IndexedValue};
use crate::json::{as_str, field_of, get_nested_field, json_of, number_text, Json};
use crate::number::{normalize, normalized};
use crate::strmap::StrMap;
use serde_json::Value;
use vstd::prelude::*;

verus! {

/// The value under which a document is indexed for a field: what the
/// dotted path leads to, if that is a leaf of the field's kind. A number
/// counts by its normalized value and only if it has one.
pub open spec fn indexed_value(j: Json, path: Seq<char>, kind: IndexType) -> Option<IndexKey> {
    match (field_of(j, path), kind) {
        (Some(Json::Number(text)), IndexType::Numeric) => match normalized(text) {
            Some(n) => Some(IndexKey::Num(n)),
            None => None,
        },
        (Some(Json::String(s)), IndexType::String) => Some(IndexKey::Str(s)),
        _ => None,
    }
}

/// Finds the value under which `value` is indexed for `field`.
pub fn indexed_value_of(value: &Value, field: &IndexedField) -> (r: Option<IndexedValue>)
    ensures
        match r {
            Some(x) => indexed_value(json_of(*value), field.field@, field.index_type) == Some(x@),
            None => indexed_value(json_of(*value), field.field@, field.index_type) is None,
        },
{
    match get_nested_field(value, field.field.as_str()) {
        None => None,
        Some(leaf) => match field.index_type {
            IndexType::Numeric => match number_text(leaf) {
                Some(text) => match normalize(text.as_str()) {
                    Some(n) => Some(IndexedValue::Numeric(n)),
                    None => None,
                },
                None => None,
            },
            IndexType::String => match as_str(leaf) {
                Some(s) => Some(IndexedValue::String(s.to_owned())),
                None => None,
            },
        },
    }
}

/// What the indexes hold, by field path.
pub open spec fn registry_view(r: Map<Seq<char>, Index>) -> Map<Seq<char>, IndexView> {
    Map::new(|n: Seq<char>| r.contains_key(n), |n: Seq<char>| r[n]@)
}

/// The indexes after record `key` with document `value` is entered for one
/// field: if the document has an indexed value there, the field's index
/// (made if there is none) gets the key under it. An index of another kind
/// than the field's stays as it is.
pub open spec fn entry_added(
    reg: Map<Seq<char>, IndexView>,
    field: IndexedField,
    key: Seq<char>,
    value: Json,
) -> Map<Seq<char>, IndexView> {
    match indexed_value(value, field.field@, field.index_type) {
        None => reg,
        Some(k) => {
            let current = if reg.contains_key(field.field@) {
                reg[field.field@]
            } else {
                IndexView::empty(field.index_type)
            };
            reg.insert(field.field@, current.with_key(k, key))
        },
    }
}

/// The indexes after record `key` with document `value` is struck out for
/// one field: the field's index, if it is of the field's kind, loses the
/// key under the document's indexed value; an index left empty goes.
pub open spec fn entry_removed(
    reg: Map<Seq<char>, IndexView>,
    field: IndexedField,
    key: Seq<char>,
    value: Json,
) -> Map<Seq<char>, IndexView> {
    match indexed_value(value, field.field@, field.index_type) {
        None => reg,
        Some(k) => if reg.contains_key(field.field@) && reg[field.field@].kind
            == field.index_type {
            let next = reg[field.field@].without_key(k, key);
            if next.buckets == Map::<IndexKey, Set<Seq<char>>>::empty() {
                reg.remove(field.field@)
            } else {
                reg.insert(field.field@, next)
            }
        } else {
            reg
        },
    }
}

/// [`entry_added`] for the first `n` fields, one after the other.
pub open spec fn entries_added(
    reg: Map<Seq<char>, IndexView>,
    fields: Seq<IndexedField>,
    n: int,
    key: Seq<char>,
    value: Json,
) -> Map<Seq<char>, IndexView>
    decreases n,
{
    if n <= 0 {
        reg
    } else {
        entry_added(entries_added(reg, fields, n - 1, key, value), fields[n - 1], key, value)
    }
}

/// [`entry_removed`] for the first `n` fields, one after the other.
pub open spec fn entries_removed(
    reg: Map<Seq<char>, IndexView>,
    fields: Seq<IndexedField>,
    n: int,
    key: Seq<char>,
    value: Json,
) -> Map<Seq<char>, IndexView>
    decreases n,
{
    if n <= 0 {
        reg
    } else {
        entry_removed(entries_removed(reg, fields, n - 1, key, value), fields[n - 1], key, value)
    }
}

/// Enters a record into the indexes of all the fields for which its
/// document has an indexed value.
pub fn update_indices_on_insert(
    indices: &mut StrMap<Index>,
    key: &String,
    value: &Value,
    indexed_fields: &Vec<IndexedField>,
)
    ensures
        registry_view(final(indices)@) == entries_added(
            registry_view(old(indices)@),
            indexed_fields@,
            indexed_fields.len() as int,
            key@,
            json_of(*value),
        ),
{
    let n = indexed_fields.len();
    let mut i: usize = 0;
    while i < n
        invariant
            i <= n == indexed_fields.len(),
            registry_view(indices@) == entries_added(
                registry_view(old(indices)@),
                indexed_fields@,
                i as int,
                key@,
                json_of(*value),
            ),
        decreases n - i,
    {
        let field = &indexed_fields[i];
        let ghost before = registry_view(indices@);
        match indexed_value_of(value, field) {
            None => {},
            Some(found) => {
                let mut index = match indices.remove(field.field.as_str()) {
                    Some(index) => index,
                    None => Index::new(field.index_type),
                };
                index.add(&found, key.as_str());
                indices.insert(field.field.clone(), index);
                assert(registry_view(indices@) =~= entry_added(before, *field, key@, json_of(*value)));
            },
        }
        i = i + 1;
    }
}

/// Strikes a record out of the indexes of all the fields for which its
/// document has an indexed value.
pub fn update_indices_on_delete(
    indices: &mut StrMap<Index>,
    key: &String,
    value: &Value,
    indexed_fields: &Vec<IndexedField>,
)
    ensures
        registry_view(final(indices)@) == entries_removed(
            registry_view(old(indices)@),
            indexed_fields@,
            indexed_fields.len() as int,
            key@,
            json_of(*value),
        ),
{
    let n = indexed_fields.len();
    let mut i: usize = 0;
    while i < n
        invariant
            i <= n == indexed_fields.len(),
            registry_view(indices@) == entries_removed(
                registry_view(old(indices)@),
                indexed_fields@,
                i as int,
                key@,
                json_of(*value),
            ),
        decreases n - i,
    {
        let field = &indexed_fields[i];
        let ghost before = registry_view(indices@);
        match indexed_value_of(value, field) {
            None => {},
            Some(found) => {
                match indices.remove(field.field.as_str()) {
                    None => {
                        assert(registry_view(indices@) =~= before);
                    },
                    Some(index) => {
                        let mut index = index;
                        if index.kind() == field.index_type {
                            index.remove(&found, key.as_str());
                            if !index.is_empty() {
                                indices.insert(field.field.clone(), index);
                            }
                        } else {
                            indices.insert(field.field.clone(), index);
                        }
                        assert(registry_view(indices@) =~= entry_removed(
                            before,
                            *field,
                            key@,
                            json_of(*value),
                        ));
                    },
                }
            },
        }
        i = i + 1;
    }
}

} // verus!
