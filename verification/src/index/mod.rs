//! Secondary indexes: for one field, the record keys under each value that
//! the field takes.
//!
//! A numeric index is an ordered map from the normalized number to a set of
//! record keys; a string index maps each text to a set of record keys. A
//! bucket is never kept empty.

pub mod coherence;
pub mod query;
pub mod update;

use crate::config::IndexType;
use crate::index::query::{query_numeric, query_string, selected};
use crate::keyset::KeySet;
use crate::strmap::StrMap;
use std::collections::BTreeMap;
use vstd::prelude::*;

verus! {

/// A value under which records are indexed.
pub enum IndexKey {
    Num(i64),
    Str(Seq<char>),
}

/// A value under which a record is indexed, as found in a document.
#[derive(Debug)]
pub enum IndexedValue {
    Numeric(i64),
    String(String),
}

impl View for IndexedValue {
    type V = IndexKey;

    open spec fn view(&self) -> IndexKey {
        match self {
            IndexedValue::Numeric(n) => IndexKey::Num(*n),
            IndexedValue::String(s) => IndexKey::Str(s@),
        }
    }
}

/// The kind of index that holds a key.
pub open spec fn kind_of(k: IndexKey) -> IndexType {
    match k {
        IndexKey::Num(_) => IndexType::Numeric,
        IndexKey::Str(_) => IndexType::String,
    }
}

/// An index over one field.
pub enum Index {
    Numeric(BTreeMap<i64, KeySet>),
    String(StrMap<KeySet>),
}

/// What an index holds: its kind, and the set of record keys under each
/// indexed value.
pub struct IndexView {
    pub kind: IndexType,
    pub buckets: Map<IndexKey, Set<Seq<char>>>,
}

/// The buckets of a numeric index.
pub open spec fn numeric_buckets(m: Map<i64, KeySet>) -> Map<IndexKey, Set<Seq<char>>> {
    Map::new(
        |k: IndexKey| k is Num && m.contains_key(k->Num_0),
        |k: IndexKey| m[k->Num_0]@,
    )
}

/// The buckets of a string index.
pub open spec fn string_buckets(m: Map<Seq<char>, KeySet>) -> Map<IndexKey, Set<Seq<char>>> {
    Map::new(
        |k: IndexKey| k is Str && m.contains_key(k->Str_0),
        |k: IndexKey| m[k->Str_0]@,
    )
}

impl View for Index {
    type V = IndexView;

    open spec fn view(&self) -> IndexView {
        match self {
            Index::Numeric(m) => IndexView {
                kind: IndexType::Numeric,
                buckets: numeric_buckets(m@),
            },
            Index::String(m) => IndexView { kind: IndexType::String, buckets: string_buckets(m@) },
        }
    }
}

impl IndexView {
    /// The index of a kind with nothing in it.
    pub open spec fn empty(kind: IndexType) -> IndexView {
        IndexView { kind, buckets: Map::empty() }
    }

    /// The record keys indexed under `k`.
    pub open spec fn bucket(self, k: IndexKey) -> Set<Seq<char>> {
        if self.buckets.contains_key(k) {
            self.buckets[k]
        } else {
            Set::empty()
        }
    }

    /// Whether record `key` is indexed under `k`.
    pub open spec fn holds(self, k: IndexKey, key: Seq<char>) -> bool {
        self.buckets.contains_key(k) && self.buckets[k].contains(key)
    }

    /// No bucket is empty, and every bucket's key is of the index's kind.
    pub open spec fn tidy(self) -> bool {
        forall|k: IndexKey| #[trigger]
            self.buckets.contains_key(k) ==> kind_of(k) == self.kind && self.buckets[k]
                != Set::<Seq<char>>::empty()
    }

    /// The index with record `key` put under `k`. A key of the other kind
    /// changes nothing.
    pub open spec fn with_key(self, k: IndexKey, key: Seq<char>) -> IndexView {
        if kind_of(k) == self.kind {
            IndexView { kind: self.kind, buckets: self.buckets.insert(k, self.bucket(k).insert(key)) }
        } else {
            self
        }
    }

    /// The index with record `key` taken from under `k`; a bucket left
    /// empty goes.
    pub open spec fn without_key(self, k: IndexKey, key: Seq<char>) -> IndexView {
        if self.buckets.contains_key(k) {
            let rest = self.buckets[k].remove(key);
            if rest == Set::<Seq<char>>::empty() {
                IndexView { kind: self.kind, buckets: self.buckets.remove(k) }
            } else {
                IndexView { kind: self.kind, buckets: self.buckets.insert(k, rest) }
            }
        } else {
            self
        }
    }
}

/// Putting a key in leaves no bucket empty.
pub proof fn lemma_with_key_tidy(v: IndexView, k: IndexKey, key: Seq<char>)
    requires
        v.tidy(),
    ensures
        v.with_key(k, key).tidy(),
{
    let after = v.with_key(k, key);
    assert forall|x: IndexKey| #[trigger] after.buckets.contains_key(x) implies kind_of(x)
        == after.kind && after.buckets[x] != Set::<Seq<char>>::empty() by {
        if x == k && kind_of(k) == v.kind {
            assert(after.buckets[x].contains(key));
        } else {
            assert(v.buckets.contains_key(x));
        }
    }
}

/// Taking a key out leaves no bucket empty.
pub proof fn lemma_without_key_tidy(v: IndexView, k: IndexKey, key: Seq<char>)
    requires
        v.tidy(),
    ensures
        v.without_key(k, key).tidy(),
{
    let after = v.without_key(k, key);
    assert forall|x: IndexKey| #[trigger] after.buckets.contains_key(x) implies kind_of(x)
        == after.kind && after.buckets[x] != Set::<Seq<char>>::empty() by {
        assert(v.buckets.contains_key(x));
    }
}

impl Index {
    /// An empty index of the given kind.
    pub fn new(kind: IndexType) -> (r: Index)
        ensures
            r@ == IndexView::empty(kind),
    {
        let r = match kind {
            IndexType::Numeric => Index::Numeric(BTreeMap::new()),
            IndexType::String => Index::String(StrMap::new()),
        };
        assert(r@.buckets =~= Map::<IndexKey, Set<Seq<char>>>::empty());
        r
    }

    pub fn kind(&self) -> (r: IndexType)
        ensures
            r == self@.kind,
    {
        match self {
            Index::Numeric(_) => IndexType::Numeric,
            Index::String(_) => IndexType::String,
        }
    }

    /// Whether the index has no bucket.
    pub fn is_empty(&self) -> (r: bool)
        ensures
            r == (self@.buckets == Map::<IndexKey, Set<Seq<char>>>::empty()),
    {
        match self {
            Index::Numeric(m) => {
                let r = m.is_empty();
                proof {
                    if r {
                        assert(self@.buckets =~= Map::<IndexKey, Set<Seq<char>>>::empty());
                    } else {
                        let n = choose|n: i64| m@.dom().contains(n);
                        assert(m@.dom().contains(n));
                        assert(self@.buckets.contains_key(IndexKey::Num(n)));
                    }
                }
                r
            },
            Index::String(m) => {
                let r = m.is_empty();
                proof {
                    if r {
                        assert(self@.buckets =~= Map::<IndexKey, Set<Seq<char>>>::empty());
                    } else {
                        let s = choose|s: Seq<char>| m@.dom().contains(s);
                        assert(m@.dom().contains(s));
                        assert(self@.buckets.contains_key(IndexKey::Str(s)));
                    }
                }
                r
            },
        }
    }

    /// The ordered map of a numeric index.
    pub fn as_numeric_mut(&mut self) -> (r: Option<&mut BTreeMap<i64, KeySet>>)
        ensures
            match r {
                Some(m) => *old(self) == Index::Numeric(*m) && *final(self) == Index::Numeric(
                    *final(m),
                ),
                None => *old(self) is String && *final(self) == *old(self),
            },
    {
        match self {
            Index::Numeric(map) => Some(map),
            _ => None,
        }
    }

    /// The map of a string index.
    pub fn as_string_mut(&mut self) -> (r: Option<&mut StrMap<KeySet>>)
        ensures
            match r {
                Some(m) => *old(self) == Index::String(*m) && *final(self) == Index::String(
                    *final(m),
                ),
                None => *old(self) is Numeric && *final(self) == *old(self),
            },
    {
        match self {
            Index::String(map) => Some(map),
            _ => None,
        }
    }

    /// The record keys whose indexed value stands in relation `operator` to
    /// `value`.
    pub fn query_keys(&self, operator: &str, value: &str) -> (r: KeySet)
        ensures
            r@ == selected(self@.buckets, operator@, value@),
    {
        match self {
            Index::Numeric(m) => query_numeric(m, operator, value),
            Index::String(m) => query_string(m, operator, value),
        }
    }

    /// Puts record `key` under `value`. A value of the other kind changes
    /// nothing.
    pub fn add(&mut self, value: &IndexedValue, key: &str)
        ensures
            final(self)@ == old(self)@.with_key(value@, key@),
            old(self)@.tidy() ==> final(self)@.tidy(),
    {
        proof {
            if old(self)@.tidy() {
                lemma_with_key_tidy(old(self)@, value@, key@);
            }
        }
        match self {
            Index::Numeric(m) => {
                if let IndexedValue::Numeric(n) = value {
                    let ghost before = m@;
                    let mut bucket = match m.remove(n) {
                        Some(b) => b,
                        None => KeySet::new(),
                    };
                    bucket.insert(key.to_owned());
                    m.insert(*n, bucket);
                    assert(numeric_buckets(m@) =~~= numeric_buckets(before).insert(
                        IndexKey::Num(*n),
                        old(self)@.bucket(IndexKey::Num(*n)).insert(key@),
                    ));
                }
            },
            Index::String(m) => {
                if let IndexedValue::String(s) = value {
                    let ghost before = m@;
                    let mut bucket = match m.remove(s.as_str()) {
                        Some(b) => b,
                        None => KeySet::new(),
                    };
                    bucket.insert(key.to_owned());
                    m.insert(s.clone(), bucket);
                    assert(string_buckets(m@) =~~= string_buckets(before).insert(
                        IndexKey::Str(s@),
                        old(self)@.bucket(IndexKey::Str(s@)).insert(key@),
                    ));
                }
            },
        }
    }

    /// Takes record `key` from under `value`.
    pub fn remove(&mut self, value: &IndexedValue, key: &str)
        ensures
            final(self)@ == old(self)@.without_key(value@, key@),
            old(self)@.tidy() ==> final(self)@.tidy(),
    {
        proof {
            if old(self)@.tidy() {
                lemma_without_key_tidy(old(self)@, value@, key@);
            }
        }
        let ghost goal = old(self)@.without_key(value@, key@);
        match self {
            Index::Numeric(m) => {
                if let IndexedValue::Numeric(n) = value {
                    let ghost before = m@;
                    match m.remove(n) {
                        Some(b) => {
                            let mut bucket = b;
                            bucket.remove(key);
                            assert(bucket@ == numeric_buckets(before)[IndexKey::Num(*n)].remove(
                                key@,
                            ));
                            if bucket.is_empty() {
                                assert(bucket@ == Set::<Seq<char>>::empty());
                                assert(numeric_buckets(m@) =~~= goal.buckets);
                            } else {
                                m.insert(*n, bucket);
                                assert(numeric_buckets(m@) =~~= goal.buckets);
                            }
                        },
                        None => {
                            assert(numeric_buckets(m@) =~~= goal.buckets);
                        },
                    }
                } else {
                    assert(!old(self)@.buckets.contains_key(value@));
                }
            },
            Index::String(m) => {
                if let IndexedValue::String(s) = value {
                    let ghost before = m@;
                    match m.remove(s.as_str()) {
                        Some(b) => {
                            let mut bucket = b;
                            bucket.remove(key);
                            assert(bucket@ == string_buckets(before)[IndexKey::Str(s@)].remove(
                                key@,
                            ));
                            if bucket.is_empty() {
                                assert(bucket@ == Set::<Seq<char>>::empty());
                                assert(string_buckets(m@) =~~= goal.buckets);
                            } else {
                                m.insert(s.clone(), bucket);
                                assert(string_buckets(m@) =~~= goal.buckets);
                            }
                        },
                        None => {
                            assert(string_buckets(m@) =~~= goal.buckets);
                        },
                    }
                } else {
                    assert(!old(self)@.buckets.contains_key(value@));
                }
            },
        }
    }
}

} // verus!
