//! A small map keyed by text, kept as a list of entries whose keys differ.

use crate::text::str_eq;
use vstd::prelude::*;

verus! {

/// A map from text to `V`. No key occurs twice.
pub struct StrMap<V> {
    entries: Vec<(String, V)>,
}

/// The keys of a list of entries, in order.
pub open spec fn entry_keys<V>(entries: Seq<(String, V)>) -> Seq<Seq<char>> {
    Seq::new(entries.len(), |i: int| entries[i].0@)
}

/// No key occurs twice among the entries.
pub open spec fn distinct_keys<V>(entries: Seq<(String, V)>) -> bool {
    forall|i: int, j: int|
        0 <= i < j < entries.len() ==> (#[trigger] entries[i]).0@ != (#[trigger] entries[j]).0@
}

/// The map that a list of entries spells: each key with the value of an
/// entry that has it.
pub open spec fn entries_map<V>(entries: Seq<(String, V)>) -> Map<Seq<char>, V> {
    Map::new(
        |k: Seq<char>| entry_keys(entries).contains(k),
        |k: Seq<char>| entries[entry_keys(entries).index_of(k)].1,
    )
}

/// With distinct keys, the map holds each entry's value under its key, and
/// nothing else.
pub proof fn lemma_entries_map<V>(entries: Seq<(String, V)>)
    requires
        distinct_keys(entries),
    ensures
        forall|i: int|
            0 <= i < entries.len() ==> entries_map(entries).contains_key(
                #[trigger] entry_keys(entries)[i],
            ) && entries_map(entries)[entry_keys(entries)[i]] == entries[i].1,
        forall|k: Seq<char>| #[trigger]
            entries_map(entries).contains_key(k) ==> entry_keys(entries).contains(k),
        entries_map(entries).dom().finite(),
        entry_keys(entries).no_duplicates(),
        entry_keys(entries).to_set() =~= entries_map(entries).dom(),
{
    let keys = entry_keys(entries);
    assert forall|i: int| 0 <= i < entries.len() implies entries_map(entries).contains_key(
        #[trigger] keys[i],
    ) && entries_map(entries)[keys[i]] == entries[i].1 by {
        assert(keys.contains(keys[i]));
        let j = keys.index_of(keys[i]);
        assert(0 <= j < keys.len() && keys[j] == keys[i]);
        if j != i {
            if j < i {
                assert(entries[j].0@ != entries[i].0@);
            } else {
                assert(entries[i].0@ != entries[j].0@);
            }
        }
    }
    assert forall|i: int, j: int| 0 <= i < keys.len() && 0 <= j < keys.len() && i != j implies keys[i]
        != keys[j] by {
        if i < j {
            assert(entries[i].0@ != entries[j].0@);
        } else {
            assert(entries[j].0@ != entries[i].0@);
        }
    }
    assert(keys.to_set() =~= entries_map(entries).dom());
    vstd::seq_lib::seq_to_set_is_finite(keys);
}

impl<V> View for StrMap<V> {
    type V = Map<Seq<char>, V>;

    closed spec fn view(&self) -> Map<Seq<char>, V> {
        entries_map(self.entries@)
    }
}

impl<V> StrMap<V> {
    #[verifier::type_invariant]
    spec fn well_formed(self) -> bool {
        distinct_keys(self.entries@)
    }

    /// The keys in the order in which [`StrMap::key_at`] hands them out.
    pub closed spec fn keys(self) -> Seq<Seq<char>> {
        entry_keys(self.entries@)
    }

    /// An empty map.
    pub fn new() -> (m: Self)
        ensures
            m@ == Map::<Seq<char>, V>::empty(),
            m.keys().len() == 0,
    {
        let m = StrMap { entries: Vec::new() };
        assert(m@ =~= Map::<Seq<char>, V>::empty());
        m
    }

    /// The number of entries. The keys are all different and are the map's
    /// domain.
    pub fn len(&self) -> (n: usize)
        ensures
            n == self.keys().len(),
            n == self@.dom().len(),
            self@.dom().finite(),
            self.keys().no_duplicates(),
            self.keys().to_set() == self@.dom(),
    {
        proof {
            use_type_invariant(self);
            lemma_entries_map(self.entries@);
            self.keys().unique_seq_to_set();
        }
        self.entries.len()
    }

    pub fn is_empty(&self) -> (r: bool)
        ensures
            r == (self@.dom() =~= Set::<Seq<char>>::empty()),
            r == (self.keys().len() == 0),
    {
        proof {
            use_type_invariant(self);
            lemma_entries_map(self.entries@);
            if self.entries.len() > 0 {
                assert(self@.dom().contains(self.keys()[0]));
            }
        }
        self.entries.len() == 0
    }

    /// The key of the `i`-th entry.
    pub fn key_at(&self, i: usize) -> (k: &String)
        requires
            i < self.keys().len(),
        ensures
            k@ == self.keys()[i as int],
            self@.contains_key(k@),
    {
        proof {
            use_type_invariant(self);
            lemma_entries_map(self.entries@);
        }
        &self.entries[i].0
    }

    /// The value of the `i`-th entry.
    pub fn value_at(&self, i: usize) -> (v: &V)
        requires
            i < self.keys().len(),
        ensures
            self@.contains_key(self.keys()[i as int]),
            *v == self@[self.keys()[i as int]],
    {
        proof {
            use_type_invariant(self);
            lemma_entries_map(self.entries@);
        }
        &self.entries[i].1
    }

    /// Where `key` stands among the entries.
    fn position(&self, key: &str) -> (r: Option<usize>)
        ensures
            match r {
                Some(i) => i < self.entries.len() && self.entries[i as int].0@ == key@,
                None => !self@.contains_key(key@),
            },
    {
        let mut i: usize = 0;
        while i < self.entries.len()
            invariant
                i <= self.entries.len(),
                forall|j: int| 0 <= j < i ==> (#[trigger] self.entries[j]).0@ != key@,
            decreases self.entries.len() - i,
        {
            if str_eq(self.entries[i].0.as_str(), key) {
                return Some(i);
            }
            i = i + 1;
        }
        proof {
            if self@.contains_key(key@) {
                let j = entry_keys(self.entries@).index_of(key@);
                assert(self.entries[j].0@ == key@);
            }
        }
        None
    }

    pub fn contains_key(&self, key: &str) -> (r: bool)
        ensures
            r == self@.contains_key(key@),
    {
        proof {
            use_type_invariant(self);
            lemma_entries_map(self.entries@);
        }
        match self.position(key) {
            Some(i) => {
                assert(self.keys()[i as int] == key@);
                true
            },
            None => false,
        }
    }

    /// The value stored under `key`.
    pub fn get(&self, key: &str) -> (r: Option<&V>)
        ensures
            match r {
                Some(v) => self@.contains_key(key@) && *v == self@[key@],
                None => !self@.contains_key(key@),
            },
    {
        proof {
            use_type_invariant(self);
            lemma_entries_map(self.entries@);
        }
        match self.position(key) {
            Some(i) => {
                assert(self.keys()[i as int] == key@);
                Some(&self.entries[i].1)
            },
            None => None,
        }
    }

    /// Stores `value` under `key` and hands back what was stored there.
    pub fn insert(&mut self, key: String, value: V) -> (prev: Option<V>)
        ensures
            final(self)@ == old(self)@.insert(key@, value),
            match prev {
                Some(p) => old(self)@.contains_key(key@) && p == old(self)@[key@],
                None => !old(self)@.contains_key(key@),
            },
    {
        proof {
            use_type_invariant(&*self);
            lemma_entries_map(self.entries@);
        }
        let found = self.position(key.as_str());
        let mut entries: Vec<(String, V)> = Vec::new();
        std::mem::swap(&mut entries, &mut self.entries);
        let ghost before = entries@;
        let prev = match found {
            Some(i) => {
                assert(entry_keys(before)[i as int] == key@);
                let (_, p) = entries.remove(i);
                Some(p)
            },
            None => None,
        };
        let ghost middle = entries@;
        entries.push((key, value));
        proof {
            let after = entries@;
            assert(distinct_keys(after)) by {
                assert forall|a: int, b: int| 0 <= a < b < after.len() implies (#[trigger] after[a]).0@
                    != (#[trigger] after[b]).0@ by {
                    match found {
                        Some(i) => {
                            let oa = if a < i {
                                a
                            } else {
                                a + 1
                            };
                            assert(after[a] == before[oa]);
                            if b < middle.len() {
                                let ob = if b < i {
                                    b
                                } else {
                                    b + 1
                                };
                                assert(after[b] == before[ob]);
                            } else {
                                assert(before[i as int].0@ == key@);
                                if oa < i {
                                    assert(before[oa].0@ != before[i as int].0@);
                                } else {
                                    assert(before[i as int].0@ != before[oa].0@);
                                }
                            }
                        },
                        None => {
                            assert(after[a] == before[a]);
                            if b < middle.len() {
                                assert(after[b] == before[b]);
                            } else {
                                assert(entry_keys(before)[a] == before[a].0@);
                                assert(entry_keys(before).contains(before[a].0@));
                            }
                        },
                    }
                }
            }
            lemma_entries_map(after);
            assert(entries_map(after) =~= entries_map(before).insert(key@, value)) by {
                let goal = entries_map(before).insert(key@, value);
                assert forall|k: Seq<char>| entries_map(after).contains_key(k) implies #[trigger]
                    goal.contains_key(k) && goal[k] == entries_map(after)[k] by {
                    let a = entry_keys(after).index_of(k);
                    assert(entry_keys(after)[a] == k);
                    if a < middle.len() {
                        let oa = match found {
                            Some(i) => if a < i {
                                a
                            } else {
                                a + 1
                            },
                            None => a,
                        };
                        assert(after[a] == before[oa]);
                        assert(entry_keys(before)[oa] == k);
                    }
                }
                assert forall|k: Seq<char>| goal.contains_key(k) implies #[trigger]
                    entries_map(after).contains_key(k) by {
                    if k == key@ {
                        assert(entry_keys(after)[after.len() - 1] == k);
                    } else {
                        let o = entry_keys(before).index_of(k);
                        assert(entry_keys(before)[o] == k);
                        let a = match found {
                            Some(i) => if o < i {
                                o
                            } else {
                                o - 1
                            },
                            None => o,
                        };
                        assert(after[a] == before[o]);
                        assert(entry_keys(after)[a] == k);
                    }
                }
            }
        }
        self.entries = entries;
        prev
    }

    /// Takes `key` out and hands back what was stored under it.
    pub fn remove(&mut self, key: &str) -> (prev: Option<V>)
        ensures
            final(self)@ == old(self)@.remove(key@),
            match prev {
                Some(p) => old(self)@.contains_key(key@) && p == old(self)@[key@],
                None => !old(self)@.contains_key(key@),
            },
    {
        proof {
            use_type_invariant(&*self);
            lemma_entries_map(self.entries@);
        }
        match self.position(key) {
            None => {
                assert(self@ =~= self@.remove(key@));
                None
            },
            Some(i) => {
                let mut entries: Vec<(String, V)> = Vec::new();
                std::mem::swap(&mut entries, &mut self.entries);
                let ghost before = entries@;
                assert(entry_keys(before)[i as int] == key@);
                let (_, p) = entries.remove(i);
                proof {
                    let after = entries@;
                    assert forall|a: int| 0 <= a < after.len() implies #[trigger] after[a]
                        == before[if a < i {
                        a
                    } else {
                        a + 1
                    }] by {}
                    assert(distinct_keys(after)) by {
                        assert forall|a: int, b: int| 0 <= a < b < after.len() implies (
                        #[trigger] after[a]).0@ != (#[trigger] after[b]).0@ by {
                            let oa = if a < i {
                                a
                            } else {
                                a + 1
                            };
                            let ob = if b < i {
                                b
                            } else {
                                b + 1
                            };
                            assert(after[a] == before[oa] && after[b] == before[ob]);
                        }
                    }
                    lemma_entries_map(after);
                    assert(entries_map(after) =~= entries_map(before).remove(key@)) by {
                        let goal = entries_map(before).remove(key@);
                        assert forall|k: Seq<char>| entries_map(after).contains_key(k) implies #[trigger]
                            goal.contains_key(k) && goal[k] == entries_map(after)[k] by {
                            let a = entry_keys(after).index_of(k);
                            assert(entry_keys(after)[a] == k);
                            let oa = if a < i {
                                a
                            } else {
                                a + 1
                            };
                            assert(after[a] == before[oa]);
                            assert(entry_keys(before)[oa] == k);
                            if oa < i {
                                assert(before[oa].0@ != before[i as int].0@);
                            } else {
                                assert(before[i as int].0@ != before[oa].0@);
                            }
                        }
                        assert forall|k: Seq<char>| goal.contains_key(k) implies #[trigger]
                            entries_map(after).contains_key(k) by {
                            let o = entry_keys(before).index_of(k);
                            assert(entry_keys(before)[o] == k);
                            let a = if o < i {
                                o
                            } else {
                                o - 1
                            };
                            assert(after[a] == before[o]);
                            assert(entry_keys(after)[a] == k);
                        }
                    }
                }
                self.entries = entries;
                Some(p)
            },
        }
    }
}

} // verus!
