//! Reading the store: listing and querying.

use crate::handler::parser::{ConditionView, Expr, ExprView};
use crate::hyperion_db::{eval, is_listing, lists, HyperionDB};
use crate::json::{clone_value, json_entries, json_of, jsons};
use crate::keyset::KeySet;
use crate::laws::lemma_selected_are_held;
use crate::router::shard_of;
use crate::shard::{shard_entries, shard_list};
use crate::strmap::{entry_keys, lemma_entries_map};
use serde_json::Value;
use vstd::prelude::*;

verus! {

/// A key that is not in a list of different keys can be put behind them.
proof fn lemma_push_fresh(keys: Seq<Seq<char>>, key: Seq<char>)
    requires
        keys.no_duplicates(),
        !keys.contains(key),
    ensures
        keys.push(key).no_duplicates(),
{
    let after = keys.push(key);
    assert forall|a: int, b: int|
        0 <= a < after.len() && 0 <= b < after.len() && a != b implies after[a] != after[b] by {
        if a < keys.len() && b < keys.len() {
            assert(keys[a] != keys[b]);
        } else if a < keys.len() {
            assert(keys.contains(keys[a]));
        } else {
            assert(keys.contains(keys[b]));
        }
    }
}

impl HyperionDB {
    /// The documents of all records, each record once, in no particular
    /// order.
    pub fn get_all_records(&self) -> (r: Vec<Value>)
        requires
            self.wf(),
        ensures
            is_listing(jsons(r@), self.records(), self.records().dom()),
    {
        let mut all: Vec<Value> = Vec::new();
        let ghost mut keys: Seq<Seq<char>> = Seq::empty();
        let ghost n = self.shard_manager.num_shards;
        let mut i: usize = 0;
        while i < self.shards.len()
            invariant
                i <= self.shards.len(),
                self.wf(),
                n == self.shard_manager.num_shards,
                lists(jsons(all@), keys, self.records()),
                forall|k: Seq<char>|
                    keys.contains(k) <==> self.records().contains_key(k) && shard_of(k, n) < i,
            decreases self.shards.len() - i,
        {
            let list = shard_list(&self.shards[i]);
            let ghost names = entry_keys(list@);
            proof {
                lemma_entries_map(list@);
                assert(names.to_set() =~= json_entries(list@).dom());
            }
            let mut j: usize = 0;
            while j < list.len()
                invariant
                    j <= list.len(),
                    i < self.shards.len(),
                    self.wf(),
                    n == self.shard_manager.num_shards,
                    names == entry_keys(list@),
                    names.no_duplicates(),
                    names.to_set() == shard_entries(self.shards[i as int]).dom(),
                    forall|t: int|
                        0 <= t < list.len() ==> shard_entries(self.shards[i as int])[
                        #[trigger] names[t]] == json_of(list[t].1),
                    lists(jsons(all@), keys, self.records()),
                    forall|k: Seq<char>|
                        keys.contains(k) <==> self.records().contains_key(k) && (shard_of(k, n) < i
                            || (shard_of(k, n) == i && exists|t: int|
                            0 <= t < j && names[t] == k)),
                decreases list.len() - j,
            {
                let ghost name = names[j as int];
                let ghost was = keys;
                assert(names.to_set().contains(name));
                assert(shard_entries(self.shards[i as int]).contains_key(name));
                assert(shard_of(name, n) == i);
                assert(!was.contains(name)) by {
                    if was.contains(name) {
                        let t = choose|t: int| 0 <= t < j && names[t] == name;
                        assert(names[t] == names[j as int]);
                    }
                }
                all.push(clone_value(&list[j].1));
                proof {
                    keys = keys.push(name);
                    assert forall|k: Seq<char>|
                        keys.contains(k) <==> self.records().contains_key(k) && (shard_of(k, n) < i
                            || (shard_of(k, n) == i && exists|t: int|
                            0 <= t < j + 1 && names[t] == k)) by {
                        if keys.contains(k) {
                            let x = choose|x: int| 0 <= x < keys.len() && keys[x] == k;
                            if x < was.len() {
                                assert(was[x] == k);
                                assert(was.contains(k));
                                if shard_of(k, n) == i {
                                    let t = choose|t: int| 0 <= t < j && names[t] == k;
                                    assert(0 <= t < j + 1 && names[t] == k);
                                }
                            } else {
                                assert(k == name);
                                assert(0 <= j < j + 1 && names[j as int] == k);
                            }
                        }
                        if self.records().contains_key(k) && (shard_of(k, n) < i || (shard_of(k, n)
                            == i && exists|t: int| 0 <= t < j + 1 && names[t] == k)) {
                            if shard_of(k, n) == i {
                                let t = choose|t: int| 0 <= t < j + 1 && names[t] == k;
                                if t < j {
                                    assert(was.contains(k));
                                    let x = choose|x: int| 0 <= x < was.len() && was[x] == k;
                                    assert(keys[x] == k);
                                } else {
                                    assert(keys[keys.len() - 1] == k);
                                }
                            } else {
                                assert(was.contains(k));
                                let x = choose|x: int| 0 <= x < was.len() && was[x] == k;
                                assert(keys[x] == k);
                            }
                        }
                    }
                    lemma_push_fresh(was, name);
                }
                j = j + 1;
            }
            proof {
                assert forall|k: Seq<char>|
                    keys.contains(k) <==> self.records().contains_key(k) && shard_of(k, n) < i
                        + 1 by {
                    if self.records().contains_key(k) && shard_of(k, n) == i {
                        assert(names.to_set().contains(k));
                        let t = choose|t: int| 0 <= t < names.len() && names[t] == k;
                        assert(0 <= t < j && names[t] == k);
                    }
                }
            }
            i = i + 1;
        }
        proof {
            assert(keys.to_set() =~= self.records().dom()) by {
                assert forall|k: Seq<char>| self.records().contains_key(k) implies keys.contains(
                    k,
                ) by {
                    assert(shard_of(k, n) < self.shards.len());
                }
            }
        }
        all
    }

    /// The record keys that a predicate selects.
    pub fn evaluate_expr(&self, expr: &Expr) -> (r: KeySet)
        ensures
            r@ == eval(self.registry(), expr@),
        decreases expr,
    {
        match expr {
            Expr::Condition(c) => match self.indices.get(c.field.as_str()) {
                Some(index) => index.query_keys(c.operator.as_str(), c.value.as_str()),
                None => KeySet::new(),
            },
            Expr::And(l, r) => {
                let left = self.evaluate_expr(l);
                if left.is_empty() {
                    assert(eval(self.registry(), expr@) =~= Set::<Seq<char>>::empty());
                    return left;
                }
                let right = self.evaluate_expr(r);
                left.intersection(&right)
            },
            Expr::Or(l, r) => {
                let left = self.evaluate_expr(l);
                let right = self.evaluate_expr(r);
                left.union(&right)
            },
            Expr::Group(inner) => self.evaluate_expr(inner),
        }
    }

    /// The documents of the records whose key is in `selected`, each record
    /// once, in no particular order. A key that holds no record is passed
    /// over.
    pub fn get_records_by_keys(&self, selected: &KeySet) -> (r: Vec<Value>)
        requires
            self.wf(),
        ensures
            is_listing(jsons(r@), self.records(), selected@.intersect(self.records().dom())),
    {
        let n = selected.len();
        let ghost names = selected.keys();
        let mut out: Vec<Value> = Vec::new();
        let ghost mut keys: Seq<Seq<char>> = Seq::empty();
        let mut i: usize = 0;
        while i < n
            invariant
                i <= n == names.len(),
                self.wf(),
                names == selected.keys(),
                names.no_duplicates(),
                names.to_set() == selected@,
                lists(jsons(out@), keys, self.records()),
                forall|k: Seq<char>|
                    keys.contains(k) <==> self.records().contains_key(k) && exists|t: int|
                        0 <= t < i && names[t] == k,
            decreases n - i,
        {
            let key = selected.key_at(i);
            let ghost was = keys;
            match self.get(key.as_str()) {
                Some(v) => {
                    assert(!was.contains(key@)) by {
                        if was.contains(key@) {
                            let t = choose|t: int| 0 <= t < i && names[t] == key@;
                            assert(names[t] == names[i as int]);
                        }
                    }
                    out.push(v);
                    proof {
                        keys = keys.push(key@);
                        lemma_push_fresh(was, key@);
                    }
                },
                None => {},
            }
            proof {
                assert forall|k: Seq<char>|
                    keys.contains(k) <==> self.records().contains_key(k) && exists|t: int|
                        0 <= t < i + 1 && names[t] == k by {
                    if keys.contains(k) {
                        let x = choose|x: int| 0 <= x < keys.len() && keys[x] == k;
                        if x < was.len() {
                            assert(was[x] == k);
                            assert(was.contains(k));
                            let t = choose|t: int| 0 <= t < i && names[t] == k;
                            assert(0 <= t < i + 1 && names[t] == k);
                        } else {
                            assert(0 <= i < i + 1 && names[i as int] == k);
                        }
                    }
                    if self.records().contains_key(k) && exists|t: int|
                        0 <= t < i + 1 && names[t] == k {
                        let t = choose|t: int| 0 <= t < i + 1 && names[t] == k;
                        if t < i {
                            assert(was.contains(k));
                            let x = choose|x: int| 0 <= x < was.len() && was[x] == k;
                            assert(keys[x] == k);
                        } else {
                            assert(keys[keys.len() - 1] == k);
                        }
                    }
                }
            }
            i = i + 1;
        }
        proof {
            let wanted = selected@.intersect(self.records().dom());
            assert(keys.to_set() =~= wanted) by {
                assert forall|k: Seq<char>| wanted.contains(k) implies keys.contains(k) by {
                    assert(names.to_set().contains(k));
                    let t = choose|t: int| 0 <= t < names.len() && names[t] == k;
                    assert(0 <= t < i && names[t] == k);
                }
                assert forall|k: Seq<char>| keys.contains(k) implies wanted.contains(k) by {
                    let t = choose|t: int| 0 <= t < i && names[t] == k;
                    assert(names.to_set().contains(names[t]));
                }
            }
        }
        out
    }

    /// The documents of the records that a predicate selects, each record
    /// once, in no particular order.
    pub fn query_expression(&self, expr: &Expr) -> (r: Vec<Value>)
        requires
            self.wf(),
        ensures
            is_listing(jsons(r@), self.records(), eval(self.registry(), expr@)),
    {
        let selected = self.evaluate_expr(expr);
        proof {
            lemma_selected_are_held(*self, expr@);
            assert(selected@.intersect(self.records().dom()) =~= selected@);
        }
        self.get_records_by_keys(&selected)
    }

    /// The documents of the records whose value for `field` stands in
    /// relation `operator` to `value`: the query of one condition.
    pub fn query(&self, field: &str, operator: &str, value: &str) -> (r: Vec<Value>)
        requires
            self.wf(),
        ensures
            is_listing(
                jsons(r@),
                self.records(),
                eval(
                    self.registry(),
                    ExprView::Condition(
                        ConditionView { field: field@, operator: operator@, value: value@ },
                    ),
                ),
            ),
    {
        let selected = match self.indices.get(field) {
            Some(index) => index.query_keys(operator, value),
            None => KeySet::new(),
        };
        proof {
            lemma_selected_are_held(
                *self,
                ExprView::Condition(
                    ConditionView { field: field@, operator: operator@, value: value@ },
                ),
            );
            assert(selected@.intersect(self.records().dom()) =~= selected@);
        }
        self.get_records_by_keys(&selected)
    }
}

} // verus!
