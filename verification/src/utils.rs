//! Flattening a document: every leaf under its dotted path.
//!
//! A leaf is any document that is neither an object nor an array. Its path
//! is made of the names of the members and the positions of the elements
//! that lead to it, joined by dots. Two leaves can spell the same path (a
//! member called `a.b` beside a member `b` of a member `a`); the flattened
//! map then holds one of them.

use crate::json::{clone_value, elements, json_entries, json_of, jsons, members, Json};
use crate::strmap::{distinct_keys, entries_map, entry_keys, lemma_entries_map, StrMap};
use crate::text::{decimal_text, push_decimal, push_text};
use serde_json::Value;
use vstd::prelude::*;

verus! {

/// The path of a child called `name` under `prefix`.
pub open spec fn joined(prefix: Option<Seq<char>>, name: Seq<char>) -> Seq<char> {
    match prefix {
        Some(p) => p + seq!['.'] + name,
        None => name,
    }
}

/// The text of an optional path.
pub open spec fn path_view(prefix: Option<String>) -> Option<Seq<char>> {
    match prefix {
        Some(p) => Some(p@),
        None => None,
    }
}

/// `leaf` is a leaf of `j` whose path spells `path`, where `j` itself
/// stands under `prefix`. A document that is a leaf itself has no path
/// but its prefix, and none without one.
pub open spec fn leaf_at(j: Json, prefix: Option<Seq<char>>, path: Seq<char>, leaf: Json) -> bool
    decreases j,
{
    match j {
        Json::Object(m) => exists|k: Seq<char>| #[trigger]
            m.contains_key(k) && leaf_at(m[k], Some(joined(prefix, k)), path, leaf),
        Json::Array(a) => exists|i: int|
            0 <= i < a.len() && leaf_at(
                #[trigger] a[i],
                Some(joined(prefix, decimal_text(i as nat))),
                path,
                leaf,
            ),
        _ => prefix == Some(path) && leaf == j,
    }
}

/// Some leaf of `j` spells `path`.
pub open spec fn has_leaf(j: Json, prefix: Option<Seq<char>>, path: Seq<char>) -> bool {
    exists|leaf: Json| leaf_at(j, prefix, path, leaf)
}

/// `path` is in `after` as it was in `before`.
pub open spec fn kept(
    before: Map<Seq<char>, Value>,
    after: Map<Seq<char>, Value>,
    path: Seq<char>,
) -> bool {
    &&& after.contains_key(path) == before.contains_key(path)
    &&& before.contains_key(path) ==> after[path] == before[path]
}

/// What flattening `j` into a map does at one path: a path that a leaf
/// spells holds such a leaf, and any other path is as it was.
pub open spec fn placed(
    before: Map<Seq<char>, Value>,
    after: Map<Seq<char>, Value>,
    j: Json,
    prefix: Option<Seq<char>>,
    path: Seq<char>,
) -> bool {
    if has_leaf(j, prefix, path) {
        after.contains_key(path) && leaf_at(j, prefix, path, json_of(after[path]))
    } else {
        kept(before, after, path)
    }
}

/// `after` is `before` with `j` flattened into it.
pub open spec fn flattened(
    before: Map<Seq<char>, Value>,
    after: Map<Seq<char>, Value>,
    j: Json,
    prefix: Option<Seq<char>>,
) -> bool {
    forall|path: Seq<char>| #[trigger] placed(before, after, j, prefix, path)
}

/// The members of an object, each with its own path and what it holds.
spec fn object_children(list: Seq<(String, Value)>, prefix: Option<Seq<char>>) -> Seq<
    (Seq<char>, Json),
> {
    Seq::new(list.len(), |i: int| (joined(prefix, list[i].0@), json_of(list[i].1)))
}

/// The elements of an array, each with its own path and what it holds.
spec fn array_children(items: Seq<Value>, prefix: Option<Seq<char>>) -> Seq<
    (Seq<char>, Json),
> {
    Seq::new(items.len(), |i: int| (joined(prefix, decimal_text(i as nat)), json_of(items[i])))
}

/// `leaf` is a leaf of one of the first `n` children and spells `path`.
spec fn leaf_among(
    children: Seq<(Seq<char>, Json)>,
    n: int,
    path: Seq<char>,
    leaf: Json,
) -> bool {
    exists|i: int| 0 <= i < n && #[trigger] leaf_at(children[i].1, Some(children[i].0), path, leaf)
}

/// What flattening the first `n` children does at one path.
spec fn placed_among(
    before: Map<Seq<char>, Value>,
    after: Map<Seq<char>, Value>,
    children: Seq<(Seq<char>, Json)>,
    n: int,
    path: Seq<char>,
) -> bool {
    if exists|leaf: Json| leaf_among(children, n, path, leaf) {
        after.contains_key(path) && leaf_among(children, n, path, json_of(after[path]))
    } else {
        kept(before, after, path)
    }
}

/// `after` is `before` with the first `n` children flattened into it.
spec fn flattened_among(
    before: Map<Seq<char>, Value>,
    after: Map<Seq<char>, Value>,
    children: Seq<(Seq<char>, Json)>,
    n: int,
) -> bool {
    forall|path: Seq<char>| #[trigger] placed_among(before, after, children, n, path)
}

/// Flattening one more child after the first `n` flattens the first
/// `n + 1`.
proof fn lemma_one_more(
    before: Map<Seq<char>, Value>,
    middle: Map<Seq<char>, Value>,
    after: Map<Seq<char>, Value>,
    children: Seq<(Seq<char>, Json)>,
    n: int,
)
    requires
        0 <= n < children.len(),
        flattened_among(before, middle, children, n),
        flattened(middle, after, children[n].1, Some(children[n].0)),
    ensures
        flattened_among(before, after, children, n + 1),
{
    let next = n + 1;
    assert forall|path: Seq<char>| #[trigger]
        placed_among(before, after, children, next, path) by {
        assert(placed_among(before, middle, children, n, path));
        assert(placed(middle, after, children[n].1, Some(children[n].0), path));
        if has_leaf(children[n].1, Some(children[n].0), path) {
            assert(leaf_at(children[n].1, Some(children[n].0), path, json_of(after[path])));
            assert(leaf_among(children, next, path, json_of(after[path])));
        } else if exists|leaf: Json| leaf_among(children, n, path, leaf) {
            let leaf = json_of(middle[path]);
            let i = choose|i: int|
                0 <= i < n && #[trigger] leaf_at(children[i].1, Some(children[i].0), path, leaf);
            assert(leaf_at(children[i].1, Some(children[i].0), path, json_of(after[path])));
            assert(leaf_among(children, next, path, json_of(after[path])));
        } else {
            assert forall|leaf: Json| !leaf_among(children, next, path, leaf) by {
                if leaf_among(children, next, path, leaf) {
                    let i = choose|i: int|
                        0 <= i < next && #[trigger] leaf_at(
                            children[i].1,
                            Some(children[i].0),
                            path,
                            leaf,
                        );
                    if i < n {
                        assert(leaf_among(children, n, path, leaf));
                    } else {
                        assert(has_leaf(children[n].1, Some(children[n].0), path));
                    }
                }
            }
        }
    }
}

/// A leaf of a member is a leaf of the object.
proof fn lemma_member_leaf(
    m: Map<Seq<char>, Json>,
    prefix: Option<Seq<char>>,
    path: Seq<char>,
    leaf: Json,
    k: Seq<char>,
)
    requires
        m.dom().finite(),
        m.contains_key(k),
        leaf_at(m[k], Some(joined(prefix, k)), path, leaf),
    ensures
        leaf_at(Json::Object(m), prefix, path, leaf),
{
    let j = Json::Object(m);
    assert(decreases_to!(j => j->Object_0));
    assert(decreases_to!(m => m[k]));
    assert(decreases_to!(j => m[k]));
}

/// A leaf of an element is a leaf of the array.
proof fn lemma_element_leaf(
    a: Seq<Json>,
    prefix: Option<Seq<char>>,
    path: Seq<char>,
    leaf: Json,
    i: int,
)
    requires
        0 <= i < a.len(),
        leaf_at(a[i], Some(joined(prefix, decimal_text(i as nat))), path, leaf),
    ensures
        leaf_at(Json::Array(a), prefix, path, leaf),
{
    let j = Json::Array(a);
    assert(decreases_to!(j => j->Array_0));
    assert(decreases_to!(a => a[i]));
    assert(decreases_to!(j => a[i]));
}

/// The leaves of an object are those of its members.
proof fn lemma_object_leaves(
    list: Seq<(String, Value)>,
    prefix: Option<Seq<char>>,
    path: Seq<char>,
    leaf: Json,
)
    requires
        distinct_keys(list),
    ensures
        leaf_at(Json::Object(json_entries(list)), prefix, path, leaf) <==> leaf_among(
            object_children(list, prefix),
            list.len() as int,
            path,
            leaf,
        ),
{
    let m = json_entries(list);
    let children = object_children(list, prefix);
    lemma_entries_map(list);
    assert(m.dom() =~= entries_map(list).dom());
    if leaf_at(Json::Object(m), prefix, path, leaf) {
        let k = choose|k: Seq<char>| #[trigger]
            m.contains_key(k) && leaf_at(m[k], Some(joined(prefix, k)), path, leaf);
        assert(entry_keys(list).contains(k));
        let i = entry_keys(list).index_of(k);
        assert(entry_keys(list)[i] == k);
        assert(entries_map(list)[k] == list[i].1);
        assert(leaf_at(children[i].1, Some(children[i].0), path, leaf));
    }
    if leaf_among(children, list.len() as int, path, leaf) {
        let i = choose|i: int|
            0 <= i < list.len() && #[trigger] leaf_at(
                children[i].1,
                Some(children[i].0),
                path,
                leaf,
            );
        let k = entry_keys(list)[i];
        assert(m.contains_key(k) && m[k] == json_of(list[i].1));
        lemma_member_leaf(m, prefix, path, leaf, k);
    }
}

/// The leaves of an array are those of its elements.
proof fn lemma_array_leaves(
    items: Seq<Value>,
    prefix: Option<Seq<char>>,
    path: Seq<char>,
    leaf: Json,
)
    ensures
        leaf_at(Json::Array(jsons(items)), prefix, path, leaf) <==> leaf_among(
            array_children(items, prefix),
            items.len() as int,
            path,
            leaf,
        ),
{
    let a = jsons(items);
    let children = array_children(items, prefix);
    if leaf_at(Json::Array(a), prefix, path, leaf) {
        let i = choose|i: int|
            0 <= i < a.len() && leaf_at(
                #[trigger] a[i],
                Some(joined(prefix, decimal_text(i as nat))),
                path,
                leaf,
            );
        assert(leaf_at(children[i].1, Some(children[i].0), path, leaf));
    }
    if leaf_among(children, items.len() as int, path, leaf) {
        let i = choose|i: int|
            0 <= i < items.len() && #[trigger] leaf_at(
                children[i].1,
                Some(children[i].0),
                path,
                leaf,
            );
        lemma_element_leaf(a, prefix, path, leaf, i);
    }
}

/// The path of a child.
fn join(prefix: &Option<String>, name: &str) -> (r: String)
    ensures
        r@ == joined(path_view(*prefix), name@),
{
    let mut r = String::new();
    match prefix {
        Some(p) => {
            push_text(&mut r, p.as_str());
            r.push('.');
            push_text(&mut r, name);
            assert(r@ =~= p@ + seq!['.'] + name@);
        },
        None => {
            push_text(&mut r, name);
            assert(r@ =~= name@);
        },
    }
    r
}

/// Puts every leaf of `value` into `map` under its dotted path, over what
/// the path held before. Members are entered by name, elements by
/// position. A `value` that is a leaf itself goes in under `prefix`, and
/// nowhere without one.
pub fn flatten_json(value: &Value, prefix: Option<String>, map: &mut StrMap<Value>)
    ensures
        flattened(old(map)@, final(map)@, json_of(*value), path_view(prefix)),
    decreases json_of(*value),
{
    let ghost before = map@;
    let ghost root = path_view(prefix);
    if let Some(list) = members(value) {
        let ghost children = object_children(list@, root);
        proof {
            lemma_entries_map(list@);
            assert(json_entries(list@).dom() =~= entries_map(list@).dom());
        }
        let mut i: usize = 0;
        assert(flattened_among(before, map@, children, 0)) by {
            assert forall|path: Seq<char>| #[trigger]
                placed_among(before, map@, children, 0, path) by {}
        }
        while i < list.len()
            invariant
                i <= list.len(),
                root == path_view(prefix),
                children == object_children(list@, root),
                distinct_keys(list@),
                json_of(*value) == Json::Object(json_entries(list@)),
                json_entries(list@).dom().finite(),
                flattened_among(before, map@, children, i as int),
            decreases list.len() - i,
        {
            let ghost middle = map@;
            let key = join(&prefix, list[i].0.as_str());
            proof {
                lemma_entries_map(list@);
                let k = entry_keys(list@)[i as int];
                assert(json_entries(list@).contains_key(k));
                assert(json_entries(list@)[k] == json_of(list[i as int].1));
                let j = json_of(*value);
                assert(decreases_to!(j => j->Object_0));
                assert(decreases_to!(json_entries(list@) => json_entries(list@)[k]));
            }
            flatten_json(&list[i].1, Some(key), map);
            proof {
                lemma_one_more(before, middle, map@, children, i as int);
            }
            i = i + 1;
        }
        proof {
            assert forall|path: Seq<char>| #[trigger]
                placed(before, map@, json_of(*value), root, path) by {
                assert(placed_among(before, map@, children, list.len() as int, path));
                assert forall|leaf: Json|
                    leaf_at(json_of(*value), root, path, leaf) <==> leaf_among(
                        children,
                        list.len() as int,
                        path,
                        leaf,
                    ) by {
                    lemma_object_leaves(list@, root, path, leaf);
                }
            }
        }
    } else if let Some(items) = elements(value) {
        let ghost children = array_children(items@, root);
        let mut i: usize = 0;
        assert(flattened_among(before, map@, children, 0)) by {
            assert forall|path: Seq<char>| #[trigger]
                placed_among(before, map@, children, 0, path) by {}
        }
        while i < items.len()
            invariant
                i <= items.len(),
                root == path_view(prefix),
                children == array_children(items@, root),
                json_of(*value) == Json::Array(jsons(items@)),
                flattened_among(before, map@, children, i as int),
            decreases items.len() - i,
        {
            let ghost middle = map@;
            let mut name = String::new();
            push_decimal(&mut name, i as u64);
            assert(name@ =~= decimal_text(i as nat));
            let key = join(&prefix, name.as_str());
            proof {
                let j = json_of(*value);
                assert(jsons(items@)[i as int] == json_of(items[i as int]));
                assert(decreases_to!(j => j->Array_0));
                assert(decreases_to!(jsons(items@) => jsons(items@)[i as int]));
            }
            flatten_json(&items[i], Some(key), map);
            proof {
                lemma_one_more(before, middle, map@, children, i as int);
            }
            i = i + 1;
        }
        proof {
            assert forall|path: Seq<char>| #[trigger]
                placed(before, map@, json_of(*value), root, path) by {
                assert(placed_among(before, map@, children, items.len() as int, path));
                assert forall|leaf: Json|
                    leaf_at(json_of(*value), root, path, leaf) <==> leaf_among(
                        children,
                        items.len() as int,
                        path,
                        leaf,
                    ) by {
                    lemma_array_leaves(items@, root, path, leaf);
                }
            }
        }
    } else {
        match prefix {
            Some(p) => {
                let ghost at = p@;
                map.insert(p, clone_value(value));
                assert forall|path: Seq<char>| #[trigger]
                    placed(before, map@, json_of(*value), root, path) by {
                    if path == at {
                        assert(leaf_at(json_of(*value), root, path, json_of(map@[path])));
                    }
                }
            },
            None => {
                assert forall|path: Seq<char>| #[trigger]
                    placed(before, map@, json_of(*value), root, path) by {}
            },
        }
    }
}

} // verus!
