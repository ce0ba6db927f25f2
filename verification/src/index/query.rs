//! Answering one condition from an index.

use crate::index::{numeric_buckets, string_buckets, IndexKey};
use crate::keyset::KeySet;
use crate::number::{normalize, normalized};
use crate::strmap::StrMap;
use crate::text::{is_substring, str_contains, str_eq};
use std::collections::BTreeMap;
use vstd::prelude::*;

verus! {

/// Whether the number of a bucket stands in relation `op` to the number of
/// the literal. An operator that numbers do not have relates nothing.
pub open spec fn numeric_match(op: Seq<char>, bucket: i64, literal: i64) -> bool {
    if op == "="@ {
        bucket == literal
    } else if op == "!="@ {
        bucket != literal
    } else if op == ">"@ {
        bucket > literal
    } else if op == ">="@ {
        bucket >= literal
    } else if op == "<"@ {
        bucket < literal
    } else if op == "<="@ {
        bucket <= literal
    } else {
        false
    }
}

/// Whether the text of a bucket stands in relation `op` to the literal.
/// An operator that texts do not have relates nothing.
pub open spec fn string_match(op: Seq<char>, bucket: Seq<char>, literal: Seq<char>) -> bool {
    if op == "="@ {
        bucket == literal
    } else if op == "!="@ {
        bucket != literal
    } else if op == "CONTAINS"@ {
        is_substring(literal, bucket)
    } else {
        false
    }
}

/// Whether an indexed value stands in relation `op` to the literal. A
/// number is compared with the literal's normalized value; a literal that
/// has none relates to no number.
pub open spec fn key_matches(k: IndexKey, op: Seq<char>, literal: Seq<char>) -> bool {
    match k {
        IndexKey::Num(n) => match normalized(literal) {
            Some(l) => numeric_match(op, n, l),
            None => false,
        },
        IndexKey::Str(s) => string_match(op, s, literal),
    }
}

/// The record keys found in the buckets whose value stands in relation
/// `op` to the literal.
pub open spec fn selected(
    buckets: Map<IndexKey, Set<Seq<char>>>,
    op: Seq<char>,
    literal: Seq<char>,
) -> Set<Seq<char>> {
    Set::new(
        |key: Seq<char>|
            exists|k: IndexKey|
                #![trigger buckets.contains_key(k)]
                buckets.contains_key(k) && buckets[k].contains(key) && key_matches(k, op, literal),
    )
}

/// An operator of the query language.
#[derive(Clone, Copy, PartialEq, Eq, Structural)]
pub enum Comparison {
    Equal,
    NotEqual,
    Greater,
    GreaterOrEqual,
    Less,
    LessOrEqual,
    Contains,
}

impl Comparison {
    /// The operator that a token spells.
    pub open spec fn named(op: Seq<char>) -> Option<Comparison> {
        if op == "="@ {
            Some(Comparison::Equal)
        } else if op == "!="@ {
            Some(Comparison::NotEqual)
        } else if op == ">"@ {
            Some(Comparison::Greater)
        } else if op == ">="@ {
            Some(Comparison::GreaterOrEqual)
        } else if op == "<"@ {
            Some(Comparison::Less)
        } else if op == "<="@ {
            Some(Comparison::LessOrEqual)
        } else if op == "CONTAINS"@ {
            Some(Comparison::Contains)
        } else {
            None
        }
    }

    /// Reads an operator token.
    pub fn from_token(op: &str) -> (r: Option<Comparison>)
        ensures
            r == Comparison::named(op@),
    {
        if str_eq(op, "=") {
            Some(Comparison::Equal)
        } else if str_eq(op, "!=") {
            Some(Comparison::NotEqual)
        } else if str_eq(op, ">") {
            Some(Comparison::Greater)
        } else if str_eq(op, ">=") {
            Some(Comparison::GreaterOrEqual)
        } else if str_eq(op, "<") {
            Some(Comparison::Less)
        } else if str_eq(op, "<=") {
            Some(Comparison::LessOrEqual)
        } else if str_eq(op, "CONTAINS") {
            Some(Comparison::Contains)
        } else {
            None
        }
    }
}

/// The operator tokens are pairwise different texts.
pub proof fn lemma_operator_tokens()
    ensures
        "="@ != "!="@,
        "="@ != ">"@,
        "="@ != ">="@,
        "="@ != "<"@,
        "="@ != "<="@,
        "="@ != "CONTAINS"@,
        "!="@ != ">"@,
        "!="@ != ">="@,
        "!="@ != "<"@,
        "!="@ != "<="@,
        "!="@ != "CONTAINS"@,
        ">"@ != ">="@,
        ">"@ != "<"@,
        ">"@ != "<="@,
        ">"@ != "CONTAINS"@,
        ">="@ != "<"@,
        ">="@ != "<="@,
        ">="@ != "CONTAINS"@,
        "<"@ != "<="@,
        "<"@ != "CONTAINS"@,
        "<="@ != "CONTAINS"@,
{
    reveal_strlit("=");
    reveal_strlit("!=");
    reveal_strlit(">");
    reveal_strlit(">=");
    reveal_strlit("<");
    reveal_strlit("<=");
    reveal_strlit("CONTAINS");
    assert("="@.len() == 1 && ">"@.len() == 1 && "<"@.len() == 1);
    assert("!="@.len() == 2 && ">="@.len() == 2 && "<="@.len() == 2);
    assert("CONTAINS"@.len() == 8);
    assert("="@[0] == '=' && ">"@[0] == '>' && "<"@[0] == '<');
    assert("!="@[0] == '!' && ">="@[0] == '>' && "<="@[0] == '<');
}

/// Compares a bucket's number with the literal's.
fn numbers_match(c: Comparison, bucket: i64, literal: i64, Ghost(op): Ghost<Seq<char>>) -> (r: bool)
    requires
        Comparison::named(op) == Some(c),
    ensures
        r == numeric_match(op, bucket, literal),
{
    proof {
        lemma_operator_tokens();
    }
    match c {
        Comparison::Equal => bucket == literal,
        Comparison::NotEqual => bucket != literal,
        Comparison::Greater => bucket > literal,
        Comparison::GreaterOrEqual => bucket >= literal,
        Comparison::Less => bucket < literal,
        Comparison::LessOrEqual => bucket <= literal,
        Comparison::Contains => false,
    }
}

/// Compares a bucket's text with the literal.
fn texts_match(c: Comparison, bucket: &str, literal: &str, Ghost(op): Ghost<Seq<char>>) -> (r: bool)
    requires
        Comparison::named(op) == Some(c),
    ensures
        r == string_match(op, bucket@, literal@),
{
    proof {
        lemma_operator_tokens();
    }
    match c {
        Comparison::Equal => str_eq(bucket, literal),
        Comparison::NotEqual => !str_eq(bucket, literal),
        Comparison::Contains => str_contains(bucket, literal),
        _ => false,
    }
}

/// The numbers that have a bucket, each once.
pub fn numeric_keys(map: &BTreeMap<i64, KeySet>) -> (r: Vec<i64>)
    ensures
        r@.to_set() == map@.dom(),
        r@.no_duplicates(),
{
    let mut r: Vec<i64> = Vec::new();
    for k in it: map.keys()
        invariant
            it.seq().unref().to_set() == map@.dom(),
            it.seq().no_duplicates(),
            r@.len() == it.index(),
            forall|j: int| 0 <= j < r@.len() ==> r@[j] == *it.seq()[j],
            it.index() == it.seq().len() ==> r@ =~= it.seq().unref(),
    {
        r.push(*k);
    }
    r
}

/// The record keys of the first `n` of `keys` whose number matches.
pub open spec fn numeric_partial(
    m: Map<i64, KeySet>,
    keys: Seq<i64>,
    n: int,
    op: Seq<char>,
    literal: i64,
) -> Set<Seq<char>> {
    Set::new(
        |key: Seq<char>|
            exists|j: int|
                0 <= j < n && numeric_match(op, #[trigger] keys[j], literal) && m[keys[j]]@.contains(
                    key,
                ),
    )
}

/// The record keys of a numeric index whose number stands in relation
/// `operator` to the number that `value` spells.
pub fn query_numeric(map: &BTreeMap<i64, KeySet>, operator: &str, value: &str) -> (r: KeySet)
    ensures
        r@ == selected(numeric_buckets(map@), operator@, value@),
{
    let mut result = KeySet::new();
    let ghost buckets = numeric_buckets(map@);
    let literal = match normalize(value) {
        Some(l) => l,
        None => {
            assert(result@ =~= selected(buckets, operator@, value@)) by {
                assert forall|key: Seq<char>| selected(buckets, operator@, value@).contains(
                    key,
                ) implies false by {
                    let k = choose|k: IndexKey|
                        #![trigger buckets.contains_key(k)]
                        buckets.contains_key(k) && buckets[k].contains(key) && key_matches(
                            k,
                            operator@,
                            value@,
                        );
                    assert(buckets.contains_key(k));
                }
            }
            return result;
        },
    };
    let c = match Comparison::from_token(operator) {
        Some(c) => c,
        None => {
            assert(result@ =~= selected(buckets, operator@, value@)) by {
                assert forall|key: Seq<char>| selected(buckets, operator@, value@).contains(
                    key,
                ) implies false by {
                    let k = choose|k: IndexKey|
                        #![trigger buckets.contains_key(k)]
                        buckets.contains_key(k) && buckets[k].contains(key) && key_matches(
                            k,
                            operator@,
                            value@,
                        );
                    assert(buckets.contains_key(k));
                }
            }
            return result;
        },
    };
    let keys = numeric_keys(map);
    let n = keys.len();
    let mut i: usize = 0;
    while i < n
        invariant
            i <= n == keys.len(),
            keys@.to_set() == map@.dom(),
            Comparison::named(operator@) == Some(c),
            result@ == numeric_partial(map@, keys@, i as int, operator@, literal),
        decreases n - i,
    {
        let k = keys[i];
        let ghost done = i as int;
        assert(keys@.to_set().contains(keys@[done]));
        if numbers_match(c, k, literal, Ghost(operator@)) {
            match map.get(&k) {
                Some(bucket) => {
                    result.extend(bucket);
                },
                None => {},
            }
        }
        i = i + 1;
        assert(result@ =~= numeric_partial(map@, keys@, done + 1, operator@, literal)) by {
            assert forall|key: Seq<char>|
                numeric_partial(map@, keys@, done + 1, operator@, literal).contains(
                    key,
                ) implies result@.contains(key) by {
                let j = choose|j: int|
                    0 <= j < done + 1 && numeric_match(operator@, #[trigger] keys@[j], literal)
                        && map@[keys@[j]]@.contains(key);
                if j < done {
                    assert(numeric_partial(map@, keys@, done, operator@, literal).contains(key));
                }
            }
            assert forall|key: Seq<char>| result@.contains(key) implies numeric_partial(
                map@,
                keys@,
                done + 1,
                operator@,
                literal,
            ).contains(key) by {
                if numeric_partial(map@, keys@, done, operator@, literal).contains(key) {
                    let j = choose|j: int|
                        0 <= j < done && numeric_match(operator@, #[trigger] keys@[j], literal)
                            && map@[keys@[j]]@.contains(key);
                    assert(0 <= j < done + 1 && numeric_match(operator@, keys@[j], literal));
                } else {
                    assert(numeric_match(operator@, keys@[done], literal));
                }
            }
        }
    }
    proof {
        let keys = keys@;
        assert(result@ =~= selected(buckets, operator@, value@)) by {
            assert forall|key: Seq<char>| result@.contains(key) implies selected(
                buckets,
                operator@,
                value@,
            ).contains(key) by {
                let j = choose|j: int|
                    0 <= j < keys.len() && numeric_match(operator@, #[trigger] keys[j], literal)
                        && map@[keys[j]]@.contains(key);
                assert(keys.to_set().contains(keys[j]));
                assert(buckets.contains_key(IndexKey::Num(keys[j])));
            }
            assert forall|key: Seq<char>| selected(buckets, operator@, value@).contains(
                key,
            ) implies result@.contains(key) by {
                let k = choose|k: IndexKey|
                    #![trigger buckets.contains_key(k)]
                    buckets.contains_key(k) && buckets[k].contains(key) && key_matches(
                        k,
                        operator@,
                        value@,
                    );
                let n = k->Num_0;
                assert(keys.to_set().contains(n));
                let j = choose|j: int| 0 <= j < keys.len() && keys[j] == n;
                assert(numeric_match(operator@, keys[j], literal));
            }
        }
    }
    result
}

/// The record keys of the first `n` buckets whose text matches.
pub open spec fn string_partial(
    m: Map<Seq<char>, KeySet>,
    keys: Seq<Seq<char>>,
    n: int,
    op: Seq<char>,
    literal: Seq<char>,
) -> Set<Seq<char>> {
    Set::new(
        |key: Seq<char>|
            exists|j: int|
                0 <= j < n && string_match(op, #[trigger] keys[j], literal) && m[keys[j]]@.contains(
                    key,
                ),
    )
}

/// The record keys of a string index whose text stands in relation
/// `operator` to `value`.
pub fn query_string(map: &StrMap<KeySet>, operator: &str, value: &str) -> (r: KeySet)
    ensures
        r@ == selected(string_buckets(map@), operator@, value@),
{
    let mut result = KeySet::new();
    let ghost buckets = string_buckets(map@);
    let c = match Comparison::from_token(operator) {
        Some(c) => c,
        None => {
            assert(result@ =~= selected(buckets, operator@, value@)) by {
                assert forall|key: Seq<char>| selected(buckets, operator@, value@).contains(
                    key,
                ) implies false by {
                    let k = choose|k: IndexKey|
                        #![trigger buckets.contains_key(k)]
                        buckets.contains_key(k) && buckets[k].contains(key) && key_matches(
                            k,
                            operator@,
                            value@,
                        );
                    assert(buckets.contains_key(k));
                }
            }
            return result;
        },
    };
    let n = map.len();
    let ghost keys = map.keys();
    let mut i: usize = 0;
    while i < n
        invariant
            i <= n == keys.len(),
            keys == map.keys(),
            keys.to_set() == map@.dom(),
            Comparison::named(operator@) == Some(c),
            result@ == string_partial(map@, keys, i as int, operator@, value@),
        decreases n - i,
    {
        let k = map.key_at(i);
        let ghost done = i as int;
        if texts_match(c, k.as_str(), value, Ghost(operator@)) {
            let bucket = map.value_at(i);
            result.extend(bucket);
        }
        i = i + 1;
        assert(result@ =~= string_partial(map@, keys, done + 1, operator@, value@)) by {
            assert forall|key: Seq<char>|
                string_partial(map@, keys, done + 1, operator@, value@).contains(
                    key,
                ) implies result@.contains(key) by {
                let j = choose|j: int|
                    0 <= j < done + 1 && string_match(operator@, #[trigger] keys[j], value@)
                        && map@[keys[j]]@.contains(key);
                if j < done {
                    assert(string_partial(map@, keys, done, operator@, value@).contains(key));
                }
            }
            assert forall|key: Seq<char>| result@.contains(key) implies string_partial(
                map@,
                keys,
                done + 1,
                operator@,
                value@,
            ).contains(key) by {
                if string_partial(map@, keys, done, operator@, value@).contains(key) {
                    let j = choose|j: int|
                        0 <= j < done && string_match(operator@, #[trigger] keys[j], value@)
                            && map@[keys[j]]@.contains(key);
                    assert(0 <= j < done + 1 && string_match(operator@, keys[j], value@));
                } else {
                    assert(string_match(operator@, keys[done], value@));
                }
            }
        }
    }
    proof {
        assert(result@ =~= selected(buckets, operator@, value@)) by {
            assert forall|key: Seq<char>| result@.contains(key) implies selected(
                buckets,
                operator@,
                value@,
            ).contains(key) by {
                let j = choose|j: int|
                    0 <= j < keys.len() && string_match(operator@, #[trigger] keys[j], value@)
                        && map@[keys[j]]@.contains(key);
                assert(keys.to_set().contains(keys[j]));
                assert(buckets.contains_key(IndexKey::Str(keys[j])));
            }
            assert forall|key: Seq<char>| selected(buckets, operator@, value@).contains(
                key,
            ) implies result@.contains(key) by {
                let k = choose|k: IndexKey|
                    #![trigger buckets.contains_key(k)]
                    buckets.contains_key(k) && buckets[k].contains(key) && key_matches(
                        k,
                        operator@,
                        value@,
                    );
                let s = k->Str_0;
                assert(keys.to_set().contains(s));
                let j = choose|j: int| 0 <= j < keys.len() && keys[j] == s;
                assert(string_match(operator@, keys[j], value@));
            }
        }
    }
    result
}

} // verus!
