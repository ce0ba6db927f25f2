use hyperiondb::config::{parse_count, Config, ConfigError, IndexType, IndexedField};
use hyperiondb::index::query::{query_numeric, query_string, Comparison};
use hyperiondb::index::update::{
    indexed_value_of, update_indices_on_delete, update_indices_on_insert,
};
use hyperiondb::index::{Index, IndexedValue};
use hyperiondb::json::get_nested_field;
use hyperiondb::keyset::KeySet;
use hyperiondb::router::get_shard;
use hyperiondb::shard_manager::ShardManager;
use hyperiondb::strmap::StrMap;
use hyperiondb::text::{split_on, trim_chars};
use serde_json::Value;
use std::collections::BTreeMap;

fn doc(text: &str) -> Value {
    serde_json::from_str(text).expect("valid JSON")
}

fn sorted(set: &KeySet) -> Vec<String> {
    let mut keys: Vec<String> = (0..set.len()).map(|i| set.key_at(i).clone()).collect();
    keys.sort();
    keys
}

fn strings(words: &[&str]) -> Vec<String> {
    words.iter().map(|w| w.to_string()).collect()
}

fn field(path: &str, index_type: IndexType) -> IndexedField {
    IndexedField { field: path.to_string(), index_type }
}

#[test]
fn key_sets_behave_as_sets() {
    let mut a = KeySet::new();
    assert!(a.is_empty());
    assert!(a.insert("x".to_string()));
    assert!(!a.insert("x".to_string()));
    assert!(a.insert("y".to_string()));
    assert_eq!(a.len(), 2);
    assert!(a.contains("x") && !a.contains("z"));
    let mut b = KeySet::new();
    b.insert("y".to_string());
    b.insert("z".to_string());
    assert_eq!(sorted(&a.union(&b)), strings(&["x", "y", "z"]));
    assert_eq!(sorted(&a.intersection(&b)), strings(&["y"]));
    assert_eq!(sorted(&a.copy()), strings(&["x", "y"]));
    assert!(a.remove("x"));
    assert!(!a.remove("x"));
    assert_eq!(sorted(&a), strings(&["y"]));
    a.extend(&b);
    assert_eq!(sorted(&a), strings(&["y", "z"]));
}

#[test]
fn text_maps_behave_as_maps() {
    let mut m: StrMap<u32> = StrMap::new();
    assert!(m.is_empty());
    assert_eq!(m.insert("a".to_string(), 1), None);
    assert_eq!(m.insert("b".to_string(), 2), None);
    assert_eq!(m.insert("a".to_string(), 3), Some(1));
    assert_eq!(m.len(), 2);
    assert_eq!(m.get("a"), Some(&3));
    assert_eq!(m.get("c"), None);
    assert!(m.contains_key("b"));
    assert_eq!(m.remove("b"), Some(2));
    assert_eq!(m.remove("b"), None);
    assert_eq!(m.len(), 1);
    assert_eq!(m.key_at(0), "a");
    assert_eq!(*m.value_at(0), 3);
}

#[test]
fn numeric_queries_compare_normalized_values() {
    let mut index = Index::new(IndexType::Numeric);
    index.add(&IndexedValue::Numeric(20_000), "u1");
    index.add(&IndexedValue::Numeric(40_000), "u2");
    index.add(&IndexedValue::Numeric(60_000), "u3");
    index.add(&IndexedValue::Numeric(40_000), "u4");
    assert_eq!(sorted(&index.query_keys("=", "40")), strings(&["u2", "u4"]));
    assert_eq!(sorted(&index.query_keys("=", "40.0004")), strings(&["u2", "u4"]));
    assert_eq!(sorted(&index.query_keys("=", "39.9995")), strings(&["u2", "u4"]));
    assert_eq!(sorted(&index.query_keys("<", "39.9995")), strings(&["u1"]));
    assert_eq!(sorted(&index.query_keys("!=", "40")), strings(&["u1", "u3"]));
    assert_eq!(sorted(&index.query_keys(">", "40")), strings(&["u3"]));
    assert_eq!(sorted(&index.query_keys(">=", "40")), strings(&["u2", "u3", "u4"]));
    assert_eq!(sorted(&index.query_keys("<", "40")), strings(&["u1"]));
    assert_eq!(sorted(&index.query_keys("<=", "4e1")), strings(&["u1", "u2", "u4"]));
    assert_eq!(sorted(&index.query_keys(">", "-1")), strings(&["u1", "u2", "u3", "u4"]));
    assert!(index.query_keys("CONTAINS", "40").is_empty());
    assert!(index.query_keys("~", "40").is_empty());
    assert!(index.query_keys("=", "forty").is_empty());
    assert!(index.query_keys("!=", "forty").is_empty());
    assert!(index.query_keys("<", "1e99").is_empty());
}

#[test]
fn a_literal_is_rounded_before_it_is_compared() {
    let mut map: BTreeMap<i64, KeySet> = BTreeMap::new();
    let mut bucket = KeySet::new();
    bucket.insert("k".to_string());
    map.insert(3000, bucket);
    assert_eq!(sorted(&query_numeric(&map, "=", "2.9999")), strings(&["k"]));
    assert_eq!(sorted(&query_numeric(&map, ">=", "2.9999")), strings(&["k"]));
    assert!(query_numeric(&map, ">", "2.9999").is_empty());
    assert!(query_numeric(&map, "!=", "2.9999").is_empty());
    assert!(query_numeric(&map, "=", "2.9994").is_empty());
    assert!(query_numeric(&map, "CONTAINS", "3").is_empty());
}

#[test]
fn numeric_queries_on_the_ordered_map() {
    let mut map: BTreeMap<i64, KeySet> = BTreeMap::new();
    let mut small = KeySet::new();
    small.insert("a".to_string());
    let mut large = KeySet::new();
    large.insert("b".to_string());
    map.insert(i64::MIN, small);
    map.insert(i64::MAX, large);
    assert_eq!(sorted(&query_numeric(&map, ">", "0")), strings(&["b"]));
    assert_eq!(sorted(&query_numeric(&map, "<", "0")), strings(&["a"]));
    assert_eq!(sorted(&query_numeric(&map, ">", "9223372036854775.807")), Vec::<String>::new());
    assert_eq!(sorted(&query_numeric(&map, ">=", "9223372036854775.807")), strings(&["b"]));
    assert_eq!(sorted(&query_numeric(&map, "=", "-9223372036854775.808")), strings(&["a"]));
}

#[test]
fn string_queries() {
    let mut map: StrMap<KeySet> = StrMap::new();
    for (text, key) in [("banana", "k1"), ("bandana", "k2"), ("cherry", "k3"), ("banana", "k4")] {
        let mut bucket = map.remove(text).unwrap_or_else(KeySet::new);
        bucket.insert(key.to_string());
        map.insert(text.to_string(), bucket);
    }
    assert_eq!(sorted(&query_string(&map, "=", "banana")), strings(&["k1", "k4"]));
    assert_eq!(sorted(&query_string(&map, "!=", "banana")), strings(&["k2", "k3"]));
    assert_eq!(sorted(&query_string(&map, "CONTAINS", "an")), strings(&["k1", "k2", "k4"]));
    assert_eq!(sorted(&query_string(&map, "CONTAINS", "nana")), strings(&["k1", "k4"]));
    assert_eq!(sorted(&query_string(&map, "CONTAINS", "rr")), strings(&["k3"]));
    assert_eq!(sorted(&query_string(&map, "CONTAINS", "")), strings(&["k1", "k2", "k3", "k4"]));
    assert!(query_string(&map, "CONTAINS", "xyz").is_empty());
    assert!(query_string(&map, ">", "a").is_empty());
    assert!(query_string(&map, "contains", "an").is_empty());
}

#[test]
fn operators_by_token() {
    assert!(Comparison::from_token("=") == Some(Comparison::Equal));
    assert!(Comparison::from_token("<=") == Some(Comparison::LessOrEqual));
    assert!(Comparison::from_token("CONTAINS") == Some(Comparison::Contains));
    assert!(Comparison::from_token("==").is_none());
    assert!(Comparison::from_token("").is_none());
}

#[test]
fn buckets_left_empty_go() {
    let mut index = Index::new(IndexType::String);
    assert!(index.is_empty());
    index.add(&IndexedValue::String("x".to_string()), "k1");
    index.add(&IndexedValue::String("x".to_string()), "k2");
    index.add(&IndexedValue::Numeric(1), "k3");
    assert!(!index.is_empty());
    assert_eq!(index.as_string_mut().map(|m| m.len()), Some(1));
    assert!(index.as_numeric_mut().is_none());
    index.remove(&IndexedValue::String("x".to_string()), "k1");
    index.remove(&IndexedValue::String("y".to_string()), "k2");
    index.remove(&IndexedValue::Numeric(1), "k2");
    assert_eq!(sorted(&index.query_keys("=", "x")), strings(&["k2"]));
    index.remove(&IndexedValue::String("x".to_string()), "k2");
    assert!(index.is_empty());
    let mut numeric = Index::new(IndexType::Numeric);
    numeric.add(&IndexedValue::Numeric(5), "k");
    assert_eq!(numeric.as_numeric_mut().map(|m| m.len()), Some(1));
    assert!(numeric.as_string_mut().is_none());
    numeric.remove(&IndexedValue::Numeric(5), "k");
    assert!(numeric.is_empty());
}

#[test]
fn paths_descend_through_objects_only() {
    let value = doc("{\"a\":{\"b\":{\"c\":5},\"list\":[1,2]},\"x.y\":1,\"\":{\"\":7}}");
    assert_eq!(get_nested_field(&value, "a.b.c"), Some(&doc("5")));
    assert_eq!(get_nested_field(&value, "a.b"), Some(&doc("{\"c\":5}")));
    assert_eq!(get_nested_field(&value, "a.b.c.d"), None);
    assert_eq!(get_nested_field(&value, "a.list.0"), None);
    assert_eq!(get_nested_field(&value, "a.missing"), None);
    assert_eq!(get_nested_field(&value, "x.y"), None);
    assert_eq!(get_nested_field(&value, "."), Some(&doc("7")));
    assert_eq!(get_nested_field(&value, ""), Some(&doc("{\"\":7}")));
    assert_eq!(get_nested_field(&doc("[1]"), "a"), None);
    assert_eq!(get_nested_field(&doc("3"), ""), None);
}

#[test]
fn indexed_values_of_documents() {
    let value = doc("{\"age\":30.5,\"big\":1e300,\"city\":\"Rome\",\"n\":{\"m\":-2}}");
    let show = |f: IndexedField| format!("{:?}", indexed_value_of(&value, &f));
    assert_eq!(show(field("age", IndexType::Numeric)), "Some(Numeric(30500))");
    assert_eq!(show(field("age", IndexType::String)), "None");
    assert_eq!(show(field("big", IndexType::Numeric)), "None");
    assert_eq!(show(field("city", IndexType::String)), "Some(String(\"Rome\"))");
    assert_eq!(show(field("city", IndexType::Numeric)), "None");
    assert_eq!(show(field("n.m", IndexType::Numeric)), "Some(Numeric(-2000))");
    assert_eq!(show(field("n", IndexType::Numeric)), "None");
    assert_eq!(show(field("gone", IndexType::String)), "None");
    let tiny = doc("{\"x\":0.00001,\"y\":12345678.9}");
    assert_eq!(
        format!("{:?}", indexed_value_of(&tiny, &field("x", IndexType::Numeric))),
        "Some(Numeric(0))"
    );
    assert_eq!(
        format!("{:?}", indexed_value_of(&tiny, &field("y", IndexType::Numeric))),
        "Some(Numeric(12345678900))"
    );
}

#[test]
fn registry_updates() {
    let fields = vec![field("age", IndexType::Numeric), field("city", IndexType::String)];
    let mut indices: StrMap<Index> = StrMap::new();
    let first = doc("{\"age\":30,\"city\":\"Rome\"}");
    let second = doc("{\"age\":30}");
    update_indices_on_insert(&mut indices, &"k1".to_string(), &first, &fields);
    update_indices_on_insert(&mut indices, &"k2".to_string(), &second, &fields);
    assert_eq!(indices.len(), 2);
    assert_eq!(sorted(&indices.get("age").unwrap().query_keys("=", "30")), strings(&["k1", "k2"]));
    assert_eq!(sorted(&indices.get("city").unwrap().query_keys("=", "Rome")), strings(&["k1"]));
    update_indices_on_delete(&mut indices, &"k1".to_string(), &first, &fields);
    assert_eq!(indices.len(), 1);
    assert!(indices.get("city").is_none());
    assert_eq!(sorted(&indices.get("age").unwrap().query_keys("=", "30")), strings(&["k2"]));
    update_indices_on_delete(&mut indices, &"k2".to_string(), &second, &fields);
    assert!(indices.is_empty());
    update_indices_on_insert(&mut indices, &"k3".to_string(), &doc("[1,2]"), &fields);
    assert!(indices.is_empty());
}

#[test]
fn shards_by_key() {
    for n in [1u32, 2, 7, 64] {
        for key in ["", "a", "user1", "prod1000", "ключ"] {
            let id = get_shard(key, n);
            assert!(id < n);
            assert_eq!(id, get_shard(key, n));
            assert_eq!(id, ShardManager::new(n, "d".to_string()).get_shard(key));
        }
    }
    assert_eq!(get_shard("anything", 1), 0);
    let spread: std::collections::BTreeSet<u32> =
        (0..200).map(|i| get_shard(&format!("k{}", i), 8)).collect();
    assert_eq!(spread.len(), 8);
}

#[test]
fn the_shard_is_the_hash_of_the_bytes_modulo_the_count() {
    for key in ["user1", "", "prod1000", "naïve"] {
        for n in [1u32, 3, 8, 1000, u32::MAX] {
            let mut hasher = std::collections::hash_map::DefaultHasher::new();
            std::hash::Hasher::write(&mut hasher, key.as_bytes());
            let hash = std::hash::Hasher::finish(&hasher);
            assert_eq!(get_shard(key, n) as u64, hash % (n as u64));
        }
    }
}

#[test]
fn substrings_are_runs_of_characters() {
    let mut map: StrMap<KeySet> = StrMap::new();
    let mut bucket = KeySet::new();
    bucket.insert("k".to_string());
    map.insert("café au lait".to_string(), bucket);
    assert_eq!(query_string(&map, "CONTAINS", "é a").len(), 1);
    assert_eq!(query_string(&map, "CONTAINS", "café au lait").len(), 1);
    assert_eq!(query_string(&map, "CONTAINS", "café au lait!").len(), 0);
    assert_eq!(query_string(&map, "CONTAINS", "e a").len(), 0);
    assert_eq!(query_string(&map, "=", "café au lait").len(), 1);
    assert_eq!(query_string(&map, "=", "cafe au lait").len(), 0);
    assert_eq!(query_string(&map, "!=", "cafe au lait").len(), 1);
}

#[test]
fn settings_are_checked() {
    let good = Config {
        data_dir: "d".to_string(),
        num_shards: 2,
        indexed_fields: vec![field("a", IndexType::Numeric), field("b", IndexType::String)],
    };
    assert_eq!(good.validate(), Ok(()));
    let none = Config { data_dir: "d".to_string(), num_shards: 0, indexed_fields: vec![] };
    assert_eq!(none.validate(), Err(ConfigError::NoShards));
    let twice = Config {
        data_dir: "d".to_string(),
        num_shards: 1,
        indexed_fields: vec![
            field("a", IndexType::Numeric),
            field("b", IndexType::String),
            field("a", IndexType::String),
        ],
    };
    assert_eq!(twice.validate(), Err(ConfigError::DuplicateField));
    assert!(hyperiondb::hyperion_db::HyperionDB::new(twice).is_err());
    assert_eq!(IndexType::from_name("Numeric"), Ok(IndexType::Numeric));
    assert_eq!(IndexType::from_name("String"), Ok(IndexType::String));
    assert_eq!(IndexType::from_name("numeric"), Err(ConfigError::InvalidIndexType));
    assert_eq!(IndexType::from_name("Text"), Err(ConfigError::InvalidIndexType));
}

#[test]
fn settings_are_read_from_json() {
    let text = "{ \"data_dir\": \"/var/db\", \"num_shards\": 8, \"extra\": true,
        \"indexed_fields\": [
            {\"field\": \"age\", \"index_type\": \"Numeric\"},
            {\"field\": \"address.city\", \"index_type\": \"String\", \"note\": 1}
        ] }";
    let config = Config::from_json(text).expect("well-formed settings");
    assert_eq!(config.data_dir, "/var/db");
    assert_eq!(config.num_shards, 8);
    assert_eq!(config.indexed_fields.len(), 2);
    assert_eq!(config.indexed_fields[0].field, "age");
    assert_eq!(config.indexed_fields[0].index_type, IndexType::Numeric);
    assert_eq!(config.indexed_fields[1].field, "address.city");
    assert_eq!(config.indexed_fields[1].index_type, IndexType::String);
    assert_eq!(config.validate(), Ok(()));
    let refused = |text: &str| Config::from_json(text).err();
    assert_eq!(refused("not json"), Some(ConfigError::Malformed));
    assert_eq!(refused("[]"), Some(ConfigError::Malformed));
    assert_eq!(refused("{\"num_shards\":1,\"indexed_fields\":[]}"), Some(ConfigError::Malformed));
    assert_eq!(
        refused("{\"data_dir\":\"d\",\"num_shards\":1.5,\"indexed_fields\":[]}"),
        Some(ConfigError::Malformed)
    );
    assert_eq!(
        refused("{\"data_dir\":\"d\",\"num_shards\":-1,\"indexed_fields\":[]}"),
        Some(ConfigError::Malformed)
    );
    assert_eq!(
        refused("{\"data_dir\":\"d\",\"num_shards\":4294967296,\"indexed_fields\":[]}"),
        Some(ConfigError::Malformed)
    );
    assert_eq!(
        refused("{\"data_dir\":\"d\",\"num_shards\":\"4\",\"indexed_fields\":[]}"),
        Some(ConfigError::Malformed)
    );
    assert_eq!(
        refused("{\"data_dir\":\"d\",\"num_shards\":4,\"indexed_fields\":{}}"),
        Some(ConfigError::Malformed)
    );
    assert_eq!(
        refused(
            "{\"data_dir\":\"d\",\"num_shards\":4,\"indexed_fields\":[{\"field\":\"a\",\"index_type\":\"Text\"}]}"
        ),
        Some(ConfigError::InvalidIndexType)
    );
    assert_eq!(
        refused(
            "{\"data_dir\":\"d\",\"num_shards\":4,\"indexed_fields\":[{\"field\":\"a\"},{\"field\":\"a\",\"index_type\":\"Text\"}]}"
        ),
        Some(ConfigError::Malformed)
    );
    let zero = Config::from_json("{\"data_dir\":\"d\",\"num_shards\":0,\"indexed_fields\":[]}")
        .expect("well-formed settings");
    assert_eq!(zero.validate(), Err(ConfigError::NoShards));
    let max = Config::from_json(
        "{\"data_dir\":\"\",\"num_shards\":4294967295,\"indexed_fields\":[]}",
    )
    .expect("well-formed settings");
    assert_eq!(max.num_shards, u32::MAX);
}

#[test]
fn counts() {
    assert_eq!(parse_count("0"), Some(0));
    assert_eq!(parse_count("0012"), Some(12));
    assert_eq!(parse_count("4294967295"), Some(u32::MAX));
    assert_eq!(parse_count("4294967296"), None);
    assert_eq!(parse_count("99999999999999999999999999"), None);
    assert_eq!(parse_count(""), None);
    assert_eq!(parse_count("+1"), None);
    assert_eq!(parse_count("1.0"), None);
    assert_eq!(parse_count("1e3"), None);
    assert_eq!(parse_count("12a"), None);
}

#[test]
fn text_helpers() {
    assert_eq!(split_on("a.b..c", '.'), strings(&["a", "b", "", "c"]));
    assert_eq!(split_on("", '.'), strings(&[""]));
    assert_eq!(split_on("x\n", '\n'), strings(&["x", ""]));
    assert_eq!(trim_chars(" \t a b \n").into_iter().collect::<String>(), "a b");
    assert_eq!(trim_chars("   ").len(), 0);
}
