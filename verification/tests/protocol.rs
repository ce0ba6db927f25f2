use hyperiondb::config::{Config, IndexType, IndexedField};
use hyperiondb::handler::dispatch::handle_command;
use hyperiondb::hyperion_db::HyperionDB;
use serde_json::Value;

fn store(num_shards: u32) -> HyperionDB {
    let config = Config {
        data_dir: "data".to_string(),
        num_shards,
        indexed_fields: vec![
            IndexedField { field: "age".to_string(), index_type: IndexType::Numeric },
            IndexedField { field: "city".to_string(), index_type: IndexType::String },
            IndexedField { field: "c".to_string(), index_type: IndexType::String },
            IndexedField { field: "address.zip".to_string(), index_type: IndexType::Numeric },
        ],
    };
    match HyperionDB::new(config) {
        Ok(db) => db,
        Err(e) => panic!("settings refused: {:?}", e),
    }
}

fn say(db: &mut HyperionDB, line: &str) -> String {
    handle_command(db, line.to_string()).response
}

/// The documents of an answer, as sorted texts.
fn documents(answer: &str) -> Vec<String> {
    let parsed: Value = serde_json::from_str(answer.trim_end()).expect("the answer is JSON");
    let mut texts: Vec<String> =
        parsed.as_array().expect("the answer is an array").iter().map(|v| v.to_string()).collect();
    texts.sort();
    texts
}

#[test]
fn get_returns_the_inserted_document() {
    let mut db = store(4);
    assert_eq!(say(&mut db, "INSERT user1 {\"age\":30,\"city\":\"San Antonio\"}"), "OK\n");
    assert_eq!(say(&mut db, "GET user1"), "{\"age\":30,\"city\":\"San Antonio\"}\n");
}

#[test]
fn query_by_numeric_equality() {
    let mut db = store(4);
    say(&mut db, "INSERT user1 {\"age\":30,\"city\":\"San Antonio\"}");
    assert_eq!(say(&mut db, "QUERY age = 30"), "[{\"age\":30,\"city\":\"San Antonio\"}]\n");
}

#[test]
fn query_with_and_of_two_indexes() {
    let mut db = store(4);
    say(&mut db, "INSERT user1 {\"age\":30,\"city\":\"San Antonio\"}");
    assert_eq!(
        say(&mut db, "QUERY age > 25 AND city = \"San Antonio\""),
        "[{\"age\":30,\"city\":\"San Antonio\"}]\n"
    );
}

#[test]
fn query_below_the_value_finds_nothing() {
    let mut db = store(4);
    say(&mut db, "INSERT user1 {\"age\":30,\"city\":\"San Antonio\"}");
    assert_eq!(say(&mut db, "QUERY age < 30"), "[]\n");
}

#[test]
fn range_query_returns_exactly_the_matching_records() {
    let mut db = store(3);
    say(&mut db, "INSERT u1 {\"age\":20}");
    say(&mut db, "INSERT u2 {\"age\":40}");
    say(&mut db, "INSERT u3 {\"age\":60}");
    assert_eq!(
        documents(&say(&mut db, "QUERY age >= 40")),
        vec!["{\"age\":40}".to_string(), "{\"age\":60}".to_string()]
    );
    assert_eq!(documents(&say(&mut db, "QUERY age > 40")), vec!["{\"age\":60}".to_string()]);
    assert_eq!(documents(&say(&mut db, "QUERY age <= 20")), vec!["{\"age\":20}".to_string()]);
    assert_eq!(
        documents(&say(&mut db, "QUERY age != 40")),
        vec!["{\"age\":20}".to_string(), "{\"age\":60}".to_string()]
    );
}

#[test]
fn a_thousand_records_are_listed_once_each() {
    let mut db = store(8);
    for i in 1..=1000 {
        let line = format!("INSERT_OR_UPDATE prod{} {{\"id\":{}}}", i, i);
        assert_eq!(say(&mut db, &line), "OK\n");
    }
    let listed = documents(&say(&mut db, "LIST"));
    assert_eq!(listed.len(), 1000);
    let mut expected: Vec<String> = (1..=1000).map(|i| format!("{{\"id\":{}}}", i)).collect();
    expected.sort();
    assert_eq!(listed, expected);
    let held: usize = db.shards.iter().map(|s| s.len()).sum();
    assert_eq!(held, 1000);
}

#[test]
fn contains_matches_substrings() {
    let mut db = store(2);
    say(&mut db, "INSERT k {\"c\":\"ban\"}");
    assert_eq!(documents(&say(&mut db, "QUERY c CONTAINS \"an\"")).len(), 1);
    assert_eq!(documents(&say(&mut db, "QUERY c CONTAINS \"xyz\"")).len(), 0);
    assert_eq!(documents(&say(&mut db, "QUERY c CONTAINS ban")).len(), 1);
    assert_eq!(documents(&say(&mut db, "QUERY c CONTAINS \"\"")).len(), 1);
}

#[test]
fn a_deleted_record_is_gone_from_store_and_indexes() {
    let mut db = store(2);
    say(&mut db, "INSERT k {\"age\":7,\"city\":\"Lima\"}");
    assert_eq!(say(&mut db, "DELETE k"), "OK\n");
    assert_eq!(say(&mut db, "GET k"), "NULL\n");
    assert_eq!(say(&mut db, "QUERY age = 7"), "[]\n");
    assert_eq!(say(&mut db, "QUERY city = Lima"), "[]\n");
    assert!(db.indices.is_empty());
}

#[test]
fn delete_of_an_absent_key_is_reported() {
    let mut db = store(2);
    let reply = handle_command(&mut db, "DELETE nobody".to_string());
    assert_eq!(reply.response, "ERR Key not found\n");
    assert!(reply.writes.is_empty());
}

#[test]
fn insert_on_an_existing_key_replaces_and_reindexes() {
    let mut db = store(2);
    say(&mut db, "INSERT k {\"age\":1}");
    assert_eq!(say(&mut db, "INSERT k {\"age\":2}"), "OK\n");
    assert_eq!(say(&mut db, "GET k"), "{\"age\":2}\n");
    assert_eq!(say(&mut db, "QUERY age = 1"), "[]\n");
    assert_eq!(say(&mut db, "QUERY age = 2"), "[{\"age\":2}]\n");
}

#[test]
fn insert_or_update_twice_changes_nothing_the_second_time() {
    let mut db = store(2);
    say(&mut db, "INSERT_OR_UPDATE k {\"age\":5,\"city\":\"Oslo\"}");
    let first = say(&mut db, "LIST");
    let first_query = say(&mut db, "QUERY age = 5");
    assert_eq!(say(&mut db, "INSERT_OR_UPDATE k {\"age\":5,\"city\":\"Oslo\"}"), "OK\n");
    assert_eq!(say(&mut db, "LIST"), first);
    assert_eq!(say(&mut db, "QUERY age = 5"), first_query);
    assert_eq!(db.indices.len(), 2);
}

#[test]
fn nested_fields_are_indexed() {
    let mut db = store(2);
    say(&mut db, "INSERT a {\"address\":{\"zip\":78205}}");
    say(&mut db, "INSERT b {\"address\":{\"zip\":10001}}");
    say(&mut db, "INSERT c {\"address\":\"none\"}");
    assert_eq!(say(&mut db, "QUERY address.zip = 78205"), "[{\"address\":{\"zip\":78205}}]\n");
    assert_eq!(documents(&say(&mut db, "QUERY address.zip > 0")).len(), 2);
}

#[test]
fn a_leaf_of_the_wrong_kind_is_not_indexed() {
    let mut db = store(2);
    say(&mut db, "INSERT a {\"age\":\"thirty\",\"city\":30}");
    assert_eq!(say(&mut db, "QUERY age = 30"), "[]\n");
    assert_eq!(say(&mut db, "QUERY city = 30"), "[]\n");
    assert!(db.indices.is_empty());
}

#[test]
fn or_and_grouping() {
    let mut db = store(2);
    say(&mut db, "INSERT a {\"age\":1,\"city\":\"X\"}");
    say(&mut db, "INSERT b {\"age\":2,\"city\":\"X\"}");
    say(&mut db, "INSERT c {\"age\":3,\"city\":\"Y\"}");
    assert_eq!(documents(&say(&mut db, "QUERY age = 1 OR age = 3")).len(), 2);
    // AND binds tighter than OR.
    assert_eq!(documents(&say(&mut db, "QUERY age = 3 OR age = 1 AND city = Y")).len(), 1);
    // Parentheses override that.
    assert_eq!(documents(&say(&mut db, "QUERY ( age = 3 OR age = 1 ) AND city = Y")).len(), 1);
    assert_eq!(
        say(&mut db, "QUERY ( age = 3 OR age = 1 ) AND city = Y"),
        "[{\"age\":3,\"city\":\"Y\"}]\n"
    );
    assert_eq!(documents(&say(&mut db, "QUERY ( age = 2 OR age = 1 ) AND city = X")).len(), 2);
    assert_eq!(documents(&say(&mut db, "query age = 1 or age = 2 and city = Y")).len(), 1);
}

#[test]
fn a_field_without_index_selects_nothing() {
    let mut db = store(2);
    say(&mut db, "INSERT a {\"name\":\"x\"}");
    assert_eq!(say(&mut db, "QUERY name = x"), "[]\n");
}

#[test]
fn a_literal_that_is_no_number_selects_nothing() {
    let mut db = store(2);
    say(&mut db, "INSERT a {\"age\":1}");
    assert_eq!(say(&mut db, "QUERY age = one"), "[]\n");
    assert_eq!(say(&mut db, "QUERY age != one"), "[]\n");
    assert_eq!(say(&mut db, "QUERY age CONTAINS 1"), "[]\n");
    assert_eq!(say(&mut db, "QUERY city > a"), "[]\n");
}

#[test]
fn query_errors_are_reported() {
    let mut db = store(2);
    assert_eq!(say(&mut db, "QUERY ( age = 1"), "ERR Falta el paréntesis de cierre\n");
    assert_eq!(say(&mut db, "QUERY age"), "ERR Falta el operador en la condición\n");
    assert_eq!(say(&mut db, "QUERY age ~ 1"), "ERR Falta el operador en la condición\n");
    assert_eq!(say(&mut db, "QUERY age ="), "ERR Falta el valor en la condición\n");
    assert_eq!(say(&mut db, "QUERY age = 1 AND"), "ERR Expresión inesperada al analizar la consulta\n");
    assert_eq!(say(&mut db, "QUERY age = 1 age = 2"), "ERR Sobran tokens al final de la consulta\n");
    assert_eq!(say(&mut db, "QUERY"), "ERR Usage: QUERY <conditions>\n");
}

#[test]
fn usage_lines() {
    let mut db = store(1);
    assert_eq!(say(&mut db, "INSERT"), "ERR Usage: INSERT <key> <value>\n");
    assert_eq!(say(&mut db, "INSERT onlykey"), "ERR Usage: INSERT <key> <value>\n");
    assert_eq!(say(&mut db, "INSERT_OR_UPDATE k"), "ERR Usage: INSERT_OR_UPDATE <key> <value>\n");
    assert_eq!(
        say(&mut db, "INSERT_OR_UPDATE_MANY"),
        "ERR Usage: INSERT_OR_UPDATE_MANY <[key, value]...>\n"
    );
    assert_eq!(say(&mut db, "GET"), "ERR Usage: GET <key>\n");
    assert_eq!(say(&mut db, "DELETE"), "ERR Usage: DELETE <key>\n");
    assert_eq!(say(&mut db, "DELETE_MANY"), "ERR Usage: DELETE_MANY <[key1, key2, ...]>\n");
}

#[test]
fn exit_unknown_and_case() {
    let mut db = store(1);
    assert_eq!(say(&mut db, "EXIT"), "BYE\n");
    assert_eq!(say(&mut db, "exit"), "BYE\n");
    assert_eq!(say(&mut db, "  list  "), "[]\n");
    assert_eq!(say(&mut db, "FROB x"), "ERR Unknown command\n");
    assert_eq!(say(&mut db, ""), "ERR Unknown command\n");
}

#[test]
fn invalid_json_is_reported_and_changes_nothing() {
    let mut db = store(1);
    let reply = handle_command(&mut db, "INSERT k {not json".to_string());
    assert!(reply.response.starts_with("ERR "));
    assert!(reply.response.ends_with('\n'));
    assert!(reply.writes.is_empty());
    assert_eq!(say(&mut db, "GET k"), "NULL\n");
    assert!(say(&mut db, "INSERT_OR_UPDATE k [1,").starts_with("ERR "));
    assert_eq!(say(&mut db, "LIST"), "[]\n");
}

#[test]
fn bulk_insert_and_bulk_delete() {
    let mut db = store(4);
    let reply = handle_command(
        &mut db,
        "INSERT_OR_UPDATE_MANY [[\"a\",{\"age\":1}],[\"b\",{\"age\":2}],[\"a\",{\"age\":3}]]"
            .to_string(),
    );
    assert_eq!(reply.response, "OK\n");
    assert_eq!(reply.writes.len(), 3);
    assert_eq!(say(&mut db, "GET a"), "{\"age\":3}\n");
    assert_eq!(say(&mut db, "QUERY age = 1"), "[]\n");
    assert_eq!(documents(&say(&mut db, "LIST")).len(), 2);
    let reply = handle_command(&mut db, "DELETE_MANY [\"a\",\"zzz\",\"b\"]".to_string());
    assert_eq!(reply.response, "OK\n");
    assert!(!reply.writes.is_empty());
    assert!(reply.writes.iter().all(|w| !w.append && w.path.ends_with(".bin.lz4")));
    assert_eq!(say(&mut db, "LIST"), "[]\n");
    assert!(db.indices.is_empty());
}

#[test]
fn a_malformed_batch_is_refused_whole() {
    let mut db = store(2);
    assert!(say(&mut db, "INSERT_OR_UPDATE_MANY [[\"a\",1],[\"b\"]]").starts_with("ERR "));
    assert_eq!(say(&mut db, "LIST"), "[]\n");
    assert!(say(&mut db, "INSERT_OR_UPDATE_MANY {\"a\":1}").starts_with("ERR "));
    assert!(say(&mut db, "DELETE_MANY [\"a\",2]").starts_with("ERR "));
    assert!(say(&mut db, "DELETE_MANY \"a\"").starts_with("ERR "));
}

#[test]
fn delete_all_empties_every_shard() {
    let mut db = store(3);
    for i in 0..20 {
        say(&mut db, &format!("INSERT_OR_UPDATE k{} {{\"age\":{}}}", i, i));
    }
    let reply = handle_command(&mut db, "DELETE ALL".to_string());
    assert_eq!(reply.response, "OK\n");
    assert_eq!(reply.writes.len(), 3);
    assert_eq!(reply.writes[0].path, "data/shard_0.bin.lz4");
    assert_eq!(reply.writes[2].path, "data/shard_2.bin.lz4");
    assert_eq!(say(&mut db, "LIST"), "[]\n");
    assert_eq!(say(&mut db, "QUERY age >= 0"), "[]\n");
}

#[test]
fn writes_of_the_commands() {
    let mut db = store(5);
    let reply = handle_command(&mut db, "INSERT_OR_UPDATE k {\"a\":1}".to_string());
    assert_eq!(reply.writes.len(), 1);
    let id = hyperiondb::router::get_shard("k", 5);
    assert_eq!(reply.writes[0].path, format!("data/shard_{}.wal", id));
    assert!(reply.writes[0].append);
    assert_eq!(reply.writes[0].bytes, b"[\"k\",{\"a\":1}]\n".to_vec());
    let reply = handle_command(&mut db, "INSERT k {\"a\":2}".to_string());
    assert_eq!(reply.writes.len(), 1);
    assert_eq!(reply.writes[0].path, format!("data/shard_{}.bin.lz4", id));
    assert!(!reply.writes[0].append);
    assert!(handle_command(&mut db, "GET k".to_string()).writes.is_empty());
    assert!(handle_command(&mut db, "LIST".to_string()).writes.is_empty());
}

#[test]
fn documents_are_answered_in_compact_form() {
    let mut db = store(2);
    assert_eq!(say(&mut db, "INSERT k   { \"b\" : 1 , \"a\" : [ 1 , 2.50 , \"x\" ] }  "), "OK\n");
    assert_eq!(say(&mut db, "GET k"), "{\"a\":[1,2.5,\"x\"],\"b\":1}\n");
    assert_eq!(say(&mut db, "LIST"), "[{\"a\":[1,2.5,\"x\"],\"b\":1}]\n");
}

#[test]
fn many_records_under_one_value() {
    let mut db = store(4);
    for i in 0..3000 {
        say(&mut db, &format!("INSERT_OR_UPDATE k{} {{\"city\":\"Lima\",\"age\":{}}}", i, i % 7));
    }
    assert_eq!(documents(&say(&mut db, "QUERY city = Lima")).len(), 3000);
    assert_eq!(documents(&say(&mut db, "QUERY city = Lima AND age = 3")).len(), 429);
    assert_eq!(documents(&say(&mut db, "QUERY age < 2 OR age > 5")).len(), 429 * 2 + 428);
}
