use hyperiondb::config::{Config, IndexType, IndexedField};
use hyperiondb::handler::dispatch::handle_command;
use hyperiondb::hyperion_db::HyperionDB;
use hyperiondb::storage::{
    append_to_wal, load_from_wal, load_shard_from_disk, read_snapshot, read_wal_line,
    save_shard_to_disk, snapshot_path, wal_path, StoreError,
};
use serde_json::Value;

fn doc(text: &str) -> Value {
    serde_json::from_str(text).expect("valid JSON")
}

fn store(num_shards: u32) -> HyperionDB {
    let config = Config {
        data_dir: "/var/db".to_string(),
        num_shards,
        indexed_fields: vec![IndexedField {
            field: "age".to_string(),
            index_type: IndexType::Numeric,
        }],
    };
    HyperionDB::new(config).expect("valid settings")
}

fn say(db: &mut HyperionDB, line: &str) -> String {
    handle_command(db, line.to_string()).response
}

fn sorted_list(db: &mut HyperionDB) -> Vec<String> {
    let mut all: Vec<String> = db.get_all_records().iter().map(|v| v.to_string()).collect();
    all.sort();
    all
}

#[test]
fn file_names() {
    assert_eq!(wal_path("data", 0), "data/shard_0.wal");
    assert_eq!(wal_path("/x/y", 17), "/x/y/shard_17.wal");
    assert_eq!(snapshot_path("data", 4294967295), "data/shard_4294967295.bin.lz4");
    assert_eq!(snapshot_path("", 10), "/shard_10.bin.lz4");
}

#[test]
fn a_log_line_is_the_json_pair_and_a_line_feed() {
    let w = append_to_wal("data", 3, "k\"1".to_string(), doc("{\"a\": [1, 2]}"));
    assert_eq!(w.path, "data/shard_3.wal");
    assert!(w.append);
    assert_eq!(String::from_utf8(w.bytes).unwrap(), "[\"k\\\"1\",{\"a\":[1,2]}]\n");
}

#[test]
fn log_lines_are_read_back() {
    assert_eq!(read_wal_line("[\"k\",{\"a\":1}]"), Some(("k".to_string(), doc("{\"a\":1}"))));
    assert_eq!(read_wal_line(" [ \"k\" , 5 ] \r"), Some(("k".to_string(), doc("5"))));
    assert_eq!(read_wal_line("[\"k\"]"), None);
    assert_eq!(read_wal_line("[\"k\",1,2]"), None);
    assert_eq!(read_wal_line("[1,2]"), None);
    assert_eq!(read_wal_line("{\"k\":1}"), None);
    assert_eq!(read_wal_line("garbage"), None);
    assert_eq!(read_wal_line(""), None);
}

#[test]
fn a_log_is_read_in_order_and_bad_lines_are_passed_over() {
    let text = "[\"a\",1]\nnot json\n[\"b\",2]\r\n\n[\"a\",3]\n[\"c\"]\n[\"d\",4]";
    assert_eq!(
        load_from_wal(text),
        vec![
            ("a".to_string(), doc("1")),
            ("b".to_string(), doc("2")),
            ("a".to_string(), doc("3")),
            ("d".to_string(), doc("4")),
        ]
    );
    assert!(load_from_wal("").is_empty());
}

#[test]
fn a_snapshot_is_read_back() {
    let mut db = store(1);
    say(&mut db, "INSERT_OR_UPDATE b {\"age\":2}");
    say(&mut db, "INSERT_OR_UPDATE a {\"age\":1}");
    let w = save_shard_to_disk("/var/db", 0, &db.shards[0]).expect("encodes");
    assert_eq!(w.path, "/var/db/shard_0.bin.lz4");
    assert!(!w.append);
    let text = "{\"a\":{\"age\":1},\"b\":{\"age\":2}}";
    assert_ne!(w.bytes, text.as_bytes().to_vec());
    // The magic number of an LZ4 frame.
    assert_eq!(&w.bytes[..4], &[0x04, 0x22, 0x4d, 0x18]);
    let mut back = load_shard_from_disk(&w.bytes);
    back.sort_by(|x, y| x.0.cmp(&y.0));
    assert_eq!(
        back,
        vec![("a".to_string(), doc("{\"age\":1}")), ("b".to_string(), doc("{\"age\":2}"))]
    );
    let again = save_shard_to_disk("/var/db", 0, &db.shards[0]).expect("encodes");
    assert_eq!(again.bytes, w.bytes);
}

#[test]
fn an_unreadable_snapshot_counts_as_empty() {
    assert!(load_shard_from_disk(b"").is_empty());
    assert!(load_shard_from_disk(b"this is no lz4 frame at all").is_empty());
    assert!(read_snapshot(b"[1,2]".to_vec()).is_empty());
    assert!(read_snapshot(b"{\"a\":".to_vec()).is_empty());
    assert!(read_snapshot(vec![0xff, 0xfe]).is_empty());
    assert_eq!(read_snapshot(b"{\"a\":1}".to_vec()), vec![("a".to_string(), doc("1"))]);
    let mut db = store(1);
    say(&mut db, "INSERT_OR_UPDATE a {\"age\":1}");
    let w = save_shard_to_disk("d", 0, &db.shards[0]).expect("encodes");
    let cut = &w.bytes[..w.bytes.len() / 2];
    assert!(load_shard_from_disk(cut).is_empty());
}

#[test]
fn recovery_replays_the_log_after_a_crash() {
    let mut first = store(2);
    let reply = handle_command(&mut first, "INSERT_OR_UPDATE k {\"age\":1}".to_string());
    let mut log = reply.writes[0].bytes.clone();
    let reply = handle_command(&mut first, "INSERT_OR_UPDATE k {\"age\":2}".to_string());
    log.extend_from_slice(&reply.writes[0].bytes);
    let log = String::from_utf8(log).unwrap();
    let mut second = store(2);
    second.recover_shard(None, Some(&log));
    assert_eq!(say(&mut second, "GET k"), "{\"age\":2}\n");
    assert_eq!(say(&mut second, "QUERY age = 2"), "[{\"age\":2}]\n");
    assert_eq!(say(&mut second, "QUERY age = 1"), "[]\n");
}

#[test]
fn recovery_merges_snapshot_and_log() {
    let mut first = store(3);
    let mut logs: Vec<Vec<u8>> = vec![Vec::new(); 3];
    for i in 0..30 {
        let line = format!("INSERT_OR_UPDATE k{} {{\"age\":{}}}", i, i);
        for w in handle_command(&mut first, line).writes {
            let id = (0..3).find(|id| w.path == wal_path("/var/db", *id)).expect("a log");
            logs[id as usize].extend_from_slice(&w.bytes);
        }
    }
    // Deletes reach the disk by snapshots only.
    let mut snapshots: Vec<Option<Vec<u8>>> = vec![None; 3];
    for key in ["k3", "k4", "k5"] {
        for w in handle_command(&mut first, format!("DELETE {}", key)).writes {
            let id = (0..3).find(|id| w.path == snapshot_path("/var/db", *id)).expect("a shard");
            snapshots[id as usize] = Some(w.bytes);
            logs[id as usize].clear();
        }
    }
    for w in handle_command(&mut first, "INSERT_OR_UPDATE k7 {\"age\":700}".to_string()).writes {
        let id = (0..3).find(|id| w.path == wal_path("/var/db", *id)).expect("a log");
        logs[id as usize].extend_from_slice(&w.bytes);
    }
    let mut second = store(3);
    for id in 0..3 {
        let log = String::from_utf8(logs[id].clone()).unwrap();
        second.recover_shard(snapshots[id].as_deref(), Some(&log));
    }
    // A shard that was never snapshotted after a delete keeps its log only,
    // so compare on the shards that were.
    let touched: Vec<usize> = (0..3).filter(|id| snapshots[*id].is_some()).collect();
    assert!(!touched.is_empty());
    for id in touched {
        let mut a: Vec<String> =
            first.shards[id].iter().map(|e| format!("{}={}", e.key(), e.value())).collect();
        let mut b: Vec<String> =
            second.shards[id].iter().map(|e| format!("{}={}", e.key(), e.value())).collect();
        a.sort();
        b.sort();
        assert_eq!(a, b);
    }
    assert_eq!(say(&mut second, "GET k7"), "{\"age\":700}\n");
    assert_eq!(say(&mut second, "QUERY age = 700"), "[{\"age\":700}]\n");
    assert_eq!(say(&mut second, "QUERY age = 7"), "[]\n");
    assert_eq!(sorted_list(&mut second), sorted_list(&mut first));
}

#[test]
fn the_log_wins_over_the_snapshot_and_the_snapshot_over_nothing() {
    let mut first = store(1);
    say(&mut first, "INSERT_OR_UPDATE only_saved {\"age\":1}");
    say(&mut first, "INSERT_OR_UPDATE both {\"age\":2}");
    let saved = save_shard_to_disk("/var/db", 0, &first.shards[0]).expect("encodes");
    let log = "[\"both\",{\"age\":3}]\n[\"only_logged\",{\"age\":4}]\n[\"both\",{\"age\":5}]\n";
    let mut second = store(1);
    second.recover_shard(Some(&saved.bytes), Some(log));
    assert_eq!(say(&mut second, "GET only_saved"), "{\"age\":1}\n");
    assert_eq!(say(&mut second, "GET both"), "{\"age\":5}\n");
    assert_eq!(say(&mut second, "GET only_logged"), "{\"age\":4}\n");
    assert_eq!(say(&mut second, "GET neither"), "NULL\n");
    let mut found: Vec<String> = match doc(&say(&mut second, "QUERY age >= 1")) {
        Value::Array(items) => items.iter().map(|v| v.to_string()).collect(),
        _ => Vec::new(),
    };
    found.sort();
    assert_eq!(found, sorted_list(&mut second));
    assert_eq!(say(&mut second, "QUERY age = 2"), "[]\n");
    assert_eq!(say(&mut second, "QUERY age = 3"), "[]\n");
    assert_eq!(sorted_list(&mut second).len(), 3);
    let mut third = store(1);
    third.recover_shard(Some(&saved.bytes), None);
    assert_eq!(sorted_list(&mut third), sorted_list(&mut first));
    assert_eq!(say(&mut third, "QUERY age = 2"), "[{\"age\":2}]\n");
}

#[test]
fn an_empty_shard_has_a_snapshot_too() {
    let mut db = store(2);
    say(&mut db, "INSERT_OR_UPDATE a {\"age\":1}");
    let reply = handle_command(&mut db, "DELETE ALL".to_string());
    assert_eq!(reply.response, "OK\n");
    assert_eq!(reply.writes.len(), 2);
    for w in reply.writes.iter() {
        assert!(load_shard_from_disk(&w.bytes).is_empty());
        assert_eq!(&w.bytes[..4], &[0x04, 0x22, 0x4d, 0x18]);
    }
    assert_eq!(say(&mut db, "LIST"), "[]\n");
}

#[test]
fn a_line_feed_in_a_document_stays_on_its_line() {
    let value = doc("{\"t\":\"a\\nb\"}");
    let w = append_to_wal("d", 0, "k\n1".to_string(), value.clone());
    let text = String::from_utf8(w.bytes).unwrap();
    assert_eq!(text.matches('\n').count(), 1);
    assert!(text.ends_with('\n'));
    assert_eq!(load_from_wal(&text), vec![("k\n1".to_string(), value)]);
    assert!(read_wal_line("").is_none());
}

#[test]
fn recovered_records_go_to_the_shard_that_owns_them() {
    let mut db = store(4);
    db.recover_shard(None, Some("[\"a\",{\"age\":1}]\n[\"b\",{\"age\":2}]\n[\"c\",{\"age\":3}]\n"));
    for key in ["a", "b", "c"] {
        let id = hyperiondb::router::get_shard(key, 4) as usize;
        for (i, shard) in db.shards.iter().enumerate() {
            assert_eq!(shard.contains_key(key), i == id);
        }
        assert!(db.get(key).is_some());
    }
    db.restore(&vec![("a".to_string(), doc("{\"age\":9}"))]);
    assert_eq!(db.get("a"), Some(doc("{\"age\":9}")));
    assert_eq!(say(&mut db, "QUERY age = 1"), "[]\n");
}

#[test]
fn store_operations_directly() {
    let mut db = store(2);
    let w = db.insert_or_update("k".to_string(), doc("{\"age\":1}"));
    assert!(w.append);
    assert_eq!(db.get("k"), Some(doc("{\"age\":1}")));
    assert_eq!(db.get("other"), None);
    db.apply("j".to_string(), doc("{\"age\":2}"));
    assert_eq!(db.forget(&"j".to_string()), Some(doc("{\"age\":2}")));
    assert_eq!(db.forget(&"j".to_string()), None);
    assert!(matches!(db.delete("nobody".to_string()), Err(StoreError::NotFound)));
    assert_eq!(StoreError::NotFound.message(), "Key not found");
    assert_eq!(StoreError::Encoding("disk full".to_string()).message(), "disk full");
    assert!(db.delete("k".to_string()).is_ok());
    assert!(db.get_all_records().is_empty());
    let writes = db.insert_or_update_many(vec![
        ("a".to_string(), doc("1")),
        ("b".to_string(), doc("2")),
    ]);
    assert_eq!(writes.len(), 2);
    let snapshots = db.delete_many(vec!["a".to_string(), "a".to_string()]).expect("encodes");
    assert_eq!(snapshots.len(), 1);
    assert_eq!(db.get_all_records(), vec![doc("2")]);
    assert_eq!(db.delete_all().expect("encodes").len(), 2);
    assert!(db.get_all_records().is_empty());
}

#[test]
fn one_condition_at_a_time() {
    let mut db = store(2);
    say(&mut db, "INSERT_OR_UPDATE a {\"age\":1}");
    say(&mut db, "INSERT_OR_UPDATE b {\"age\":2}");
    assert_eq!(db.query("age", ">=", "2"), vec![doc("{\"age\":2}")]);
    assert_eq!(db.query("age", "<", "1.5"), vec![doc("{\"age\":1}")]);
    assert!(db.query("age", "~", "2").is_empty());
    assert!(db.query("height", "=", "2").is_empty());
    let mut keys = hyperiondb::keyset::KeySet::new();
    keys.insert("b".to_string());
    keys.insert("nobody".to_string());
    assert_eq!(db.get_records_by_keys(&keys), vec![doc("{\"age\":2}")]);
}

#[test]
fn a_checkpoint_snapshots_every_shard() {
    let mut db = store(3);
    for i in 0..12 {
        say(&mut db, &format!("INSERT_OR_UPDATE k{} {{\"age\":{}}}", i, i));
    }
    let writes = db.save_to_disk().expect("encodes");
    assert_eq!(writes.len(), 3);
    let mut fresh = store(3);
    for (id, w) in writes.iter().enumerate() {
        assert_eq!(w.path, snapshot_path("/var/db", id as u32));
        assert!(!w.append);
        fresh.recover_shard(Some(&w.bytes), None);
    }
    assert_eq!(sorted_list(&mut fresh), sorted_list(&mut db));
    let mut found: Vec<String> = fresh.query("age", ">=", "10").iter().map(|v| v.to_string()).collect();
    found.sort();
    assert_eq!(found, vec!["{\"age\":10}".to_string(), "{\"age\":11}".to_string()]);
}
