use hyperiondb::strmap::StrMap;
use hyperiondb::utils::flatten_json;
use serde_json::Value;

fn value(text: &str) -> Value {
    serde_json::from_str(text).expect("valid JSON")
}

fn flat(text: &str, prefix: Option<&str>) -> Vec<(String, String)> {
    let mut map: StrMap<Value> = StrMap::new();
    flatten_json(&value(text), prefix.map(|p| p.to_string()), &mut map);
    let mut all: Vec<(String, String)> = (0..map.len())
        .map(|i| (map.key_at(i).clone(), map.value_at(i).to_string()))
        .collect();
    all.sort();
    all
}

fn pairs(list: &[(&str, &str)]) -> Vec<(String, String)> {
    list.iter().map(|(k, v)| (k.to_string(), v.to_string())).collect()
}

#[test]
fn members_are_entered_by_name() {
    assert_eq!(
        flat("{\"name\":\"Ann\",\"address\":{\"city\":\"Lima\",\"geo\":{\"lat\":-12}}}", None),
        pairs(&[("address.city", "\"Lima\""), ("address.geo.lat", "-12"), ("name", "\"Ann\"")])
    );
}

#[test]
fn elements_are_entered_by_position() {
    assert_eq!(
        flat("{\"tags\":[\"a\",{\"b\":true},[null,7]]}", None),
        pairs(&[
            ("tags.0", "\"a\""),
            ("tags.1.b", "true"),
            ("tags.2.0", "null"),
            ("tags.2.1", "7"),
        ])
    );
    assert_eq!(flat("[10,20]", None), pairs(&[("0", "10"), ("1", "20")]));
    let long: Vec<String> = (0..12).map(|i| i.to_string()).collect();
    let all = flat(&format!("[{}]", long.join(",")), Some("n"));
    assert_eq!(all.len(), 12);
    assert!(all.contains(&("n.10".to_string(), "10".to_string())));
    assert!(all.contains(&("n.11".to_string(), "11".to_string())));
}

#[test]
fn a_leaf_goes_under_its_prefix_or_nowhere() {
    assert_eq!(flat("5", None), pairs(&[]));
    assert_eq!(flat("\"x\"", None), pairs(&[]));
    assert_eq!(flat("5", Some("a.b")), pairs(&[("a.b", "5")]));
    assert_eq!(flat("{\"c\":1}", Some("a.b")), pairs(&[("a.b.c", "1")]));
}

#[test]
fn empty_containers_have_no_leaves() {
    assert_eq!(flat("{}", None), pairs(&[]));
    assert_eq!(flat("[]", Some("a")), pairs(&[]));
    assert_eq!(flat("{\"a\":{},\"b\":[],\"c\":0}", None), pairs(&[("c", "0")]));
}

#[test]
fn flattening_writes_over_what_the_map_held() {
    let mut map: StrMap<Value> = StrMap::new();
    map.insert("a.b".to_string(), value("1"));
    map.insert("z".to_string(), value("\"kept\""));
    flatten_json(&value("{\"a\":{\"b\":2,\"c\":3}}"), None, &mut map);
    assert_eq!(map.len(), 3);
    assert_eq!(map.get("a.b"), Some(&value("2")));
    assert_eq!(map.get("a.c"), Some(&value("3")));
    assert_eq!(map.get("z"), Some(&value("\"kept\"")));
}

#[test]
fn two_leaves_of_one_path_leave_one_of_them() {
    let all = flat("{\"a\":{\"b\":1},\"a.b\":2}", None);
    assert_eq!(all.len(), 1);
    assert_eq!(all[0].0, "a.b");
    assert!(all[0].1 == "1" || all[0].1 == "2");
}
