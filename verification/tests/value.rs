use rust_cloud_config_client::value::chars_less;
use rust_cloud_config_client::OrderedMap;

#[test]
fn ordered_map_reads_back_what_was_written() {
    let mut map: OrderedMap<String> = OrderedMap::new();
    assert!(map.is_empty());
    map.insert("b".to_string(), "1".to_string());
    map.insert("a".to_string(), "2".to_string());
    map.insert("b".to_string(), "3".to_string());

    assert_eq!(map.len(), 2);
    assert_eq!(map.get("b").unwrap(), "3");
    assert_eq!(map.get("a").unwrap(), "2");
    assert!(map.contains_key("a"));
    assert!(!map.contains_key("c"));
    assert_eq!(map.key_at(0), "a");
    assert_eq!(map.value_at(1), "3");
}

#[test]
fn ordered_map_orders_keys_like_strings() {
    let mut map: OrderedMap<u8> = OrderedMap::new();
    for key in ["é", "z", "a.b", "a", "A", ""] {
        map.insert(key.to_string(), 0);
    }
    let keys: Vec<String> = map.into_entries().into_iter().map(|(k, _)| k).collect();
    let mut sorted = keys.clone();
    sorted.sort();
    assert_eq!(keys, sorted);
    assert_eq!(keys, vec!["", "A", "a", "a.b", "z", "é"]);
}

#[test]
fn ordered_map_remove() {
    let mut map: OrderedMap<u8> = OrderedMap::new();
    map.insert("x".to_string(), 1);
    map.insert("y".to_string(), 2);
    assert_eq!(map.remove("x"), Some(1));
    assert_eq!(map.remove("x"), None);
    assert_eq!(map.len(), 1);
    assert_eq!(map.get("y"), Some(&2));
}

#[test]
fn from_pairs_lets_later_pairs_win() {
    let map = OrderedMap::from_pairs(vec![
        ("k".to_string(), 1u8),
        ("a".to_string(), 2u8),
        ("k".to_string(), 3u8),
    ]);
    assert_eq!(map.len(), 2);
    assert_eq!(map.get("k"), Some(&3));
    assert_eq!(map.key_at(0), "a");
}

#[test]
fn chars_less_is_lexicographic() {
    let c = |s: &str| s.chars().collect::<Vec<char>>();
    assert!(chars_less(&c("a"), &c("b")));
    assert!(chars_less(&c("a"), &c("ab")));
    assert!(!chars_less(&c("ab"), &c("a")));
    assert!(!chars_less(&c("a"), &c("a")));
    assert!(chars_less(&c(""), &c("a")));
}
