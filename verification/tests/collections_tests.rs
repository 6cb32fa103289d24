use sdif::{StringMap, StringSet};

#[test]
fn string_set_keeps_first_insertion_only() {
    let mut s = StringSet::new();
    assert!(s.is_empty());
    assert!(s.insert("b".to_string()));
    assert!(s.insert("a".to_string()));
    assert!(!s.insert("b".to_string()));
    assert_eq!(s.len(), 2);
    assert_eq!(s.get(0), "b");
    assert!(s.contains("a"));
    assert!(!s.contains("c"));
}

#[test]
fn string_map_reads_back_what_was_written() {
    let mut m: StringMap<String> = StringMap::new();
    m.insert("k".to_string(), "1".to_string());
    m.insert("j".to_string(), "2".to_string());
    m.insert("k".to_string(), "3".to_string());
    assert_eq!(m.len(), 2);
    assert_eq!(m.get("k").map(String::as_str), Some("3"));
    assert_eq!(m.get("j").map(String::as_str), Some("2"));
    assert_eq!(m.get("x"), None);
    assert!(m.contains_key("j"));
    let (k0, v0) = m.entry_at(0);
    assert_eq!((k0.as_str(), v0.as_str()), ("k", "3"));
}
