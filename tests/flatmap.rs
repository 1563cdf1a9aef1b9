use paperio::flatmap::FlatMap;

#[test]
fn flatmap_insert_keeps_keys_sorted() {
    let mut m: FlatMap<i32, &str> = FlatMap::new();
    assert!(m.is_empty());
    assert_eq!(m.insert(5, "five"), None);
    assert_eq!(m.insert(1, "one"), None);
    assert_eq!(m.insert(3, "three"), None);
    assert_eq!(m.len(), 3);
    assert_eq!(m.as_slice(), &[(1, "one"), (3, "three"), (5, "five")]);
    assert_eq!(m.insert(3, "THREE"), Some("three"));
    assert_eq!(m.len(), 3);
    assert_eq!(m.get(&3), Some(&"THREE"));
    assert_eq!(m.get(&4), None);
}

#[test]
fn flatmap_remove() {
    let mut m: FlatMap<String, u32> = FlatMap::new();
    m.insert("b".to_string(), 2);
    m.insert("a".to_string(), 1);
    m.insert("c".to_string(), 3);
    assert_eq!(m.remove(&"b".to_string()), Some(2));
    assert_eq!(m.remove(&"b".to_string()), None);
    assert_eq!(m.remove_entry(&"a".to_string()), Some(("a".to_string(), 1)));
    assert_eq!(m.as_slice(), &[("c".to_string(), 3)]);
    assert_eq!(m.remove_entry(&"z".to_string()), None);
    assert_eq!(m.len(), 1);
}
