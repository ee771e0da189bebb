use ghostfs::strmap::StrMap;

#[test]
fn strmap_iterates_in_key_order() {
    let mut m: StrMap<u32> = StrMap::new();
    m.insert("zeta".to_string(), 1);
    m.insert("alpha".to_string(), 2);
    m.insert("@scope/pkg".to_string(), 3);
    m.insert("Beta".to_string(), 4);
    let keys: Vec<&str> = m.entries().iter().map(|(k, _)| k.as_str()).collect();
    assert_eq!(keys, vec!["@scope/pkg", "Beta", "alpha", "zeta"]);
    assert_eq!(m.into_values(), vec![3, 4, 2, 1]);
}

#[test]
fn strmap_read_after_write_and_remove() {
    let mut m: StrMap<String> = StrMap::new();
    assert!(m.is_empty());
    m.insert("a".to_string(), "1".to_string());
    m.insert("b".to_string(), "2".to_string());
    m.insert("a".to_string(), "3".to_string());
    assert_eq!(m.len(), 2);
    assert_eq!(m.get("a").unwrap(), "3");
    assert!(m.contains_key("b"));
    assert_eq!(m.remove("a"), Some("3".to_string()));
    assert_eq!(m.remove("a"), None);
    assert!(m.get("a").is_none());
    assert_eq!(m.get("b").unwrap(), "2");
    let d = m.duplicate();
    assert_eq!(d.get("b").unwrap(), "2");
    assert_eq!(d.len(), 1);
}
