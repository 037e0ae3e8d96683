use ricesearch::kvmap::KvVec;

#[test]
fn insert_is_insert_or_update() {
    let mut kv: KvVec<u64> = KvVec::new();
    assert_eq!(kv.len(), 0);
    kv.insert("a".to_string(), 1);
    kv.insert("b".to_string(), 2);
    assert_eq!(kv.len(), 2);
    kv.insert("a".to_string(), 3);
    assert_eq!(kv.len(), 2);
    assert_eq!(kv.get("a"), Some(&3));
    assert_eq!(kv.get("b"), Some(&2));
    assert_eq!(kv.get("c"), None);
}

#[test]
fn remove_drops_only_its_key() {
    let mut kv: KvVec<u64> = KvVec::new();
    kv.insert("a".to_string(), 1);
    kv.insert("b".to_string(), 2);
    kv.remove("a");
    assert!(!kv.contains("a"));
    assert!(kv.contains("b"));
    assert_eq!(kv.len(), 1);
    // Removing an absent key changes nothing.
    kv.remove("zz");
    assert_eq!(kv.len(), 1);
}

#[test]
fn clear_empties_the_table() {
    let mut kv: KvVec<u64> = KvVec::new();
    kv.insert("a".to_string(), 1);
    kv.clear();
    assert_eq!(kv.len(), 0);
    assert!(!kv.contains("a"));
}
