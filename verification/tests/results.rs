use dirsize::results::ResultMap;

#[test]
fn empty_map() {
    let results = ResultMap::new();
    assert!(results.is_empty());
    assert_eq!(results.len(), 0);
    assert_eq!(results.total(), Some(0));
    assert_eq!(results.get("/a"), None);
    assert!(!results.contains_key("/a"));
    assert!(results.entries().is_empty());
}

#[test]
fn insert_and_get() {
    let mut results = ResultMap::new();
    results.insert("/a".to_string(), 10);
    results.insert("/b".to_string(), 0);
    results.insert("/c".to_string(), 5);
    assert!(!results.is_empty());
    assert_eq!(results.len(), 3);
    assert_eq!(results.get("/a"), Some(10));
    assert_eq!(results.get("/b"), Some(0));
    assert_eq!(results.get("/c"), Some(5));
    assert_eq!(results.get("/d"), None);
    assert!(results.contains_key("/b"));
    assert_eq!(results.total(), Some(15));
}

#[test]
fn second_insert_replaces() {
    let mut results = ResultMap::new();
    results.insert("/a".to_string(), 10);
    results.insert("/b".to_string(), 1);
    results.insert("/a".to_string(), 3);
    assert_eq!(results.len(), 2);
    assert_eq!(results.get("/a"), Some(3));
    assert_eq!(results.total(), Some(4));
    let mut entries = results.entries();
    entries.sort();
    assert_eq!(entries, vec![("/a".to_string(), 3), ("/b".to_string(), 1)]);
}

#[test]
fn total_that_does_not_fit() {
    let mut results = ResultMap::new();
    results.insert("/a".to_string(), u64::MAX);
    assert_eq!(results.total(), Some(u64::MAX));
    results.insert("/b".to_string(), 1);
    assert_eq!(results.total(), None);
    results.insert("/b".to_string(), 0);
    assert_eq!(results.total(), Some(u64::MAX));
}
