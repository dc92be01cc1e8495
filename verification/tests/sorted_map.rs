use s5_groups::order::{self, Side};
use s5_groups::sorted_map::SortedMap;

#[test]
fn bytes_are_compared_lexicographically() {
    assert_eq!(order::compare_bytes(b"ab", b"b"), Side::Before);
    assert_eq!(order::compare_bytes(b"ab", b"ab"), Side::Same);
    assert_eq!(order::compare_bytes(b"abc", b"ab"), Side::After);
    assert_eq!(order::compare_bytes(b"", b"\x00"), Side::Before);
    assert!(order::equal_bytes(b"x", b"x"));
    assert!(!order::equal_bytes(b"x", b"xx"));
}

#[test]
fn entries_are_kept_in_order() {
    let mut m: SortedMap<String, u32> = SortedMap::new();
    for (i, key) in ["m", "z", "a", "é", "Z", "mm"].iter().enumerate() {
        assert_eq!(m.insert(key.to_string(), i as u32), None);
    }
    let keys: Vec<&str> = (0..m.len()).map(|i| m.entry(i).0.as_str()).collect();
    assert_eq!(keys, vec!["Z", "a", "m", "mm", "z", "é"]);
    assert_eq!(m.insert("m".into(), 9), Some(0));
    assert_eq!(m.len(), 6);
    assert_eq!(m.get_str("m"), Some(&9));
    assert_eq!(m.get(&"none".to_string()), None);
    assert!(m.contains_key(&"é".to_string()));
    assert_eq!(m.remove_str("é"), Some(3));
    assert_eq!(m.remove_str("é"), None);
    assert_eq!(m.remove(&"a".to_string()), Some(2));
    assert_eq!(m.len(), 4);
}

#[test]
fn clone_has_the_same_entries() {
    let mut m: SortedMap<[u8; 32], String> = SortedMap::new();
    m.insert([2; 32], "b".into());
    m.insert([1; 32], "a".into());
    let c = m.clone();
    assert_eq!(c, m);
    assert_eq!(c.entry(0), (&[1; 32], &"a".to_string()));
    assert!(!c.is_empty());
}
