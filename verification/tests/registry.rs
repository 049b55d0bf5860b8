use mesh_security::keys::{key_order, same_key, KeyOrder};
use mesh_security::store::Registry;

#[test]
fn keys_compare_as_bytes() {
    assert_eq!(key_order("a", "b"), KeyOrder::Less);
    assert_eq!(key_order("b", "a"), KeyOrder::Greater);
    assert_eq!(key_order("a", "a"), KeyOrder::Equal);
    assert_eq!(key_order("", ""), KeyOrder::Equal);
    assert_eq!(key_order("", "a"), KeyOrder::Less);
    assert_eq!(key_order("a", ""), KeyOrder::Greater);
    assert_eq!(key_order("ab", "abc"), KeyOrder::Less);
    assert_eq!(key_order("abc", "abd"), KeyOrder::Less);
    assert_eq!(key_order("abd", "abc"), KeyOrder::Greater);
    assert_eq!(key_order("Z", "a"), KeyOrder::Less);
    assert_eq!(key_order("user10", "user2"), KeyOrder::Less);
    assert_eq!(key_order("z", "é"), KeyOrder::Less);
    assert!(same_key("abc", "abc"));
    assert!(!same_key("abc", "abd"));
    assert!(!same_key("abc", "ab"));
}

#[test]
fn registry_keeps_records_in_order() {
    let mut r: Registry<u32> = Registry::new();
    assert_eq!(r.len(), 0);
    assert_eq!(r.put("m".to_owned(), 1), None);
    assert_eq!(r.put("c".to_owned(), 2), None);
    assert_eq!(r.put("x".to_owned(), 3), None);
    assert_eq!(r.put("a".to_owned(), 4), None);
    assert_eq!(r.put("c".to_owned(), 5), Some(2));
    assert_eq!(r.len(), 4);
    let listed: Vec<(&str, u32)> = (0..r.len()).map(|i| (r.key_at(i), *r.value_at(i))).collect();
    assert_eq!(listed, [("a", 4), ("c", 5), ("m", 1), ("x", 3)]);
    assert_eq!(r.get("c"), Some(&5));
    assert_eq!(r.get("b"), None);
    assert!(r.contains("x"));
    assert!(!r.contains("y"));
}

#[test]
fn registry_finds_the_rank() {
    let mut r: Registry<u32> = Registry::new();
    for (i, k) in ["b", "d", "f"].iter().enumerate() {
        r.put((*k).to_owned(), i as u32);
    }
    assert_eq!(r.find("a"), (false, 0));
    assert_eq!(r.find("b"), (true, 0));
    assert_eq!(r.find("c"), (false, 1));
    assert_eq!(r.find("d"), (true, 1));
    assert_eq!(r.find("e"), (false, 2));
    assert_eq!(r.find("f"), (true, 2));
    assert_eq!(r.find("g"), (false, 3));
    assert_eq!(r.first_after(None), 0);
    assert_eq!(r.first_after(Some("a")), 0);
    assert_eq!(r.first_after(Some("b")), 1);
    assert_eq!(r.first_after(Some("c")), 1);
    assert_eq!(r.first_after(Some("f")), 3);
}

#[test]
fn registry_changes_in_place() {
    let mut r: Registry<u32> = Registry::new();
    r.put("a".to_owned(), 1);
    r.put("b".to_owned(), 2);
    assert_eq!(r.replace_at(1, 20), 2);
    *r.value_at_mut(0) += 9;
    r.insert_at(2, "c".to_owned(), 3);
    assert_eq!(r.get("a"), Some(&10));
    assert_eq!(r.get("b"), Some(&20));
    assert_eq!(r.get("c"), Some(&3));
}
