use did_toolkit::hash::OrderedHashSet;
use std::collections::hash_map::DefaultHasher;
use std::hash::{Hash, Hasher};

#[test]
fn hash_test_basic() {
    let mut set: OrderedHashSet<&str> = Default::default();
    set.insert("foo").unwrap();
    set.insert("bar").unwrap();
    assert!(set.insert("foo").is_err());
    assert_eq!(set.to_vec(), vec!["foo", "bar"]);
    set.delete("foo");
    assert_eq!(set.to_vec(), vec!["bar"]);
    assert!(set.insert("foo").is_ok());
    assert_eq!(set.to_vec(), vec!["bar", "foo"]);
}

#[test]
fn test_iterator() {
    let mut set: OrderedHashSet<&str> = Default::default();
    set.insert("foo").unwrap();
    set.insert("bar").unwrap();
    set.insert("quux").unwrap();
    set.insert("baz").unwrap();

    let mut iter = set.iter();
    assert_eq!(iter.next(), Some("foo"));
    assert_eq!(iter.next(), Some("bar"));
    assert_eq!(iter.next(), Some("quux"));
    assert_eq!(iter.next(), Some("baz"));
    assert_eq!(iter.next(), None);

    // double iteration
    let mut iter = set.iter();
    assert_eq!(iter.next(), Some("foo"));
    assert_eq!(iter.next(), Some("bar"));
    assert_eq!(iter.next(), Some("quux"));
    assert_eq!(iter.next(), Some("baz"));
    assert_eq!(iter.next(), None);

    let mut iter = set.iter();
    let mut collected: Vec<&str> = Vec::new();
    while let Some(item) = iter.next() {
        collected.push(item);
    }
    assert_eq!(collected, vec!["foo", "bar", "quux", "baz"]);
}

#[test]
fn test_hash() {
    let mut set: OrderedHashSet<&str> = Default::default();
    set.insert("foo").unwrap();
    set.insert("bar").unwrap();
    set.insert("quux").unwrap();
    set.insert("baz").unwrap();

    let mut hasher = DefaultHasher::default();
    set.hash(&mut hasher);
    let hash = hasher.finish();

    for _ in 1..10000 {
        let mut hasher = DefaultHasher::default();
        set.hash(&mut hasher);
        assert_eq!(hasher.finish(), hash);
    }

    set.delete("foo");

    let mut hasher = DefaultHasher::default();
    set.hash(&mut hasher);
    let newhash = hasher.finish();

    assert_ne!(hash, newhash);
}
