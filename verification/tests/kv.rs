use raft_kv::kv::{kv_from_pairs, KvStore};
use raft_kv::message::Command;

fn put(key: &str, value: &str) -> Command {
    Command::Put { key: key.into(), value: value.into() }
}

fn delete(key: &str) -> Command {
    Command::Delete { key: key.into() }
}

#[test]
fn put_and_get() {
    let store = KvStore::new();
    let (store, _) = store.apply(&put("x", "1"));
    assert_eq!(store.get("x"), Some("1"));
}

#[test]
fn overwrite_returns_previous() {
    let store = KvStore::new();
    let (store, _) = store.apply(&put("x", "1"));
    let (store, prev) = store.apply(&put("x", "2"));
    assert_eq!(prev, Some("1".into()));
    assert_eq!(store.get("x"), Some("2"));
}

#[test]
fn delete_existing_key() {
    let store = KvStore::new();
    let (store, _) = store.apply(&put("x", "1"));
    let (store, removed) = store.apply(&delete("x"));
    assert_eq!(removed, Some("1".into()));
    assert!(store.get("x").is_none());
}

#[test]
fn delete_nonexistent_key_returns_none() {
    let store = KvStore::new();
    let (store, removed) = store.apply(&delete("missing"));
    assert!(removed.is_none());
    assert!(store.is_empty());
}

#[test]
fn noop_is_identity() {
    let store = KvStore::new();
    let (store, _) = store.apply(&put("a", "1"));
    let (after, result) = store.clone().apply(&Command::Noop);
    assert!(result.is_none());
    assert_eq!(after.get("a"), Some("1"));
}

#[test]
fn kv_immutability_original_unchanged() {
    let store = KvStore::new();
    let (store_with_key, _) = store.apply(&put("k", "v"));
    // Original store is untouched.
    assert!(store.get("k").is_none());
    assert_eq!(store_with_key.get("k"), Some("v"));
}

#[test]
fn pairs_come_out_in_key_order() {
    let mut store = KvStore::default();
    for key in ["pear", "apple", "z", "é", "", "app", "Zoo"] {
        store = store.apply(&put(key, "v")).0;
    }
    assert_eq!(store.len(), 7);
    let mut expected = vec!["pear", "apple", "z", "é", "", "app", "Zoo"];
    expected.sort();
    let keys: Vec<String> = store.into_pairs().into_iter().map(|(k, _)| k).collect();
    assert_eq!(keys, expected);
}

#[test]
fn pairs_make_the_store_again() {
    let mut store = KvStore::new();
    for i in 0..50u32 {
        store = store.apply(&put(&format!("k{}", (i * 37) % 50), &format!("{i}"))).0;
    }
    let pairs = store.clone().into_pairs();
    let again = kv_from_pairs(pairs.clone());
    assert_eq!(again.len(), 50);
    for i in 0..50u32 {
        let key = format!("k{i}");
        assert_eq!(again.get(&key), store.get(&key));
    }
    assert_eq!(again.into_pairs(), pairs);
}

#[test]
fn later_pairs_win() {
    let store = kv_from_pairs(vec![
        ("a".into(), "1".into()),
        ("b".into(), "2".into()),
        ("a".into(), "3".into()),
    ]);
    assert_eq!(store.len(), 2);
    assert_eq!(store.get("a"), Some("3"));
}

#[test]
fn other_keys_stay() {
    let store = kv_from_pairs(vec![("a".into(), "1".into()), ("b".into(), "2".into())]);
    let (store, _) = store.apply(&delete("a"));
    assert_eq!(store.get("a"), None);
    assert_eq!(store.get("b"), Some("2"));
    assert!(!store.is_empty());
}
