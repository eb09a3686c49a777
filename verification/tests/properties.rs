//! Concrete instances of the store's stated behaviour: visibility only
//! after reclamation, rejection of double inserts and absent deletes,
//! expiry at or before the sweep instant, and persistence without one.

use kv_store_lib::{ModelError, Store};

#[test]
fn insert_then_get_returns_value() {
    let mut store = Store::init();
    assert!(store.insert("k".to_string(), "payload".to_string(), None, 0).is_ok());
    store.reclaim(0);
    assert_eq!(Some("payload".to_string()), store.get(&"k".to_string()).unwrap());
}

#[test]
fn double_insert_rejected_before_publication() {
    let mut store = Store::init();
    assert!(store.insert("k".to_string(), "one".to_string(), None, 0).is_ok());
    let second = store.insert("k".to_string(), "two".to_string(), None, 0);
    assert!(matches!(second, Err(ModelError::AlreadyPresent)));
}

#[test]
fn double_insert_rejected_and_original_kept() {
    let mut store = Store::init();
    assert!(store.insert("k".to_string(), "one".to_string(), None, 0).is_ok());
    store.reclaim(0);
    let second = store.insert("k".to_string(), "two".to_string(), Some(5), 1);
    assert!(matches!(second, Err(ModelError::AlreadyPresent)));
    store.reclaim(100);
    assert_eq!(Some("one".to_string()), store.get(&"k".to_string()).unwrap());
}

#[test]
fn delete_of_absent_rejected() {
    let mut store = Store::init();
    let r = store.delete("missing".to_string());
    assert!(matches!(r, Err(ModelError::NotFound)));
    assert!(store.insert("k".to_string(), "v".to_string(), None, 0).is_ok());
    assert!(store.delete("k".to_string()).is_ok());
    let again = store.delete("k".to_string());
    assert!(matches!(again, Err(ModelError::NotFound)));
}

#[test]
fn insert_then_delete_then_get_absent() {
    let mut store = Store::init();
    assert!(store.insert("k".to_string(), "v".to_string(), None, 0).is_ok());
    store.reclaim(0);
    assert!(store.delete("k".to_string()).is_ok());
    store.reclaim(1);
    assert!(store.get(&"k".to_string()).unwrap().is_none());
}

#[test]
fn ttl_expiry_only_after_sweep_reaches_it() {
    let mut store = Store::init();
    assert!(store.insert("k".to_string(), "v".to_string(), Some(10), 0).is_ok());
    store.reclaim(5);
    assert_eq!(Some("v".to_string()), store.get(&"k".to_string()).unwrap());
    store.reclaim(9);
    assert!(store.get(&"k".to_string()).unwrap().is_some());
    store.reclaim(10);
    assert!(store.get(&"k".to_string()).unwrap().is_none());
}

#[test]
fn no_ttl_never_expires() {
    let mut store = Store::init();
    assert!(store.insert("k".to_string(), "v".to_string(), None, 0).is_ok());
    store.reclaim(i64::MAX);
    assert_eq!(Some("v".to_string()), store.get(&"k".to_string()).unwrap());
    store.reclaim(i64::MAX);
    assert_eq!(Some("v".to_string()), store.get(&"k".to_string()).unwrap());
}

#[test]
fn unpublished_writes_invisible_to_readers() {
    let mut store = Store::init();
    assert!(store.insert("k".to_string(), "v".to_string(), None, 0).is_ok());
    assert!(store.get(&"k".to_string()).unwrap().is_none());
    store.reclaim(0);
    assert!(store.delete("k".to_string()).is_ok());
    assert_eq!(Some("v".to_string()), store.get(&"k".to_string()).unwrap());
    store.reclaim(1);
    assert!(store.get(&"k".to_string()).unwrap().is_none());
}

#[test]
fn scenario_json_quoted_roundtrip() {
    let mut store = Store::init();
    let body = serde_json::Value::String("value".to_string());
    assert!(store.insert("key".to_string(), body.to_string(), None, 0).is_ok());
    store.reclaim(0);
    assert_eq!(Some("\"value\"".to_string()), store.get(&"key".to_string()).unwrap());

    let mut store2 = Store::init();
    let body2 = serde_json::Value::String("value".to_string());
    assert!(store2.insert("key".to_string(), body2.to_string(), Some(10), 0).is_ok());
    store2.reclaim(11);
    assert!(store2.get(&"key".to_string()).unwrap().is_none());
}

#[test]
fn equal_expiries_all_evicted() {
    let mut store = Store::init();
    assert!(store.insert("a".to_string(), "1".to_string(), Some(10), 0).is_ok());
    assert!(store.insert("b".to_string(), "2".to_string(), Some(10), 0).is_ok());
    assert!(store.insert("c".to_string(), "3".to_string(), None, 0).is_ok());
    store.reclaim(10);
    assert!(store.get(&"a".to_string()).unwrap().is_none());
    assert!(store.get(&"b".to_string()).unwrap().is_none());
    assert_eq!(Some("3".to_string()), store.get(&"c".to_string()).unwrap());
}

#[test]
fn delete_before_drain_clears_tracked_expiry() {
    let mut store = Store::init();
    assert!(store.insert("k".to_string(), "v".to_string(), Some(5), 0).is_ok());
    assert!(store.delete("k".to_string()).is_ok());
    assert!(store.insert("k".to_string(), "fresh".to_string(), None, 1).is_ok());
    store.reclaim(100);
    assert_eq!(Some("fresh".to_string()), store.get(&"k".to_string()).unwrap());
}

#[test]
fn negative_ttl_expires_at_once() {
    let mut store = Store::init();
    assert!(store.insert("k".to_string(), "v".to_string(), Some(-1), 5).is_ok());
    store.reclaim(5);
    assert!(store.get(&"k".to_string()).unwrap().is_none());
}

#[test]
fn error_messages() {
    assert_eq!("Key Not Found", ModelError::NotFound.message());
    assert_eq!("Key is not present in the data set", ModelError::AlreadyPresent.message());
}

#[test]
fn reinsert_after_expiry_allowed() {
    let mut store = Store::init();
    assert!(store.insert("k".to_string(), "old".to_string(), Some(10), 0).is_ok());
    store.reclaim(10);
    assert!(store.insert("k".to_string(), "new".to_string(), None, 11).is_ok());
    store.reclaim(12);
    assert_eq!(Some("new".to_string()), store.get(&"k".to_string()).unwrap());
}

#[test]
fn reclaim_now_publishes() {
    let mut store = Store::init();
    assert!(store.insert("k".to_string(), "v".to_string(), None, 0).is_ok());
    store.reclaim_now();
    assert_eq!(Some("v".to_string()), store.get(&"k".to_string()).unwrap());
}
