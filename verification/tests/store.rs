//! The store's operation surface, driven as the service would drive it:
//! stage a write, run a reclamation cycle, read.

use kv_store_lib::Store;

#[test]
fn insert() {
    let mut store = Store::init();
    let k = "key".to_string();
    let v = serde_json::Value::String("value".to_string());
    let _ = store.insert(k.clone(), v.to_string(), None, 0);
    store.reclaim(1);
    assert!(store.get(&k).unwrap().is_some());
}

#[test]
fn insert_with_ttl() {
    let mut store = Store::init();
    let k = "key".to_string();
    let v = serde_json::Value::String("value".to_string());
    let _ = store.insert(k.clone(), v.to_string(), Some(10), 0);
    store.reclaim(10);
    assert!(store.get(&k).unwrap().is_none());
}

#[test]
fn delete() {
    let mut store = Store::init();
    let k = "key".to_string();
    let v = serde_json::Value::String("value".to_string());
    let _ = store.insert(k.clone(), v.to_string(), None, 0);
    store.reclaim(1);
    let _ = store.delete(k.clone());
    store.reclaim(2);
    assert!(store.get(&k).unwrap().is_none());
}

#[test]
fn get() {
    let mut store = Store::init();
    let k = "key".to_string();
    let v = serde_json::Value::String("value".to_string());
    let _ = store.insert(k.clone(), v.to_string(), None, 0);
    store.reclaim(1);
    assert_eq!(Some("\"value\"".to_string()), store.get(&k).unwrap());
}
