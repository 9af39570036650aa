use thinkaroo::storage::{DiskObjectStore, MemoryObjectStore, ObjectStore};
use thinkaroo::ServiceError;

#[test]
fn memory_put_then_get_round_trips() {
    let mut store = MemoryObjectStore::new();
    store.put_object("a/b", vec![1, 2, 3]).unwrap();
    assert_eq!(store.get_object("a/b").unwrap(), vec![1, 2, 3]);
}

#[test]
fn memory_get_missing_is_not_found() {
    let store = MemoryObjectStore::new();
    let err = store.get_object("absent").unwrap_err();
    assert!(matches!(err, ServiceError::NotFound(_)));
}

#[test]
fn memory_put_overwrites() {
    let mut store = MemoryObjectStore::new();
    store.put_object("k", vec![1]).unwrap();
    store.put_object("k", vec![2, 3]).unwrap();
    assert_eq!(store.get_object("k").unwrap(), vec![2, 3]);
    let listed = store.list_objects("k").unwrap();
    assert_eq!(listed.len(), 1);
}

#[test]
fn memory_list_filters_by_prefix() {
    let mut store = MemoryObjectStore::new();
    store.put_object("reading/2025-10-11-14/a.json", vec![1]).unwrap();
    store.put_object("reading/2025-10-11-14/b.json", vec![2]).unwrap();
    store.put_object("reading/2025-10-11-15/c.json", vec![3]).unwrap();
    store.put_object("math/2025-10-11-14/d.json", vec![4]).unwrap();

    let hour14 = store.list_objects("reading/2025-10-11-14/").unwrap();
    let mut keys: Vec<String> = hour14.into_iter().map(|o| o.key).collect();
    keys.sort();
    assert_eq!(
        keys,
        vec![
            "reading/2025-10-11-14/a.json".to_string(),
            "reading/2025-10-11-14/b.json".to_string(),
        ]
    );

    let all = store.list_objects("").unwrap();
    assert_eq!(all.len(), 4);

    let nothing = store.list_objects("writing/").unwrap();
    assert!(nothing.is_empty());
}

#[test]
fn disk_key_to_path_joins_under_base() {
    let store = DiskObjectStore::with_base_path("./data".to_string());
    assert_eq!(store.key_to_path("reading/x.json"), "./data/reading/x.json");
}

#[test]
fn disk_default_base_path() {
    let store = DiskObjectStore::new();
    assert_eq!(store.key_to_path("k"), "./storage/k");
    let other = DiskObjectStore::default();
    assert_eq!(other.key_to_path("k"), "./storage/k");
}

#[test]
fn disk_path_to_key_inverts_key_to_path() {
    let store = DiskObjectStore::with_base_path("./storage".to_string());
    let path = store.key_to_path("reading/2025-10-11-14/a.json");
    assert_eq!(store.path_to_key(&path), Some("reading/2025-10-11-14/a.json".to_string()));
}

#[test]
fn disk_path_outside_base_is_none() {
    let store = DiskObjectStore::with_base_path("./storage".to_string());
    assert_eq!(store.path_to_key("./elsewhere/file"), None);
    assert_eq!(store.path_to_key("./storage"), None);
}
