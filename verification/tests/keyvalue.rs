use thinkaroo::keyvalue::{Column, KeyValueStore, MemoryKeyValueStore};

fn col(name: &str, value: &[u8]) -> Column {
    Column::new(name.to_string(), value.to_vec())
}

#[test]
fn column_new_keeps_fields() {
    let c = Column::new("n".to_string(), vec![7, 8]);
    assert_eq!(c.name, "n");
    assert_eq!(c.value, vec![7, 8]);
}

#[test]
fn put_then_get_returns_requested_columns_in_order() {
    let mut store = MemoryKeyValueStore::new();
    store.put("user#1".to_string(), vec![col("a", &[1]), col("b", &[2])]).unwrap();
    let got = store
        .get("user#1".to_string(), vec!["b".to_string(), "a".to_string()])
        .unwrap();
    assert_eq!(got, vec![col("b", &[2]), col("a", &[1])]);
}

#[test]
fn get_missing_key_yields_empty_list() {
    let store = MemoryKeyValueStore::new();
    let got = store.get("nobody".to_string(), vec!["a".to_string()]).unwrap();
    assert!(got.is_empty());
}

#[test]
fn get_omits_absent_columns_silently() {
    let mut store = MemoryKeyValueStore::new();
    store.put("k".to_string(), vec![col("a", &[1])]).unwrap();
    let got = store
        .get(
            "k".to_string(),
            vec!["missing".to_string(), "a".to_string(), "gone".to_string()],
        )
        .unwrap();
    assert_eq!(got, vec![col("a", &[1])]);
}

#[test]
fn put_merges_without_touching_other_columns() {
    let mut store = MemoryKeyValueStore::new();
    store.put("k".to_string(), vec![col("a", &[1]), col("b", &[2])]).unwrap();
    store.put("k".to_string(), vec![col("b", &[9]), col("c", &[3])]).unwrap();
    let got = store
        .get(
            "k".to_string(),
            vec!["a".to_string(), "b".to_string(), "c".to_string()],
        )
        .unwrap();
    assert_eq!(got, vec![col("a", &[1]), col("b", &[9]), col("c", &[3])]);
}

#[test]
fn later_column_in_one_put_wins() {
    let mut store = MemoryKeyValueStore::new();
    store.put("k".to_string(), vec![col("a", &[1]), col("a", &[2])]).unwrap();
    let got = store.get("k".to_string(), vec!["a".to_string()]).unwrap();
    assert_eq!(got, vec![col("a", &[2])]);
}

#[test]
fn records_are_independent() {
    let mut store = MemoryKeyValueStore::new();
    store.put("k1".to_string(), vec![col("a", &[1])]).unwrap();
    store.put("k2".to_string(), vec![col("a", &[2])]).unwrap();
    assert_eq!(
        store.get("k1".to_string(), vec!["a".to_string()]).unwrap(),
        vec![col("a", &[1])]
    );
    assert_eq!(
        store.get("k2".to_string(), vec!["a".to_string()]).unwrap(),
        vec![col("a", &[2])]
    );
}
