use thinkaroo::keyvalue::MemoryKeyValueStore;
use thinkaroo::reading::ReadingContents;
use thinkaroo::state::{format_timed_prefix, AppState, ContentType, MAX_OBJECTS_PER_HOUR};
use thinkaroo::storage::{MemoryObjectStore, ObjectStore};
use thinkaroo::timefmt::HourStamp;
use thinkaroo::ServiceError;

fn artifact(title: &str) -> ReadingContents {
    ReadingContents {
        title: title.to_string(),
        story: "S".to_string(),
        questions: vec!["Q1".to_string()],
    }
}

fn hour(year: u16, month: u8, day: u8, hour: u8) -> HourStamp {
    HourStamp { year, month, day, hour }
}

fn memory_state(capacity: usize) -> AppState<MemoryObjectStore, MemoryKeyValueStore> {
    AppState::with_capacity(MemoryObjectStore::new(), MemoryKeyValueStore::new(), capacity)
}

#[test]
fn prefix_layout_is_fixed() {
    assert_eq!(
        format_timed_prefix(ContentType::Reading, hour(2025, 10, 11, 14)),
        "reading/2025-10-11-14/"
    );
    assert_eq!(
        format_timed_prefix(ContentType::Reading, hour(2026, 1, 2, 3)),
        "reading/2026-01-02-03/"
    );
    assert_eq!(ContentType::Reading.prefix(), "reading");
}

#[test]
fn lookup_on_empty_bucket_is_none_not_error() {
    let state = memory_state(MAX_OBJECTS_PER_HOUR);
    let got = state
        .get_timed_object_at(ContentType::Reading, hour(2025, 10, 11, 14))
        .expect("an empty bucket is a miss, not an error");
    assert!(got.is_none());
}

#[test]
fn end_to_end_generate_then_reuse() {
    // Empty bucket: miss. Store one artifact; with capacity 1 the very next
    // lookup serves it back, equal to what was stored.
    let mut state = memory_state(1);
    let at = hour(2025, 10, 11, 14);
    assert!(state.get_timed_object_at(ContentType::Reading, at).unwrap().is_none());

    let a = ReadingContents {
        title: "T".to_string(),
        story: "S".to_string(),
        questions: vec!["Q1".to_string()],
    };
    state.store_timed_object_at(&a, ContentType::Reading, at).unwrap();

    let got = state
        .get_timed_object_at(ContentType::Reading, at)
        .unwrap()
        .expect("a full bucket must serve an artifact");
    assert_eq!(got, a);
}

#[test]
fn capacity_boundary_fifteen_misses_sixteen_hits() {
    let mut state = memory_state(16);
    let at = hour(2025, 10, 11, 14);
    for i in 0..15 {
        state
            .store_timed_object_at(&artifact(&format!("t{}", i)), ContentType::Reading, at)
            .unwrap();
    }
    assert!(state.get_timed_object_at(ContentType::Reading, at).unwrap().is_none());

    state.store_timed_object_at(&artifact("t15"), ContentType::Reading, at).unwrap();
    let got = state.get_timed_object_at(ContentType::Reading, at).unwrap();
    assert!(got.is_some());
}

#[test]
fn full_bucket_keeps_serving_stored_artifacts() {
    let mut state = memory_state(4);
    let at = hour(2025, 10, 11, 14);
    for i in 0..4 {
        state
            .store_timed_object_at(&artifact(&format!("t{}", i)), ContentType::Reading, at)
            .unwrap();
    }
    let titles: Vec<String> =
        (0..4).map(|i| format!("t{}", i)).collect();
    for _ in 0..20 {
        let got = state
            .get_timed_object_at(ContentType::Reading, at)
            .unwrap()
            .expect("a full bucket never misses");
        assert!(titles.contains(&got.title));
        assert_eq!(got.story, "S");
        assert_eq!(got.questions, vec!["Q1".to_string()]);
    }
}

#[test]
fn bucket_isolation_across_hours() {
    let mut state = memory_state(1);
    let morning = hour(2025, 10, 11, 9);
    let evening = hour(2025, 10, 11, 21);
    state.store_timed_object_at(&artifact("m"), ContentType::Reading, morning).unwrap();

    // The morning bucket is full, the evening bucket stays empty.
    assert!(state.get_timed_object_at(ContentType::Reading, morning).unwrap().is_some());
    assert!(state.get_timed_object_at(ContentType::Reading, evening).unwrap().is_none());

    // Different days and years are different buckets too.
    assert!(state
        .get_timed_object_at(ContentType::Reading, hour(2025, 10, 12, 9))
        .unwrap()
        .is_none());
    assert!(state
        .get_timed_object_at(ContentType::Reading, hour(2024, 10, 11, 9))
        .unwrap()
        .is_none());
}

#[test]
fn racing_readers_may_both_miss_and_overshoot_is_bounded() {
    // Two callers look up a bucket at count capacity-1: both see a miss,
    // both generate and store. The bucket overshoots its capacity by at most
    // the number of racers, and lookups then serve from it.
    let capacity = 4;
    let mut state = memory_state(capacity);
    let at = hour(2025, 10, 11, 14);
    for i in 0..capacity - 1 {
        state
            .store_timed_object_at(&artifact(&format!("t{}", i)), ContentType::Reading, at)
            .unwrap();
    }
    let first = state.get_timed_object_at(ContentType::Reading, at).unwrap();
    let second = state.get_timed_object_at(ContentType::Reading, at).unwrap();
    assert!(first.is_none() && second.is_none());

    state.store_timed_object_at(&artifact("r1"), ContentType::Reading, at).unwrap();
    state.store_timed_object_at(&artifact("r2"), ContentType::Reading, at).unwrap();

    let listed = state
        .object_store
        .list_objects(&format_timed_prefix(ContentType::Reading, at))
        .unwrap();
    assert_eq!(listed.len(), capacity + 1);
    assert!(state.get_timed_object_at(ContentType::Reading, at).unwrap().is_some());
}

#[test]
fn corrupt_stored_entry_is_a_serialization_failure_not_a_miss() {
    let mut state = memory_state(1);
    let at = hour(2025, 10, 11, 14);
    let key = format!("{}garbage.json", format_timed_prefix(ContentType::Reading, at));
    state.object_store.put_object(&key, b"not json at all".to_vec()).unwrap();

    let err = state.get_timed_object_at(ContentType::Reading, at).unwrap_err();
    assert!(matches!(err, ServiceError::SerializationFailure(_)));
}

#[test]
fn stored_keys_carry_bucket_prefix_and_json_suffix() {
    let mut state = memory_state(1);
    let at = hour(2025, 10, 11, 14);
    state.store_timed_object_at(&artifact("t"), ContentType::Reading, at).unwrap();
    let listed = state
        .object_store
        .list_objects(&format_timed_prefix(ContentType::Reading, at))
        .unwrap();
    assert_eq!(listed.len(), 1);
    let key = &listed[0].key;
    assert!(key.starts_with("reading/2025-10-11-14/"));
    assert!(key.ends_with(".json"));
    // the identifier between prefix and suffix is 36 characters
    assert_eq!(key.len(), "reading/2025-10-11-14/".len() + 36 + ".json".len());
}

#[test]
fn store_and_lookup_in_current_hour() {
    let mut state = AppState::with_capacity(MemoryObjectStore::new(), MemoryKeyValueStore::new(), 1);
    let a = artifact("now");
    state.store_timed_object(&a, ContentType::Reading).unwrap();
    let mut got = state.get_timed_object(ContentType::Reading).unwrap();
    if got.is_none() {
        // the wall clock may have crossed an hour boundary between the two
        // calls; the artifact then landed in the previous hour's bucket
        state.store_timed_object(&a, ContentType::Reading).unwrap();
        got = state.get_timed_object(ContentType::Reading).unwrap();
    }
    assert_eq!(got.expect("bucket of the current hour is full"), a);
}

#[test]
fn default_capacity_is_sixteen() {
    let state = AppState::new(MemoryObjectStore::new(), MemoryKeyValueStore::new());
    assert_eq!(state.capacity, MAX_OBJECTS_PER_HOUR);
    assert_eq!(MAX_OBJECTS_PER_HOUR, 16);
}

#[test]
fn error_variants_are_distinguishable() {
    let errs = vec![
        ServiceError::StorageFailure("backend down".to_string()),
        ServiceError::NotFound("k".to_string()),
        ServiceError::SerializationFailure("k".to_string()),
        ServiceError::GenerationFailure("model refused".to_string()),
        ServiceError::ConfigurationFailure("no prompt".to_string()),
    ];
    assert!(matches!(errs[0], ServiceError::StorageFailure(_)));
    assert!(matches!(errs[1], ServiceError::NotFound(_)));
    assert!(matches!(errs[2], ServiceError::SerializationFailure(_)));
    assert!(matches!(errs[3], ServiceError::GenerationFailure(_)));
    assert!(matches!(errs[4], ServiceError::ConfigurationFailure(_)));
}
