use fq_data_broker::interval_map::RangeDataStorage;

#[test]
fn insert_test() {
    let mut range_store: RangeDataStorage<i64> = RangeDataStorage::new();
    range_store.insert(1, 3, 3);
    assert_eq!(range_store.get(1), Some(&3));
    assert_eq!(range_store.get(2), Some(&3));
    assert_eq!(range_store.get(3), Some(&3));
}

#[test]
fn insert_two_test() {
    let mut range_store: RangeDataStorage<i64> = RangeDataStorage::new();
    range_store.insert(1, 3, 3);
    range_store.insert(5, 6, 6);
    assert_eq!(range_store.get(1), Some(&3));
    assert_eq!(range_store.get(2), Some(&3));
    assert_eq!(range_store.get(3), Some(&3));
    assert_eq!(range_store.get(5), Some(&6));
    assert_eq!(range_store.get(6), Some(&6));
    assert_eq!(range_store.len(), 2);
}

#[test]
fn overwrite_truncates_older_interval() {
    let mut range_store: RangeDataStorage<i64> = RangeDataStorage::new();
    range_store.insert(1, 10, 5);
    range_store.insert(3, 4, 7);
    assert_eq!(range_store.get(1), Some(&5));
    assert_eq!(range_store.get(2), Some(&5));
    assert_eq!(range_store.get(3), Some(&7));
    assert_eq!(range_store.get(4), Some(&7));
    assert_eq!(range_store.get(5), Some(&5));
    assert_eq!(range_store.get(10), Some(&5));
    assert_eq!(range_store.get(11), None);
    assert_eq!(range_store.len(), 3);
}

#[test]
fn set_range_rejects_inverted_interval() {
    let mut range_store: RangeDataStorage<i64> = RangeDataStorage::new();
    let r = range_store.set_range(5, 2, 9);
    assert_eq!(r, Err(fq_data_broker::DataError::Range));
    assert_eq!(range_store.len(), 0);
}

#[test]
fn contains_and_contains_range() {
    let mut range_store: RangeDataStorage<i64> = RangeDataStorage::new();
    range_store.insert(1, 3, 3);
    range_store.insert(5, 6, 6);
    assert!(range_store.contains(2));
    assert!(!range_store.contains(4));
    assert!(range_store.contains_range(&1, &3));
    assert!(!range_store.contains_range(&3, &5));
    assert!(!range_store.contains_range(&3, &4));
}

#[test]
fn save_test() {
    let mut range_store: RangeDataStorage<i64> = RangeDataStorage::new();
    range_store.insert(1, 3, 3);
    let doc = range_store.save();
    assert_eq!(
        String::from_utf8(doc.clone()).unwrap(),
        "{\"ranges\":[{\"start\":1,\"end\":3,\"value\":3}]}"
    );

    let range_store = RangeDataStorage::load(&doc).unwrap();
    assert_eq!(range_store.get(1), Some(&3));
    assert_eq!(range_store.get(2), Some(&3));
    assert_eq!(range_store.get(3), Some(&3));
}

#[test]
fn interval_save_load_round_trip() {
    let mut range_store: RangeDataStorage<i64> = RangeDataStorage::new();
    range_store.insert(-10, -5, 1);
    range_store.insert(1, 3, 3);
    range_store.insert(5, 6, 6);
    let doc = range_store.save();
    let restored = RangeDataStorage::load(&doc).unwrap();
    assert_eq!(restored.len(), 3);
    assert_eq!(restored.get(-7), Some(&1));
    assert_eq!(restored.get(2), Some(&3));
    assert_eq!(restored.get(6), Some(&6));
    assert_eq!(restored.get(4), None);
    // the restored map serializes to the identical document
    assert_eq!(restored.save(), doc);
}

#[test]
fn interval_empty_map_round_trips() {
    let range_store: RangeDataStorage<i64> = RangeDataStorage::new();
    let doc = range_store.save();
    assert_eq!(String::from_utf8(doc.clone()).unwrap(), "{\"ranges\":[]}");
    let restored: RangeDataStorage<i64> = RangeDataStorage::load(&doc).unwrap();
    assert_eq!(restored.len(), 0);
}

#[test]
fn interval_corrupt_document_rejected() {
    let garbage: Vec<u8> = b"{\"ranges\":[{\"start\":1".to_vec();
    let r: Result<RangeDataStorage<i64>, _> = RangeDataStorage::load(&garbage);
    assert!(matches!(r, Err(fq_data_broker::DataError::Parse)));
    // intervals out of order are no well-formed map either
    let shuffled: Vec<u8> =
        b"{\"ranges\":[{\"start\":5,\"end\":6,\"value\":1},{\"start\":1,\"end\":3,\"value\":2}]}"
            .to_vec();
    let r: Result<RangeDataStorage<i64>, _> = RangeDataStorage::load(&shuffled);
    assert!(matches!(r, Err(fq_data_broker::DataError::Parse)));
}
