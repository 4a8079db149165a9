use fq_data_broker::range_store::RangeDataStore;
use fq_data_broker::range_store::RangeDataGetResult::{Found, Partial, SpansMultiple};

fn int_store() -> RangeDataStore<i64, i64> {
    RangeDataStore::new("@data".to_string(), "int_test".to_string())
}

fn string_store() -> RangeDataStore<String, String> {
    RangeDataStore::new("@data".to_string(), "string_test".to_string())
}

#[test]
fn test_range_add() {
    let mut storage = int_store();
    storage.add_range(vec![1, 2, 3]).unwrap();
    assert_eq!(storage.len(), 1);
    assert_eq!(storage.total_len(), 3);
}

#[test]
fn test_range_add_overlap() {
    let mut storage = int_store();
    storage.add_range(vec![1, 2, 3]).unwrap();
    storage.add_range(vec![3, 4, 5]).unwrap();
    assert_eq!(storage.len(), 1);
    assert_eq!(storage.total_len(), 5);
}

#[test]
fn test_range_add_no_overlap() {
    let mut storage = int_store();
    storage.add_range(vec![1, 2, 3]).unwrap();
    storage.add_range(vec![4, 5, 6]).unwrap();
    assert_eq!(storage.len(), 2);
    assert_eq!(storage.total_len(), 6);
}

#[test]
fn test_range_get_subset() {
    let mut storage = int_store();
    storage.add_range(vec![1, 2, 3]).unwrap();
    storage.add_range(vec![5, 6]).unwrap();
    assert_eq!(storage.len(), 2);
    assert_eq!(storage.total_len(), 5);
    let subset = storage.get_range(&2, &3);
    assert_eq!(subset, Found(vec![2, 3]));
}

#[test]
fn test_range_get_subset_partial() {
    let mut storage = int_store();
    storage.add_range(vec![1, 2, 3, 4, 5, 6]).unwrap();
    assert_eq!(storage.len(), 1);
    assert_eq!(storage.total_len(), 6);
    let subset = storage.get_range(&5, &7);
    assert_eq!(subset, Partial(vec![5, 6]));
    println!("{:?}", subset);
}

#[test]
fn test_range_get_subset_spans_two_ranges() {
    let mut storage = int_store();
    storage.add_range(vec![1, 2, 3]).unwrap();
    storage.add_range(vec![5, 6]).unwrap();
    assert_eq!(storage.len(), 2);
    assert_eq!(storage.total_len(), 5);
    let subset = storage.get_range(&2, &5);
    assert_eq!(subset, SpansMultiple(vec![2, 3, 5]));
    println!("{:?}", subset);
}

#[test]
fn tests_test_range_add() {
    let mut storage = string_store();
    storage.add_range(vec!["a".to_string(), "b".to_string(), "c".to_string()]).unwrap();
    assert_eq!(storage.len(), 1);
    assert_eq!(storage.total_len(), 3);
}

#[test]
fn tests_test_range_add_overlap() {
    let mut storage = string_store();
    storage.add_range(vec!["a".to_string(), "b".to_string(), "c".to_string()]).unwrap();
    storage.add_range(vec!["c".to_string(), "d".to_string(), "e".to_string()]).unwrap();
    assert_eq!(storage.len(), 1);
    assert_eq!(storage.total_len(), 5);
}

#[test]
fn tests_test_range_add_no_overlap() {
    let mut storage = string_store();
    storage.add_range(vec!["a".to_string(), "b".to_string(), "c".to_string()]).unwrap();
    storage.add_range(vec!["d".to_string(), "e".to_string(), "f".to_string()]).unwrap();
    assert_eq!(storage.len(), 2);
    assert_eq!(storage.total_len(), 6);
}

#[test]
fn tests_test_range_get_subset() {
    let mut storage = string_store();
    storage.add_range(vec!["a".to_string(), "b".to_string(), "c".to_string()]).unwrap();
    storage.add_range(vec!["d".to_string(), "e".to_string(), "f".to_string()]).unwrap();
    assert_eq!(storage.len(), 2);
    assert_eq!(storage.total_len(), 6);
    let subset = storage.get_range(&"b".to_string(), &"c".to_string());
    assert_eq!(subset, Found(vec!["b".to_string(), "c".to_string()]));
}

#[test]
fn tests_test_range_get_subset_partial() {
    let mut storage = string_store();
    storage.add_range(vec!["a".to_string(), "b".to_string(), "c".to_string()]).unwrap();
    assert_eq!(storage.len(), 1);
    assert_eq!(storage.total_len(), 3);
    let subset = storage.get_range(&"c".to_string(), &"f".to_string());
    assert_eq!(subset, Partial(vec!["c".to_string()]));
}

#[test]
fn tests_test_range_get_subset_spans_two_ranges() {
    let mut storage = string_store();
    storage.add_range(vec!["a".to_string(), "b".to_string(), "c".to_string()]).unwrap();
    storage.add_range(vec!["d".to_string(), "e".to_string(), "f".to_string()]).unwrap();
    assert_eq!(storage.len(), 2);
    assert_eq!(storage.total_len(), 6);
    let subset = storage.get_range(&"b".to_string(), &"e".to_string());
    assert_eq!(
        subset,
        SpansMultiple(vec!["b".to_string(), "c".to_string(), "d".to_string(), "e".to_string()])
    );
}

#[test]
fn add_range_rejects_empty_input() {
    let mut storage = int_store();
    let r = storage.add_range(vec![]);
    assert_eq!(r, Err(fq_data_broker::DataError::Range));
    assert_eq!(storage.len(), 0);
    assert_eq!(storage.total_len(), 0);
}

#[test]
fn add_range_deduplicates_points() {
    let mut storage = int_store();
    storage.add_range(vec![2, 1, 2, 3, 1]).unwrap();
    assert_eq!(storage.len(), 1);
    assert_eq!(storage.total_len(), 3);
    assert_eq!(storage.get_range(&1, &3), Found(vec![1, 2, 3]));
}

#[test]
fn touching_ranges_merge() {
    let mut storage = int_store();
    storage.add_range(vec![1, 2]).unwrap();
    storage.add_range(vec![2, 3]).unwrap();
    assert_eq!(storage.len(), 1);
    assert_eq!(storage.total_len(), 3);
}

#[test]
fn query_misses_disjoint_ranges() {
    let mut storage = int_store();
    storage.add_range(vec![1, 2, 3]).unwrap();
    storage.add_range(vec![10, 11]).unwrap();
    let miss = storage.query(&5, &8);
    assert_eq!(miss, fq_data_broker::range_store::RangeDataGetResult::NotFound);
}
