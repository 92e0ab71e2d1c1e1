use stratum::record::{Record, RecordBuilder};
use stratum::storage::engine::StorageEngine;

fn make_engine() -> StorageEngine {
    StorageEngine::open_memory().unwrap()
}

/// A small JSON encoding of a record, enough for these tests.
fn encode(r: &Record) -> Vec<u8> {
    let mut m = serde_json::Map::new();
    m.insert("id".to_string(), serde_json::Value::String(r.id_hex()));
    m.insert("schema".to_string(), serde_json::Value::String(r.schema.clone()));
    m.insert("timestamp".to_string(), serde_json::Value::from(r.timestamp));
    m.insert("data".to_string(), serde_json::from_str(&r.data).unwrap());
    serde_json::to_vec(&serde_json::Value::Object(m)).unwrap()
}

fn field(bytes: &[u8], name: &str) -> serde_json::Value {
    let v: serde_json::Value = serde_json::from_slice(bytes).unwrap();
    v[name].clone()
}

#[test]
fn put_and_get_roundtrip() {
    let mut engine = make_engine();
    let record = RecordBuilder::new()
        .schema("test.v1")
        .data("{\"hello\":\"world\"}")
        .build()
        .unwrap();
    let id = record.id;
    engine.put(&id, encode(&record)).unwrap();
    let retrieved = engine.get(&id).unwrap().unwrap();
    assert_eq!(field(&retrieved, "id"), serde_json::Value::String(stratum::hex::encode(&id)));
    assert_eq!(field(&retrieved, "schema"), "test.v1");
}

#[test]
fn get_missing_returns_none() {
    let engine = make_engine();
    let id = [0u8; 32];
    assert!(engine.get(&id).unwrap().is_none());
}

#[test]
fn put_is_idempotent() {
    let mut engine = make_engine();
    let record = RecordBuilder::new().build().unwrap();
    let first = engine.put(&record.id, encode(&record)).unwrap();
    let second = engine.put(&record.id, encode(&record)).unwrap();
    assert!(first);
    assert!(!second);
    assert_eq!(engine.count(), 1);
}

#[test]
fn scan_all_returns_all_records() {
    let mut engine = make_engine();
    for i in 0..10u64 {
        let record = RecordBuilder::new()
            .schema("test.v1")
            .data(&format!("{{\"i\":{}}}", i))
            .timestamp(i as i64)
            .build()
            .unwrap();
        engine.put(&record.id, encode(&record)).unwrap();
    }
    let all: Vec<_> = engine.scan_all().unwrap();
    assert_eq!(all.len(), 10);
}

#[test]
fn delete_removes_record() {
    let mut engine = make_engine();
    let record = RecordBuilder::new().build().unwrap();
    let id = record.id;
    engine.put(&id, encode(&record)).unwrap();
    assert!(engine.delete(&id).unwrap());
    assert!(engine.get(&id).unwrap().is_none());
    assert!(!engine.delete(&id).unwrap());
}

#[test]
fn a_second_put_keeps_the_first_value() {
    let mut engine = make_engine();
    let id = [3u8; 32];
    assert!(engine.put(&id, b"first".to_vec()).unwrap());
    assert!(!engine.put(&id, b"second".to_vec()).unwrap());
    assert_eq!(engine.get(&id).unwrap(), Some(b"first".to_vec()));
}

#[test]
fn delete_undoes_put() {
    let mut engine = make_engine();
    let id = [4u8; 32];
    assert!(engine.put(&id, b"x".to_vec()).unwrap());
    assert!(engine.delete(&id).unwrap());
    assert_eq!(engine.count(), 0);
    assert!(engine.put(&id, b"y".to_vec()).unwrap());
    assert_eq!(engine.get(&id).unwrap(), Some(b"y".to_vec()));
}

#[test]
fn flush_and_size() {
    let engine = make_engine();
    engine.flush().unwrap();
    assert!(engine.size_on_disk().is_ok());
}

#[test]
fn scan_all_lists_records_in_id_order() {
    let mut engine = make_engine();
    engine.put(&[9u8; 32], b"nine".to_vec()).unwrap();
    engine.put(&[1u8; 32], b"one".to_vec()).unwrap();
    engine.put(&[5u8; 32], b"five".to_vec()).unwrap();
    assert_eq!(engine.scan_all().unwrap(), vec![b"one".to_vec(), b"five".to_vec(), b"nine".to_vec()]);
    assert_eq!(engine.count(), 3);
}

#[test]
fn readable_values_skips_failed_reads() {
    let entries = vec![Some((vec![1u8], vec![10u8])), None, Some((vec![2u8], vec![20u8]))];
    assert_eq!(stratum::storage::engine::readable_values(&entries), vec![vec![10u8], vec![20u8]]);
}

#[test]
fn a_fresh_store_is_empty() {
    let engine = make_engine();
    assert_eq!(engine.count(), 0);
    assert!(engine.scan_all().unwrap().is_empty());
}
