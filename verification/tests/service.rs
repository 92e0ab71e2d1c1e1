use stratum::api::{parse_id_hex, record_from_request, IdTextError, InsertRejection, InsertRequest};
use stratum::db::index_record;
use stratum::graph::causal::CausalGraph;
use stratum::index::temporal::TemporalIndex;
use stratum::storage::engine::StorageEngine;
use stratum::{AkashaError, DbStats};

fn request(schema: &str) -> InsertRequest {
    InsertRequest {
        schema: schema.to_string(),
        data: "{\"a\":1}".to_string(),
        timestamp: Some(42),
        embedding: None,
        causes: None,
        metadata: None,
    }
}

#[test]
fn ids_are_read_from_hex() {
    let hex = "1f".repeat(32);
    assert_eq!(parse_id_hex(&hex), Ok([0x1f; 32]));
    assert_eq!(parse_id_hex("1f1"), Err(IdTextError::InvalidHex));
    assert_eq!(parse_id_hex("zz"), Err(IdTextError::InvalidHex));
    assert_eq!(parse_id_hex("1f1f"), Err(IdTextError::WrongLength));
    assert_eq!(parse_id_hex(&"AB".repeat(32)), Ok([0xab; 32]));
}

#[test]
fn insert_request_builds_the_record() {
    let mut req = request("test.v1");
    req.causes = Some(vec!["01".repeat(32)]);
    req.metadata = Some(vec![("k".to_string(), "v".to_string()), ("k".to_string(), "w".to_string())]);
    req.embedding = Some(vec![0.5f32.to_bits()]);
    let rec = record_from_request(req).unwrap();
    assert_eq!(rec.schema, "test.v1");
    assert_eq!(rec.timestamp, 42);
    assert_eq!(rec.causes, vec![[1u8; 32]]);
    assert_eq!(rec.metadata, vec![("k".to_string(), "w".to_string())]);
    assert_eq!(rec.embedding, Some(vec![0.5f32.to_bits()]));
    assert_eq!(rec.id, stratum::record::Record::compute_id("test.v1", "{\"a\":1}", 42));
}

#[test]
fn a_bad_cause_refuses_the_request() {
    let mut req = request("");
    req.causes = Some(vec!["02".repeat(32), "nothex".to_string(), "12".to_string()]);
    match record_from_request(req) {
        Err(InsertRejection::InvalidCause(t)) => assert_eq!(t, "nothex"),
        _ => panic!("expected an invalid cause"),
    }
}

#[test]
fn an_empty_schema_refuses_the_request() {
    match record_from_request(request("")) {
        Err(InsertRejection::Invalid(AkashaError::InvalidRecord(_))) => {}
        _ => panic!("expected an invalid record"),
    }
}

#[test]
fn indexing_a_record_updates_both_indexes() {
    let mut t = TemporalIndex::new();
    let mut g = CausalGraph::new();
    let a = [1u8; 32];
    let b = [2u8; 32];
    index_record(&mut t, &mut g, a, 10, &vec![]);
    index_record(&mut t, &mut g, b, 20, &vec![a]);
    assert_eq!(t.range(0, 100, 10), vec![a, b]);
    assert_eq!(g.descendants(&a, 5), vec![b]);
    assert_eq!(g.ancestors(&b, 5), vec![a]);
    assert_eq!(g.edge_count(), 1);
    assert_eq!(g.roots(), vec![a]);
    let s = StorageEngine::open_memory().unwrap();
    let stats = DbStats::collect(&s, &t, &g, 3);
    assert_eq!(stats.temporal_entries, 2);
    assert_eq!(stats.semantic_vectors, 3);
    assert_eq!(stats.causal_edges, 1);
    assert_eq!(stats.total_records, 0);
}

#[test]
fn storing_twice_changes_nothing_the_second_time() {
    let mut s = StorageEngine::open_memory().unwrap();
    let mut t = TemporalIndex::new();
    let mut g = CausalGraph::new();
    let id = [5u8; 32];
    let cause = [6u8; 32];
    assert!(stratum::db::store_record(&mut s, &mut t, &mut g, id, 7, &vec![cause], b"r".to_vec()).unwrap());
    assert!(!stratum::db::store_record(&mut s, &mut t, &mut g, id, 7, &vec![cause], b"r".to_vec()).unwrap());
    assert_eq!(s.count(), 1);
    assert_eq!(t.range(0, 10, 10), vec![id]);
    assert_eq!(g.edge_count(), 1);
    let stats = DbStats::collect(&s, &t, &g, 0);
    assert_eq!(stats.total_records, 1);
}

#[test]
fn time_windows_default_and_refuse_reversal() {
    let mut t = TemporalIndex::new();
    t.insert(-5, [1u8; 32]);
    t.insert(5, [2u8; 32]);
    assert_eq!(stratum::db::ids_in_window(&t, None, None, 10), vec![[2u8; 32]]);
    assert_eq!(stratum::db::ids_in_window(&t, Some(-10), Some(10), 1), vec![[1u8; 32]]);
    assert_eq!(stratum::db::ids_in_window(&t, Some(10), Some(0), 10), Vec::<[u8; 32]>::new());
}

#[test]
fn search_windows_read_texts_and_defaults() {
    assert_eq!(stratum::api::search_window(None, None, None, 77), (0, 77, 100));
    assert_eq!(stratum::api::search_window(Some("1970-01-01T00:00:01Z"), Some("junk"), Some(5), 77), (1_000_000_000, 77, 5));
    assert_eq!(stratum::api::search_window(Some("junk"), Some("1970-01-01T00:00:02Z"), None, 77), (0, 2_000_000_000, 100));
}

#[test]
fn rebuilding_indexes_records_in_turn() {
    let mut t = TemporalIndex::new();
    let mut g = CausalGraph::new();
    let a = [1u8; 32];
    let b = [2u8; 32];
    let c = [3u8; 32];
    let entries = vec![(a, 30, vec![]), (b, 10, vec![a]), (c, 20, vec![a, b])];
    stratum::db::index_records(&mut t, &mut g, &entries);
    assert_eq!(t.range(0, 100, 10), vec![b, c, a]);
    assert_eq!(g.effects_of(&a), vec![b, c]);
    assert_eq!(g.causes_of(&c), vec![a, b]);
    assert_eq!(g.edge_count(), 3);
    stratum::db::index_records(&mut t, &mut g, &vec![]);
    assert_eq!(t.len(), 3);
}

#[test]
fn a_store_reopened_at_its_path_finds_its_records() {
    let path = "/tmp/stratum-reopen-test";
    {
        let mut s = StorageEngine::open(path).unwrap();
        s.put(&[9u8; 32], b"kept".to_vec()).unwrap();
        s.flush().unwrap();
    }
    let s = StorageEngine::open(path).unwrap();
    assert_eq!(s.get(&[9u8; 32]).unwrap(), Some(b"kept".to_vec()));
}
