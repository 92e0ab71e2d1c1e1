use stratum::graph::causal::CausalGraph;
use stratum::index::temporal::TemporalIndex;
use stratum::query::executor::{
    assemble, fetch_by_ids, filter_schema, filter_tag, intersect_record_sets, order_records, paginate,
    resolve_clause, resolve_clauses, ClauseSource,
};
use stratum::query::parser::{parse, Clause, OrderDir, TimeRef};
use stratum::record::{Record, RecordBuilder};
use stratum::storage::engine::StorageEngine;

fn rec(schema: &str, ts: i64, tag: Option<(&str, &str)>) -> Record {
    let mut b = RecordBuilder::new().schema(schema).timestamp(ts);
    if let Some((k, v)) = tag {
        b = b.tag(k, v);
    }
    b.build().unwrap()
}

fn stamps(rs: &[Record]) -> Vec<i64> {
    rs.iter().map(|r| r.timestamp).collect()
}

#[test]
fn schema_filter_keeps_matching_records_in_order() {
    let rs = vec![rec("payment.v1", 1, None), rec("audit.v1", 2, None), rec("payment.v1", 3, None)];
    let out = filter_schema(rs, "payment.v1");
    assert_eq!(stamps(&out), vec![1, 3]);
}

#[test]
fn tag_filter_uses_the_value_of_the_key() {
    let rs = vec![
        rec("e.v1", 1, Some(("env", "production"))),
        rec("e.v1", 2, Some(("env", "staging"))),
        rec("e.v1", 3, None),
        rec("e.v1", 4, Some(("env", "production"))),
    ];
    let out = filter_tag(rs, "env", "production");
    assert_eq!(stamps(&out), vec![1, 4]);
}

#[test]
fn intersection_keeps_first_set_order() {
    let a = rec("s", 1, None);
    let b = rec("s", 2, None);
    let c = rec("s", 3, None);
    let first = vec![c.clone(), a.clone(), b.clone()];
    let second = vec![a.clone(), c.clone()];
    let out = intersect_record_sets(vec![first, second]);
    assert_eq!(stamps(&out), vec![3, 1]);
    assert!(intersect_record_sets(Vec::new()).is_empty());
}

#[test]
fn time_orders_are_stable() {
    let rs = vec![rec("a", 2, None), rec("b", 1, None), rec("c", 2, None), rec("d", 0, None)];
    let asc = order_records(rs.iter().map(|r| r.clone()).collect(), OrderDir::TimeAsc);
    let names: Vec<_> = asc.iter().map(|r| r.schema.clone()).collect();
    assert_eq!(names, vec!["d", "b", "a", "c"]);
    let desc = order_records(rs.iter().map(|r| r.clone()).collect(), OrderDir::TimeDesc);
    let names: Vec<_> = desc.iter().map(|r| r.schema.clone()).collect();
    assert_eq!(names, vec!["a", "c", "b", "d"]);
    let kept = order_records(rs, OrderDir::RelevanceDesc);
    assert_eq!(stamps(&kept), vec![2, 1, 2, 0]);
}

#[test]
fn paging_skips_then_limits() {
    let rs: Vec<Record> = (0..10).map(|i| rec("s", i, None)).collect();
    let out = paginate(rs, 3, 4);
    assert_eq!(stamps(&out), vec![3, 4, 5, 6]);
    let rs: Vec<Record> = (0..3).map(|i| rec("s", i, None)).collect();
    assert!(paginate(rs, 5, 4).is_empty());
}

#[test]
fn limit_is_applied_after_filtering() {
    let rs: Vec<Record> = (0..20).map(|i| rec("e.v1", i, None)).collect();
    let q = parse("FIND records WHERE schema = \"e.v1\" LIMIT 7").unwrap();
    let out = assemble(vec![filter_schema(rs, "e.v1")], q.order, q.offset, q.limit);
    assert_eq!(out.len(), 7);
    assert_eq!(stamps(&out), vec![19, 18, 17, 16, 15, 14, 13]);
}

#[test]
fn assemble_intersects_orders_and_pages() {
    let a = rec("s", 5, None);
    let b = rec("s", 1, None);
    let c = rec("s", 3, None);
    let first = vec![a.clone(), b.clone(), c.clone()];
    let second = vec![c.clone(), a.clone()];
    let out = assemble(vec![first, second], OrderDir::TimeAsc, 0, 10);
    assert_eq!(stamps(&out), vec![3, 5]);
}

fn id(n: u8) -> [u8; 32] {
    let mut x = [0u8; 32];
    x[0] = n;
    x
}

#[test]
fn clauses_resolve_against_the_indexes() {
    let mut t = TemporalIndex::new();
    let mut g = CausalGraph::new();
    for i in 0..5u8 {
        t.insert(i as i64 * 10, id(i));
    }
    g.add_edge(id(0), id(1));
    g.add_edge(id(1), id(2));
    match resolve_clause(Clause::TimeRange { from: TimeRef::Nanos(10), to: TimeRef::Nanos(30) }, &t, &g, 0) {
        ClauseSource::Ids(ids) => assert_eq!(ids, vec![id(1), id(2), id(3)]),
        _ => panic!("expected ids"),
    }
    match resolve_clause(Clause::TimeBefore(TimeRef::NowMinus(5)), &t, &g, 30) {
        ClauseSource::Ids(ids) => assert_eq!(ids, vec![id(2), id(1), id(0)]),
        _ => panic!("expected ids"),
    }
    match resolve_clause(Clause::TimeAfter(TimeRef::Now), &t, &g, 30) {
        ClauseSource::Ids(ids) => assert_eq!(ids, vec![id(4)]),
        _ => panic!("expected ids"),
    }
    match resolve_clause(Clause::CausedBy { id: id(0), depth: 5 }, &t, &g, 0) {
        ClauseSource::Ids(ids) => assert_eq!(ids, vec![id(1), id(2)]),
        _ => panic!("expected ids"),
    }
    match resolve_clause(Clause::Causes { id: id(2), depth: 1 }, &t, &g, 0) {
        ClauseSource::Ids(ids) => assert_eq!(ids, vec![id(1)]),
        _ => panic!("expected ids"),
    }
    match resolve_clause(Clause::Schema("x".to_string()), &t, &g, 0) {
        ClauseSource::Schema(s) => assert_eq!(s, "x"),
        _ => panic!("expected a schema scan"),
    }
}

#[test]
fn reversed_time_ranges_select_nothing() {
    let mut t = TemporalIndex::new();
    t.insert(30, id(1));
    let g = CausalGraph::new();
    let q = parse("FIND records WHERE time BETWEEN 50 AND 10").unwrap();
    let srcs = resolve_clauses(q.clauses, &t, &g, 0);
    assert_eq!(srcs.len(), 1);
    assert!(matches!(&srcs[0], ClauseSource::Ids(ids) if ids.is_empty()));
    let q = parse("FIND records").unwrap();
    let srcs = resolve_clauses(q.clauses, &t, &g, 0);
    assert_eq!(srcs.len(), 1);
    assert!(matches!(srcs[0], ClauseSource::All));
}

#[test]
fn fetch_skips_ids_not_stored() {
    let mut s = StorageEngine::open_memory().unwrap();
    s.put(&id(1), b"one".to_vec()).unwrap();
    s.put(&id(3), b"three".to_vec()).unwrap();
    let got = fetch_by_ids(&s, &vec![id(3), id(2), id(1)]).unwrap();
    assert_eq!(got, vec![b"three".to_vec(), b"one".to_vec()]);
}
