use stratum::query::parser::{parse, parse_hex_id, Clause, OrderDir, TimeRef};

#[test]
fn parse_time_between() {
    let q = parse("FIND records WHERE time BETWEEN \"2024-01-01T00:00:00Z\" AND \"2024-12-31T23:59:59Z\" LIMIT 50").unwrap();
    assert_eq!(q.limit, 50);
    assert!(matches!(&q.clauses[0], Clause::TimeRange { .. }));
}

#[test]
fn parse_similar_to() {
    let q = parse("FIND records WHERE similar_to embedding([0.1, 0.2, 0.3]) WITH threshold 0.8").unwrap();
    assert!(matches!(&q.clauses[0], Clause::SimilarTo { threshold, .. } if (threshold.parse::<f64>().unwrap() - 0.8).abs() < 0.01));
}

#[test]
fn parse_schema_filter() {
    let q = parse("FIND records WHERE schema = \"payment.v1\"").unwrap();
    assert!(matches!(&q.clauses[0], Clause::Schema(s) if s == "payment.v1"));
}

#[test]
fn parse_order_by_time_asc() {
    let q = parse("FIND records ORDER BY time ASC LIMIT 10").unwrap();
    assert_eq!(q.order, OrderDir::TimeAsc);
    assert_eq!(q.limit, 10);
}

#[test]
fn parse_multiple_clauses() {
    let q = parse("FIND records WHERE time AFTER \"2024-01-01T00:00:00Z\" AND schema = \"sensor.v1\" LIMIT 20").unwrap();
    assert_eq!(q.clauses.len(), 2);
}

#[test]
fn parse_invalid_query_returns_error() {
    let result = parse("SELECT * FROM records");
    assert!(result.is_err());
}

#[test]
fn defaults_of_a_bare_query() {
    let q = parse("FIND records").unwrap();
    assert!(q.clauses.is_empty());
    assert_eq!(q.order, OrderDir::TimeDesc);
    assert_eq!(q.limit, 100);
    assert_eq!(q.offset, 0);
}

#[test]
fn parse_causal_clauses_and_paging() {
    let hex = "ab".repeat(32);
    let text = format!("FIND records WHERE caused_by {} WITH depth 3 AND causes {} ORDER BY relevance LIMIT 5 OFFSET 2", hex, hex);
    let q = parse(&text).unwrap();
    assert_eq!(q.clauses.len(), 2);
    assert!(matches!(&q.clauses[0], Clause::CausedBy { id, depth: 3 } if id[0] == 0xab));
    assert!(matches!(&q.clauses[1], Clause::Causes { depth: 5, .. }));
    assert_eq!(q.order, OrderDir::RelevanceDesc);
    assert_eq!(q.limit, 5);
    assert_eq!(q.offset, 2);
}

#[test]
fn parse_tag_and_time_refs() {
    let q = parse("FIND records WHERE tag env = \"production\" AND time BEFORE NOW AND time AFTER 12345").unwrap();
    assert!(matches!(&q.clauses[0], Clause::Tag { key, value } if key == "env" && value == "production"));
    assert!(matches!(&q.clauses[1], Clause::TimeBefore(TimeRef::Now)));
    assert!(matches!(&q.clauses[2], Clause::TimeAfter(TimeRef::Nanos(12345))));
}

#[test]
fn time_refs_resolve_against_the_clock() {
    assert_eq!(TimeRef::Nanos(42).nanos_at(1000), 42);
    assert_eq!(TimeRef::Now.nanos_at(1000), 1000);
    assert_eq!(TimeRef::NowMinus(400).nanos_at(1000), 600);
    assert_eq!(TimeRef::NowMinus(1).nanos_at(i64::MIN), i64::MAX);
    assert_eq!(TimeRef::Iso("1970-01-01T00:00:01Z".to_string()).nanos_at(7), 1_000_000_000);
    assert_eq!(TimeRef::Iso("not a date".to_string()).nanos_at(7), 0);
}

#[test]
fn parse_errors_are_query_errors() {
    assert!(parse("FIND records WHERE").is_err());
    assert!(parse("FIND records WHERE schema = ").is_err());
    assert!(parse("FIND records WHERE caused_by 1234").is_err());
}

#[test]
fn hex_ids_are_read_with_white_space_trimmed() {
    let hex = format!("  {}  ", "0f".repeat(32));
    let id = parse_hex_id(&hex).unwrap();
    assert_eq!(id, [0x0f; 32]);
    assert!(parse_hex_id("0f0f").is_err());
    assert!(parse_hex_id("zz").is_err());
}

#[test]
fn keywords_are_read_in_any_case() {
    let q = parse("find Records where Schema = \"a.v1\" order by TIME asc limit 3").unwrap();
    assert!(matches!(&q.clauses[0], Clause::Schema(s) if s == "a.v1"));
    assert_eq!(q.order, OrderDir::TimeAsc);
    assert_eq!(q.limit, 3);
}

#[test]
fn to_nanos_reads_fixed_references_directly() {
    assert_eq!(TimeRef::Nanos(5).to_nanos(), 5);
    assert_eq!(TimeRef::Iso("1970-01-01T00:00:00.000000002Z".to_string()).to_nanos(), 2);
    assert!(TimeRef::Now.to_nanos() > 0);
}

#[test]
fn bare_dates_name_midnight_utc() {
    assert_eq!(TimeRef::Iso("1970-01-02".to_string()).nanos_at(7), 86_400_000_000_000);
    assert_eq!(TimeRef::Iso("2024-01-01".to_string()).nanos_at(7), 1_704_067_200_000_000_000);
}
