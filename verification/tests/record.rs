use stratum::record::{Record, RecordBuilder};
use stratum::AkashaError;
use sha2::Digest;

#[test]
fn builder_produces_deterministic_id() {
    let r1 = RecordBuilder::new()
        .schema("test.v1")
        .data("{\"x\":1}")
        .timestamp(1_000_000)
        .build()
        .unwrap();
    let r2 = RecordBuilder::new()
        .schema("test.v1")
        .data("{\"x\":1}")
        .timestamp(1_000_000)
        .build()
        .unwrap();
    assert_eq!(r1.id, r2.id);
}

#[test]
fn different_data_produces_different_id() {
    let r1 = RecordBuilder::new()
        .schema("test.v1")
        .data("{\"x\":1}")
        .timestamp(1_000_000)
        .build()
        .unwrap();
    let r2 = RecordBuilder::new()
        .schema("test.v1")
        .data("{\"x\":2}")
        .timestamp(1_000_000)
        .build()
        .unwrap();
    assert_ne!(r1.id, r2.id);
}

#[test]
fn id_hex_is_64_chars() {
    let r = RecordBuilder::new().build().unwrap();
    assert_eq!(r.id_hex().len(), 64);
}

#[test]
fn builder_validates_empty_schema() {
    let result = RecordBuilder::new().schema("").build();
    assert!(result.is_err());
}

#[test]
fn empty_schema_is_an_invalid_record() {
    match RecordBuilder::new().schema("").timestamp(5).build() {
        Err(AkashaError::InvalidRecord(m)) => assert_eq!(m, "schema must not be empty"),
        _ => panic!("expected an invalid record"),
    }
}

#[test]
fn id_is_the_sha256_of_schema_timestamp_and_data() {
    // sha256("a" ++ 1u64 little-endian ++ "null")
    let id = Record::compute_id("a", "null", 1);
    let mut bytes = b"a".to_vec();
    bytes.extend_from_slice(&1i64.to_le_bytes());
    bytes.extend_from_slice(b"null");
    let expected: [u8; 32] = sha2::Sha256::digest(&bytes).into();
    assert_eq!(id, expected);
    let r = RecordBuilder::new().schema("a").data("null").timestamp(1).build().unwrap();
    assert_eq!(r.id, id);
    assert_eq!(r.id_hex(), stratum::hex::encode(&id));
    assert_ne!(Record::compute_id("a", "null", 2), id);
    assert_ne!(Record::compute_id("b", "null", 1), id);
}

#[test]
fn builder_keeps_what_it_is_given() {
    let cause = [7u8; 32];
    let r = RecordBuilder::default()
        .schema("payment.v1")
        .data("[1,2]")
        .timestamp(-5)
        .embedding(vec![1.5f32.to_bits(), 2.0f32.to_bits()])
        .caused_by(vec![cause])
        .tag("env", "prod")
        .tag("env", "staging")
        .tag("team", "core")
        .build()
        .unwrap();
    assert_eq!(r.schema, "payment.v1");
    assert_eq!(r.data, "[1,2]");
    assert_eq!(r.timestamp, -5);
    assert_eq!(r.embedding, Some(vec![1.5f32.to_bits(), 2.0f32.to_bits()]));
    assert_eq!(r.causes, vec![cause]);
    let env: Vec<_> = r.metadata.iter().filter(|(k, _)| k == "env").collect();
    assert_eq!(env.len(), 1);
    assert_eq!(env[0].1, "staging");
    assert_eq!(r.metadata.len(), 2);
}

#[test]
fn at_sets_or_clears_the_timestamp() {
    let r = RecordBuilder::new().at(Some(99)).build().unwrap();
    assert_eq!(r.timestamp, 99);
    let later = RecordBuilder::new().timestamp(5).at(None).build().unwrap();
    assert!(later.timestamp > 5);
}

#[test]
fn default_builder_values() {
    let r = RecordBuilder::new().timestamp(0).build().unwrap();
    assert_eq!(r.schema, "default.v1");
    assert_eq!(r.data, "null");
    assert!(r.embedding.is_none());
    assert!(r.causes.is_empty());
    assert!(r.metadata.is_empty());
}

#[test]
fn logical_parts_split_seconds_and_nanoseconds() {
    let r = RecordBuilder::new().timestamp(1_500_000_000).build().unwrap();
    assert_eq!(r.logical_parts(), (1, 500_000_000));
    let neg = RecordBuilder::new().timestamp(-1).build().unwrap();
    assert_eq!(neg.logical_parts(), (-1, 999_999_999));
    let before = RecordBuilder::new().timestamp(-1_500_000_000).build().unwrap();
    assert_eq!(before.logical_parts(), (-2, 500_000_000));
}
