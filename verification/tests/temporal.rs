use stratum::index::temporal::TemporalIndex;
use stratum::RecordId;

fn make_id(n: u8) -> RecordId {
    let mut id = [0u8; 32];
    id[0] = n;
    id
}

#[test]
fn range_query_returns_correct_records() {
    let mut idx = TemporalIndex::new();
    for i in 0..10i64 {
        idx.insert(i * 1000, make_id(i as u8));
    }
    let results = idx.range(2000, 5000, 100);
    assert_eq!(results.len(), 4); // ts 2000,3000,4000,5000
}

#[test]
fn limit_is_respected() {
    let mut idx = TemporalIndex::new();
    for i in 0..100i64 {
        idx.insert(i, make_id(i as u8));
    }
    let results = idx.range(0, 100, 10);
    assert_eq!(results.len(), 10);
}

#[test]
fn before_returns_reverse_ordered_results() {
    let mut idx = TemporalIndex::new();
    for i in 0..5i64 {
        idx.insert(i * 100, make_id(i as u8));
    }
    let results = idx.before(300, 2);
    // Should return ts=200, ts=100 (most recent first)
    assert_eq!(results.len(), 2);
}

#[test]
fn remove_cleans_up_correctly() {
    let mut idx = TemporalIndex::new();
    let id = make_id(1);
    idx.insert(1000, id);
    assert_eq!(idx.range(0, 2000, 100).len(), 1);
    idx.remove(&id);
    assert_eq!(idx.range(0, 2000, 100).len(), 0);
}

#[test]
fn results_follow_time_then_insertion_order() {
    let mut idx = TemporalIndex::new();
    idx.insert(300, make_id(3));
    idx.insert(100, make_id(1));
    idx.insert(200, make_id(2));
    idx.insert(100, make_id(4));
    assert_eq!(idx.range(0, 1000, 100), vec![make_id(1), make_id(4), make_id(2), make_id(3)]);
    assert_eq!(idx.after(200, 100), vec![make_id(3)]);
    assert_eq!(idx.after(199, 100), vec![make_id(2), make_id(3)]);
    assert_eq!(idx.before(300, 100), vec![make_id(2), make_id(1), make_id(4)]);
    assert_eq!(idx.before(100, 100), Vec::<RecordId>::new());
    assert_eq!(idx.len(), 3);
    assert!(!idx.is_empty());
}

#[test]
fn inserted_id_is_found_by_enclosing_ranges() {
    let mut idx = TemporalIndex::new();
    idx.insert(10, make_id(1));
    idx.insert(50, make_id(2));
    for from in 0..60i64 {
        for to in from..60i64 {
            let found = idx.range(from, to, usize::MAX).contains(&make_id(2));
            assert_eq!(found, from <= 50 && 50 <= to);
        }
    }
}

#[test]
fn remove_undoes_insert() {
    let mut idx = TemporalIndex::new();
    idx.insert(10, make_id(1));
    idx.insert(20, make_id(2));
    let before = idx.range(0, 100, 100);
    let len_before = idx.len();
    idx.insert(20, make_id(9));
    assert_eq!(idx.timestamp_of(&make_id(9)), Some(20));
    idx.remove(&make_id(9));
    assert_eq!(idx.range(0, 100, 100), before);
    assert_eq!(idx.len(), len_before);
    assert_eq!(idx.timestamp_of(&make_id(9)), None);
}

#[test]
fn removing_the_last_id_of_a_timestamp_drops_it() {
    let mut idx = TemporalIndex::default();
    assert!(idx.is_empty());
    idx.insert(5, make_id(1));
    assert_eq!(idx.len(), 1);
    idx.remove(&make_id(1));
    assert_eq!(idx.len(), 0);
    idx.remove(&make_id(1)); // not indexed: nothing happens
    assert!(idx.is_empty());
}

#[test]
fn extreme_timestamps() {
    let mut idx = TemporalIndex::new();
    idx.insert(i64::MIN, make_id(1));
    idx.insert(i64::MAX, make_id(2));
    assert_eq!(idx.range(i64::MIN, i64::MAX, usize::MAX), vec![make_id(1), make_id(2)]);
    assert_eq!(idx.after(i64::MAX, 5), Vec::<RecordId>::new());
    assert_eq!(idx.after(i64::MIN, 5), vec![make_id(2)]);
    assert_eq!(idx.before(i64::MIN, 5), Vec::<RecordId>::new());
    assert_eq!(idx.range(0, 0, 5), Vec::<RecordId>::new());
}

#[test]
fn after_excludes_its_bound_as_before_does() {
    let mut idx = TemporalIndex::new();
    idx.insert(100, make_id(1));
    idx.insert(200, make_id(2));
    assert_eq!(idx.after(100, 10), vec![make_id(2)]);
    assert_eq!(idx.before(200, 10), vec![make_id(1)]);
}

#[test]
fn reversed_ranges_are_empty() {
    let mut idx = TemporalIndex::new();
    idx.insert(4, make_id(1));
    assert_eq!(idx.range(5, 3, 10), Vec::<RecordId>::new());
    assert_eq!(idx.range(i64::MAX, i64::MIN, 10), Vec::<RecordId>::new());
}

#[test]
fn remove_takes_the_id_out_of_every_timestamp() {
    let mut idx = TemporalIndex::new();
    idx.insert(10, make_id(1));
    idx.insert(10, make_id(2));
    idx.insert(20, make_id(1));
    idx.insert(30, make_id(1));
    idx.remove(&make_id(1));
    assert_eq!(idx.range(0, 100, 100), vec![make_id(2)]);
    assert_eq!(idx.len(), 1);
    assert_eq!(idx.timestamp_of(&make_id(1)), None);
    assert_eq!(idx.timestamp_of(&make_id(2)), Some(10));
}
