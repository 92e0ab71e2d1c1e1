use vstd::prelude::*;
use dashmap::DashMap;
use crate::record::RecordId;

verus! {

/// The concurrent hash map of the `dashmap` crate, carried opaquely.
#[verifier::external_type_specification]
#[verifier::external_body]
#[verifier::reject_recursive_types(K)]
#[verifier::reject_recursive_types(V)]
#[verifier::reject_recursive_types(S)]
pub struct ExDashMap<K, V, S>(DashMap<K, V, S>);

/// A map from record ids to timestamps.
pub type StampMap = DashMap<RecordId, i64>;

/// What a `DashMap` from record ids to timestamps holds.
pub uninterp spec fn stamp_map_contents(m: StampMap) -> Map<RecordId, i64>;

/// `DashMap::new`: an empty map.
#[verifier::external_body]
pub(crate) fn stamp_map_new() -> (m: StampMap)
    ensures
        stamp_map_contents(m).is_empty(),
        stamp_map_contents(m).dom().finite(),
{
    DashMap::new()
}

/// `DashMap::insert`: binds `k` to `v`, returning the value it replaced.
#[verifier::external_body]
pub(crate) fn stamp_map_insert(m: &mut StampMap, k: RecordId, v: i64) -> (r: Option<i64>)
    ensures
        stamp_map_contents(*final(m)) == stamp_map_contents(*old(m)).insert(k, v),
        r == (if stamp_map_contents(*old(m)).contains_key(k) { Some(stamp_map_contents(*old(m))[k]) } else { None }),
{
    m.insert(k, v)
}

/// `DashMap::get` followed by a copy of the value: the timestamp bound to
/// `k`, if any.
#[verifier::external_body]
pub(crate) fn stamp_map_get(m: &StampMap, k: &RecordId) -> (r: Option<i64>)
    ensures
        r == (if stamp_map_contents(*m).contains_key(*k) { Some(stamp_map_contents(*m)[*k]) } else { None }),
{
    m.get(k).map(|v| *v)
}

/// `DashMap::remove`: unbinds `k`, returning the value it was bound to.
#[verifier::external_body]
pub(crate) fn stamp_map_remove(m: &mut StampMap, k: &RecordId) -> (r: Option<i64>)
    ensures
        stamp_map_contents(*final(m)) == stamp_map_contents(*old(m)).remove(*k),
        r == (if stamp_map_contents(*old(m)).contains_key(*k) { Some(stamp_map_contents(*old(m))[*k]) } else { None }),
{
    m.remove(k).map(|(_, v)| v)
}

/// A map from record ids to lists of record ids.
pub type AdjMap = DashMap<RecordId, Vec<RecordId>>;

/// What a `DashMap` from record ids to id lists holds.
pub uninterp spec fn adj_contents(m: AdjMap) -> Map<RecordId, Seq<RecordId>>;

/// `DashMap::new`: an empty map.
#[verifier::external_body]
pub(crate) fn adj_new() -> (m: AdjMap)
    ensures
        adj_contents(m).is_empty(),
        adj_contents(m).dom().finite(),
{
    DashMap::new()
}

/// `m.entry(k).or_default()`: binds `k` to an empty list unless it is bound.
#[verifier::external_body]
pub(crate) fn adj_ensure(m: &mut AdjMap, k: RecordId)
    ensures
        adj_contents(*final(m)) == (if adj_contents(*old(m)).contains_key(k) {
            adj_contents(*old(m))
        } else {
            adj_contents(*old(m)).insert(k, Seq::empty())
        }),
{
    m.entry(k).or_default();
}

/// `m.entry(k).or_default().push(x)`: appends `x` to the list of `k`,
/// which starts empty when `k` is not bound.
#[verifier::external_body]
pub(crate) fn adj_append(m: &mut AdjMap, k: RecordId, x: RecordId)
    ensures
        adj_contents(*final(m)) == adj_contents(*old(m)).insert(k,
            (if adj_contents(*old(m)).contains_key(k) { adj_contents(*old(m))[k] } else { Seq::empty() }).push(x)),
{
    m.entry(k).or_default().push(x);
}

/// `m.get(k).map(|v| v.clone()).unwrap_or_default()`: a copy of the list of
/// `k`, empty when `k` is not bound.
#[verifier::external_body]
pub(crate) fn adj_get(m: &AdjMap, k: &RecordId) -> (r: Vec<RecordId>)
    ensures
        r@ == (if adj_contents(*m).contains_key(*k) { adj_contents(*m)[*k] } else { Seq::empty() }),
{
    match m.get(k) {
        Some(v) => v.clone(),
        None => Vec::new(),
    }
}

/// The keys of `m`, as `m.iter()` walks them. The order depends on the
/// hashing of the map and is left unsaid; each key comes once.
#[verifier::external_body]
pub(crate) fn adj_keys(m: &AdjMap) -> (r: Vec<RecordId>)
    ensures
        r@.no_duplicates(),
        r@.to_set() == adj_contents(*m).dom(),
{
    m.iter().map(|e| *e.key()).collect()
}

/// `DashMap::contains_key`: whether `k` is bound.
#[verifier::external_body]
pub(crate) fn adj_contains(m: &AdjMap, k: &RecordId) -> (r: bool)
    ensures
        r == adj_contents(*m).contains_key(*k),
{
    m.contains_key(k)
}

} // verus!
