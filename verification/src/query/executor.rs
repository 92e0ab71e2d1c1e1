//! Carrying out a parsed query: each clause names the records it selects,
//! the selections are intersected, ordered by time and paged.

use vstd::prelude::*;
use crate::record::{Record, RecordId, meta_get, ids_equal};
use crate::query::parser::{OrderDir, Clause, AqslQuery, time_ref_nanos};
use crate::index::temporal::{TemporalIndex, Group, first_n, range_ids, after_ids, before_ids};
use crate::graph::causal::{CausalGraph, Adjacency, reached_set, by_distance};
use crate::storage::engine::{StorageEngine, lookup};
use crate::error::AkashaError;

verus! {

/// The records of `s` whose schema is `schema`, in order.
pub open spec fn with_schema(s: Seq<Record>, schema: Seq<char>) -> Seq<Record>
    decreases s.len(),
{
    if s.len() == 0 {
        Seq::empty()
    } else if s.last().schema@ == schema {
        with_schema(s.drop_last(), schema).push(s.last())
    } else {
        with_schema(s.drop_last(), schema)
    }
}

/// The records of `records` whose schema is `schema`, in order.
pub fn filter_schema(records: Vec<Record>, schema: &str) -> (r: Vec<Record>)
    ensures
        r@ == with_schema(records@, schema@),
{
    let ghost all = records@;
    let target = schema.to_owned();
    let mut out: Vec<Record> = Vec::new();
    proof {
        assert(all.take(0) =~= Seq::<Record>::empty());
    }
    for rec in it: records.into_iter()
        invariant
            it.seq() == all,
            target@ == schema@,
            out@ == with_schema(all.take(it.index() as int), schema@),
    {
        proof {
            let t = all.take(it.index() + 1);
            assert(t.drop_last() =~= all.take(it.index() as int));
            assert(t.last() == rec);
        }
        if rec.schema == target {
            out.push(rec);
        }
    }
    proof {
        assert(all.take(all.len() as int) =~= all);
    }
    out
}


/// The records of `s` whose metadata binds `key` to `value`, in order.
pub open spec fn with_tag(s: Seq<Record>, key: Seq<char>, value: Seq<char>) -> Seq<Record>
    decreases s.len(),
{
    if s.len() == 0 {
        Seq::empty()
    } else if meta_get(s.last().metadata@, key) == Some(value) {
        with_tag(s.drop_last(), key, value).push(s.last())
    } else {
        with_tag(s.drop_last(), key, value)
    }
}

/// The value bound to `key` in `m` (its last binding).
fn meta_value<'a>(m: &'a Vec<(String, String)>, key: &String) -> (r: Option<&'a String>)
    ensures
        match meta_get(m@, key@) {
            Some(v) => r matches Some(s) && s@ == v,
            None => r is None,
        },
{
    let mut i = m.len();
    proof {
        assert(m@.take(i as int) =~= m@);
    }
    while i > 0
        invariant
            i <= m.len(),
            meta_get(m@, key@) == meta_get(m@.take(i as int), key@),
        decreases i,
    {
        proof {
            let t = m@.take(i as int);
            assert(t.drop_last() =~= m@.take(i - 1));
            assert(t.last() == m@[i - 1]);
        }
        if m[i - 1].0 == *key {
            return Some(&m[i - 1].1);
        }
        i = i - 1;
    }
    proof {
        assert(m@.take(0) =~= Seq::<(String, String)>::empty());
    }
    None
}

/// The records of `records` whose metadata binds `key` to `value`, in order.
pub fn filter_tag(records: Vec<Record>, key: &str, value: &str) -> (r: Vec<Record>)
    ensures
        r@ == with_tag(records@, key@, value@),
{
    let ghost all = records@;
    let k = key.to_owned();
    let v = value.to_owned();
    let mut out: Vec<Record> = Vec::new();
    proof {
        assert(all.take(0) =~= Seq::<Record>::empty());
    }
    for rec in it: records.into_iter()
        invariant
            it.seq() == all,
            k@ == key@,
            v@ == value@,
            out@ == with_tag(all.take(it.index() as int), key@, value@),
    {
        proof {
            let t = all.take(it.index() + 1);
            assert(t.drop_last() =~= all.take(it.index() as int));
            assert(t.last() == rec);
        }
        let keep = match meta_value(&rec.metadata, &k) {
            Some(found) => *found == v,
            None => false,
        };
        if keep {
            out.push(rec);
        }
    }
    proof {
        assert(all.take(all.len() as int) =~= all);
    }
    out
}

/// Whether some record of `s` has id `id`.
pub open spec fn has_id(s: Seq<Record>, id: RecordId) -> bool {
    exists|i: int| 0 <= i < s.len() && s[i].id == id
}

/// Whether every sequence of `sets` has a record with id `id`.
pub open spec fn in_every(sets: Seq<Seq<Record>>, id: RecordId) -> bool {
    forall|j: int| 0 <= j < sets.len() ==> has_id(#[trigger] sets[j], id)
}

/// The records of `s` whose id occurs in every sequence of `others`.
pub open spec fn common_to(s: Seq<Record>, others: Seq<Seq<Record>>) -> Seq<Record>
    decreases s.len(),
{
    if s.len() == 0 {
        Seq::empty()
    } else if in_every(others, s.last().id) {
        common_to(s.drop_last(), others).push(s.last())
    } else {
        common_to(s.drop_last(), others)
    }
}

/// The views of a list of record lists.
pub open spec fn views(sets: Seq<Vec<Record>>) -> Seq<Seq<Record>> {
    sets.map_values(|v: Vec<Record>| v@)
}

/// The records of the first set whose ids occur in every set, in the order
/// of the first set (nothing when there is no set).
pub open spec fn intersection(sets: Seq<Seq<Record>>) -> Seq<Record> {
    if sets.len() == 0 { Seq::empty() } else { common_to(sets[0], sets.drop_first()) }
}

/// Whether `s` has a record with id `id`.
fn id_in(s: &Vec<Record>, id: &RecordId) -> (r: bool)
    ensures
        r == has_id(s@, *id),
{
    let mut i: usize = 0;
    while i < s.len()
        invariant
            i <= s.len(),
            forall|j: int| 0 <= j < i ==> s@[j].id != *id,
        decreases s.len() - i,
    {
        if ids_equal(&s[i].id, id) {
            return true;
        }
        i = i + 1;
    }
    false
}

/// Whether every set of `sets` has a record with id `id`.
fn id_in_all(sets: &Vec<Vec<Record>>, id: &RecordId) -> (r: bool)
    ensures
        r == in_every(views(sets@), *id),
{
    let mut j: usize = 0;
    while j < sets.len()
        invariant
            j <= sets.len(),
            forall|k: int| 0 <= k < j ==> has_id(sets@[k]@, *id),
        decreases sets.len() - j,
    {
        if !id_in(&sets[j], id) {
            proof {
                assert(views(sets@)[j as int] == sets@[j as int]@);
            }
            return false;
        }
        j = j + 1;
    }
    proof {
        assert forall|k: int| 0 <= k < views(sets@).len() implies has_id(#[trigger] views(sets@)[k], *id) by {
            assert(views(sets@)[k] == sets@[k]@);
        }
    }
    true
}

/// The records of the first set whose ids occur in every set, in the order
/// of the first set; nothing when there is no set.
pub fn intersect_record_sets(sets: Vec<Vec<Record>>) -> (r: Vec<Record>)
    ensures
        r@ == intersection(views(sets@)),
{
    if sets.len() == 0 {
        return Vec::new();
    }
    let ghost vs = views(sets@);
    let mut rest = sets;
    let first = rest.remove(0);
    proof {
        assert(views(rest@) =~= vs.drop_first());
        assert(first@ == vs[0]);
    }
    let ghost all = first@;
    let mut out: Vec<Record> = Vec::new();
    proof {
        assert(all.take(0) =~= Seq::<Record>::empty());
    }
    for rec in it: first.into_iter()
        invariant
            it.seq() == all,
            views(rest@) == vs.drop_first(),
            out@ == common_to(all.take(it.index() as int), vs.drop_first()),
    {
        proof {
            let t = all.take(it.index() + 1);
            assert(t.drop_last() =~= all.take(it.index() as int));
            assert(t.last() == rec);
        }
        if id_in_all(&rest, &rec.id) {
            out.push(rec);
        }
    }
    proof {
        assert(all.take(all.len() as int) =~= all);
    }
    out
}


/// Whether `a` may come before `b` in a time order: an earlier or equal
/// timestamp (a later or equal one when `desc`).
pub open spec fn precedes(a: Record, b: Record, desc: bool) -> bool {
    if desc { a.timestamp >= b.timestamp } else { a.timestamp <= b.timestamp }
}

/// The number of leading records of `s` that may come before `x`.
pub open spec fn slot(s: Seq<Record>, x: Record, desc: bool) -> int
    decreases s.len(),
{
    if s.len() == 0 {
        0
    } else if precedes(s[0], x, desc) {
        1 + slot(s.drop_first(), x, desc)
    } else {
        0
    }
}

/// `s` sorted by timestamp (descending when `desc`), stably: records with
/// equal timestamps keep their order. Each record in turn goes after the
/// records placed so far that may come before it.
pub open spec fn sorted_by_time(s: Seq<Record>, desc: bool) -> Seq<Record>
    decreases s.len(),
{
    if s.len() == 0 {
        Seq::empty()
    } else {
        let t = sorted_by_time(s.drop_last(), desc);
        t.insert(slot(t, s.last(), desc), s.last())
    }
}

/// `s` in the order a query asks for: by time, or as it is for relevance.
pub open spec fn ordered(s: Seq<Record>, order: OrderDir) -> Seq<Record> {
    match order {
        OrderDir::TimeAsc => sorted_by_time(s, false),
        OrderDir::TimeDesc => sorted_by_time(s, true),
        OrderDir::RelevanceDesc => s,
    }
}

/// The records of `s` after skipping `offset` of them, at most `limit`.
pub open spec fn page(s: Seq<Record>, offset: nat, limit: nat) -> Seq<Record> {
    let lo = if offset <= s.len() { offset as int } else { s.len() as int };
    let hi = if lo + limit <= s.len() { lo + limit } else { s.len() as int };
    s.subrange(lo, hi)
}

/// A count that stops at the first record that may not come before `x` is
/// the slot of `x`.
proof fn lemma_slot(s: Seq<Record>, x: Record, desc: bool, p: int)
    requires
        0 <= p <= s.len(),
        forall|j: int| 0 <= j < p ==> precedes(#[trigger] s[j], x, desc),
        p < s.len() ==> !precedes(s[p], x, desc),
    ensures
        slot(s, x, desc) == p,
    decreases p,
{
    if p > 0 {
        let d = s.drop_first();
        assert forall|j: int| 0 <= j < p - 1 implies precedes(#[trigger] d[j], x, desc) by {
            assert(d[j] == s[j + 1]);
        }
        if p - 1 < d.len() {
            assert(d[p - 1] == s[p]);
        }
        lemma_slot(d, x, desc, p - 1);
        assert(precedes(s[0], x, desc));
    }
}

/// Whether `a` may come before `b` in a time order.
fn comes_before(a: &Record, b: &Record, desc: bool) -> (r: bool)
    ensures
        r == precedes(*a, *b, desc),
{
    if desc { a.timestamp >= b.timestamp } else { a.timestamp <= b.timestamp }
}

/// `records` sorted by timestamp, stably (descending when `desc`).
fn sort_by_time(records: Vec<Record>, desc: bool) -> (r: Vec<Record>)
    ensures
        r@ == sorted_by_time(records@, desc),
{
    let ghost all = records@;
    let mut out: Vec<Record> = Vec::new();
    proof {
        assert(all.take(0) =~= Seq::<Record>::empty());
    }
    for rec in it: records.into_iter()
        invariant
            it.seq() == all,
            out@ == sorted_by_time(all.take(it.index() as int), desc),
    {
        let mut p: usize = 0;
        while p < out.len() && comes_before(&out[p], &rec, desc)
            invariant
                p <= out.len(),
                forall|j: int| 0 <= j < p ==> precedes(#[trigger] out@[j], rec, desc),
            decreases out.len() - p,
        {
            p = p + 1;
        }
        proof {
            lemma_slot(out@, rec, desc, p as int);
            let t = all.take(it.index() + 1);
            assert(t.drop_last() =~= all.take(it.index() as int));
            assert(t.last() == rec);
        }
        out.insert(p, rec);
    }
    proof {
        assert(all.take(all.len() as int) =~= all);
    }
    out
}

/// `records` in the order a query asks for: by timestamp ascending or
/// descending (stably), or left as they are for relevance order.
pub fn order_records(records: Vec<Record>, order: OrderDir) -> (r: Vec<Record>)
    ensures
        r@ == ordered(records@, order),
{
    match order {
        OrderDir::TimeAsc => sort_by_time(records, false),
        OrderDir::TimeDesc => sort_by_time(records, true),
        OrderDir::RelevanceDesc => records,
    }
}

/// Skips `offset` records, then keeps at most `limit`.
pub fn paginate(records: Vec<Record>, offset: usize, limit: usize) -> (r: Vec<Record>)
    ensures
        r@ == page(records@, offset as nat, limit as nat),
{
    let ghost all = records@;
    let mut out: Vec<Record> = Vec::new();
    let mut k: usize = 0;
    proof {
        assert(all.len() == records.len());
        assert(page(all.take(0), offset as nat, limit as nat) =~= Seq::<Record>::empty());
    }
    for rec in it: records.into_iter()
        invariant
            it.seq() == all,
            all.len() <= usize::MAX,
            k == it.index(),
            out@ == page(all.take(k as int), offset as nat, limit as nat),
    {
        proof {
            let t = all.take(k + 1);
            let u = all.take(k as int);
            assert(t =~= u.push(rec));
            if k < offset {
                assert(page(t, offset as nat, limit as nat) =~= page(u, offset as nat, limit as nat));
            } else if k - offset < limit {
                assert(page(t, offset as nat, limit as nat) =~= page(u, offset as nat, limit as nat).push(rec));
            } else {
                assert(page(t, offset as nat, limit as nat) =~= page(u, offset as nat, limit as nat));
            }
        }
        if k >= offset && k - offset < limit {
            out.push(rec);
        }
        k = k + 1;
    }
    proof {
        assert(all.take(all.len() as int) =~= all);
    }
    out
}

/// With no other set to agree with, every record is kept.
proof fn lemma_common_to_none(s: Seq<Record>, others: Seq<Seq<Record>>)
    requires
        others.len() == 0,
    ensures
        common_to(s, others) == s,
    decreases s.len(),
{
    if s.len() > 0 {
        lemma_common_to_none(s.drop_last(), others);
        assert(s.drop_last().push(s.last()) =~= s);
    }
}

/// The records a query returns, given the record set each clause selected
/// (a single set of every record when the query has no clause): the
/// records of the first set whose ids occur in every set (none when there
/// is no set), ordered as the query asks, then paged by its offset and
/// limit.
pub fn assemble(sets: Vec<Vec<Record>>, order: OrderDir, offset: usize, limit: usize) -> (r: Vec<Record>)
    ensures
        r@ == page(ordered(intersection(views(sets@)), order), offset as nat, limit as nat),
{
    let combined = if sets.len() == 1 {
        let ghost vs = views(sets@);
        let mut sets = sets;
        let only = sets.remove(0);
        proof {
            assert(vs.drop_first().len() == 0);
            lemma_common_to_none(vs[0], vs.drop_first());
            assert(only@ == vs[0]);
        }
        only
    } else {
        intersect_record_sets(sets)
    };
    let sorted = order_records(combined, order);
    paginate(sorted, offset, limit)
}


/// Where the records of one clause come from.
pub enum ClauseSource {
    /// The stored records with these ids, in this order.
    Ids(Vec<RecordId>),
    /// The records the similarity index finds near an embedding.
    Similar { embedding: Vec<String>, threshold: String },
    /// Every stored record of a schema.
    Schema(String),
    /// Every stored record carrying a metadata tag.
    Tag { key: String, value: String },
    /// Every stored record.
    All,
}

/// Whether `src` is where the records of clause `c` come from, given the
/// timeline, the two directions of the causal graph and the clock.
pub open spec fn resolves(c: Clause, src: ClauseSource, tl: Seq<Group>, fwd: Adjacency, rev: Adjacency, now: i64) -> bool {
    match c {
        Clause::TimeRange { from, to } => src matches ClauseSource::Ids(ids)
            && ids@ == first_n(range_ids(tl, time_ref_nanos(from@, now), time_ref_nanos(to@, now)), usize::MAX as nat),
        Clause::TimeAfter(t) => src matches ClauseSource::Ids(ids)
            && ids@ == first_n(after_ids(tl, time_ref_nanos(t@, now)), usize::MAX as nat),
        Clause::TimeBefore(t) => src matches ClauseSource::Ids(ids)
            && ids@ == first_n(before_ids(tl, time_ref_nanos(t@, now)), usize::MAX as nat),
        Clause::SimilarTo { embedding, threshold } => src matches ClauseSource::Similar { embedding: e, threshold: th }
            && e@ == embedding@ && th@ == threshold@,
        Clause::CausedBy { id, depth } => src matches ClauseSource::Ids(ids)
            && ids@.no_duplicates() && ids@.to_set() == reached_set(fwd, id, depth as nat) && by_distance(fwd, id, ids@),
        Clause::Causes { id, depth } => src matches ClauseSource::Ids(ids)
            && ids@.no_duplicates() && ids@.to_set() == reached_set(rev, id, depth as nat) && by_distance(rev, id, ids@),
        Clause::Schema(name) => src matches ClauseSource::Schema(x) && x@ == name@,
        Clause::Tag { key, value } => src matches ClauseSource::Tag { key: k, value: v } && k@ == key@ && v@ == value@,
    }
}

/// Where the records of a clause come from, the clock reading `now`: time
/// clauses ask the temporal index (without limit; a reversed range selects
/// nothing), causal clauses walk the causal graph, and the others are passed
/// on.
pub fn resolve_clause(clause: Clause, temporal: &TemporalIndex, causal: &CausalGraph, now: i64) -> (r: ClauseSource)
    requires
        temporal.wf(),
        causal.wf(),
    ensures
        resolves(clause, r, temporal.timeline(), causal.fwd(), causal.rev(), now),
{
    match clause {
        Clause::TimeRange { from, to } => {
            let from_ns = from.nanos_at(now);
            let to_ns = to.nanos_at(now);
            ClauseSource::Ids(temporal.range(from_ns, to_ns, usize::MAX))
        },
        Clause::TimeAfter(t) => {
            let ts = t.nanos_at(now);
            ClauseSource::Ids(temporal.after(ts, usize::MAX))
        },
        Clause::TimeBefore(t) => {
            let ts = t.nanos_at(now);
            ClauseSource::Ids(temporal.before(ts, usize::MAX))
        },
        Clause::SimilarTo { embedding, threshold } => ClauseSource::Similar { embedding, threshold },
        Clause::CausedBy { id, depth } => ClauseSource::Ids(causal.descendants(&id, depth)),
        Clause::Causes { id, depth } => ClauseSource::Ids(causal.ancestors(&id, depth)),
        Clause::Schema(name) => ClauseSource::Schema(name),
        Clause::Tag { key, value } => ClauseSource::Tag { key, value },
    }
}

/// Where the records of each clause of `clauses` come from (everything when
/// there is no clause).
pub fn resolve_clauses(clauses: Vec<Clause>, temporal: &TemporalIndex, causal: &CausalGraph, now: i64) -> (srcs: Vec<ClauseSource>)
    requires
        temporal.wf(),
        causal.wf(),
    ensures
        clauses@.len() == 0 ==> srcs@.len() == 1 && srcs@[0] is All,
        clauses@.len() > 0 ==> srcs@.len() == clauses@.len() && forall|i: int| 0 <= i < clauses@.len()
            ==> resolves(#[trigger] clauses@[i], srcs@[i], temporal.timeline(), causal.fwd(), causal.rev(), now),
{
    if clauses.len() == 0 {
        let mut all: Vec<ClauseSource> = Vec::new();
        all.push(ClauseSource::All);
        return all;
    }
    let ghost cs = clauses@;
    let mut srcs: Vec<ClauseSource> = Vec::new();
    for c in it: clauses.into_iter()
        invariant
            it.seq() == cs,
            temporal.wf(),
            causal.wf(),
            srcs@.len() == it.index(),
            forall|i: int| 0 <= i < it.index() ==> resolves(#[trigger] cs[i], srcs@[i], temporal.timeline(), causal.fwd(), causal.rev(), now),
    {
        proof {
            assert(cs[it.index() as int] == c);
        }
        let src = resolve_clause(c, temporal, causal, now);
        srcs.push(src);
    }
    srcs
}

/// The encoded records stored under `ids`, in order, skipping the ids that
/// are not stored.
pub open spec fn fetched(m: Map<Seq<u8>, Seq<u8>>, ids: Seq<RecordId>) -> Seq<Seq<u8>>
    decreases ids.len(),
{
    if ids.len() == 0 {
        Seq::empty()
    } else {
        match lookup(m, ids.last()@) {
            Some(v) => fetched(m, ids.drop_last()).push(v),
            None => fetched(m, ids.drop_last()),
        }
    }
}

/// The encoded records stored under `ids`, in order, skipping the ids that
/// are not stored; the first storage error ends the fetch.
pub fn fetch_by_ids(storage: &StorageEngine, ids: &Vec<RecordId>) -> (r: Result<Vec<Vec<u8>>, AkashaError>)
    ensures
        r matches Ok(vals) ==> vals@.map_values(|v: Vec<u8>| v@) == fetched(storage.stored(), ids@),
        r matches Err(e) ==> e is Storage,
        ids@.len() == 0 ==> r is Ok,
{
    let mut out: Vec<Vec<u8>> = Vec::new();
    let mut i: usize = 0;
    proof {
        assert(ids@.take(0) =~= Seq::<RecordId>::empty());
        assert(out@.map_values(|v: Vec<u8>| v@) =~= Seq::<Seq<u8>>::empty());
    }
    while i < ids.len()
        invariant
            i <= ids.len(),
            out@.map_values(|v: Vec<u8>| v@) == fetched(storage.stored(), ids@.take(i as int)),
        decreases ids.len() - i,
    {
        let ghost prev = out@;
        proof {
            let t = ids@.take(i + 1);
            assert(t.drop_last() =~= ids@.take(i as int));
            assert(t.last() == ids@[i as int]);
        }
        match storage.get(&ids[i]) {
            Ok(Some(v)) => {
                out.push(v);
                proof {
                    assert(out@.map_values(|v: Vec<u8>| v@) =~= prev.map_values(|v: Vec<u8>| v@).push(out@[prev.len() as int]@));
                }
            },
            Ok(None) => {},
            Err(e) => return Err(e),
        }
        i = i + 1;
    }
    proof {
        assert(ids@.take(ids.len() as int) =~= ids@);
    }
    Ok(out)
}


/// The slot of `x` in `s`: every record before it may come before `x`, and
/// the record at it may not.
proof fn lemma_slot_bounds(s: Seq<Record>, x: Record, desc: bool)
    ensures
        0 <= slot(s, x, desc) <= s.len(),
        forall|j: int| 0 <= j < slot(s, x, desc) ==> precedes(#[trigger] s[j], x, desc),
        slot(s, x, desc) < s.len() ==> !precedes(s[slot(s, x, desc)], x, desc),
    decreases s.len(),
{
    if s.len() > 0 && precedes(s[0], x, desc) {
        let d = s.drop_first();
        lemma_slot_bounds(d, x, desc);
        assert forall|j: int| 0 <= j < slot(s, x, desc) implies precedes(#[trigger] s[j], x, desc) by {
            if j > 0 {
                assert(s[j] == d[j - 1]);
            }
        }
        if slot(s, x, desc) < s.len() {
            assert(s[slot(s, x, desc)] == d[slot(d, x, desc)]);
        }
    }
}

/// A time order keeps every record and puts them in order: each record may
/// come before every record after it, and the records are those given, as
/// many times each.
pub proof fn law_time_order(s: Seq<Record>, desc: bool)
    ensures
        sorted_by_time(s, desc).to_multiset() == s.to_multiset(),
        forall|i: int, j: int| 0 <= i < j < sorted_by_time(s, desc).len()
            ==> precedes(#[trigger] sorted_by_time(s, desc)[i], #[trigger] sorted_by_time(s, desc)[j], desc),
    decreases s.len(),
{
    broadcast use vstd::seq_lib::to_multiset_build, vstd::seq_lib::to_multiset_insert;
    if s.len() == 0 {
        assert(s =~= Seq::<Record>::empty());
    } else {
        let d = s.drop_last();
        let x = s.last();
        law_time_order(d, desc);
        let t = sorted_by_time(d, desc);
        let p = slot(t, x, desc);
        lemma_slot_bounds(t, x, desc);
        let r = t.insert(p, x);
        assert(r == sorted_by_time(s, desc));
        assert(s =~= d.push(x));
        assert(r.to_multiset() == t.to_multiset().insert(x));
        assert(d.push(x).to_multiset() == d.to_multiset().insert(x));
        assert(t.len() == d.len()) by {
            d.to_multiset_ensures();
            t.to_multiset_ensures();
        }
        assert forall|i: int, j: int| 0 <= i < j < r.len() implies precedes(#[trigger] r[i], #[trigger] r[j], desc) by {
            if j < p {
                assert(r[i] == t[i] && r[j] == t[j]);
            } else if j == p {
                assert(r[i] == t[i] && r[j] == x);
            } else if i < p {
                assert(r[i] == t[i] && r[j] == t[j - 1]);
            } else if i == p {
                assert(r[i] == x && r[j] == t[j - 1]);
                assert(!precedes(t[p], x, desc));
                if j - 1 > p {
                    assert(precedes(t[p], t[j - 1], desc));
                }
            } else {
                assert(r[i] == t[i - 1] && r[j] == t[j - 1]);
            }
        }
    }
}


/// A schema filter keeps exactly the records of that schema.
pub proof fn law_schema_filter(s: Seq<Record>, schema: Seq<char>, x: Record)
    ensures
        with_schema(s, schema).contains(x) <==> (s.contains(x) && x.schema@ == schema),
    decreases s.len(),
{
    if s.len() > 0 {
        let d = s.drop_last();
        law_schema_filter(d, schema, x);
        assert(s =~= d.push(s.last()));
        let w = with_schema(d, schema);
        if d.contains(x) {
            let i = choose|i: int| 0 <= i < d.len() && d[i] == x;
            assert(s[i] == x);
        }
        if s.contains(x) && x != s.last() {
            let i = choose|i: int| 0 <= i < s.len() && s[i] == x;
            assert(i < d.len());
            assert(d[i] == x);
        }
        if s.last().schema@ == schema {
            assert(w.push(s.last())[w.len() as int] == s.last());
            if w.contains(x) {
                let i = choose|i: int| 0 <= i < w.len() && w[i] == x;
                assert(w.push(s.last())[i] == x);
            }
            if w.push(s.last()).contains(x) && x != s.last() {
                let i = choose|i: int| 0 <= i < w.len() + 1 && w.push(s.last())[i] == x;
                assert(w[i] == x);
            }
        }
        assert(s[s.len() - 1] == s.last());
    }
}

/// An intersection keeps only records whose ids occur in every set.
pub proof fn law_intersection_in_every_set(sets: Seq<Seq<Record>>, x: Record)
    requires
        intersection(sets).contains(x),
    ensures
        forall|j: int| 0 <= j < sets.len() ==> has_id(#[trigger] sets[j], x.id),
{
    lemma_common_to_member(sets[0], sets.drop_first(), x);
    assert forall|j: int| 0 <= j < sets.len() implies has_id(#[trigger] sets[j], x.id) by {
        if j > 0 {
            assert(sets.drop_first()[j - 1] == sets[j]);
        }
    }
}

/// A record kept by `common_to` is one of `s` whose id is in every other set.
proof fn lemma_common_to_member(s: Seq<Record>, others: Seq<Seq<Record>>, x: Record)
    requires
        common_to(s, others).contains(x),
    ensures
        s.contains(x),
        in_every(others, x.id),
    decreases s.len(),
{
    if s.len() > 0 {
        let d = s.drop_last();
        let c = common_to(d, others);
        if c.contains(x) {
            lemma_common_to_member(d, others, x);
            let i = choose|i: int| 0 <= i < d.len() && d[i] == x;
            assert(s[i] == x);
        } else {
            assert(in_every(others, s.last().id));
            let i = choose|i: int| 0 <= i < c.push(s.last()).len() && c.push(s.last())[i] == x;
            if i < c.len() {
                assert(c[i] == x);
            }
            assert(x == s.last());
            assert(s[s.len() - 1] == x);
        }
    }
}

/// A page holds at most `limit` records, taken in order from `offset` on.
pub proof fn law_page_bounds(s: Seq<Record>, offset: nat, limit: nat)
    ensures
        page(s, offset, limit).len() <= limit,
        offset + limit <= s.len() ==> page(s, offset, limit) == s.subrange(offset as int, (offset + limit) as int),
        forall|i: int| 0 <= i < page(s, offset, limit).len() ==> #[trigger] page(s, offset, limit)[i] == s[offset + i],
{
}


/// The records of `s` stamped `t`, in order.
pub open spec fn with_time(s: Seq<Record>, t: i64) -> Seq<Record>
    decreases s.len(),
{
    if s.len() == 0 {
        Seq::empty()
    } else if s.last().timestamp == t {
        with_time(s.drop_last(), t).push(s.last())
    } else {
        with_time(s.drop_last(), t)
    }
}

/// A record stamped otherwise does not show among those stamped `t`.
proof fn lemma_with_time_other(a: Seq<Record>, p: int, x: Record, t: i64)
    requires
        0 <= p <= a.len(),
        x.timestamp != t,
    ensures
        with_time(a.insert(p, x), t) == with_time(a, t),
    decreases a.len(),
{
    if p == a.len() {
        assert(a.insert(p, x).drop_last() =~= a);
        assert(a.insert(p, x).last() == x);
    } else {
        lemma_with_time_other(a.drop_last(), p, x, t);
        assert(a.insert(p, x).drop_last() =~= a.drop_last().insert(p, x));
        assert(a.insert(p, x).last() == a.last());
    }
}

/// A record stamped `t` placed after every other record stamped `t` comes
/// last among them.
proof fn lemma_with_time_last(a: Seq<Record>, p: int, x: Record, t: i64)
    requires
        0 <= p <= a.len(),
        x.timestamp == t,
        forall|j: int| p <= j < a.len() ==> (#[trigger] a[j]).timestamp != t,
    ensures
        with_time(a.insert(p, x), t) == with_time(a, t).push(x),
    decreases a.len(),
{
    if p == a.len() {
        assert(a.insert(p, x).drop_last() =~= a);
        assert(a.insert(p, x).last() == x);
    } else {
        let d = a.drop_last();
        assert forall|j: int| p <= j < d.len() implies (#[trigger] d[j]).timestamp != t by {
            assert(d[j] == a[j]);
        }
        lemma_with_time_last(d, p, x, t);
        assert(a.insert(p, x).drop_last() =~= d.insert(p, x));
        assert(a.insert(p, x).last() == a.last());
        assert(a[a.len() - 1] == a.last());
    }
}

/// Time orders are stable: the records stamped with one timestamp keep the
/// order they had.
pub proof fn law_time_order_stable(s: Seq<Record>, desc: bool, t: i64)
    ensures
        with_time(sorted_by_time(s, desc), t) == with_time(s, t),
    decreases s.len(),
{
    if s.len() > 0 {
        let d = s.drop_last();
        let x = s.last();
        law_time_order_stable(d, desc, t);
        law_time_order(d, desc);
        let st = sorted_by_time(d, desc);
        let p = slot(st, x, desc);
        lemma_slot_bounds(st, x, desc);
        if x.timestamp == t {
            assert forall|j: int| p <= j < st.len() implies (#[trigger] st[j]).timestamp != t by {
                assert(!precedes(st[p], x, desc));
                if j > p {
                    assert(precedes(st[p], st[j], desc));
                }
            }
            lemma_with_time_last(st, p, x, t);
        } else {
            lemma_with_time_other(st, p, x, t);
        }
    }
}

/// A record kept by `common_to` when its id is in every other set.
proof fn lemma_common_to_keeps(s: Seq<Record>, others: Seq<Seq<Record>>, x: Record)
    requires
        s.contains(x),
        in_every(others, x.id),
    ensures
        common_to(s, others).contains(x),
    decreases s.len(),
{
    let d = s.drop_last();
    let c = common_to(d, others);
    if x == s.last() {
        assert(c.push(x)[c.len() as int] == x);
    } else {
        let i = choose|i: int| 0 <= i < s.len() && s[i] == x;
        assert(i < d.len() && d[i] == x);
        lemma_common_to_keeps(d, others, x);
        let j = choose|j: int| 0 <= j < c.len() && c[j] == x;
        if in_every(others, s.last().id) {
            assert(c.push(s.last())[j] == x);
        }
    }
}

/// An intersection keeps every record of the first set whose id occurs in
/// every set.
pub proof fn law_intersection_keeps_common(sets: Seq<Seq<Record>>, x: Record)
    requires
        sets.len() > 0,
        sets[0].contains(x),
        forall|j: int| 0 <= j < sets.len() ==> has_id(#[trigger] sets[j], x.id),
    ensures
        intersection(sets).contains(x),
{
    assert forall|j: int| 0 <= j < sets.drop_first().len() implies has_id(#[trigger] sets.drop_first()[j], x.id) by {
        assert(sets.drop_first()[j] == sets[j + 1]);
    }
    lemma_common_to_keeps(sets[0], sets.drop_first(), x);
}

} // verus!

verus! {

/// A tag filter keeps exactly the records whose metadata binds `key` to
/// `value`.
pub proof fn law_tag_filter(s: Seq<Record>, key: Seq<char>, value: Seq<char>, x: Record)
    ensures
        with_tag(s, key, value).contains(x) <==> (s.contains(x) && meta_get(x.metadata@, key) == Some(value)),
    decreases s.len(),
{
    if s.len() > 0 {
        let d = s.drop_last();
        law_tag_filter(d, key, value, x);
        assert(s =~= d.push(s.last()));
        let w = with_tag(d, key, value);
        if d.contains(x) {
            let i = choose|i: int| 0 <= i < d.len() && d[i] == x;
            assert(s[i] == x);
        }
        if s.contains(x) && x != s.last() {
            let i = choose|i: int| 0 <= i < s.len() && s[i] == x;
            assert(i < d.len());
            assert(d[i] == x);
        }
        if meta_get(s.last().metadata@, key) == Some(value) {
            assert(w.push(s.last())[w.len() as int] == s.last());
            if w.contains(x) {
                let i = choose|i: int| 0 <= i < w.len() && w[i] == x;
                assert(w.push(s.last())[i] == x);
            }
            if w.push(s.last()).contains(x) && x != s.last() {
                let i = choose|i: int| 0 <= i < w.len() + 1 && w.push(s.last())[i] == x;
                assert(w[i] == x);
            }
        }
        assert(s[s.len() - 1] == s.last());
    }
}

/// A tag filter keeps the records whose metadata binds `key` to `value`,
/// each as often and in the order they come in `s`.
pub proof fn law_tag_filter_keeps_order(s: Seq<Record>, key: Seq<char>, value: Seq<char>)
    ensures
        with_tag(s, key, value) == s.filter(|r: Record| meta_get(r.metadata@, key) == Some(value)),
    decreases s.len(),
{
    let pred = |r: Record| meta_get(r.metadata@, key) == Some(value);
    reveal(Seq::filter);
    if s.len() > 0 {
        law_tag_filter_keeps_order(s.drop_last(), key, value);
        assert(with_tag(s.drop_last(), key, value) == s.drop_last().filter(pred));
        assert(s.filter(pred) == if pred(s.last()) {
            s.drop_last().filter(pred).push(s.last())
        } else {
            s.drop_last().filter(pred)
        });
    } else {
        assert(s.filter(pred) == s);
    }
}

/// A schema filter keeps the records of schema `schema`, each as often and
/// in the order they come in `s`.
pub proof fn law_schema_filter_keeps_order(s: Seq<Record>, schema: Seq<char>)
    ensures
        with_schema(s, schema) == s.filter(|r: Record| r.schema@ == schema),
    decreases s.len(),
{
    let pred = |r: Record| r.schema@ == schema;
    reveal(Seq::filter);
    if s.len() > 0 {
        law_schema_filter_keeps_order(s.drop_last(), schema);
        assert(with_schema(s.drop_last(), schema) == s.drop_last().filter(pred));
        assert(s.filter(pred) == if pred(s.last()) {
            s.drop_last().filter(pred).push(s.last())
        } else {
            s.drop_last().filter(pred)
        });
    } else {
        assert(s.filter(pred) == s);
    }
}

/// A page skips `offset` records and then holds the next ones, up to
/// `limit` of them: as many as are left after the offset when that is
/// fewer than `limit`.
pub proof fn law_page(s: Seq<Record>, offset: nat, limit: nat)
    ensures
        page(s, offset, limit).len() == (if offset >= s.len() { 0 } else if s.len() - offset < limit { (s.len() - offset) as nat } else { limit }),
        forall|i: int| 0 <= i < page(s, offset, limit).len() ==> #[trigger] page(s, offset, limit)[i] == s[offset + i],
{
}

} // verus!
