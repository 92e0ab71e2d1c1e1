//! Keeping the indexes in step with the stored records.

use vstd::prelude::*;
use crate::graph::causal::{CausalGraph, Adjacency, succ, edge};
use crate::index::temporal::{TemporalIndex, Group, inserted, first_n, range_ids, timeline_ok, law_insert_then_range, below, lemma_below, lemma_inserted_ok, lemma_ids_of_contains};
use crate::record::RecordId;
use crate::storage::engine::{StorageEngine, after_put, lookup};
use crate::error::AkashaError;
use crate::DbStats;

verus! {

/// The forward edges after adding `cause -> id` for each cause in turn.
pub open spec fn with_effect(f: Adjacency, causes: Seq<RecordId>, id: RecordId) -> Adjacency
    decreases causes.len(),
{
    if causes.len() == 0 {
        f
    } else {
        let g = with_effect(f, causes.drop_last(), id);
        g.insert(causes.last(), succ(g, causes.last()).push(id))
    }
}

/// The adjacency `f` with `id` registered (an empty list when it was absent).
pub open spec fn with_node(f: Adjacency, id: RecordId) -> Adjacency {
    if f.contains_key(id) { f } else { f.insert(id, Seq::empty()) }
}

/// `e` after `k` wrapping increments.
pub open spec fn bumped(e: usize, k: nat) -> usize
    decreases k,
{
    if k == 0 { e } else { bumped(e, (k - 1) as nat).wrapping_add(1) }
}

/// Indexes a stored record: its id joins the timeline at its timestamp, an
/// edge `cause -> id` is added for each of its causes in turn, and the id is
/// registered in the causal graph.
pub fn index_record(temporal: &mut TemporalIndex, causal: &mut CausalGraph, id: RecordId, timestamp: i64, causes: &Vec<RecordId>)
    requires
        old(temporal).wf(),
        old(causal).wf(),
    ensures
        final(temporal).wf(),
        final(causal).wf(),
        final(temporal).timeline() == inserted(old(temporal).timeline(), timestamp, id),
        final(temporal).stamps() == old(temporal).stamps().insert(id, timestamp),
        final(causal).fwd() == with_node(with_effect(old(causal).fwd(), causes@, id), id),
        final(causal).rev() == with_node(old(causal).rev().insert(id, succ(old(causal).rev(), id) + causes@), id),
        final(causal).edges() == bumped(old(causal).edges(), causes@.len()),
{
    temporal.insert(timestamp, id);
    let ghost f0 = causal.fwd();
    let ghost r0 = causal.rev();
    let ghost e0 = causal.edges();
    let mut i: usize = 0;
    proof {
        assert(causes@.take(0) =~= Seq::<RecordId>::empty());
        assert(r0.insert(id, succ(r0, id) + causes@.take(0)) =~= if r0.contains_key(id) { r0 } else { r0.insert(id, Seq::empty()) });
    }
    while i < causes.len()
        invariant
            i <= causes.len(),
            causal.wf(),
            causal.fwd() == with_effect(f0, causes@.take(i as int), id),
            i == 0 ==> causal.rev() == r0,
            i > 0 ==> causal.rev() == r0.insert(id, succ(r0, id) + causes@.take(i as int)),
            causal.edges() == bumped(e0, i as nat),
        decreases causes.len() - i,
    {
        let ghost before = causal.rev();
        causal.add_edge(causes[i], id);
        proof {
            let t = causes@.take(i + 1);
            assert(t.drop_last() =~= causes@.take(i as int));
            assert(t.last() == causes@[i as int]);
            assert(succ(r0, id) + t =~= (succ(r0, id) + causes@.take(i as int)).push(causes@[i as int]));
            if i == 0 {
                assert(succ(r0, id) + causes@.take(0) =~= succ(r0, id));
            }
        }
        i = i + 1;
    }
    proof {
        assert(causes@.take(i as int) =~= causes@);
        if causes@.len() == 0 {
            assert(succ(r0, id) + causes@ =~= succ(r0, id));
            if r0.contains_key(id) {
                assert(r0.insert(id, succ(r0, id)) =~= r0);
            }
        }
    }
    causal.add_node(id);
}

/// A record to index: its id, its timestamp and its causes.
pub type IndexEntry = (RecordId, i64, Vec<RecordId>);

/// The timeline after indexing each entry of `es` in turn.
pub open spec fn timeline_after(tl: Seq<Group>, es: Seq<IndexEntry>) -> Seq<Group>
    decreases es.len(),
{
    if es.len() == 0 {
        tl
    } else {
        inserted(timeline_after(tl, es.drop_last()), es.last().1, es.last().0)
    }
}

/// The timestamps by id after indexing each entry of `es` in turn.
pub open spec fn stamps_after(m: Map<RecordId, i64>, es: Seq<IndexEntry>) -> Map<RecordId, i64>
    decreases es.len(),
{
    if es.len() == 0 {
        m
    } else {
        stamps_after(m, es.drop_last()).insert(es.last().0, es.last().1)
    }
}

/// The forward edges after indexing each entry of `es` in turn.
pub open spec fn fwd_after(f: Adjacency, es: Seq<IndexEntry>) -> Adjacency
    decreases es.len(),
{
    if es.len() == 0 {
        f
    } else {
        with_node(with_effect(fwd_after(f, es.drop_last()), es.last().2@, es.last().0), es.last().0)
    }
}

/// The backward edges after indexing each entry of `es` in turn.
pub open spec fn rev_after(r: Adjacency, es: Seq<IndexEntry>) -> Adjacency
    decreases es.len(),
{
    if es.len() == 0 {
        r
    } else {
        let p = rev_after(r, es.drop_last());
        let id = es.last().0;
        with_node(p.insert(id, succ(p, id) + es.last().2@), id)
    }
}

/// The edge counter after indexing each entry of `es` in turn.
pub open spec fn edges_after(e: usize, es: Seq<IndexEntry>) -> usize
    decreases es.len(),
{
    if es.len() == 0 {
        e
    } else {
        bumped(edges_after(e, es.drop_last()), es.last().2@.len())
    }
}

/// Indexes stored records, each in turn as `index_record` does: how the
/// indexes are rebuilt from the records a store already holds.
pub fn index_records(temporal: &mut TemporalIndex, causal: &mut CausalGraph, entries: &Vec<IndexEntry>)
    requires
        old(temporal).wf(),
        old(causal).wf(),
    ensures
        final(temporal).wf(),
        final(causal).wf(),
        final(temporal).timeline() == timeline_after(old(temporal).timeline(), entries@),
        final(temporal).stamps() == stamps_after(old(temporal).stamps(), entries@),
        final(causal).fwd() == fwd_after(old(causal).fwd(), entries@),
        final(causal).rev() == rev_after(old(causal).rev(), entries@),
        final(causal).edges() == edges_after(old(causal).edges(), entries@),
{
    let ghost t0 = temporal.timeline();
    let ghost m0 = temporal.stamps();
    let ghost f0 = causal.fwd();
    let ghost r0 = causal.rev();
    let ghost e0 = causal.edges();
    let mut i: usize = 0;
    proof {
        assert(entries@.take(0) =~= Seq::<IndexEntry>::empty());
    }
    while i < entries.len()
        invariant
            i <= entries.len(),
            temporal.wf(),
            causal.wf(),
            temporal.timeline() == timeline_after(t0, entries@.take(i as int)),
            temporal.stamps() == stamps_after(m0, entries@.take(i as int)),
            causal.fwd() == fwd_after(f0, entries@.take(i as int)),
            causal.rev() == rev_after(r0, entries@.take(i as int)),
            causal.edges() == edges_after(e0, entries@.take(i as int)),
        decreases entries.len() - i,
    {
        let e = &entries[i];
        index_record(temporal, causal, e.0, e.1, &e.2);
        proof {
            let t = entries@.take(i + 1);
            assert(t.drop_last() =~= entries@.take(i as int));
            assert(t.last() == entries@[i as int]);
        }
        i = i + 1;
    }
    proof {
        assert(entries@.take(i as int) =~= entries@);
    }
}

/// The indexes of a database as one value: the timeline, the timestamp of
/// each id, the forward and backward edges, and the edge counter.
pub type Indexes = (Seq<Group>, Map<RecordId, i64>, Adjacency, Adjacency, usize);

/// The indexes held by a temporal index and a causal graph.
pub open spec fn index_state(temporal: TemporalIndex, causal: CausalGraph) -> Indexes {
    (temporal.timeline(), temporal.stamps(), causal.fwd(), causal.rev(), causal.edges())
}

/// What indexing a record does to the indexes (see `index_record`).
pub open spec fn indexed(x: Indexes, id: RecordId, ts: i64, causes: Seq<RecordId>) -> Indexes {
    (
        inserted(x.0, ts, id),
        x.1.insert(id, ts),
        with_node(with_effect(x.2, causes, id), id),
        with_node(x.3.insert(id, succ(x.3, id) + causes), id),
        bumped(x.4, causes.len()),
    )
}

/// What a successful `store_record` does to the store and the indexes: a
/// record whose id is stored leaves both as they were; another is stored
/// under its id and indexed.
pub open spec fn stored_and_indexed(
    m: Map<Seq<u8>, Seq<u8>>,
    x: Indexes,
    id: RecordId,
    ts: i64,
    causes: Seq<RecordId>,
    encoded: Seq<u8>,
) -> (Map<Seq<u8>, Seq<u8>>, Indexes) {
    if m.contains_key(id@) {
        (m, x)
    } else {
        (m.insert(id@, encoded), indexed(x, id, ts, causes))
    }
}

/// Stores an encoded record under its id and indexes it, as inserting a
/// record does; a record whose id is already stored is left alone, store
/// and indexes alike, so that inserting it again changes nothing. The
/// result says whether the record was new. A storage error leaves the
/// indexes as they were.
pub fn store_record(
    storage: &mut StorageEngine,
    temporal: &mut TemporalIndex,
    causal: &mut CausalGraph,
    id: RecordId,
    timestamp: i64,
    causes: &Vec<RecordId>,
    encoded: Vec<u8>,
) -> (r: Result<bool, AkashaError>)
    requires
        old(temporal).wf(),
        old(causal).wf(),
    ensures
        final(temporal).wf(),
        final(causal).wf(),
        final(storage).location() == old(storage).location(),
        final(storage).records_at() == old(storage).records_at(),
        r matches Ok(fresh) ==> {
            &&& fresh == !old(storage).stored().contains_key(id@)
            &&& final(storage).stored() == after_put(old(storage).stored(), id@, encoded@)
            &&& fresh ==> {
                &&& final(temporal).timeline() == inserted(old(temporal).timeline(), timestamp, id)
                &&& final(temporal).stamps() == old(temporal).stamps().insert(id, timestamp)
                &&& final(causal).fwd() == with_node(with_effect(old(causal).fwd(), causes@, id), id)
                &&& final(causal).rev() == with_node(old(causal).rev().insert(id, succ(old(causal).rev(), id) + causes@), id)
                &&& final(causal).edges() == bumped(old(causal).edges(), causes@.len())
            }
            &&& !fresh ==> *final(temporal) == *old(temporal) && *final(causal) == *old(causal)
            &&& (final(storage).stored(), index_state(*final(temporal), *final(causal)))
                == stored_and_indexed(old(storage).stored(), index_state(*old(temporal), *old(causal)), id, timestamp, causes@, encoded@)
        },
        r matches Err(e) ==> {
            &&& e is Storage
            &&& *final(temporal) == *old(temporal)
            &&& *final(causal) == *old(causal)
        },
{
    match storage.put(&id, encoded) {
        Ok(true) => {
            index_record(temporal, causal, id, timestamp, causes);
            Ok(true)
        },
        Ok(false) => Ok(false),
        Err(e) => Err(e),
    }
}

/// The ids of the records whose timestamps lie between two instants, at
/// most `limit` of them: a start that does not fit in `i64` nanoseconds is
/// taken as the epoch, an end that does not as the latest timestamp. A
/// reversed window holds no record.
pub fn ids_in_window(temporal: &TemporalIndex, from_nanos: Option<i64>, to_nanos: Option<i64>, limit: usize) -> (r: Vec<RecordId>)
    requires
        temporal.wf(),
    ensures
        r@ == first_n(range_ids(temporal.timeline(),
            match from_nanos { Some(f) => f, None => 0 },
            match to_nanos { Some(t) => t, None => i64::MAX }), limit as nat),
{
    let from = match from_nanos {
        Some(f) => f,
        None => 0,
    };
    let to = match to_nanos {
        Some(t) => t,
        None => i64::MAX,
    };
    temporal.range(from, to, limit)
}

impl DbStats {
    /// The counters of a database: the records stored, the timestamps
    /// indexed, the vectors of the similarity index (counted by the caller)
    /// and the causal edges.
    pub fn collect(storage: &StorageEngine, temporal: &TemporalIndex, causal: &CausalGraph, semantic_vectors: usize) -> (r: DbStats)
        ensures
            r.total_records == storage.stored().dom().len(),
            r.temporal_entries == temporal.timeline().len(),
            r.semantic_vectors == semantic_vectors,
            r.causal_edges == causal.edges(),
    {
        DbStats {
            total_records: storage.count(),
            temporal_entries: temporal.len(),
            semantic_vectors,
            causal_edges: causal.edge_count(),
        }
    }
}

/// Each cause of `id` gets an edge to `id`, and the edges already there stay.
proof fn lemma_with_effect_edges(f: Adjacency, causes: Seq<RecordId>, id: RecordId)
    ensures
        forall|c: RecordId| causes.contains(c) ==> #[trigger] edge(with_effect(f, causes, id), c, id),
        forall|u: RecordId, v: RecordId| edge(f, u, v) ==> #[trigger] edge(with_effect(f, causes, id), u, v),
    decreases causes.len(),
{
    if causes.len() > 0 {
        let d = causes.drop_last();
        lemma_with_effect_edges(f, d, id);
        let g = with_effect(f, d, id);
        let c0 = causes.last();
        let h = g.insert(c0, succ(g, c0).push(id));
        assert(h == with_effect(f, causes, id));
        assert forall|u: RecordId, v: RecordId| edge(g, u, v) implies #[trigger] edge(h, u, v) by {
            if u == c0 {
                let t = choose|t: int| 0 <= t < succ(g, u).len() && succ(g, u)[t] == v;
                assert(succ(h, u)[t] == v);
            }
        }
        assert forall|c: RecordId| causes.contains(c) implies #[trigger] edge(h, c, id) by {
            if c == c0 {
                assert(succ(h, c)[succ(g, c).len() as int] == id);
            } else {
                let t = choose|t: int| 0 <= t < causes.len() && causes[t] == c;
                assert(d[t] == c);
                assert(d.contains(c));
                assert(edge(g, c, id));
            }
        }
    }
}

/// Inserting a record again changes nothing: after a successful store of
/// a record, storing it once more leaves the store and every index as the
/// first store left them.
pub proof fn law_store_twice(
    m: Map<Seq<u8>, Seq<u8>>,
    x: Indexes,
    id: RecordId,
    ts: i64,
    causes: Seq<RecordId>,
    encoded: Seq<u8>,
)
    ensures
        ({
            let once = stored_and_indexed(m, x, id, ts, causes, encoded);
            stored_and_indexed(once.0, once.1, id, ts, causes, encoded) == once
        }),
{
}

/// Read after insert: storing a new record makes its id stored under its
/// encoding, grows the stored records by one, puts the id on the timeline
/// at its timestamp (so a range enclosing that timestamp finds it), and
/// gives each of its causes an edge to it.
pub proof fn law_store_then_read(
    m: Map<Seq<u8>, Seq<u8>>,
    x: Indexes,
    id: RecordId,
    ts: i64,
    causes: Seq<RecordId>,
    encoded: Seq<u8>,
)
    requires
        !m.contains_key(id@),
        m.dom().finite(),
        timeline_ok(x.0),
    ensures
        ({
            let after = stored_and_indexed(m, x, id, ts, causes, encoded);
            &&& lookup(after.0, id@) == Some(encoded)
            &&& after.0.dom().len() == m.dom().len() + 1
            &&& after.1.1[id] == ts
            &&& forall|from: i64, to: i64| from <= ts <= to ==> #[trigger] range_ids(after.1.0, from, to).contains(id)
            &&& forall|c: RecordId| causes.contains(c) ==> #[trigger] edge(after.1.2, c, id)
        }),
{
    let after = stored_and_indexed(m, x, id, ts, causes, encoded);
    assert(after.0.dom() =~= m.dom().insert(id@));
    assert forall|from: i64, to: i64| from <= ts <= to implies #[trigger] range_ids(after.1.0, from, to).contains(id) by {
        law_insert_then_range(x.0, ts, id, from, to);
    }
    lemma_with_effect_edges(x.2, causes, id);
    let w = with_effect(x.2, causes, id);
    assert forall|c: RecordId| causes.contains(c) implies #[trigger] edge(after.1.2, c, id) by {
        assert(edge(w, c, id));
        if !w.contains_key(id) {
            assert(succ(w.insert(id, Seq::empty()), c) == succ(w, c));
        }
    }
}

/// Whether the timeline `gs` holds `x` in its group of timestamp `t`.
pub open spec fn stamped(gs: Seq<Group>, x: RecordId, t: i64) -> bool {
    exists|k: int| 0 <= k < gs.len() && gs[k].0 == t && (#[trigger] gs[k]).1.contains(x)
}

/// The number of causes of all entries of `es` together.
pub open spec fn total_causes(es: Seq<IndexEntry>) -> nat
    decreases es.len(),
{
    if es.len() == 0 { 0 } else { total_causes(es.drop_last()) + es.last().2@.len() }
}

/// An id held at timestamp `t` is found by every range enclosing `t`.
proof fn lemma_stamped_in_range(gs: Seq<Group>, x: RecordId, t: i64, from: i64, to: i64)
    requires
        timeline_ok(gs),
        stamped(gs, x, t),
        from <= t <= to,
    ensures
        range_ids(gs, from, to).contains(x),
{
    let k = choose|k: int| 0 <= k < gs.len() && gs[k].0 == t && (#[trigger] gs[k]).1.contains(x);
    lemma_below(gs, from as int);
    lemma_below(gs, to + 1);
    let lo = below(gs, from as int);
    let hi = below(gs, to + 1);
    assert(lo <= k) by {
        if k < lo { assert(gs[k].0 < from); }
    }
    assert(k < hi) by {
        if hi <= k { assert(gs[k].0 >= to + 1); }
    }
    let w = gs.subrange(lo, hi);
    assert(w[k - lo] == gs[k]);
    lemma_ids_of_contains(w, k - lo, x);
}

/// Inserting into a timeline keeps what it held and adds the new id at its
/// timestamp.
proof fn lemma_inserted_stamps(gs: Seq<Group>, ts: i64, id: RecordId)
    requires
        timeline_ok(gs),
    ensures
        stamped(inserted(gs, ts, id), id, ts),
        forall|x: RecordId, t: i64| stamped(gs, x, t) ==> #[trigger] stamped(inserted(gs, ts, id), x, t),
{
    lemma_below(gs, ts as int);
    let p = below(gs, ts as int);
    let ng = inserted(gs, ts, id);
    if p < gs.len() && gs[p].0 == ts {
        assert(ng[p].1 == gs[p].1.push(id));
        assert(ng[p].1[gs[p].1.len() as int] == id);
    } else {
        assert(ng[p] == (ts, seq![id]));
        assert(ng[p].1[0] == id);
    }
    assert forall|x: RecordId, t: i64| stamped(gs, x, t) implies #[trigger] stamped(ng, x, t) by {
        let k = choose|k: int| 0 <= k < gs.len() && gs[k].0 == t && (#[trigger] gs[k]).1.contains(x);
        if p < gs.len() && gs[p].0 == ts {
            if k == p {
                let j = choose|j: int| 0 <= j < gs[k].1.len() && gs[k].1[j] == x;
                assert(ng[k].1[j] == x);
            } else {
                assert(ng[k] == gs[k]);
            }
        } else if k < p {
            assert(ng[k] == gs[k]);
        } else {
            assert(ng[k + 1] == gs[k]);
        }
    }
}

/// Registering a node keeps every edge.
proof fn lemma_with_node_edges(f: Adjacency, id: RecordId)
    ensures
        forall|u: RecordId, v: RecordId| edge(f, u, v) ==> #[trigger] edge(with_node(f, id), u, v),
{
    assert forall|u: RecordId, v: RecordId| edge(f, u, v) implies #[trigger] edge(with_node(f, id), u, v) by {
        if !f.contains_key(id) {
            assert(succ(with_node(f, id), u) == succ(f, u));
        }
    }
}

/// `k` wrapping increments of `e` add `k` when the sum fits.
proof fn lemma_bumped(e: usize, k: nat)
    requires
        e + k <= usize::MAX,
    ensures
        bumped(e, k) == e + k,
    decreases k,
{
    if k > 0 {
        lemma_bumped(e, (k - 1) as nat);
    }
}

/// Rebuilding the indexes from stored records finds each record again:
/// after indexing the entries in turn, every range enclosing an entry's
/// timestamp finds its id, each of its causes has an edge to it, the
/// timeline stays sorted, and the edge counter grows by the number of
/// causes of all entries (when that sum fits in a `usize`).
pub proof fn law_rebuild_finds_each(tl: Seq<Group>, f: Adjacency, e: usize, es: Seq<IndexEntry>)
    requires
        timeline_ok(tl),
    ensures
        timeline_ok(timeline_after(tl, es)),
        forall|k: int, from: i64, to: i64| 0 <= k < es.len() && from <= es[k].1 <= to
            ==> #[trigger] range_ids(timeline_after(tl, es), from, to).contains(es[k].0),
        forall|k: int, c: RecordId| 0 <= k < es.len() && es[k].2@.contains(c)
            ==> #[trigger] edge(fwd_after(f, es), c, es[k].0),
        e + total_causes(es) <= usize::MAX ==> edges_after(e, es) == e + total_causes(es),
    decreases es.len(),
{
    if es.len() > 0 {
        let d = es.drop_last();
        law_rebuild_finds_each(tl, f, e, d);
        let last = es.last();
        let t0 = timeline_after(tl, d);
        lemma_inserted_ok(t0, last.1, last.0);
        lemma_inserted_stamps(t0, last.1, last.0);
        let t1 = timeline_after(tl, es);
        assert forall|k: int, from: i64, to: i64| 0 <= k < es.len() && from <= es[k].1 <= to
            implies #[trigger] range_ids(t1, from, to).contains(es[k].0) by {
            if k < d.len() {
                assert(d[k] == es[k]);
                // found in the earlier timeline, hence held there, hence still held
                lemma_stamped_from_prefix(tl, d, k);
                assert(stamped(t1, es[k].0, es[k].1));
            } else {
                assert(stamped(t1, es[k].0, es[k].1));
            }
            lemma_stamped_in_range(t1, es[k].0, es[k].1, from, to);
        }
        let f0 = fwd_after(f, d);
        let w = with_effect(f0, last.2@, last.0);
        lemma_with_effect_edges(f0, last.2@, last.0);
        lemma_with_node_edges(w, last.0);
        assert forall|k: int, c: RecordId| 0 <= k < es.len() && es[k].2@.contains(c)
            implies #[trigger] edge(fwd_after(f, es), c, es[k].0) by {
            if k < d.len() {
                assert(d[k] == es[k]);
                assert(edge(f0, c, d[k].0));
                assert(edge(w, c, es[k].0));
            } else {
                assert(edge(w, c, last.0));
            }
        }
        if e + total_causes(es) <= usize::MAX {
            lemma_bumped(edges_after(e, d), last.2@.len());
        }
    }
}

/// Each entry indexed so far is held on the timeline at its timestamp.
proof fn lemma_stamped_from_prefix(tl: Seq<Group>, es: Seq<IndexEntry>, k: int)
    requires
        timeline_ok(tl),
        0 <= k < es.len(),
    ensures
        stamped(timeline_after(tl, es), es[k].0, es[k].1),
        timeline_ok(timeline_after(tl, es)),
    decreases es.len(),
{
    let d = es.drop_last();
    let last = es.last();
    if d.len() > 0 {
        lemma_timeline_after_ok(tl, d);
    }
    let t0 = timeline_after(tl, d);
    if d.len() == 0 {
        assert(t0 == tl);
    }
    lemma_inserted_ok(t0, last.1, last.0);
    lemma_inserted_stamps(t0, last.1, last.0);
    if k < d.len() {
        assert(d[k] == es[k]);
        lemma_stamped_from_prefix(tl, d, k);
    }
}

/// Indexing keeps the timeline sorted.
proof fn lemma_timeline_after_ok(tl: Seq<Group>, es: Seq<IndexEntry>)
    requires
        timeline_ok(tl),
    ensures
        timeline_ok(timeline_after(tl, es)),
    decreases es.len(),
{
    if es.len() > 0 {
        lemma_timeline_after_ok(tl, es.drop_last());
        lemma_inserted_ok(timeline_after(tl, es.drop_last()), es.last().1, es.last().0);
    }
}

} // verus!
