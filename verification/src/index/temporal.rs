//! An ordered index from logical timestamps (nanoseconds) to record ids.
//!
//! The timeline is a list of groups, one per timestamp, in increasing order
//! of timestamp; a group lists the ids inserted at its timestamp in the order
//! of insertion. A reverse map remembers, for each id, the timestamp it was
//! last inserted at, so that it can be removed again.

use vstd::prelude::*;
use crate::ext::dash::{StampMap, stamp_map_contents, stamp_map_new, stamp_map_insert, stamp_map_get, stamp_map_remove};
use crate::record::{RecordId, ids_equal};

verus! {

/// One timestamp and the ids inserted at it.
pub type Group = (i64, Seq<RecordId>);

/// Timestamps strictly increase along the timeline and no group is empty.
pub open spec fn timeline_ok(gs: Seq<Group>) -> bool {
    &&& forall|i: int, j: int| 0 <= i < j < gs.len() ==> gs[i].0 < gs[j].0
    &&& forall|i: int| 0 <= i < gs.len() ==> (#[trigger] gs[i]).1.len() > 0
}

/// The number of groups of a sorted timeline whose timestamp is below `x`:
/// the position of the first group at or after `x`.
pub open spec fn below(gs: Seq<Group>, x: int) -> int
    decreases gs.len(),
{
    if gs.len() == 0 {
        0
    } else if gs.last().0 < x {
        gs.len() as int
    } else {
        below(gs.drop_last(), x)
    }
}

/// The ids of the groups of `gs`, group after group.
pub open spec fn ids_of(gs: Seq<Group>) -> Seq<RecordId>
    decreases gs.len(),
{
    if gs.len() == 0 {
        Seq::empty()
    } else {
        ids_of(gs.drop_last()) + gs.last().1
    }
}

/// The first `n` entries of `s` (all of them when it has fewer).
pub open spec fn first_n(s: Seq<RecordId>, n: nat) -> Seq<RecordId> {
    if s.len() <= n { s } else { s.take(n as int) }
}

/// `s` without any occurrence of `x`, the rest in order.
pub open spec fn without(s: Seq<RecordId>, x: RecordId) -> Seq<RecordId>
    decreases s.len(),
{
    if s.len() == 0 {
        Seq::empty()
    } else if s.last() == x {
        without(s.drop_last(), x)
    } else {
        without(s.drop_last(), x).push(s.last())
    }
}

/// The ids at timestamps in `[from, to]`, in increasing order of timestamp
/// (none when `from > to`).
pub open spec fn range_ids(gs: Seq<Group>, from: i64, to: i64) -> Seq<RecordId> {
    if from > to {
        Seq::empty()
    } else {
        ids_of(gs.subrange(below(gs, from as int), below(gs, to + 1)))
    }
}

/// The ids at timestamps strictly after `ts`, in increasing order of
/// timestamp.
pub open spec fn after_ids(gs: Seq<Group>, ts: i64) -> Seq<RecordId> {
    ids_of(gs.subrange(below(gs, ts + 1), gs.len() as int))
}

/// The ids at timestamps strictly before `ts`, latest timestamp first; the
/// ids of one timestamp keep their order of insertion.
pub open spec fn before_ids(gs: Seq<Group>, ts: i64) -> Seq<RecordId> {
    ids_of(gs.subrange(0, below(gs, ts as int)).reverse())
}

/// The timeline after inserting `id` at `ts`: appended to the group of `ts`,
/// or in a new group at its place in the order.
pub open spec fn inserted(gs: Seq<Group>, ts: i64, id: RecordId) -> Seq<Group> {
    let p = below(gs, ts as int);
    if p < gs.len() && gs[p].0 == ts {
        gs.update(p, (ts, gs[p].1.push(id)))
    } else {
        gs.insert(p, (ts, seq![id]))
    }
}

/// The timeline with every occurrence of `id` taken out of every group; a
/// group left empty is dropped.
pub open spec fn purged(gs: Seq<Group>, id: RecordId) -> Seq<Group>
    decreases gs.len(),
{
    if gs.len() == 0 {
        Seq::empty()
    } else {
        let p = purged(gs.drop_last(), id);
        let rest = without(gs.last().1, id);
        if rest.len() == 0 { p } else { p.push((gs.last().0, rest)) }
    }
}

/// In a sorted timeline, `below` splits the groups under `x` from the others.
pub proof fn lemma_below(gs: Seq<Group>, x: int)
    requires
        timeline_ok(gs),
    ensures
        0 <= below(gs, x) <= gs.len(),
        forall|i: int| 0 <= i < below(gs, x) ==> gs[i].0 < x,
        forall|i: int| below(gs, x) <= i < gs.len() ==> gs[i].0 >= x,
    decreases gs.len(),
{
    if gs.len() > 0 {
        let d = gs.drop_last();
        assert(timeline_ok(d)) by {
            assert forall|i: int| 0 <= i < d.len() implies (#[trigger] d[i]).1.len() > 0 by {
                assert(d[i] == gs[i]);
            }
        }
        lemma_below(d, x);
        assert forall|i: int| 0 <= i < d.len() implies gs[i] == d[i] by {}
        if gs.last().0 >= x {
            assert forall|i: int| below(gs, x) <= i < gs.len() implies gs[i].0 >= x by {
                if i < gs.len() - 1 {
                    assert(gs[i] == d[i]);
                }
            }
        }
        if gs.last().0 < x {
            assert forall|i: int| 0 <= i < gs.len() implies gs[i].0 < x by {
                if i < gs.len() - 1 {
                    assert(gs[i].0 < gs[gs.len() - 1].0);
                }
            }
        }
    }
}

/// A split point of a sorted timeline at `x` is `below(gs, x)`.
pub proof fn lemma_below_unique(gs: Seq<Group>, x: int, b: int)
    requires
        timeline_ok(gs),
        0 <= b <= gs.len(),
        forall|i: int| 0 <= i < b ==> gs[i].0 < x,
        forall|i: int| b <= i < gs.len() ==> gs[i].0 >= x,
    ensures
        b == below(gs, x),
{
    lemma_below(gs, x);
    let c = below(gs, x);
    if b < c {
        assert(gs[b].0 < x);
    }
    if c < b {
        assert(gs[c].0 < x);
    }
}

/// The ids of a timeline with one more group at the end.
pub proof fn lemma_ids_of_push(gs: Seq<Group>, g: Group)
    ensures
        ids_of(gs.push(g)) == ids_of(gs) + g.1,
{
    assert(gs.push(g).drop_last() =~= gs);
}

/// The ids of two timelines one after the other.
pub proof fn lemma_ids_of_concat(a: Seq<Group>, b: Seq<Group>)
    ensures
        ids_of(a + b) == ids_of(a) + ids_of(b),
    decreases b.len(),
{
    if b.len() == 0 {
        assert(a + b =~= a);
        assert(ids_of(a) + ids_of(b) =~= ids_of(a));
    } else {
        let c = b.drop_last();
        lemma_ids_of_concat(a, c);
        assert((a + b).drop_last() =~= a + c);
        assert((a + b).last() == b.last());
        assert(ids_of(a + b) == ids_of(a + c) + b.last().1);
        assert(ids_of(b) == ids_of(c) + b.last().1);
        assert(ids_of(a) + ids_of(b) =~= (ids_of(a) + ids_of(c)) + b.last().1);
    }
}

/// Extending the window `[lo, k)` of a timeline by one group.
pub proof fn lemma_ids_of_step(gs: Seq<Group>, lo: int, k: int)
    requires
        0 <= lo <= k < gs.len(),
    ensures
        ids_of(gs.subrange(lo, k + 1)) == ids_of(gs.subrange(lo, k)) + gs[k].1,
{
    assert(gs.subrange(lo, k + 1) =~= gs.subrange(lo, k).push(gs[k]));
    lemma_ids_of_push(gs.subrange(lo, k), gs[k]);
}

/// Taking the first `n` of a sequence that grows by one.
pub proof fn lemma_first_n_push(s: Seq<RecordId>, x: RecordId, n: nat)
    ensures
        first_n(s.push(x), n) == (if s.len() < n { s.push(x) } else { first_n(s, n) }),
{
    if s.len() >= n {
        assert(s.push(x).take(n as int) =~= first_n(s, n));
    }
}

/// Once `a` has `n` entries, what follows it does not change its first `n`.
pub proof fn lemma_first_n_append(a: Seq<RecordId>, b: Seq<RecordId>, n: nat)
    requires
        a.len() >= n,
    ensures
        first_n(a + b, n) == first_n(a, n),
{
    assert((a + b).take(n as int) =~= a.take(n as int));
}

/// Inserting keeps a timeline sorted and free of empty groups.
pub proof fn lemma_inserted_ok(gs: Seq<Group>, ts: i64, id: RecordId)
    requires
        timeline_ok(gs),
    ensures
        timeline_ok(inserted(gs, ts, id)),
{
    lemma_below(gs, ts as int);
    let p = below(gs, ts as int);
    let ng = inserted(gs, ts, id);
    assert forall|i: int, j: int| 0 <= i < j < ng.len() implies ng[i].0 < ng[j].0 by {
        if ng.len() > gs.len() {
            if i < p && j > p { assert(gs[j - 1].0 >= ts); }
            if i < p && j < p { assert(ng[i] == gs[i] && ng[j] == gs[j]); }
            if i == p && j > p {
                assert(gs[j - 1].0 >= ts);
                if j - 1 > p { assert(gs[p].0 < gs[j - 1].0); }
            }
            if i > p { assert(ng[i] == gs[i - 1] && ng[j] == gs[j - 1]); }
        } else {
            assert(ng[i].0 == gs[i].0 && ng[j].0 == gs[j].0);
        }
    }
    assert forall|i: int| 0 <= i < ng.len() implies (#[trigger] ng[i]).1.len() > 0 by {
        if ng.len() > gs.len() {
            if i < p { assert(ng[i] == gs[i]); }
            if i > p { assert(ng[i] == gs[i - 1]); }
        } else if i != p {
            assert(ng[i] == gs[i]);
        }
    }
}

/// Inserting at `ts` does not move the place of `ts` in the timeline.
pub proof fn lemma_below_inserted(gs: Seq<Group>, ts: i64, id: RecordId)
    requires
        timeline_ok(gs),
    ensures
        below(inserted(gs, ts, id), ts as int) == below(gs, ts as int),
{
    lemma_below(gs, ts as int);
    lemma_inserted_ok(gs, ts, id);
    let ng = inserted(gs, ts, id);
    let p = below(gs, ts as int);
    assert forall|i: int| 0 <= i < p implies ng[i].0 < ts by {
        assert(ng[i] == gs[i]);
    }
    assert forall|i: int| p <= i < ng.len() implies ng[i].0 >= ts by {
        if ng.len() > gs.len() {
            if i > p { assert(ng[i] == gs[i - 1]); }
        } else if i != p {
            assert(ng[i] == gs[i]);
        }
    }
    lemma_below_unique(ng, ts as int, p);
}

/// An id of one group is among the ids of the timeline.
pub proof fn lemma_ids_of_contains(gs: Seq<Group>, k: int, x: RecordId)
    requires
        0 <= k < gs.len(),
        gs[k].1.contains(x),
    ensures
        ids_of(gs).contains(x),
    decreases gs.len(),
{
    let d = gs.drop_last();
    let a = ids_of(d);
    let j = choose|j: int| 0 <= j < gs[k].1.len() && gs[k].1[j] == x;
    if k == gs.len() - 1 {
        assert((a + gs.last().1)[a.len() + j] == x);
    } else {
        assert(d[k] == gs[k]);
        lemma_ids_of_contains(d, k, x);
        let i = choose|i: int| 0 <= i < a.len() && a[i] == x;
        assert((a + gs.last().1)[i] == x);
    }
}

/// Taking out an id that does not occur leaves a sequence as it is.
pub proof fn lemma_without_absent(s: Seq<RecordId>, x: RecordId)
    requires
        !s.contains(x),
    ensures
        without(s, x) == s,
    decreases s.len(),
{
    if s.len() > 0 {
        let d = s.drop_last();
        assert(!d.contains(x)) by {
            if d.contains(x) {
                let i = choose|i: int| 0 <= i < d.len() && d[i] == x;
                assert(s[i] == x);
            }
        }
        lemma_without_absent(d, x);
        assert(s.last() != x) by {
            assert(s[s.len() - 1] == s.last());
        }
        assert(d.push(s.last()) =~= s);
    }
}

/// Taking an id out of a timeline keeps it sorted and free of empty groups;
/// each group left has the timestamp of a group of the timeline.
pub proof fn lemma_purged_ok(gs: Seq<Group>, id: RecordId)
    requires
        timeline_ok(gs),
    ensures
        timeline_ok(purged(gs, id)),
        forall|a: int| 0 <= a < purged(gs, id).len() ==>
            exists|i: int| 0 <= i < gs.len() && (#[trigger] purged(gs, id)[a]).0 == gs[i].0,
    decreases gs.len(),
{
    if gs.len() > 0 {
        let d = gs.drop_last();
        assert(timeline_ok(d)) by {
            assert forall|i: int| 0 <= i < d.len() implies (#[trigger] d[i]).1.len() > 0 by {
                assert(d[i] == gs[i]);
            }
        }
        lemma_purged_ok(d, id);
        let p = purged(d, id);
        let rest = without(gs.last().1, id);
        assert forall|a: int| 0 <= a < p.len() implies p[a].0 < gs.last().0 by {
            let i = choose|i: int| 0 <= i < d.len() && p[a].0 == d[i].0;
            assert(gs[i].0 < gs[gs.len() - 1].0);
        }
        if rest.len() > 0 {
            let q = p.push((gs.last().0, rest));
            assert forall|a: int| 0 <= a < q.len() implies
                exists|i: int| 0 <= i < gs.len() && (#[trigger] q[a]).0 == gs[i].0 by {
                if a < p.len() {
                    let i = choose|i: int| 0 <= i < d.len() && p[a].0 == d[i].0;
                    assert(q[a].0 == gs[i].0);
                } else {
                    assert(q[a].0 == gs[gs.len() - 1].0);
                }
            }
            assert forall|i: int| 0 <= i < q.len() implies (#[trigger] q[i]).1.len() > 0 by {
                if i < p.len() { assert(q[i] == p[i]); }
            }
        } else {
            assert forall|a: int| 0 <= a < p.len() implies
                exists|i: int| 0 <= i < gs.len() && (#[trigger] p[a]).0 == gs[i].0 by {
                let i = choose|i: int| 0 <= i < d.len() && p[a].0 == d[i].0;
                assert(p[a].0 == gs[i].0);
            }
        }
    }
}

/// No occurrence of `x` is left in `without(s, x)`.
pub proof fn lemma_without_drops(s: Seq<RecordId>, x: RecordId)
    ensures
        !without(s, x).contains(x),
    decreases s.len(),
{
    if s.len() > 0 {
        lemma_without_drops(s.drop_last(), x);
        let w = without(s.drop_last(), x);
        if s.last() != x && w.push(s.last()).contains(x) {
            let i = choose|i: int| 0 <= i < w.push(s.last()).len() && w.push(s.last())[i] == x;
            assert(w[i] == x);
        }
    }
}

/// An id among the ids of a timeline is in one of its groups.
pub proof fn lemma_ids_of_member(gs: Seq<Group>, x: RecordId)
    requires
        ids_of(gs).contains(x),
    ensures
        exists|k: int| 0 <= k < gs.len() && (#[trigger] gs[k]).1.contains(x),
    decreases gs.len(),
{
    let d = gs.drop_last();
    let a = ids_of(d);
    let b = gs.last().1;
    let i = choose|i: int| 0 <= i < (a + b).len() && (a + b)[i] == x;
    if i < a.len() {
        assert(a[i] == x);
        lemma_ids_of_member(d, x);
        let k = choose|k: int| 0 <= k < d.len() && (#[trigger] d[k]).1.contains(x);
        assert(gs[k] == d[k]);
    } else {
        assert(b[i - a.len()] == x);
        assert(gs[gs.len() - 1].1.contains(x));
    }
}

/// Two timelines whose groups agree once `id` is taken out agree after the
/// purge.
proof fn lemma_purge_same(a: Seq<Group>, b: Seq<Group>, id: RecordId)
    requires
        a.len() == b.len(),
        forall|i: int| 0 <= i < a.len() ==> a[i].0 == b[i].0 && without(a[i].1, id) == without(b[i].1, id),
    ensures
        purged(a, id) == purged(b, id),
    decreases a.len(),
{
    if a.len() > 0 {
        lemma_purge_same(a.drop_last(), b.drop_last(), id);
        assert(a.last() == a[a.len() - 1] && b.last() == b[b.len() - 1]);
    }
}

/// A group with nothing but `id` disappears in the purge.
proof fn lemma_purge_skip(a: Seq<Group>, p: int, x: Group, id: RecordId)
    requires
        0 <= p <= a.len(),
        without(x.1, id).len() == 0,
    ensures
        purged(a.insert(p, x), id) == purged(a, id),
    decreases a.len(),
{
    if p == a.len() {
        assert(a.insert(p, x).drop_last() =~= a);
        assert(a.insert(p, x).last() == x);
    } else {
        lemma_purge_skip(a.drop_last(), p, x, id);
        assert(a.insert(p, x).drop_last() =~= a.drop_last().insert(p, x));
        assert(a.insert(p, x).last() == a.last());
    }
}

/// Purging a timeline that does not hold `id` changes nothing.
proof fn lemma_purge_absent(gs: Seq<Group>, id: RecordId)
    requires
        timeline_ok(gs),
        forall|k: int| 0 <= k < gs.len() ==> !(#[trigger] gs[k]).1.contains(id),
    ensures
        purged(gs, id) == gs,
    decreases gs.len(),
{
    if gs.len() > 0 {
        let d = gs.drop_last();
        assert(timeline_ok(d)) by {
            assert forall|i: int| 0 <= i < d.len() implies (#[trigger] d[i]).1.len() > 0 by {
                assert(d[i] == gs[i]);
            }
        }
        assert forall|k: int| 0 <= k < d.len() implies !(#[trigger] d[k]).1.contains(id) by {
            assert(d[k] == gs[k]);
        }
        lemma_purge_absent(d, id);
        assert(gs[gs.len() - 1] == gs.last());
        lemma_without_absent(gs.last().1, id);
        assert(d.push(gs.last()) =~= gs);
    }
}

/// An ordered index from timestamps to record ids.
pub struct TemporalIndex {
    groups: Vec<(i64, Vec<RecordId>)>,
    reverse: StampMap,
}

impl TemporalIndex {
    /// The timeline: each timestamp with the ids inserted at it.
    pub closed spec fn timeline(&self) -> Seq<Group> {
        self.groups@.map_values(|g: (i64, Vec<RecordId>)| (g.0, g.1@))
    }

    /// For each indexed id, the timestamp it was last inserted at.
    pub closed spec fn stamps(&self) -> Map<RecordId, i64> {
        stamp_map_contents(self.reverse)
    }

    /// The index is well formed: its timeline is sorted and has no empty group.
    pub open spec fn wf(&self) -> bool {
        timeline_ok(self.timeline())
    }

    /// An empty index.
    pub fn new() -> (r: Self)
        ensures
            r.wf(),
            r.timeline() == Seq::<Group>::empty(),
            r.stamps().is_empty(),
    {
        let r = TemporalIndex { groups: Vec::new(), reverse: stamp_map_new() };
        proof {
            assert(r.timeline() =~= Seq::<Group>::empty());
        }
        r
    }

    /// The position of the first group whose timestamp is at or after `x`
    /// (after `x` when `past`), found by binary search.
    fn bound(&self, x: i64, past: bool) -> (r: usize)
        requires
            self.wf(),
        ensures
            r == below(self.timeline(), if past { x + 1 } else { x as int }),
    {
        let ghost gs = self.timeline();
        let ghost y: int = if past { x + 1 } else { x as int };
        let mut lo: usize = 0;
        let mut hi: usize = self.groups.len();
        while lo < hi
            invariant
                gs == self.timeline(),
                timeline_ok(gs),
                gs.len() == self.groups.len(),
                y == (if past { x + 1 } else { x as int }),
                lo <= hi <= self.groups.len(),
                forall|j: int| 0 <= j < lo ==> gs[j].0 < y,
                forall|j: int| hi <= j < gs.len() ==> gs[j].0 >= y,
            decreases hi - lo,
        {
            let mid = lo + (hi - lo) / 2;
            let t = self.groups[mid].0;
            assert(gs[mid as int].0 == t);
            if (past && t > x) || (!past && t >= x) {
                proof {
                    assert forall|j: int| mid <= j < gs.len() implies gs[j].0 >= y by {
                        if mid < j {
                            assert(gs[mid as int].0 < gs[j].0);
                        }
                    }
                }
                hi = mid;
            } else {
                proof {
                    assert forall|j: int| 0 <= j <= mid implies gs[j].0 < y by {
                        if j < mid {
                            assert(gs[j].0 < gs[mid as int].0);
                        }
                    }
                }
                lo = mid + 1;
            }
        }
        proof {
            lemma_below_unique(gs, y, lo as int);
        }
        lo
    }

    /// Indexes `id` at `timestamp_ns`: the id joins the end of the group of
    /// that timestamp (a new group when there is none), and the reverse map
    /// binds it to the timestamp.
    pub fn insert(&mut self, timestamp_ns: i64, id: RecordId)
        requires
            old(self).wf(),
        ensures
            final(self).wf(),
            final(self).timeline() == inserted(old(self).timeline(), timestamp_ns, id),
            final(self).stamps() == old(self).stamps().insert(id, timestamp_ns),
    {
        stamp_map_insert(&mut self.reverse, id, timestamp_ns);
        let ghost gs = self.timeline();
        let p = self.bound(timestamp_ns, false);
        proof {
            lemma_below(gs, timestamp_ns as int);
        }
        if p < self.groups.len() && self.groups[p].0 == timestamp_ns {
            let (t, mut ids) = self.groups.remove(p);
            ids.push(id);
            self.groups.insert(p, (t, ids));
            proof {
                assert(self.timeline() =~= gs.update(p as int, (timestamp_ns, gs[p as int].1.push(id))));
            }
        } else {
            let mut ids: Vec<RecordId> = Vec::new();
            ids.push(id);
            self.groups.insert(p, (timestamp_ns, ids));
            proof {
                assert(ids@ =~= seq![id]);
                assert(self.timeline() =~= gs.insert(p as int, (timestamp_ns, seq![id])));
            }
        }
        proof {
            lemma_inserted_ok(gs, timestamp_ns, id);
        }
    }

    /// Appends the ids of `ids` to `out` while `out` has fewer than `limit`:
    /// if `out` holds the first `limit` of `s`, it ends holding the first
    /// `limit` of `s` followed by `ids`.
    fn push_first(out: &mut Vec<RecordId>, ids: &Vec<RecordId>, limit: usize, Ghost(s): Ghost<Seq<RecordId>>)
        requires
            old(out)@ == first_n(s, limit as nat),
        ensures
            final(out)@ == first_n(s + ids@, limit as nat),
    {
        let mut j: usize = 0;
        proof {
            assert(s + ids@.take(0) =~= s);
        }
        while j < ids.len() && out.len() < limit
            invariant
                j <= ids.len(),
                out@ == first_n(s + ids@.take(j as int), limit as nat),
            decreases ids.len() - j,
        {
            proof {
                assert(ids@.take(j + 1) =~= ids@.take(j as int).push(ids@[j as int]));
                assert(s + ids@.take(j + 1) =~= (s + ids@.take(j as int)).push(ids@[j as int]));
                lemma_first_n_push(s + ids@.take(j as int), ids@[j as int], limit as nat);
            }
            out.push(ids[j]);
            j = j + 1;
        }
        proof {
            if j < ids.len() {
                assert(s + ids@ =~= (s + ids@.take(j as int)) + ids@.skip(j as int));
                lemma_first_n_append(s + ids@.take(j as int), ids@.skip(j as int), limit as nat);
            } else {
                assert(ids@.take(j as int) =~= ids@);
            }
        }
    }

    /// The first `limit` ids of the groups `lo..hi`, in order.
    fn collect_up(&self, lo: usize, hi: usize, limit: usize) -> (r: Vec<RecordId>)
        requires
            lo <= hi <= self.timeline().len(),
        ensures
            r@ == first_n(ids_of(self.timeline().subrange(lo as int, hi as int)), limit as nat),
    {
        let ghost gs = self.timeline();
        let mut out: Vec<RecordId> = Vec::new();
        let mut k = lo;
        proof {
            assert(gs.subrange(lo as int, lo as int) =~= Seq::<Group>::empty());
        }
        while k < hi && out.len() < limit
            invariant
                gs == self.timeline(),
                gs.len() == self.groups.len(),
                lo <= k <= hi <= gs.len(),
                out@ == first_n(ids_of(gs.subrange(lo as int, k as int)), limit as nat),
            decreases hi - k,
        {
            let ghost before = ids_of(gs.subrange(lo as int, k as int));
            let ids = &self.groups[k as usize].1;
            assert(ids@ == gs[k as int].1);
            Self::push_first(&mut out, ids, limit, Ghost(before));
            proof {
                lemma_ids_of_step(gs, lo as int, k as int);
            }
            k = k + 1;
        }
        proof {
            if k < hi {
                let a = gs.subrange(lo as int, k as int);
                let b = gs.subrange(k as int, hi as int);
                assert(gs.subrange(lo as int, hi as int) =~= a + b);
                lemma_ids_of_concat(a, b);
                lemma_first_n_append(ids_of(a), ids_of(b), limit as nat);
            }
        }
        out
    }

    /// The ids at timestamps in `[from_ns, to_ns]`, at most `limit` of them,
    /// in increasing order of timestamp and, within one timestamp, in the
    /// order of insertion; none when the interval is reversed.
    pub fn range(&self, from_ns: i64, to_ns: i64, limit: usize) -> (r: Vec<RecordId>)
        requires
            self.wf(),
        ensures
            r@ == first_n(range_ids(self.timeline(), from_ns, to_ns), limit as nat),
    {
        if from_ns > to_ns {
            return Vec::new();
        }
        let lo = self.bound(from_ns, false);
        let hi = self.bound(to_ns, true);
        proof {
            lemma_below(self.timeline(), from_ns as int);
            lemma_below(self.timeline(), to_ns + 1);
            let gs = self.timeline();
            if hi < lo {
                assert(gs[hi as int].0 >= to_ns + 1 && gs[hi as int].0 < from_ns);
            }
        }
        self.collect_up(lo, hi, limit)
    }

    /// The first `n` ids at timestamps strictly after `timestamp_ns`, in
    /// increasing order of timestamp.
    pub fn after(&self, timestamp_ns: i64, n: usize) -> (r: Vec<RecordId>)
        requires
            self.wf(),
        ensures
            r@ == first_n(after_ids(self.timeline(), timestamp_ns), n as nat),
    {
        let lo = self.bound(timestamp_ns, true);
        proof {
            lemma_below(self.timeline(), timestamp_ns + 1);
        }
        self.collect_up(lo, self.groups.len(), n)
    }

    /// The first `n` ids at timestamps strictly before `timestamp_ns`, the
    /// latest timestamp first (the ids of one timestamp in their order of
    /// insertion).
    pub fn before(&self, timestamp_ns: i64, n: usize) -> (r: Vec<RecordId>)
        requires
            self.wf(),
        ensures
            r@ == first_n(before_ids(self.timeline(), timestamp_ns), n as nat),
    {
        let ghost gs = self.timeline();
        let hi = self.bound(timestamp_ns, false);
        proof {
            lemma_below(gs, timestamp_ns as int);
            assert(gs.subrange(hi as int, hi as int).reverse() =~= Seq::<Group>::empty());
        }
        let mut out: Vec<RecordId> = Vec::new();
        let mut k = hi;
        while k > 0 && out.len() < n
            invariant
                gs == self.timeline(),
                gs.len() == self.groups.len(),
                k <= hi <= gs.len(),
                out@ == first_n(ids_of(gs.subrange(k as int, hi as int).reverse()), n as nat),
            decreases k,
        {
            let ghost before = ids_of(gs.subrange(k as int, hi as int).reverse());
            let ids = &self.groups[k - 1].1;
            assert(ids@ == gs[k - 1].1);
            Self::push_first(&mut out, ids, n, Ghost(before));
            proof {
                let cur = gs.subrange(k as int, hi as int).reverse();
                assert(gs.subrange(k - 1, hi as int).reverse() =~= cur.push(gs[k - 1]));
                lemma_ids_of_push(cur, gs[k - 1]);
            }
            k = k - 1;
        }
        proof {
            if k > 0 {
                let a = gs.subrange(k as int, hi as int).reverse();
                let b = gs.subrange(0, k as int).reverse();
                assert(gs.subrange(0, hi as int).reverse() =~= a + b);
                lemma_ids_of_concat(a, b);
                lemma_first_n_append(ids_of(a), ids_of(b), n as nat);
            } else {
                assert(gs.subrange(0, hi as int) =~= gs.subrange(k as int, hi as int));
            }
        }
        out
    }

    /// The entries of `ids` other than `id`, in order.
    fn others(ids: &Vec<RecordId>, id: &RecordId) -> (r: Vec<RecordId>)
        ensures
            r@ == without(ids@, *id),
    {
        let mut out: Vec<RecordId> = Vec::new();
        let mut j: usize = 0;
        proof {
            assert(ids@.take(0) =~= Seq::<RecordId>::empty());
        }
        while j < ids.len()
            invariant
                j <= ids.len(),
                out@ == without(ids@.take(j as int), *id),
            decreases ids.len() - j,
        {
            proof {
                let t = ids@.take(j + 1);
                assert(t.drop_last() =~= ids@.take(j as int));
                assert(t.last() == ids@[j as int]);
            }
            if !ids_equal(&ids[j], id) {
                out.push(ids[j]);
            }
            j = j + 1;
        }
        proof {
            assert(ids@.take(j as int) =~= ids@);
        }
        out
    }

    /// Takes `id` out of the index: the reverse map forgets it, and every
    /// occurrence of it leaves every group (a group left empty goes). An id
    /// that is not indexed leaves the timeline as it is.
    pub fn remove(&mut self, id: &RecordId)
        requires
            old(self).wf(),
        ensures
            final(self).wf(),
            final(self).stamps() == old(self).stamps().remove(*id),
            final(self).timeline() == purged(old(self).timeline(), *id),
    {
        let ghost gs = self.timeline();
        stamp_map_remove(&mut self.reverse, id);
        let ghost st = self.stamps();
        let mut old_groups: Vec<(i64, Vec<RecordId>)> = Vec::new();
        std::mem::swap(&mut old_groups, &mut self.groups);
        proof {
            assert(old_groups@.map_values(|g: (i64, Vec<RecordId>)| (g.0, g.1@)) == gs);
            assert(gs.take(0) =~= Seq::<Group>::empty());
            assert(self.groups@.map_values(|g: (i64, Vec<RecordId>)| (g.0, g.1@)) =~= Seq::<Group>::empty());
        }
        let ghost all = old_groups@;
        for g in it: old_groups.into_iter()
            invariant
                it.seq() == all,
                self.stamps() == st,
                all.map_values(|g: (i64, Vec<RecordId>)| (g.0, g.1@)) == gs,
                self.groups@.map_values(|g: (i64, Vec<RecordId>)| (g.0, g.1@)) == purged(gs.take(it.index() as int), *id),
        {
            let ghost prev = self.groups@;
            proof {
                let t = gs.take(it.index() + 1);
                assert(t.drop_last() =~= gs.take(it.index() as int));
                assert(t.last() == gs[it.index() as int]);
                assert(gs[it.index() as int] == (g.0, g.1@));
            }
            let rest = Self::others(&g.1, id);
            if rest.len() > 0 {
                self.groups.push((g.0, rest));
                proof {
                    assert(self.groups@.map_values(|g: (i64, Vec<RecordId>)| (g.0, g.1@))
                        =~= prev.map_values(|g: (i64, Vec<RecordId>)| (g.0, g.1@)).push((g.0, without(g.1@, *id))));
                }
            }
        }
        proof {
            assert(gs.take(gs.len() as int) =~= gs);
            lemma_purged_ok(gs, *id);
        }
    }

    /// The timestamp `id` was last inserted at, if it is indexed.
    pub fn timestamp_of(&self, id: &RecordId) -> (r: Option<i64>)
        ensures
            r == (if self.stamps().contains_key(*id) { Some(self.stamps()[*id]) } else { None }),
    {
        stamp_map_get(&self.reverse, id)
    }

    /// The number of distinct timestamps in the index.
    pub fn len(&self) -> (r: usize)
        ensures
            r == self.timeline().len(),
    {
        self.groups.len()
    }

    /// Whether no timestamp is indexed.
    pub fn is_empty(&self) -> (r: bool)
        ensures
            r == (self.timeline().len() == 0),
    {
        self.groups.len() == 0
    }
}


impl Default for TemporalIndex {
    /// An empty index.
    fn default() -> (r: Self)
        ensures
            r.wf(),
            r.timeline() == Seq::<Group>::empty(),
            r.stamps().is_empty(),
    {
        Self::new()
    }
}

/// Read after write: once `id` is inserted at `ts`, every range query whose
/// bounds enclose `ts` finds it.
pub proof fn law_insert_then_range(gs: Seq<Group>, ts: i64, id: RecordId, from: i64, to: i64)
    requires
        timeline_ok(gs),
        from <= ts <= to,
    ensures
        range_ids(inserted(gs, ts, id), from, to).contains(id),
{
    lemma_below(gs, ts as int);
    lemma_inserted_ok(gs, ts, id);
    let ng = inserted(gs, ts, id);
    let p = below(gs, ts as int);
    lemma_below(ng, from as int);
    lemma_below(ng, to + 1);
    let lo = below(ng, from as int);
    let hi = below(ng, to + 1);
    assert(ng[p].0 == ts);
    assert(lo <= p) by {
        if p < lo { assert(ng[p].0 < from); }
    }
    assert(p < hi) by {
        if hi <= p { assert(ng[p].0 >= to + 1); }
    }
    let w = ng.subrange(lo, hi);
    assert(w[p - lo] == ng[p]);
    if p < gs.len() && gs[p].0 == ts {
        assert(ng[p].1 == gs[p].1.push(id));
        assert(ng[p].1[gs[p].1.len() as int] == id);
    } else {
        assert(ng[p].1 == seq![id]);
        assert(ng[p].1[0] == id);
    }
    lemma_ids_of_contains(w, p - lo, id);
}

/// Removing after inserting is removing: inserting `id` and then taking
/// it out leaves what taking it out alone leaves.
pub proof fn law_remove_after_insert(gs: Seq<Group>, ts: i64, id: RecordId)
    requires
        timeline_ok(gs),
    ensures
        purged(inserted(gs, ts, id), id) == purged(gs, id),
{
    lemma_below(gs, ts as int);
    let p = below(gs, ts as int);
    if p < gs.len() && gs[p].0 == ts {
        let g = gs[p].1;
        let b = gs.update(p, (ts, g.push(id)));
        assert(g.push(id).drop_last() =~= g);
        assert(without(g.push(id), id) == without(g, id));
        lemma_purge_same(b, gs, id);
    } else {
        let one = seq![id];
        assert(one.drop_last() =~= Seq::<RecordId>::empty());
        assert(without(one, id) == without(one.drop_last(), id));
        lemma_purge_skip(gs, p, (ts, one), id);
    }
}

/// Removing an id undoes inserting it, when the timeline did not hold it
/// before.
pub proof fn law_remove_undoes_insert(gs: Seq<Group>, ts: i64, id: RecordId)
    requires
        timeline_ok(gs),
        !ids_of(gs).contains(id),
    ensures
        purged(inserted(gs, ts, id), id) == gs,
{
    law_remove_after_insert(gs, ts, id);
    assert forall|k: int| 0 <= k < gs.len() implies !(#[trigger] gs[k]).1.contains(id) by {
        if gs[k].1.contains(id) {
            lemma_ids_of_contains(gs, k, id);
        }
    }
    lemma_purge_absent(gs, id);
}

/// Once removed, an id is found by no range query.
pub proof fn law_removed_id_gone(gs: Seq<Group>, id: RecordId, from: i64, to: i64)
    requires
        timeline_ok(gs),
    ensures
        !range_ids(purged(gs, id), from, to).contains(id),
{
    if from <= to {
        let pg = purged(gs, id);
        lemma_purged_ok(gs, id);
        lemma_below(pg, from as int);
        lemma_below(pg, to + 1);
        let lo = below(pg, from as int);
        let hi = below(pg, to + 1);
        if hi < lo {
            assert(pg[hi].0 >= to + 1 && pg[hi].0 < from);
        }
        let w = pg.subrange(lo, hi);
        if ids_of(w).contains(id) {
            lemma_ids_of_member(w, id);
            let k = choose|k: int| 0 <= k < w.len() && (#[trigger] w[k]).1.contains(id);
            lemma_purged_group(gs, id, lo + k);
            assert(w[k] == pg[lo + k]);
        }
    }
}

/// Every group of a purged timeline is without `id`.
proof fn lemma_purged_group(gs: Seq<Group>, id: RecordId, a: int)
    requires
        0 <= a < purged(gs, id).len(),
    ensures
        !purged(gs, id)[a].1.contains(id),
    decreases gs.len(),
{
    let d = gs.drop_last();
    let p = purged(d, id);
    if a < p.len() {
        lemma_purged_group(d, id, a);
    } else {
        lemma_without_drops(gs.last().1, id);
    }
}

/// Taking an id out leaves a sequence's other ids as they were.
proof fn lemma_without_other(s: Seq<RecordId>, x: RecordId, y: RecordId)
    requires
        x != y,
    ensures
        without(s, x).contains(y) == s.contains(y),
    decreases s.len(),
{
    if s.len() > 0 {
        let d = s.drop_last();
        lemma_without_other(d, x, y);
        let w = without(d, x);
        if d.contains(y) {
            let i = choose|i: int| 0 <= i < d.len() && d[i] == y;
            assert(s[i] == y);
        }
        if s.contains(y) && !d.contains(y) {
            let i = choose|i: int| 0 <= i < s.len() && s[i] == y;
            if i < s.len() - 1 {
                assert(d[i] == y);
            }
            assert(s.last() == y);
            assert(w.push(y)[w.len() as int] == y);
        }
        if s.last() != x && w.push(s.last()).contains(y) && !w.contains(y) {
            let i = choose|i: int| 0 <= i < w.len() + 1 && w.push(s.last())[i] == y;
            assert(i == w.len());
            assert(s[s.len() - 1] == y);
        }
        if s.last() != x && w.contains(y) {
            let i = choose|i: int| 0 <= i < w.len() && w[i] == y;
            assert(w.push(s.last())[i] == y);
        }
    }
}

/// Removing an id leaves every other id where it was: it is found at a
/// timestamp after the removal exactly when it was found there before.
pub proof fn law_remove_keeps_others(gs: Seq<Group>, id: RecordId, other: RecordId, t: i64)
    requires
        timeline_ok(gs),
        other != id,
    ensures
        (exists|k: int| 0 <= k < purged(gs, id).len() && purged(gs, id)[k].0 == t && (#[trigger] purged(gs, id)[k]).1.contains(other))
            <==> (exists|k: int| 0 <= k < gs.len() && gs[k].0 == t && (#[trigger] gs[k]).1.contains(other)),
    decreases gs.len(),
{
    if gs.len() > 0 {
        let d = gs.drop_last();
        assert(timeline_ok(d)) by {
            assert forall|i: int| 0 <= i < d.len() implies (#[trigger] d[i]).1.len() > 0 by {
                assert(d[i] == gs[i]);
            }
        }
        law_remove_keeps_others(d, id, other, t);
        let p = purged(d, id);
        let l = gs.last();
        let rest = without(l.1, id);
        lemma_without_other(l.1, id, other);
        let q = purged(gs, id);
        if exists|k: int| 0 <= k < q.len() && q[k].0 == t && (#[trigger] q[k]).1.contains(other) {
            let k = choose|k: int| 0 <= k < q.len() && q[k].0 == t && (#[trigger] q[k]).1.contains(other);
            if k < p.len() {
                assert(q[k] == p[k]);
                let k2 = choose|k2: int| 0 <= k2 < d.len() && d[k2].0 == t && (#[trigger] d[k2]).1.contains(other);
                assert(gs[k2] == d[k2]);
            } else {
                assert(q[k] == (l.0, rest));
                assert(gs[gs.len() - 1] == l);
            }
        }
        if exists|k: int| 0 <= k < gs.len() && gs[k].0 == t && (#[trigger] gs[k]).1.contains(other) {
            let k = choose|k: int| 0 <= k < gs.len() && gs[k].0 == t && (#[trigger] gs[k]).1.contains(other);
            if k < d.len() {
                assert(d[k] == gs[k]);
                let k2 = choose|k2: int| 0 <= k2 < p.len() && p[k2].0 == t && (#[trigger] p[k2]).1.contains(other);
                if rest.len() > 0 {
                    assert(q[k2] == p[k2]);
                } else {
                    assert(q == p);
                }
            } else {
                assert(gs[k] == l);
                assert(rest.contains(other));
                assert(rest.len() > 0);
                assert(q[p.len() as int] == (l.0, rest));
            }
        }
    }
}

} // verus!

verus! {

/// An id is among the ids of a timeline exactly when one of its groups holds it.
proof fn lemma_ids_of_members(gs: Seq<Group>, x: RecordId)
    ensures
        ids_of(gs).contains(x) <==> exists|k: int| 0 <= k < gs.len() && (#[trigger] gs[k]).1.contains(x),
{
    if ids_of(gs).contains(x) {
        lemma_ids_of_member(gs, x);
    }
    if exists|k: int| 0 <= k < gs.len() && (#[trigger] gs[k]).1.contains(x) {
        let k = choose|k: int| 0 <= k < gs.len() && (#[trigger] gs[k]).1.contains(x);
        lemma_ids_of_contains(gs, k, x);
    }
}

/// The ids of the groups `lo..hi` of a timeline are those held by a group
/// there.
proof fn lemma_window_members(gs: Seq<Group>, lo: int, hi: int, x: RecordId)
    requires
        0 <= lo <= hi <= gs.len(),
    ensures
        ids_of(gs.subrange(lo, hi)).contains(x)
            <==> exists|k: int| lo <= k < hi && (#[trigger] gs[k]).1.contains(x),
{
    let w = gs.subrange(lo, hi);
    lemma_ids_of_members(w, x);
    if exists|k: int| 0 <= k < w.len() && (#[trigger] w[k]).1.contains(x) {
        let k = choose|k: int| 0 <= k < w.len() && (#[trigger] w[k]).1.contains(x);
        assert(w[k] == gs[lo + k]);
    }
    if exists|k: int| lo <= k < hi && (#[trigger] gs[k]).1.contains(x) {
        let k = choose|k: int| lo <= k < hi && (#[trigger] gs[k]).1.contains(x);
        assert(w[k - lo] == gs[k]);
    }
}

/// A range query finds exactly the ids held at a timestamp in `[from, to]`.
pub proof fn law_range_members(gs: Seq<Group>, from: i64, to: i64, x: RecordId)
    requires
        timeline_ok(gs),
    ensures
        range_ids(gs, from, to).contains(x)
            <==> exists|k: int| 0 <= k < gs.len() && from <= gs[k].0 <= to && (#[trigger] gs[k]).1.contains(x),
{
    if from <= to {
        lemma_below(gs, from as int);
        lemma_below(gs, to + 1);
        let lo = below(gs, from as int);
        let hi = below(gs, to + 1);
        assert(lo <= hi) by {
            if hi < lo {
                assert(gs[hi].0 < to + 1);
            }
        }
        lemma_window_members(gs, lo, hi, x);
        if exists|k: int| 0 <= k < gs.len() && from <= gs[k].0 <= to && (#[trigger] gs[k]).1.contains(x) {
            let k = choose|k: int| 0 <= k < gs.len() && from <= gs[k].0 <= to && (#[trigger] gs[k]).1.contains(x);
            assert(lo <= k) by {
                if k < lo { assert(gs[k].0 < from); }
            }
            assert(k < hi) by {
                if hi <= k { assert(gs[k].0 >= to + 1); }
            }
        }
    }
}

/// `after` finds exactly the ids held at a timestamp later than `ts`.
pub proof fn law_after_members(gs: Seq<Group>, ts: i64, x: RecordId)
    requires
        timeline_ok(gs),
    ensures
        after_ids(gs, ts).contains(x)
            <==> exists|k: int| 0 <= k < gs.len() && gs[k].0 > ts && (#[trigger] gs[k]).1.contains(x),
{
    lemma_below(gs, ts + 1);
    let lo = below(gs, ts + 1);
    lemma_window_members(gs, lo, gs.len() as int, x);
    if exists|k: int| 0 <= k < gs.len() && gs[k].0 > ts && (#[trigger] gs[k]).1.contains(x) {
        let k = choose|k: int| 0 <= k < gs.len() && gs[k].0 > ts && (#[trigger] gs[k]).1.contains(x);
        assert(lo <= k) by {
            if k < lo { assert(gs[k].0 < ts + 1); }
        }
    }
}

/// `before` finds exactly the ids held at a timestamp earlier than `ts`.
pub proof fn law_before_members(gs: Seq<Group>, ts: i64, x: RecordId)
    requires
        timeline_ok(gs),
    ensures
        before_ids(gs, ts).contains(x)
            <==> exists|k: int| 0 <= k < gs.len() && gs[k].0 < ts && (#[trigger] gs[k]).1.contains(x),
{
    lemma_below(gs, ts as int);
    let hi = below(gs, ts as int);
    let w = gs.subrange(0, hi);
    let rw = w.reverse();
    lemma_ids_of_members(rw, x);
    if exists|k: int| 0 <= k < rw.len() && (#[trigger] rw[k]).1.contains(x) {
        let k = choose|k: int| 0 <= k < rw.len() && (#[trigger] rw[k]).1.contains(x);
        assert(rw[k] == gs[hi - 1 - k]);
    }
    if exists|k: int| 0 <= k < gs.len() && gs[k].0 < ts && (#[trigger] gs[k]).1.contains(x) {
        let k = choose|k: int| 0 <= k < gs.len() && gs[k].0 < ts && (#[trigger] gs[k]).1.contains(x);
        assert(k < hi) by {
            if hi <= k { assert(gs[k].0 >= ts); }
        }
        assert(rw[hi - 1 - k] == gs[k]);
    }
}

/// Filtering keeps exactly a window `lo..hi` when the predicate holds
/// there and nowhere else.
proof fn lemma_filter_window(s: Seq<Group>, p: spec_fn(Group) -> bool, lo: int, hi: int)
    requires
        0 <= lo <= hi <= s.len(),
        forall|k: int| 0 <= k < s.len() ==> (p(#[trigger] s[k]) <==> lo <= k < hi),
    ensures
        s.filter(p) == s.subrange(lo, hi),
    decreases s.len(),
{
    reveal(Seq::filter);
    if s.len() > 0 {
        let d = s.drop_last();
        let n = s.len() - 1;
        assert forall|k: int| 0 <= k < d.len() implies d[k] == s[k] by {}
        assert(s[n] == s.last());
        if lo <= n && n < hi {
            lemma_filter_window(d, p, lo, n);
            assert(s.subrange(lo, hi) =~= d.subrange(lo, n).push(s.last()));
        } else if hi <= n {
            lemma_filter_window(d, p, lo, hi);
            assert(s.subrange(lo, hi) =~= d.subrange(lo, hi));
        } else {
            lemma_filter_window(d, p, n, n);
            assert(s.subrange(lo, hi) =~= d.subrange(n, n));
        }
    } else {
        assert(s.subrange(lo, hi) =~= s);
    }
}

/// The ids of a timeline are its groups' ids, group after group.
pub proof fn law_ids_of_flatten(gs: Seq<Group>)
    ensures
        ids_of(gs) == gs.map_values(|g: Group| g.1).flatten(),
    decreases gs.len(),
{
    let m = gs.map_values(|g: Group| g.1);
    m.lemma_flatten_and_flatten_alt_are_equivalent();
    if gs.len() > 0 {
        law_ids_of_flatten(gs.drop_last());
        let md = gs.drop_last().map_values(|g: Group| g.1);
        md.lemma_flatten_and_flatten_alt_are_equivalent();
        assert(m.drop_last() =~= md);
        assert(m.last() == gs.last().1);
    } else {
        assert(m.flatten_alt() == Seq::<RecordId>::empty());
    }
}

/// A range query gives the ids of the groups whose timestamp lies in
/// `[from, to]`, in the timeline's order.
pub proof fn law_range_is_filter(gs: Seq<Group>, from: i64, to: i64)
    requires
        timeline_ok(gs),
    ensures
        range_ids(gs, from, to) == ids_of(gs.filter(|g: Group| from <= g.0 && g.0 <= to)),
{
    let p = |g: Group| from <= g.0 && g.0 <= to;
    if from <= to {
        lemma_below(gs, from as int);
        lemma_below(gs, to + 1);
        let lo = below(gs, from as int);
        let hi = below(gs, to + 1);
        assert(lo <= hi) by {
            if hi < lo {
                assert(gs[hi].0 < to + 1);
            }
        }
        lemma_filter_window(gs, p, lo, hi);
    } else {
        lemma_filter_window(gs, p, 0, 0);
        assert(gs.subrange(0, 0) =~= Seq::<Group>::empty());
        assert(ids_of(Seq::<Group>::empty()) == Seq::<RecordId>::empty());
    }
}

/// `after` gives the ids of the groups whose timestamp is later than `ts`,
/// in the timeline's order.
pub proof fn law_after_is_filter(gs: Seq<Group>, ts: i64)
    requires
        timeline_ok(gs),
    ensures
        after_ids(gs, ts) == ids_of(gs.filter(|g: Group| g.0 > ts)),
{
    let p = |g: Group| g.0 > ts;
    lemma_below(gs, ts + 1);
    lemma_filter_window(gs, p, below(gs, ts + 1), gs.len() as int);
}

/// `before` gives the ids of the groups whose timestamp is earlier than
/// `ts`, latest group first.
pub proof fn law_before_is_filter(gs: Seq<Group>, ts: i64)
    requires
        timeline_ok(gs),
    ensures
        before_ids(gs, ts) == ids_of(gs.filter(|g: Group| g.0 < ts).reverse()),
{
    let p = |g: Group| g.0 < ts;
    lemma_below(gs, ts as int);
    lemma_filter_window(gs, p, 0, below(gs, ts as int));
}

/// A limit keeps the first `n` ids, or all of them when there are fewer.
pub proof fn law_first_n(s: Seq<RecordId>, n: nat)
    ensures
        first_n(s, n).len() == (if s.len() < n { s.len() } else { n }),
        forall|i: int| 0 <= i < first_n(s, n).len() ==> #[trigger] first_n(s, n)[i] == s[i],
{
}

} // verus!
