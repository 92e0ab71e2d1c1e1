//! A causal DAG: an edge `a -> b` means that record `a` caused record `b`.
//! The graph keeps both directions, so that it can be walked forward (to
//! effects) and backward (to causes).

use vstd::prelude::*;
use crate::ext::dash::{AdjMap, adj_contents, adj_new, adj_ensure, adj_append, adj_get, adj_keys, adj_contains};
use crate::record::{RecordId, contains_id, ids_equal};

verus! {

/// Adjacency lists: each key's list of neighbours (with repetitions).
pub type Adjacency = Map<RecordId, Seq<RecordId>>;

/// The neighbours of `u` (none when `u` is not a key).
pub open spec fn succ(g: Adjacency, u: RecordId) -> Seq<RecordId> {
    if g.contains_key(u) { g[u] } else { Seq::empty() }
}

/// Whether `g` has an edge from `u` to `v`.
pub open spec fn edge(g: Adjacency, u: RecordId, v: RecordId) -> bool {
    succ(g, u).contains(v)
}

/// Whether `p` is a walk in `g`: consecutive entries are joined by edges.
pub open spec fn is_walk(g: Adjacency, p: Seq<RecordId>) -> bool {
    forall|i: int| 0 <= i < p.len() - 1 ==> #[trigger] edge(g, p[i], p[i + 1])
}

/// Whether `p` is a walk in `g` from `s` to `v`.
pub open spec fn walk_between(g: Adjacency, p: Seq<RecordId>, s: RecordId, v: RecordId) -> bool {
    &&& p.len() >= 1
    &&& p[0] == s
    &&& p.last() == v
    &&& is_walk(g, p)
}

/// Whether `g` has a walk of exactly `k` edges from `s` to `v`.
pub open spec fn reach(g: Adjacency, s: RecordId, v: RecordId, k: nat) -> bool {
    exists|p: Seq<RecordId>| #[trigger] walk_between(g, p, s, v) && p.len() == k + 1
}

/// Whether `v` is reached from `s` by a walk of 1 to `d` edges.
pub open spec fn within(g: Adjacency, s: RecordId, v: RecordId, d: nat) -> bool {
    exists|k: nat| 1 <= k <= d && #[trigger] reach(g, s, v, k)
}

/// The records reached from `s` by walks of 1 to `d` edges, other than `s`.
pub open spec fn reached_set(g: Adjacency, s: RecordId, d: nat) -> Set<RecordId> {
    Set::new(|v: RecordId| v != s && within(g, s, v, d))
}

/// `v` is reached from `s` by a walk of `k` edges and by none shorter.
pub open spec fn at_distance(g: Adjacency, s: RecordId, v: RecordId, k: nat) -> bool {
    &&& reach(g, s, v, k)
    &&& forall|j: nat| j < k ==> !#[trigger] reach(g, s, v, j)
}

/// The records of `r` come in order of their distance from `s`: nearer
/// records first.
pub open spec fn by_distance(g: Adjacency, s: RecordId, r: Seq<RecordId>) -> bool {
    exists|ds: Seq<nat>| #![trigger ds.len()]
        ds.len() == r.len()
        && (forall|i: int| 0 <= i < r.len() ==> at_distance(g, s, #[trigger] r[i], ds[i]))
        && (forall|i: int, j: int| 0 <= i <= j < r.len() ==> ds[i] <= ds[j])
}

/// Whether `x` is among the first `n` entries of `s`.
pub open spec fn among(s: Seq<RecordId>, n: int, x: RecordId) -> bool {
    exists|j: int| 0 <= j < n && s[j] == x
}

/// Entry `a` of the breadth-first queue `q` was met as neighbour number
/// `xs[a]` of entry `ps[a]`, and it was the first new record of the walk at
/// that point: every neighbour met before it (all neighbours of the entries
/// before `ps[a]`, and the earlier neighbours of `ps[a]`) was already among
/// the entries before `a`.
pub open spec fn first_new(g: Adjacency, q: Seq<RecordId>, ps: Seq<int>, xs: Seq<int>, a: int) -> bool {
    &&& 0 <= ps[a] < a
    &&& 0 <= xs[a] < succ(g, q[ps[a]]).len()
    &&& succ(g, q[ps[a]])[xs[a]] == q[a]
    &&& forall|j: int, t: int| 0 <= j < ps[a] && 0 <= t < succ(g, q[j]).len() ==> among(q, a, #[trigger] succ(g, q[j])[t])
    &&& forall|t: int| 0 <= t < xs[a] ==> among(q, a, #[trigger] succ(g, q[ps[a]])[t])
}

/// `ps` and `xs` record, for every entry of `q` after the first, where a
/// breadth-first walk from `q[0]` met it as the first new record.
pub open spec fn discovery_links(g: Adjacency, q: Seq<RecordId>, ps: Seq<int>, xs: Seq<int>) -> bool {
    &&& ps.len() == q.len()
    &&& xs.len() == q.len()
    &&& forall|a: int| 1 <= a < q.len() ==> #[trigger] first_new(g, q, ps, xs, a)
}

/// `s` followed by `r` is the queue of a breadth-first walk from `s`: the
/// records come in the order the walk meets them, taking the queue in
/// order and each record's neighbours in list order.
pub open spec fn in_discovery_order(g: Adjacency, s: RecordId, r: Seq<RecordId>) -> bool {
    exists|ps: Seq<int>, xs: Seq<int>| #[trigger] discovery_links(g, seq![s] + r, ps, xs)
}

/// The path from `q[0]` to entry `a` along the links `ps` to the entry
/// each record was met from.
pub open spec fn tree_path(q: Seq<RecordId>, ps: Seq<int>, a: nat) -> Seq<RecordId>
    decreases a,
{
    if a == 0 || !(0 <= ps[a as int] < a) {
        seq![q[a as int]]
    } else {
        tree_path(q, ps, ps[a as int] as nat).push(q[a as int])
    }
}

/// `p` is the path to `to` in the tree of a breadth-first walk from `from`
/// that stops once it reaches `to`: `q` is the walk's queue up to `to`, and
/// the path follows, from `to` back to `from`, the entry each record was met from.
pub open spec fn bfs_tree_path(g: Adjacency, from: RecordId, to: RecordId, p: Seq<RecordId>) -> bool {
    exists|q: Seq<RecordId>, ps: Seq<int>, xs: Seq<int>|
        #[trigger] discovery_links(g, q, ps, xs)
        && q.len() >= 1
        && q[0] == from
        && q.last() == to
        && q.no_duplicates()
        && p == tree_path(q, ps, (q.len() - 1) as nat)
}

/// A prefix of a queue in discovery order is in discovery order.
proof fn lemma_links_prefix(g: Adjacency, q: Seq<RecordId>, ps: Seq<int>, xs: Seq<int>, n: int)
    requires
        discovery_links(g, q, ps, xs),
        1 <= n <= q.len(),
    ensures
        discovery_links(g, q.subrange(0, n), ps.subrange(0, n), xs.subrange(0, n)),
{
    let q2 = q.subrange(0, n);
    let ps2 = ps.subrange(0, n);
    let xs2 = xs.subrange(0, n);
    assert forall|a: int| 1 <= a < q2.len() implies #[trigger] first_new(g, q2, ps2, xs2, a) by {
        assert(first_new(g, q, ps, xs, a));
        assert(ps2[a] == ps[a] && xs2[a] == xs[a]);
        assert(q2[ps[a]] == q[ps[a]] && q2[a] == q[a]);
        assert forall|j: int, t: int| 0 <= j < ps2[a] && 0 <= t < succ(g, q2[j]).len()
            implies among(q2, a, #[trigger] succ(g, q2[j])[t]) by {
            assert(q2[j] == q[j]);
            assert(among(q, a, succ(g, q[j])[t]));
            let v = succ(g, q[j])[t];
            let b = choose|b: int| 0 <= b < a && #[trigger] q[b] == v;
            assert(q2[b] == q[b]);
        }
        assert forall|t: int| 0 <= t < xs2[a] implies among(q2, a, #[trigger] succ(g, q2[ps2[a]])[t]) by {
            assert(among(q, a, succ(g, q[ps[a]])[t]));
            let v = succ(g, q[ps[a]])[t];
            let b = choose|b: int| 0 <= b < a && #[trigger] q[b] == v;
            assert(q2[b] == q[b]);
        }
    }
}

/// The tree path to entry `a` reads only the entries up to `a`.
proof fn lemma_tree_path_prefix(q: Seq<RecordId>, ps: Seq<int>, a: nat, n: int)
    requires
        a < n <= q.len(),
        n <= ps.len(),
    ensures
        tree_path(q.subrange(0, n), ps.subrange(0, n), a) == tree_path(q, ps, a),
    decreases a,
{
    if a > 0 && 0 <= ps[a as int] < a {
        lemma_tree_path_prefix(q, ps, ps[a as int] as nat, n);
    }
}

/// Appending a record `w` met as neighbour `x` of entry `p`, when every
/// neighbour met before it is already queued, keeps the queue in discovery order.
proof fn lemma_first_new_push(g: Adjacency, q: Seq<RecordId>, ps: Seq<int>, xs: Seq<int>, p: int, x: int, w: RecordId)
    requires
        discovery_links(g, q, ps, xs),
        0 <= p < q.len(),
        0 <= x < succ(g, q[p]).len(),
        succ(g, q[p])[x] == w,
        !q.contains(w),
        forall|j: int, v: RecordId| 0 <= j < p && #[trigger] edge(g, q[j], v) ==> q.contains(v),
        forall|t: int| 0 <= t < x ==> q.contains(#[trigger] succ(g, q[p])[t]),
    ensures
        discovery_links(g, q.push(w), ps.push(p), xs.push(x)),
{
    let q2 = q.push(w);
    let ps2 = ps.push(p);
    let xs2 = xs.push(x);
    let n = q.len() as int;
    assert forall|a: int| 1 <= a < q2.len() implies #[trigger] first_new(g, q2, ps2, xs2, a) by {
        if a < n {
            assert(first_new(g, q, ps, xs, a));
            assert(ps2[a] == ps[a] && xs2[a] == xs[a]);
            assert(q2[ps[a]] == q[ps[a]] && q2[a] == q[a]);
            assert forall|j: int, t: int| 0 <= j < ps2[a] && 0 <= t < succ(g, q2[j]).len()
                implies among(q2, a, #[trigger] succ(g, q2[j])[t]) by {
                assert(q2[j] == q[j]);
                assert(among(q, a, succ(g, q[j])[t]));
                let v = succ(g, q[j])[t];
                let b = choose|b: int| 0 <= b < a && #[trigger] q[b] == v;
                assert(q2[b] == q[b]);
            }
            assert forall|t: int| 0 <= t < xs2[a] implies among(q2, a, #[trigger] succ(g, q2[ps2[a]])[t]) by {
                assert(among(q, a, succ(g, q[ps[a]])[t]));
                let v = succ(g, q[ps[a]])[t];
                let b = choose|b: int| 0 <= b < a && #[trigger] q[b] == v;
                assert(q2[b] == q[b]);
            }
        } else {
            assert(a == n);
            assert(q2[p] == q[p] && q2[n] == w);
            assert forall|j: int, t: int| 0 <= j < ps2[a] && 0 <= t < succ(g, q2[j]).len()
                implies among(q2, a, #[trigger] succ(g, q2[j])[t]) by {
                assert(q2[j] == q[j]);
                let v = succ(g, q[j])[t];
                assert(succ(g, q[j]).contains(v));
                assert(edge(g, q[j], v));
                assert(q.contains(v));
                let b = choose|b: int| 0 <= b < n && q[b] == v;
                assert(q2[b] == q[b]);
            }
            assert forall|t: int| 0 <= t < xs2[a] implies among(q2, a, #[trigger] succ(g, q2[ps2[a]])[t]) by {
                assert(q.contains(succ(g, q[p])[t]));
                let v = succ(g, q[p])[t];
                let b = choose|b: int| 0 <= b < n && #[trigger] q[b] == v;
                assert(q2[b] == q[b]);
            }
        }
    }
}

/// An append-only causal graph. `forward` maps each cause
/// to its effects, `reverse` each effect to its causes.
pub struct CausalGraph {
    forward: AdjMap,
    reverse: AdjMap,
    edge_count: usize,
}

/// Entries `0..n` of a breadth-first queue: `nodes[i]` was reached with
/// `depths[i]` edges, and no walk from `s` reaches it with fewer.
pub open spec fn queue_ok(g: Adjacency, s: RecordId, nodes: Seq<RecordId>, depths: Seq<usize>) -> bool {
    &&& nodes.len() == depths.len()
    &&& nodes.len() >= 1
    &&& nodes[0] == s
    &&& depths[0] == 0
    &&& nodes.no_duplicates()
    &&& forall|i: int, j: int| 0 <= i <= j < depths.len() ==> depths[i] <= depths[j]
    &&& forall|i: int| #![trigger nodes[i]] 0 <= i < nodes.len() ==> reach(g, s, nodes[i], depths[i] as nat)
    &&& forall|i: int, k: nat| 0 <= i < nodes.len() && k < depths[i] ==> !#[trigger] reach(g, s, nodes[i], k)
}

/// The first `done` entries of the queue have had all their neighbours
/// enqueued, unless their depth had reached `maxd`.
pub open spec fn expanded(g: Adjacency, nodes: Seq<RecordId>, depths: Seq<usize>, done: int, maxd: nat) -> bool {
    forall|i: int, v: RecordId| 0 <= i < done && depths[i] < maxd && #[trigger] edge(g, nodes[i], v) ==> nodes.contains(v)
}

/// A walk of `k > 0` edges ends with an edge from a record reached in `k - 1`.
pub proof fn lemma_reach_step(g: Adjacency, s: RecordId, v: RecordId, k: nat)
    requires
        k > 0,
    ensures
        reach(g, s, v, k) == exists|u: RecordId| #[trigger] reach(g, s, u, (k - 1) as nat) && edge(g, u, v),
{
    if reach(g, s, v, k) {
        let p = choose|p: Seq<RecordId>| #[trigger] walk_between(g, p, s, v) && p.len() == k + 1;
        let q = p.drop_last();
        let u = p[k - 1];
        assert(walk_between(g, q, s, u)) by {
            assert forall|i: int| 0 <= i < q.len() - 1 implies #[trigger] edge(g, q[i], q[i + 1]) by {
                assert(edge(g, p[i], p[i + 1]));
            }
        }
        assert(reach(g, s, u, (k - 1) as nat));
        assert(edge(g, p[k - 1], p[k as int]));
    }
    if exists|u: RecordId| #[trigger] reach(g, s, u, (k - 1) as nat) && edge(g, u, v) {
        let u = choose|u: RecordId| #[trigger] reach(g, s, u, (k - 1) as nat) && edge(g, u, v);
        let q = choose|q: Seq<RecordId>| #[trigger] walk_between(g, q, s, u) && q.len() == (k - 1) as nat + 1;
        let p = q.push(v);
        assert(walk_between(g, p, s, v)) by {
            assert forall|i: int| 0 <= i < p.len() - 1 implies #[trigger] edge(g, p[i], p[i + 1]) by {
                if i < q.len() - 1 {
                    assert(edge(g, q[i], q[i + 1]));
                } else {
                    assert(p[i] == u);
                }
            }
        }
        assert(p.len() == k + 1);
    }
}

/// A walk of no edges ends where it starts.
pub proof fn lemma_reach_zero(g: Adjacency, s: RecordId, v: RecordId)
    ensures
        reach(g, s, v, 0) == (v == s),
{
    if v == s {
        let p = seq![s];
        assert(walk_between(g, p, s, v));
    }
    if reach(g, s, v, 0) {
        let p = choose|p: Seq<RecordId>| #[trigger] walk_between(g, p, s, v) && p.len() == 1;
    }
}

/// In a queue whose first `done` entries are expanded and whose later
/// entries are at depth `bound` or more, every record reached from `s` in
/// at most `bound` edges is enqueued.
pub proof fn lemma_covered(
    g: Adjacency,
    s: RecordId,
    nodes: Seq<RecordId>,
    depths: Seq<usize>,
    done: int,
    bound: nat,
    maxd: nat,
    x: RecordId,
    k: nat,
)
    requires
        queue_ok(g, s, nodes, depths),
        0 <= done <= nodes.len(),
        expanded(g, nodes, depths, done, maxd),
        forall|i: int| done <= i < nodes.len() ==> depths[i] >= bound,
        bound <= maxd,
        k <= bound,
        reach(g, s, x, k),
    ensures
        nodes.contains(x),
    decreases k,
{
    if k == 0 {
        lemma_reach_zero(g, s, x);
        assert(nodes[0] == x);
    } else {
        lemma_reach_step(g, s, x, k);
        let y = choose|y: RecordId| #[trigger] reach(g, s, y, (k - 1) as nat) && edge(g, y, x);
        lemma_covered(g, s, nodes, depths, done, bound, maxd, y, (k - 1) as nat);
        let iy = choose|i: int| 0 <= i < nodes.len() && nodes[i] == y;
        if depths[iy] > k - 1 {
            assert(!reach(g, s, nodes[iy], (k - 1) as nat));
        }
        assert(depths[iy] <= k - 1);
        assert(iy < done);
        assert(edge(g, nodes[iy], x));
    }
}

/// In a queue whose entries are all expanded, every record reached from its
/// first entry is enqueued.
pub proof fn lemma_covered_all(g: Adjacency, s: RecordId, nodes: Seq<RecordId>, x: RecordId, k: nat)
    requires
        nodes.len() >= 1,
        nodes[0] == s,
        forall|i: int, v: RecordId| 0 <= i < nodes.len() && #[trigger] edge(g, nodes[i], v) ==> nodes.contains(v),
        reach(g, s, x, k),
    ensures
        nodes.contains(x),
    decreases k,
{
    if k == 0 {
        lemma_reach_zero(g, s, x);
        assert(nodes[0] == x);
    } else {
        lemma_reach_step(g, s, x, k);
        let y = choose|y: RecordId| #[trigger] reach(g, s, y, (k - 1) as nat) && edge(g, y, x);
        lemma_covered_all(g, s, nodes, y, (k - 1) as nat);
        let iy = choose|i: int| 0 <= i < nodes.len() && nodes[i] == y;
        assert(edge(g, nodes[iy], x));
    }
}

proof fn lemma_seq_len_bound(q: Seq<RecordId>, all: Set<RecordId>)
    requires
        q.no_duplicates(),
        all.finite(),
        q.to_set().subset_of(all),
    ensures
        q.len() <= all.len(),
{
    q.unique_seq_to_set();
    vstd::set_lib::lemma_len_subset(q.to_set(), all);
}

impl CausalGraph {
    /// The edges cause -> effects.
    pub closed spec fn fwd(&self) -> Adjacency {
        adj_contents(self.forward)
    }

    /// The edges effect -> causes.
    pub closed spec fn rev(&self) -> Adjacency {
        adj_contents(self.reverse)
    }

    /// The number of edges added so far (wrapping on overflow).
    pub closed spec fn edges(&self) -> usize {
        self.edge_count
    }

    /// Every record that is a key of either direction.
    pub open spec fn nodes(&self) -> Set<RecordId> {
        self.fwd().dom().union(self.rev().dom())
    }

    /// The two directions hold the same edges, and every endpoint is a key.
    pub open spec fn wf(&self) -> bool {
        &&& self.fwd().dom().finite()
        &&& self.rev().dom().finite()
        &&& forall|u: RecordId, v: RecordId| #[trigger] edge(self.fwd(), u, v) <==> #[trigger] edge(self.rev(), v, u)
        &&& forall|u: RecordId, v: RecordId| #[trigger] edge(self.fwd(), u, v) ==> self.rev().contains_key(v) && self.fwd().contains_key(u)
    }

    /// An empty graph.
    pub fn new() -> (g: Self)
        ensures
            g.wf(),
            g.fwd() == Map::<RecordId, Seq<RecordId>>::empty(),
            g.rev() == Map::<RecordId, Seq<RecordId>>::empty(),
            g.edges() == 0,
    {
        let g = CausalGraph { forward: adj_new(), reverse: adj_new(), edge_count: 0 };
        proof {
            assert(g.fwd() =~= Map::<RecordId, Seq<RecordId>>::empty());
            assert(g.rev() =~= Map::<RecordId, Seq<RecordId>>::empty());
        }
        g
    }

    /// Registers a record with no edges, so that isolated records appear in
    /// the graph. Existing lists are left as they are.
    pub fn add_node(&mut self, id: RecordId)
        requires
            old(self).wf(),
        ensures
            final(self).wf(),
            final(self).fwd() == (if old(self).fwd().contains_key(id) { old(self).fwd() } else { old(self).fwd().insert(id, Seq::empty()) }),
            final(self).rev() == (if old(self).rev().contains_key(id) { old(self).rev() } else { old(self).rev().insert(id, Seq::empty()) }),
            final(self).edges() == old(self).edges(),
    {
        adj_ensure(&mut self.forward, id);
        adj_ensure(&mut self.reverse, id);
        proof {
            let f0 = old(self).fwd();
            let r0 = old(self).rev();
            assert forall|u: RecordId, v: RecordId| #[trigger] edge(self.fwd(), u, v) == edge(f0, u, v) by {}
            assert forall|u: RecordId, v: RecordId| #[trigger] edge(self.rev(), u, v) == edge(r0, u, v) by {}
        }
    }

    /// Adds the edge `cause -> effect` (repeated edges are kept).
    pub fn add_edge(&mut self, cause: RecordId, effect: RecordId)
        requires
            old(self).wf(),
        ensures
            final(self).wf(),
            final(self).fwd() == old(self).fwd().insert(cause, succ(old(self).fwd(), cause).push(effect)),
            final(self).rev() == old(self).rev().insert(effect, succ(old(self).rev(), effect).push(cause)),
            final(self).edges() == old(self).edges().wrapping_add(1),
    {
        adj_append(&mut self.forward, cause, effect);
        adj_append(&mut self.reverse, effect, cause);
        self.edge_count = self.edge_count.wrapping_add(1);
        proof {
            let f0 = old(self).fwd();
            let r0 = old(self).rev();
            assert forall|u: RecordId, v: RecordId| #[trigger] edge(self.fwd(), u, v)
                == (edge(f0, u, v) || (u == cause && v == effect)) by {
                if u == cause {
                    assert(succ(self.fwd(), u) == succ(f0, u).push(effect));
                    if succ(f0, u).push(effect).contains(v) && v != effect {
                        let i = choose|i: int| 0 <= i < succ(f0, u).push(effect).len() && succ(f0, u).push(effect)[i] == v;
                        assert(succ(f0, u)[i] == v);
                    }
                    if edge(f0, u, v) {
                        let i = choose|i: int| 0 <= i < succ(f0, u).len() && succ(f0, u)[i] == v;
                        assert(succ(f0, u).push(effect)[i] == v);
                    }
                    if v == effect {
                        assert(succ(f0, u).push(effect)[succ(f0, u).len() as int] == v);
                    }
                }
            }
            assert forall|u: RecordId, v: RecordId| #[trigger] edge(self.rev(), u, v)
                == (edge(r0, u, v) || (u == effect && v == cause)) by {
                if u == effect {
                    assert(succ(self.rev(), u) == succ(r0, u).push(cause));
                    if succ(r0, u).push(cause).contains(v) && v != cause {
                        let i = choose|i: int| 0 <= i < succ(r0, u).push(cause).len() && succ(r0, u).push(cause)[i] == v;
                        assert(succ(r0, u)[i] == v);
                    }
                    if edge(r0, u, v) {
                        let i = choose|i: int| 0 <= i < succ(r0, u).len() && succ(r0, u)[i] == v;
                        assert(succ(r0, u).push(cause)[i] == v);
                    }
                    if v == cause {
                        assert(succ(r0, u).push(cause)[succ(r0, u).len() as int] == v);
                    }
                }
            }
        }
    }

    /// The direct effects (children) of a record.
    pub fn effects_of(&self, id: &RecordId) -> (r: Vec<RecordId>)
        ensures
            r@ == succ(self.fwd(), *id),
    {
        adj_get(&self.forward, id)
    }

    /// The direct causes (parents) of a record.
    pub fn causes_of(&self, id: &RecordId) -> (r: Vec<RecordId>)
        ensures
            r@ == succ(self.rev(), *id),
    {
        adj_get(&self.reverse, id)
    }

    /// The number of edges added.
    pub fn edge_count(&self) -> (r: usize)
        ensures
            r == self.edges(),
    {
        self.edge_count
    }

    /// Breadth-first walk from `start` along `forward` or `reverse` edges, up to
    /// `max_depth` edges: every record reached other than `start`, once each,
    /// in the order of the walk.
    fn bfs(&self, start: &RecordId, max_depth: usize, forward: bool) -> (r: Vec<RecordId>)
        requires
            self.wf(),
        ensures
            r@.no_duplicates(),
            r@.to_set() == reached_set(if forward { self.fwd() } else { self.rev() }, *start, max_depth as nat),
            by_distance(if forward { self.fwd() } else { self.rev() }, *start, r@),
            in_discovery_order(if forward { self.fwd() } else { self.rev() }, *start, r@),
    {
        let map = if forward { &self.forward } else { &self.reverse };
        let ghost g = adj_contents(*map);
        let ghost all = self.nodes().insert(*start);
        let ghost maxd = max_depth as nat;
        let mut result: Vec<RecordId> = Vec::new();
        let mut nodes: Vec<RecordId> = Vec::new();
        let mut depths: Vec<usize> = Vec::new();
        nodes.push(*start);
        depths.push(0);
        let mut head: usize = 0;
        let ghost mut par: Seq<int> = seq![0int];
        let ghost mut idx: Seq<int> = seq![0int];
        proof {
            lemma_reach_zero(g, *start, *start);
            assert(nodes@[0] == *start);
            assert forall|i: int, k: nat| 0 <= i < nodes@.len() && k < depths@[i] implies !#[trigger] reach(g, *start, nodes@[i], k) by {}
            assert(queue_ok(g, *start, nodes@, depths@));
            assert(nodes@.to_set().subset_of(all)) by {
                assert forall|x: RecordId| nodes@.to_set().contains(x) implies all.contains(x) by {
                    assert(nodes@.contains(x));
                    assert(nodes@[0] == x);
                }
            }
            lemma_seq_len_bound(nodes@, all);
        }
        while head < nodes.len()
            invariant
                self.wf(),
                g == (if forward { self.fwd() } else { self.rev() }),
                map == (if forward { &self.forward } else { &self.reverse }),
                all == self.nodes().insert(*start),
                all.finite(),
                maxd == max_depth,
                queue_ok(g, *start, nodes@, depths@),
                head <= nodes.len(),
                head == 0 ==> nodes.len() == 1,
                nodes.len() <= all.len(),
                nodes@.to_set().subset_of(all),
                forall|i: int| 0 <= i < depths.len() ==> depths@[i] <= max_depth,
                forall|i: int| 1 <= i < depths.len() ==> depths@[i] >= 1,
                head >= 1 ==> forall|j: int| 0 <= j < depths.len() ==> #[trigger] depths@[j] <= depths@[head - 1] + 1,
                expanded(g, nodes@, depths@, head as int, maxd),
                head >= 1 ==> result@ == nodes@.subrange(1, head as int),
                head == 0 ==> result@ == Seq::<RecordId>::empty(),
                discovery_links(g, nodes@, par, idx),
            decreases all.len() - head,
        {
            let node = nodes[head];
            let depth = depths[head];
            head = head + 1;
            if depth > 0 {
                result.push(node);
            }
            proof {
                if head == 1 {
                    assert(result@ =~= nodes@.subrange(1, head as int));
                } else {
                    assert(depth >= 1);
                    assert(result@ =~= nodes@.subrange(1, head as int));
                }
                assert forall|j: int| 0 <= j < depths.len() implies #[trigger] depths@[j] <= depths@[head - 1] + 1 by {
                    if head >= 2 {
                        assert(depths@[head - 2] <= depths@[head - 1]);
                    }
                }
            }
            if depth < max_depth {
                let neighbors = adj_get(map, &node);
                let ghost du = depth as nat;
                let mut i: usize = 0;
                while i < neighbors.len()
                    invariant
                        self.wf(),
                        g == (if forward { self.fwd() } else { self.rev() }),
                        all == self.nodes().insert(*start),
                        all.finite(),
                        maxd == max_depth,
                        1 <= head <= nodes.len(),
                        node == nodes@[head - 1],
                        depth == depths@[head - 1],
                        du == depth as nat,
                        depth < max_depth,
                        neighbors@ == succ(g, node),
                        i <= neighbors.len(),
                        queue_ok(g, *start, nodes@, depths@),
                        nodes.len() <= all.len(),
                        nodes@.to_set().subset_of(all),
                        forall|j: int| 0 <= j < depths.len() ==> depths@[j] <= max_depth,
                        forall|j: int| 1 <= j < depths.len() ==> depths@[j] >= 1,
                        forall|j: int| 0 <= j < depths.len() ==> #[trigger] depths@[j] <= depths@[head - 1] + 1,
                        expanded(g, nodes@, depths@, head - 1, maxd),
                        forall|j: int| 0 <= j < i ==> nodes@.contains(#[trigger] neighbors@[j]),
                        result@ == nodes@.subrange(1, head as int),
                        discovery_links(g, nodes@, par, idx),
                    decreases neighbors.len() - i,
                {
                    let w = neighbors[i];
                    if !contains_id(&nodes, &w) {
                        proof {
                            // `w` is reached in depth + 1 edges ...
                            assert(edge(g, node, w)) by {
                                assert(neighbors@[i as int] == w);
                            }
                            assert(nodes@[head - 1] == node);
                            let hh = head - 1;
                            assert(reach(g, *start, nodes@[hh], depths@[hh] as nat));
                            assert(reach(g, *start, node, du));
                            lemma_reach_step(g, *start, w, du + 1);
                            assert(((du + 1) - 1) as nat == du);
                            assert(reach(g, *start, node, ((du + 1) - 1) as nat) && edge(g, node, w));
                            assert(reach(g, *start, w, du + 1));
                            // ... and in no fewer
                            assert forall|k: nat| k < du + 1 implies !#[trigger] reach(g, *start, w, k) by {
                                if reach(g, *start, w, k) {
                                    assert forall|j: int| head - 1 <= j < nodes.len() implies depths@[j] >= du by {
                                        assert(depths@[head - 1] <= depths@[j]);
                                    }
                                    lemma_covered(g, *start, nodes@, depths@, head - 1, du, maxd, w, k);
                                }
                            }
                            // `w` is a node of the graph
                            assert(edge(self.fwd(), node, w) || edge(self.rev(), node, w));
                            if forward {
                                assert(self.rev().contains_key(w));
                            } else {
                                assert(edge(self.fwd(), w, node));
                                assert(self.fwd().contains_key(w));
                            }
                            assert(all.contains(w));
                            // `w` is the first new record met so far
                            assert forall|j: int, v: RecordId| 0 <= j < head - 1 && #[trigger] edge(g, nodes@[j], v)
                                implies nodes@.contains(v) by {
                                assert(depths@[j] <= depths@[head - 1]);
                            }
                            assert forall|t: int| 0 <= t < i implies nodes@.contains(#[trigger] succ(g, nodes@[head - 1])[t]) by {
                                assert(nodes@.contains(neighbors@[t]));
                            }
                            lemma_first_new_push(g, nodes@, par, idx, head - 1, i as int, w);
                            par = par.push(head - 1);
                            idx = idx.push(i as int);
                        }
                        let ghost old_nodes = nodes@;
                        let ghost old_depths = depths@;
                        nodes.push(w);
                        depths.push(depth + 1);
                        proof {
                            assert(nodes@.no_duplicates()) by {
                                assert forall|a: int, b: int| 0 <= a < b < nodes@.len() implies nodes@[a] != nodes@[b] by {
                                    if b == old_nodes.len() {
                                        assert(old_nodes.contains(old_nodes[a]));
                                    }
                                }
                            }
                            assert forall|a: int| 0 <= a < nodes@.len() implies reach(g, *start, nodes@[a], depths@[a] as nat) by {
                                if a < old_nodes.len() {
                                    assert(nodes@[a] == old_nodes[a]);
                                }
                            }
                            assert forall|a: int, k: nat| 0 <= a < nodes@.len() && k < depths@[a]
                                implies !#[trigger] reach(g, *start, nodes@[a], k) by {
                                if a < old_nodes.len() {
                                    assert(nodes@[a] == old_nodes[a] && depths@[a] == old_depths[a]);
                                }
                            }
                            assert(nodes@.to_set().subset_of(all)) by {
                                assert forall|x: RecordId| nodes@.to_set().contains(x) implies all.contains(x) by {
                                    assert(nodes@.contains(x));
                                    let a = choose|a: int| 0 <= a < nodes@.len() && nodes@[a] == x;
                                    if a < old_nodes.len() {
                                        assert(old_nodes.contains(x));
                                        assert(old_nodes.to_set().contains(x));
                                    }
                                }
                            }
                            lemma_seq_len_bound(nodes@, all);
                            assert(expanded(g, nodes@, depths@, head - 1, maxd)) by {
                                assert forall|a: int, v: RecordId| 0 <= a < head - 1 && depths@[a] < maxd
                                    && #[trigger] edge(g, nodes@[a], v) implies nodes@.contains(v) by {
                                    assert(nodes@[a] == old_nodes[a] && depths@[a] == old_depths[a]);
                                    assert(old_nodes.contains(v));
                                    let b = choose|b: int| 0 <= b < old_nodes.len() && old_nodes[b] == v;
                                    assert(nodes@[b] == v);
                                }
                            }
                            assert forall|j: int| 0 <= j < i + 1 implies nodes@.contains(#[trigger] neighbors@[j]) by {
                                if j < i {
                                    assert(old_nodes.contains(neighbors@[j]));
                                    let b = choose|b: int| 0 <= b < old_nodes.len() && old_nodes[b] == neighbors@[j];
                                    assert(nodes@[b] == neighbors@[j]);
                                } else {
                                    assert(nodes@[old_nodes.len() as int] == w);
                                }
                            }
                            assert(result@ =~= nodes@.subrange(1, head as int));
                        }
                    }
                    i = i + 1;
                }
                proof {
                    assert(expanded(g, nodes@, depths@, head as int, maxd)) by {
                        assert forall|a: int, v: RecordId| 0 <= a < head && depths@[a] < maxd
                            && #[trigger] edge(g, nodes@[a], v) implies nodes@.contains(v) by {
                            if a == head - 1 {
                                let j = choose|j: int| 0 <= j < succ(g, node).len() && succ(g, node)[j] == v;
                                assert(nodes@.contains(neighbors@[j]));
                            }
                        }
                    }
                }
            }
        }
        proof {
            let rs = reached_set(g, *start, maxd);
            assert forall|v: RecordId| result@.to_set().contains(v) == rs.contains(v) by {
                if result@.to_set().contains(v) {
                    assert(result@.contains(v));
                    let a = choose|a: int| 0 <= a < result@.len() && result@[a] == v;
                    assert(nodes@[a + 1] == v);
                    assert(reach(g, *start, v, depths@[a + 1] as nat));
                    assert(nodes@[0] != nodes@[a + 1]);
                    assert(within(g, *start, v, maxd));
                }
                if rs.contains(v) {
                    let k = choose|k: nat| 1 <= k <= maxd && #[trigger] reach(g, *start, v, k);
                    lemma_covered(g, *start, nodes@, depths@, nodes.len() as int, maxd, maxd, v, k);
                    let a = choose|a: int| 0 <= a < nodes@.len() && nodes@[a] == v;
                    assert(a != 0);
                    assert(result@[a - 1] == v);
                    assert(result@.contains(v));
                }
            }
            assert(result@.to_set() =~= rs);
            assert(result@.no_duplicates()) by {
                assert forall|a: int, b: int| 0 <= a < b < result@.len() implies result@[a] != result@[b] by {
                    assert(result@[a] == nodes@[a + 1] && result@[b] == nodes@[b + 1]);
                }
            }
            let ds = Seq::new(result@.len(), |i: int| depths@[i + 1] as nat);
            assert forall|i: int| 0 <= i < result@.len() implies at_distance(g, *start, #[trigger] result@[i], ds[i]) by {
                assert(result@[i] == nodes@[i + 1]);
                assert(reach(g, *start, nodes@[i + 1], depths@[i + 1] as nat));
                assert forall|j: nat| j < ds[i] implies !#[trigger] reach(g, *start, result@[i], j) by {
                    assert(!reach(g, *start, nodes@[i + 1], j));
                }
            }
            assert forall|i: int, j: int| 0 <= i <= j < result@.len() implies ds[i] <= ds[j] by {
                assert(depths@[i + 1] <= depths@[j + 1]);
            }
            assert(ds.len() == result@.len());
            assert(seq![*start] + result@ =~= nodes@);
            assert(discovery_links(g, seq![*start] + result@, par, idx));
        }
        result
    }

    /// Every record reached forward from `root` in 1 to `max_depth` edges,
    /// once each, in the order a breadth-first walk meets them (records
    /// nearer first; within a distance, by the queue and then list order).
    pub fn descendants(&self, root: &RecordId, max_depth: usize) -> (r: Vec<RecordId>)
        requires
            self.wf(),
        ensures
            r@.no_duplicates(),
            r@.to_set() == reached_set(self.fwd(), *root, max_depth as nat),
            by_distance(self.fwd(), *root, r@),
            in_discovery_order(self.fwd(), *root, r@),
    {
        self.bfs(root, max_depth, true)
    }

    /// Every record reached backward from `node` in 1 to `max_depth` edges,
    /// once each, in the order a breadth-first walk meets them (records
    /// nearer first; within a distance, by the queue and then list order).
    pub fn ancestors(&self, node: &RecordId, max_depth: usize) -> (r: Vec<RecordId>)
        requires
            self.wf(),
        ensures
            r@.no_duplicates(),
            r@.to_set() == reached_set(self.rev(), *node, max_depth as nat),
            by_distance(self.rev(), *node, r@),
            in_discovery_order(self.rev(), *node, r@),
    {
        self.bfs(node, max_depth, false)
    }

    /// The shortest causal path from `from` to `to` along forward edges, if
    /// there is one: it starts at `from`, ends at `to`, follows edges, and no
    /// walk with fewer edges joins them. Of several such paths it is the one
    /// in the tree of a breadth-first walk from `from`: each record on it is
    /// preceded by the record it was first met from. `None` exactly when no
    /// walk joins them.
    pub fn shortest_path(&self, from: &RecordId, to: &RecordId) -> (r: Option<Vec<RecordId>>)
        requires
            self.wf(),
        ensures
            match r {
                Some(p) => walk_between(self.fwd(), p@, *from, *to)
                    && (forall|k: nat| k + 1 < p@.len() ==> !#[trigger] reach(self.fwd(), *from, *to, k))
                    && bfs_tree_path(self.fwd(), *from, *to, p@),
                None => forall|k: nat| !#[trigger] reach(self.fwd(), *from, *to, k),
            },
    {
        let ghost g = self.fwd();
        let ghost all = self.nodes().insert(*from);
        let ghost maxd = usize::MAX as nat;
        let mut nodes: Vec<RecordId> = Vec::new();
        let mut depths: Vec<usize> = Vec::new();
        let mut parents: Vec<usize> = Vec::new();
        nodes.push(*from);
        depths.push(0);
        parents.push(0);
        let mut head: usize = 0;
        let ghost mut par: Seq<int> = seq![0int];
        let ghost mut idx: Seq<int> = seq![0int];
        proof {
            lemma_reach_zero(g, *from, *from);
            assert(nodes@[0] == *from);
            assert forall|i: int, k: nat| 0 <= i < nodes@.len() && k < depths@[i] implies !#[trigger] reach(g, *from, nodes@[i], k) by {}
            assert(queue_ok(g, *from, nodes@, depths@));
            assert(nodes@.to_set().subset_of(all)) by {
                assert forall|x: RecordId| nodes@.to_set().contains(x) implies all.contains(x) by {
                    assert(nodes@.contains(x));
                    assert(nodes@[0] == x);
                }
            }
            lemma_seq_len_bound(nodes@, all);
        }
        while head < nodes.len()
            invariant
                self.wf(),
                g == self.fwd(),
                all == self.nodes().insert(*from),
                all.finite(),
                maxd == usize::MAX as nat,
                queue_ok(g, *from, nodes@, depths@),
                parents.len() == nodes.len(),
                forall|i: int| 1 <= i < nodes.len() ==> #[trigger] parents@[i] < i
                    && edge(g, nodes@[parents@[i] as int], nodes@[i])
                    && depths@[i] == depths@[parents@[i] as int] + 1,
                forall|i: int| 0 <= i < nodes.len() ==> #[trigger] depths@[i] <= i,
                head <= nodes.len(),
                head == 0 ==> nodes.len() == 1,
                nodes.len() <= all.len(),
                nodes@.to_set().subset_of(all),
                head >= 1 ==> forall|j: int| 0 <= j < depths.len() ==> #[trigger] depths@[j] <= depths@[head - 1] + 1,
                expanded(g, nodes@, depths@, head as int, maxd),
                forall|i: int| 0 <= i < head ==> nodes@[i] != *to,
                discovery_links(g, nodes@, par, idx),
                forall|i: int| 0 <= i < nodes.len() ==> #[trigger] par[i] == parents@[i] as int,
            decreases all.len() - head,
        {
            let node = nodes[head];
            let depth = depths[head];
            if ids_equal(&node, to) {
                let path = self.path_to(&nodes, &parents, head, Ghost(depths@), Ghost(par));
                proof {
                    assert(nodes@[head as int] == *to);
                    let n = head + 1;
                    lemma_links_prefix(g, nodes@, par, idx, n);
                    lemma_tree_path_prefix(nodes@, par, head as nat, n);
                    let q = nodes@.subrange(0, n);
                    assert(q.last() == *to);
                    assert(q[0] == *from);
                    assert(q.no_duplicates()) by {
                        assert forall|a: int, c: int| 0 <= a < c < q.len() implies q[a] != q[c] by {
                            assert(q[a] == nodes@[a] && q[c] == nodes@[c]);
                        }
                    }
                    assert(discovery_links(g, q, par.subrange(0, n), idx.subrange(0, n)));
                    assert(path@ == tree_path(q, par.subrange(0, n), (q.len() - 1) as nat));
                    assert forall|k: nat| k + 1 < path@.len() implies !#[trigger] reach(g, *from, *to, k) by {
                        assert(k < depths@[head as int]);
                    }
                }
                return Some(path);
            }
            head = head + 1;
            proof {
                assert forall|j: int| 0 <= j < depths.len() implies #[trigger] depths@[j] <= depths@[head - 1] + 1 by {
                    if head >= 2 {
                        assert(depths@[head - 2] <= depths@[head - 1]);
                    }
                }
            }
            let neighbors = adj_get(&self.forward, &node);
            let ghost du = depth as nat;
            let mut i: usize = 0;
            while i < neighbors.len()
                invariant
                    self.wf(),
                    g == self.fwd(),
                    all == self.nodes().insert(*from),
                    all.finite(),
                    maxd == usize::MAX as nat,
                    1 <= head <= nodes.len(),
                    node == nodes@[head - 1],
                    node != *to,
                    depth == depths@[head - 1],
                    du == depth as nat,
                    neighbors@ == succ(g, node),
                    i <= neighbors.len(),
                    queue_ok(g, *from, nodes@, depths@),
                    parents.len() == nodes.len(),
                    forall|j: int| 1 <= j < nodes.len() ==> #[trigger] parents@[j] < j
                        && edge(g, nodes@[parents@[j] as int], nodes@[j])
                        && depths@[j] == depths@[parents@[j] as int] + 1,
                    forall|j: int| 0 <= j < nodes.len() ==> #[trigger] depths@[j] <= j,
                    nodes.len() <= all.len(),
                    nodes@.to_set().subset_of(all),
                    forall|j: int| 0 <= j < depths.len() ==> #[trigger] depths@[j] <= depths@[head - 1] + 1,
                    expanded(g, nodes@, depths@, head - 1, maxd),
                    forall|j: int| 0 <= j < i ==> nodes@.contains(#[trigger] neighbors@[j]),
                    forall|j: int| 0 <= j < head ==> nodes@[j] != *to,
                    discovery_links(g, nodes@, par, idx),
                    forall|j: int| 0 <= j < nodes.len() ==> #[trigger] par[j] == parents@[j] as int,
                decreases neighbors.len() - i,
            {
                let w = neighbors[i];
                if !contains_id(&nodes, &w) {
                    proof {
                        assert(edge(g, node, w)) by {
                            assert(neighbors@[i as int] == w);
                        }
                        let hh = head - 1;
                        assert(reach(g, *from, nodes@[hh], depths@[hh] as nat));
                        lemma_reach_step(g, *from, w, du + 1);
                        assert(((du + 1) - 1) as nat == du);
                        assert(reach(g, *from, node, ((du + 1) - 1) as nat) && edge(g, node, w));
                        assert(reach(g, *from, w, du + 1));
                        assert forall|k: nat| k < du + 1 implies !#[trigger] reach(g, *from, w, k) by {
                            if reach(g, *from, w, k) {
                                assert forall|j: int| head - 1 <= j < nodes.len() implies depths@[j] >= du by {
                                    assert(depths@[head - 1] <= depths@[j]);
                                }
                                lemma_covered(g, *from, nodes@, depths@, head - 1, du, maxd, w, k);
                            }
                        }
                        assert(self.rev().contains_key(w));
                        assert(all.contains(w));
                        assert(depths@[hh] <= hh);
                        assert forall|j: int, v: RecordId| 0 <= j < head - 1 && #[trigger] edge(g, nodes@[j], v)
                            implies nodes@.contains(v) by {
                            assert(depths@[j] <= depths@[head - 1]);
                        }
                        assert forall|t: int| 0 <= t < i implies nodes@.contains(#[trigger] succ(g, nodes@[head - 1])[t]) by {
                            assert(nodes@.contains(neighbors@[t]));
                        }
                        lemma_first_new_push(g, nodes@, par, idx, head - 1, i as int, w);
                        par = par.push(head - 1);
                        idx = idx.push(i as int);
                    }
                    let ghost old_nodes = nodes@;
                    let ghost old_depths = depths@;
                    let ghost old_parents = parents@;
                    nodes.push(w);
                    depths.push(depth + 1);
                    parents.push(head - 1);
                    proof {
                        assert(nodes@.no_duplicates()) by {
                            assert forall|a: int, b: int| 0 <= a < b < nodes@.len() implies nodes@[a] != nodes@[b] by {
                                if b == old_nodes.len() {
                                    assert(old_nodes.contains(old_nodes[a]));
                                }
                            }
                        }
                        assert forall|a: int| 0 <= a < nodes@.len() implies reach(g, *from, nodes@[a], depths@[a] as nat) by {
                            if a < old_nodes.len() {
                                assert(nodes@[a] == old_nodes[a]);
                            }
                        }
                        assert forall|a: int, k: nat| 0 <= a < nodes@.len() && k < depths@[a]
                            implies !#[trigger] reach(g, *from, nodes@[a], k) by {
                            if a < old_nodes.len() {
                                assert(nodes@[a] == old_nodes[a] && depths@[a] == old_depths[a]);
                            }
                        }
                        assert forall|j: int| 1 <= j < nodes.len() implies #[trigger] parents@[j] < j
                            && edge(g, nodes@[parents@[j] as int], nodes@[j])
                            && depths@[j] == depths@[parents@[j] as int] + 1 by {
                            if j < old_nodes.len() {
                                assert(parents@[j] == old_parents[j]);
                                assert(old_parents[j] < j);
                                assert(nodes@[old_parents[j] as int] == old_nodes[old_parents[j] as int]);
                            } else {
                                assert(parents@[j] == head - 1);
                            }
                        }
                        assert forall|j: int| 0 <= j < nodes.len() implies #[trigger] depths@[j] <= j by {
                            if j < old_nodes.len() {
                                assert(depths@[j] == old_depths[j]);
                            }
                        }
                        assert(nodes@.to_set().subset_of(all)) by {
                            assert forall|x: RecordId| nodes@.to_set().contains(x) implies all.contains(x) by {
                                assert(nodes@.contains(x));
                                let a = choose|a: int| 0 <= a < nodes@.len() && nodes@[a] == x;
                                if a < old_nodes.len() {
                                    assert(old_nodes.contains(x));
                                    assert(old_nodes.to_set().contains(x));
                                }
                            }
                        }
                        lemma_seq_len_bound(nodes@, all);
                        assert(expanded(g, nodes@, depths@, head - 1, maxd)) by {
                            assert forall|a: int, v: RecordId| 0 <= a < head - 1 && depths@[a] < maxd
                                && #[trigger] edge(g, nodes@[a], v) implies nodes@.contains(v) by {
                                assert(nodes@[a] == old_nodes[a] && depths@[a] == old_depths[a]);
                                assert(old_nodes.contains(v));
                                let b = choose|b: int| 0 <= b < old_nodes.len() && old_nodes[b] == v;
                                assert(nodes@[b] == v);
                            }
                        }
                        assert forall|j: int| 0 <= j < i + 1 implies nodes@.contains(#[trigger] neighbors@[j]) by {
                            if j < i {
                                assert(old_nodes.contains(neighbors@[j]));
                                let b = choose|b: int| 0 <= b < old_nodes.len() && old_nodes[b] == neighbors@[j];
                                assert(nodes@[b] == neighbors@[j]);
                            } else {
                                assert(nodes@[old_nodes.len() as int] == w);
                            }
                        }
                        assert forall|j: int| 0 <= j < head implies nodes@[j] != *to by {
                            assert(nodes@[j] == old_nodes[j]);
                        }
                        assert forall|j: int| 0 <= j < nodes.len() implies #[trigger] par[j] == parents@[j] as int by {
                            if j < old_nodes.len() {
                                assert(parents@[j] == old_parents[j]);
                            }
                        }
                    }
                }
                i = i + 1;
            }
            proof {
                assert(expanded(g, nodes@, depths@, head as int, maxd)) by {
                    assert forall|a: int, v: RecordId| 0 <= a < head && depths@[a] < maxd
                        && #[trigger] edge(g, nodes@[a], v) implies nodes@.contains(v) by {
                        if a == head - 1 {
                            let j = choose|j: int| 0 <= j < succ(g, node).len() && succ(g, node)[j] == v;
                            assert(nodes@.contains(neighbors@[j]));
                        }
                    }
                }
            }
        }
        proof {
            assert forall|k: nat| !#[trigger] reach(g, *from, *to, k) by {
                if reach(g, *from, *to, k) {
                    assert forall|a: int, v: RecordId| 0 <= a < nodes@.len() && #[trigger] edge(g, nodes@[a], v)
                        implies nodes@.contains(v) by {
                        assert(depths@[a] <= a);
                    }
                    lemma_covered_all(g, *from, nodes@, *to, k);
                }
            }
        }
        None
    }

    /// The walk from the first entry of a breadth-first queue to entry `h`,
    /// following the parent links.
    fn path_to(&self, nodes: &Vec<RecordId>, parents: &Vec<usize>, h: usize, Ghost(depths): Ghost<Seq<usize>>, Ghost(ps): Ghost<Seq<int>>) -> (p: Vec<RecordId>)
        requires
            h < nodes.len(),
            parents.len() == nodes.len(),
            depths.len() == nodes.len(),
            ps.len() == nodes.len(),
            forall|i: int| 0 <= i < nodes.len() ==> #[trigger] ps[i] == parents@[i] as int,
            forall|i: int| 1 <= i < nodes.len() ==> #[trigger] parents@[i] < i
                && edge(self.fwd(), nodes@[parents@[i] as int], nodes@[i])
                && depths[i] == depths[parents@[i] as int] + 1,
            depths[0] == 0,
        ensures
            walk_between(self.fwd(), p@, nodes@[0], nodes@[h as int]),
            p@.len() == depths[h as int] + 1,
            p@ == tree_path(nodes@, ps, h as nat),
    {
        let ghost g = self.fwd();
        let mut back: Vec<RecordId> = Vec::new();
        let mut cur = h;
        back.push(nodes[cur]);
        while cur > 0
            invariant
                h < nodes.len(),
                parents.len() == nodes.len(),
                depths.len() == nodes.len(),
                forall|i: int| 1 <= i < nodes.len() ==> #[trigger] parents@[i] < i
                    && edge(g, nodes@[parents@[i] as int], nodes@[i])
                    && depths[i] == depths[parents@[i] as int] + 1,
                g == self.fwd(),
                cur <= h,
                back@.len() >= 1,
                walk_between(g, back@.reverse(), nodes@[cur as int], nodes@[h as int]),
                back@.len() + depths[cur as int] == depths[h as int] + 1,
                ps.len() == nodes.len(),
                forall|i: int| 0 <= i < nodes.len() ==> #[trigger] ps[i] == parents@[i] as int,
                tree_path(nodes@, ps, h as nat) == tree_path(nodes@, ps, cur as nat) + back@.reverse().drop_first(),
            decreases cur,
        {
            let ghost old_back = back@;
            let par = parents[cur];
            proof {
                assert(parents@[cur as int] < cur);
            }
            back.push(nodes[par]);
            proof {
                let q = old_back.reverse();
                let q2 = back@.reverse();
                assert(q2 =~= seq![nodes@[par as int]] + q);
                assert(edge(g, nodes@[par as int], nodes@[cur as int]));
                assert forall|i: int| 0 <= i < q2.len() - 1 implies #[trigger] edge(g, q2[i], q2[i + 1]) by {
                    if i == 0 {
                        assert(q2[1] == q[0]);
                    } else {
                        let j = i - 1;
                        assert(q2[i] == q[j] && q2[i + 1] == q[j + 1]);
                        assert(edge(g, q[j], q[j + 1]));
                    }
                }
                assert(q2.last() == q.last());
                assert(ps[cur as int] == par as int);
                assert(tree_path(nodes@, ps, cur as nat) == tree_path(nodes@, ps, par as nat).push(nodes@[cur as int]));
                assert(q[0] == nodes@[cur as int]);
                assert(q =~= seq![nodes@[cur as int]] + q.drop_first());
                assert(q2.drop_first() =~= q);
                assert(tree_path(nodes@, ps, par as nat) + q2.drop_first()
                    =~= tree_path(nodes@, ps, cur as nat) + q.drop_first());
            }
            cur = par;
        }
        let mut p: Vec<RecordId> = Vec::new();
        let mut k = back.len();
        while k > 0
            invariant
                k <= back.len(),
                p@ == back@.reverse().subrange(0, (back.len() - k) as int),
            decreases k,
        {
            k = k - 1;
            p.push(back[k]);
            proof {
                assert(p@ =~= back@.reverse().subrange(0, (back.len() - k) as int));
            }
        }
        proof {
            assert(p@ =~= back@.reverse());
            assert(back@.reverse()[0] == nodes@[0]);
            assert(back@.reverse() =~= seq![nodes@[0]] + back@.reverse().drop_first());
        }
        p
    }

    /// Every node of the graph (a key of either direction), once each.
    fn node_keys(&self) -> (r: Vec<RecordId>)
        ensures
            r@.no_duplicates(),
            forall|x: RecordId| r@.contains(x) <==> self.nodes().contains(x),
    {
        let mut out = adj_keys(&self.forward);
        let rk = adj_keys(&self.reverse);
        let ghost f = self.fwd().dom();
        proof {
            assert forall|x: RecordId| out@.contains(x) <==> f.contains(x) by {
                assert(out@.to_set().contains(x) == out@.contains(x));
            }
        }
        let mut i: usize = 0;
        while i < rk.len()
            invariant
                i <= rk.len(),
                f == self.fwd().dom(),
                rk@.no_duplicates(),
                rk@.to_set() == self.rev().dom(),
                out@.no_duplicates(),
                forall|x: RecordId| out@.contains(x) <==> (f.contains(x) || among(rk@, i as int, x)),
            decreases rk.len() - i,
        {
            let k = rk[i];
            let known = adj_contains(&self.forward, &k);
            let ghost prev = out@;
            proof {
                assert(!known ==> !prev.contains(k)) by {
                    if !known && prev.contains(k) {
                        assert(among(rk@, i as int, k));
                        let j = choose|j: int| 0 <= j < i && rk@[j] == k;
                        assert(rk@[j] == rk@[i as int]);
                    }
                }
            }
            if !known {
                out.push(k);
            }
            proof {
                assert(known ==> f.contains(k));
                assert(!known ==> out@ == prev.push(k));
                assert(known ==> out@ == prev);
                assert(out@.no_duplicates()) by {
                    if !known {
                        assert forall|a: int, b: int| 0 <= a < b < out@.len() implies out@[a] != out@[b] by {
                            if b == prev.len() {
                                assert(prev.contains(prev[a]));
                            }
                        }
                    }
                }
                assert forall|x: RecordId| #![trigger out@.contains(x)] out@.contains(x) <==> (f.contains(x) || among(rk@, i + 1, x)) by {
                    assert(prev.contains(x) <==> (f.contains(x) || among(rk@, i as int, x)));
                    if among(rk@, i as int, x) {
                        let j = choose|j: int| 0 <= j < i && rk@[j] == x;
                        assert(0 <= j < i + 1 && rk@[j] == x);
                    }
                    if among(rk@, i + 1, x) && !among(rk@, i as int, x) {
                        let j = choose|j: int| 0 <= j < i + 1 && rk@[j] == x;
                        if j < i {
                            assert(among(rk@, i as int, x));
                        }
                        assert(x == k);
                    }
                    if x == k {
                        assert(among(rk@, i + 1, x)) by {
                            assert(rk@[i as int] == x);
                        }
                    }
                    if !known {
                        if prev.contains(x) {
                            let a = choose|a: int| 0 <= a < prev.len() && prev[a] == x;
                            assert(out@[a] == x);
                        }
                        if x == k {
                            assert(out@[prev.len() as int] == x);
                        }
                        if out@.contains(x) && x != k {
                            let a = choose|a: int| 0 <= a < out@.len() && out@[a] == x;
                            assert(prev[a] == x);
                        }
                    }
                }
            }
            i = i + 1;
        }
        proof {
            assert forall|x: RecordId| out@.contains(x) <==> self.nodes().contains(x) by {
                if self.rev().dom().contains(x) && !f.contains(x) {
                    assert(rk@.to_set().contains(x));
                    assert(rk@.contains(x));
                    let j = choose|j: int| 0 <= j < rk@.len() && rk@[j] == x;
                    assert(0 <= j < i && rk@[j] == x);
                }
                if out@.contains(x) && !f.contains(x) {
                    let j = choose|j: int| 0 <= j < i && rk@[j] == x;
                    assert(rk@.contains(x));
                    assert(rk@.to_set().contains(x));
                }
            }
        }
        out
    }

    /// The entries of `keys` whose list in `m` is empty (or absent), in order.
    fn keys_without(keys: Vec<RecordId>, m: &AdjMap) -> (r: Vec<RecordId>)
        requires
            keys@.no_duplicates(),
        ensures
            r@.no_duplicates(),
            forall|x: RecordId| r@.contains(x) <==> (keys@.contains(x) && succ(adj_contents(*m), x).len() == 0),
    {
        let ghost c = adj_contents(*m);
        let mut out: Vec<RecordId> = Vec::new();
        let mut i: usize = 0;
        while i < keys.len()
            invariant
                i <= keys.len(),
                c == adj_contents(*m),
                keys@.no_duplicates(),
                out@.no_duplicates(),
                forall|x: RecordId| out@.contains(x) <==> (exists|j: int| 0 <= j < i && keys@[j] == x && succ(c, x).len() == 0),
            decreases keys.len() - i,
        {
            let k = keys[i];
            let list = adj_get(m, &k);
            if list.len() == 0 {
                let ghost prev = out@;
                proof {
                    assert(!prev.contains(k)) by {
                        if prev.contains(k) {
                            let j = choose|j: int| 0 <= j < i && keys@[j] == k && succ(c, k).len() == 0;
                            assert(keys@[j] == keys@[i as int]);
                        }
                    }
                }
                out.push(k);
                proof {
                    assert(out@ == prev.push(k));
                    assert forall|a: int, b: int| 0 <= a < b < out@.len() implies out@[a] != out@[b] by {
                        if b == prev.len() {
                            assert(prev.contains(prev[a]));
                        }
                    }
                    assert forall|x: RecordId| out@.contains(x) <==> (exists|j: int| 0 <= j < i + 1 && keys@[j] == x && succ(c, x).len() == 0) by {
                        if out@.contains(x) {
                            if x == k {
                                assert(0 <= i < i + 1 && keys@[i as int] == x && succ(c, x).len() == 0);
                            } else {
                                let a = choose|a: int| 0 <= a < out@.len() && out@[a] == x;
                                assert(prev[a] == x);
                                assert(prev.contains(x));
                                let j = choose|j: int| 0 <= j < i && keys@[j] == x && succ(c, x).len() == 0;
                                assert(0 <= j < i + 1 && keys@[j] == x && succ(c, x).len() == 0);
                            }
                        }
                        if exists|j: int| 0 <= j < i + 1 && keys@[j] == x && succ(c, x).len() == 0 {
                            if x == k {
                                assert(out@[prev.len() as int] == x);
                            } else {
                                let j = choose|j: int| 0 <= j < i + 1 && keys@[j] == x && succ(c, x).len() == 0;
                                assert(j != i);
                                assert(0 <= j < i && keys@[j] == x && succ(c, x).len() == 0);
                                assert(prev.contains(x));
                                let a = choose|a: int| 0 <= a < prev.len() && prev[a] == x;
                                assert(out@[a] == x);
                            }
                        }
                    }
                }
            } else {
                proof {
                    assert(succ(c, k).len() != 0);
                    assert forall|x: RecordId| out@.contains(x) <==> (exists|j: int| 0 <= j < i + 1 && keys@[j] == x && succ(c, x).len() == 0) by {
                        if out@.contains(x) {
                            let j = choose|j: int| 0 <= j < i && keys@[j] == x && succ(c, x).len() == 0;
                            assert(0 <= j < i + 1 && keys@[j] == x && succ(c, x).len() == 0);
                        }
                        if exists|j: int| 0 <= j < i + 1 && keys@[j] == x && succ(c, x).len() == 0 {
                            let j = choose|j: int| 0 <= j < i + 1 && keys@[j] == x && succ(c, x).len() == 0;
                            assert(j != i);
                            assert(0 <= j < i && keys@[j] == x && succ(c, x).len() == 0);
                        }
                    }
                }
            }
            i = i + 1;
        }
        proof {
            assert forall|x: RecordId| out@.contains(x) <==> (keys@.contains(x) && succ(c, x).len() == 0) by {
                if keys@.contains(x) && succ(c, x).len() == 0 {
                    let j = choose|j: int| 0 <= j < keys@.len() && keys@[j] == x;
                }
            }
        }
        out
    }

    /// The records of the graph that have no causes (its roots).
    pub fn roots(&self) -> (r: Vec<RecordId>)
        ensures
            r@.no_duplicates(),
            forall|x: RecordId| r@.contains(x) <==> (self.nodes().contains(x) && succ(self.rev(), x).len() == 0),
    {
        let keys = self.node_keys();
        Self::keys_without(keys, &self.reverse)
    }

    /// The records of the graph that have no effects (its leaves).
    pub fn leaves(&self) -> (r: Vec<RecordId>)
        ensures
            r@.no_duplicates(),
            forall|x: RecordId| r@.contains(x) <==> (self.nodes().contains(x) && succ(self.fwd(), x).len() == 0),
    {
        let keys = self.node_keys();
        Self::keys_without(keys, &self.forward)
    }

    /// The number of records of the graph: keys of either direction.
    pub fn node_count(&self) -> (r: usize)
        ensures
            r == self.nodes().len(),
    {
        let keys = self.node_keys();
        proof {
            keys@.unique_seq_to_set();
            assert(keys@.to_set() =~= self.nodes());
        }
        keys.len()
    }
}


impl Default for CausalGraph {
    /// An empty graph.
    fn default() -> (g: Self)
        ensures
            g.wf(),
            g.fwd() == Map::<RecordId, Seq<RecordId>>::empty(),
            g.rev() == Map::<RecordId, Seq<RecordId>>::empty(),
            g.edges() == 0,
    {
        Self::new()
    }
}

/// A walk read backwards is a walk of the graph with every edge turned round.
proof fn lemma_reach_flip(f: Adjacency, r: Adjacency, u: RecordId, v: RecordId, k: nat)
    requires
        forall|a: RecordId, b: RecordId| #[trigger] edge(f, a, b) <==> #[trigger] edge(r, b, a),
        reach(f, u, v, k),
    ensures
        reach(r, v, u, k),
{
    let p = choose|p: Seq<RecordId>| #[trigger] walk_between(f, p, u, v) && p.len() == k + 1;
    let q = p.reverse();
    let n = p.len() as int;
    assert forall|i: int| 0 <= i < q.len() - 1 implies #[trigger] edge(r, q[i], q[i + 1]) by {
        let j = n - 2 - i;
        assert(edge(f, p[j], p[j + 1]));
        assert(q[i] == p[j + 1] && q[i + 1] == p[j]);
    }
    assert(q[0] == p[n - 1]);
    assert(q.last() == p[0]);
    assert(walk_between(r, q, v, u));
}

/// Effects and causes are dual: `v` is among the records reached forward
/// from `u` within `d` edges exactly when `u` is among those reached
/// backward from `v` within `d` edges.
pub proof fn law_effects_causes_dual(graph: CausalGraph, u: RecordId, v: RecordId, d: nat)
    requires
        graph.wf(),
    ensures
        reached_set(graph.fwd(), u, d).contains(v) == reached_set(graph.rev(), v, d).contains(u),
{
    let f = graph.fwd();
    let r = graph.rev();
    assert forall|a: RecordId, b: RecordId| #[trigger] edge(r, a, b) <==> #[trigger] edge(f, b, a) by {}
    if within(f, u, v, d) {
        let k = choose|k: nat| 1 <= k <= d && #[trigger] reach(f, u, v, k);
        lemma_reach_flip(f, r, u, v, k);
        assert(within(r, v, u, d));
    }
    if within(r, v, u, d) {
        let k = choose|k: nat| 1 <= k <= d && #[trigger] reach(r, v, u, k);
        lemma_reach_flip(r, f, v, u, k);
        assert(within(f, u, v, d));
    }
}

/// A new edge makes its effect a direct descendant of its cause.
pub proof fn law_edge_reaches(graph: CausalGraph, cause: RecordId, effect: RecordId, d: nat)
    requires
        graph.wf(),
        edge(graph.fwd(), cause, effect),
        cause != effect,
        d >= 1,
    ensures
        reached_set(graph.fwd(), cause, d).contains(effect),
{
    let g = graph.fwd();
    let p = seq![cause, effect];
    assert(walk_between(g, p, cause, effect)) by {
        assert forall|i: int| 0 <= i < p.len() - 1 implies #[trigger] edge(g, p[i], p[i + 1]) by {
            assert(i == 0);
        }
    }
    assert(reach(g, cause, effect, 1));
    assert(within(g, cause, effect, d));
}

} // verus!
