//! The integer bookkeeping of the similarity index's layered neighbour
//! graph: which ranked candidates a new node links to, the links back to
//! it, and which node is the entry point. Ranking the candidates is floating-point work left to the caller.

use vstd::prelude::*;

verus! {

/// The first `m` entries of `ranked` (all of them when there are fewer).
pub open spec fn first_links(ranked: Seq<u64>, m: nat) -> Seq<u64> {
    if ranked.len() <= m { ranked } else { ranked.take(m as int) }
}

/// `list` with `node` added at the end, unless it is already there.
pub open spec fn with_back_link(list: Seq<u64>, node: u64) -> Seq<u64> {
    if list.contains(node) { list } else { list.push(node) }
}

/// Adds `node` at the end of `list` unless it is already there.
pub fn add_back_link(list: &mut Vec<u64>, node: u64)
    ensures
        final(list)@ == with_back_link(old(list)@, node),
{
    let mut i: usize = 0;
    while i < list.len()
        invariant
            i <= list.len(),
            forall|j: int| 0 <= j < i ==> list@[j] != node,
        decreases list.len() - i,
    {
        if list[i] == node {
            proof {
                assert(list@.contains(node));
            }
            return;
        }
        i = i + 1;
    }
    list.push(node);
}

/// Links a new `node` on one layer: its neighbours are the best `m` of the
/// `ranked` candidates, best first (the result), and each of them gets a
/// link back to it. `back[i]` is the neighbour list of `ranked[i]`; lists
/// past the chosen neighbours are left as they are.
pub fn link_new_node(node: u64, ranked: &Vec<u64>, m: usize, back: &mut Vec<Vec<u64>>) -> (links: Vec<u64>)
    ensures
        links@ == first_links(ranked@, m as nat),
        final(back).len() == old(back).len(),
        forall|i: int| 0 <= i < old(back).len() ==> #[trigger] final(back)[i]@ == if i < links.len() {
            with_back_link(old(back)[i]@, node)
        } else {
            old(back)[i]@
        },
{
    let n = if ranked.len() < m { ranked.len() } else { m };
    let mut links: Vec<u64> = Vec::new();
    let mut i: usize = 0;
    while i < n
        invariant
            i <= n,
            n <= ranked.len(),
            n == (if ranked.len() < m { ranked.len() } else { m }),
            links@ == ranked@.take(i as int),
            back.len() == old(back).len(),
            forall|j: int| 0 <= j < old(back).len() ==> #[trigger] back[j]@ == if j < i {
                with_back_link(old(back)[j]@, node)
            } else {
                old(back)[j]@
            },
        decreases n - i,
    {
        links.push(ranked[i]);
        if i < back.len() {
            let mut list = back[i].clone();
            proof {
                assert(list@ =~= back[i as int]@);
            }
            add_back_link(&mut list, node);
            back.set(i, list);
        }
        i = i + 1;
        proof {
            assert(links@ =~= ranked@.take(i as int));
        }
    }
    proof {
        assert(ranked@.take(n as int) =~= first_links(ranked@, m as nat));
    }
    links
}

} // verus!

verus! {

/// The entry point after a node drawn at `level` joins the index: the new
/// node when there is no entry yet, or when the current entry lies on a
/// lower level (`entry_level`, when its level is known); else the current
/// entry.
pub fn entry_after_insert(entry: Option<u64>, entry_level: Option<usize>, node: u64, level: usize) -> (r: u64)
    ensures
        r == match entry {
            None => node,
            Some(e) => match entry_level {
                Some(l) => if level > l { node } else { e },
                None => e,
            },
        },
{
    match entry {
        None => node,
        Some(e) => match entry_level {
            Some(l) => if level > l { node } else { e },
            None => e,
        },
    }
}

} // verus!
