use stratum::graph::causal::CausalGraph;
use stratum::RecordId;

fn id(n: u8) -> RecordId {
    let mut x = [0u8; 32];
    x[0] = n;
    x
}

#[test]
fn descendants_traverses_chain() {
    let mut g = CausalGraph::new();
    // A -> B -> C -> D
    g.add_node(id(0));
    g.add_edge(id(0), id(1));
    g.add_edge(id(1), id(2));
    g.add_edge(id(2), id(3));

    let d = g.descendants(&id(0), 10);
    assert_eq!(d.len(), 3);
    assert!(d.contains(&id(1)));
    assert!(d.contains(&id(2)));
    assert!(d.contains(&id(3)));
}

#[test]
fn descendants_respects_depth() {
    let mut g = CausalGraph::new();
    g.add_node(id(0));
    g.add_edge(id(0), id(1));
    g.add_edge(id(1), id(2));
    g.add_edge(id(2), id(3));

    let d = g.descendants(&id(0), 2);
    assert_eq!(d.len(), 2);
    assert!(d.contains(&id(1)));
    assert!(d.contains(&id(2)));
    assert!(!d.contains(&id(3)));
}

#[test]
fn ancestors_traverses_backward() {
    let mut g = CausalGraph::new();
    g.add_edge(id(0), id(1));
    g.add_edge(id(1), id(2));

    let ancs = g.ancestors(&id(2), 10);
    assert!(ancs.contains(&id(1)));
    assert!(ancs.contains(&id(0)));
}

#[test]
fn shortest_path_finds_path() {
    let mut g = CausalGraph::new();
    g.add_edge(id(0), id(1));
    g.add_edge(id(1), id(2));
    g.add_edge(id(0), id(2)); // shortcut

    let path = g.shortest_path(&id(0), &id(2)).unwrap();
    assert_eq!(path.len(), 2); // [0, 2] is shorter than [0, 1, 2]
}

#[test]
fn shortest_path_returns_none_for_disconnected() {
    let mut g = CausalGraph::new();
    g.add_node(id(0));
    g.add_node(id(5));

    assert!(g.shortest_path(&id(0), &id(5)).is_none());
}

#[test]
fn roots_and_leaves() {
    let mut g = CausalGraph::new();
    g.add_node(id(0));
    g.add_node(id(3));
    g.add_edge(id(0), id(1));
    g.add_edge(id(1), id(2));
    g.add_edge(id(2), id(3));

    let roots = g.roots();
    assert!(roots.contains(&id(0)));

    let leaves = g.leaves();
    assert!(leaves.contains(&id(3)));
}

#[test]
fn descendants_come_in_breadth_first_order_without_repeats() {
    let mut g = CausalGraph::new();
    g.add_edge(id(0), id(1));
    g.add_edge(id(0), id(2));
    g.add_edge(id(1), id(3));
    g.add_edge(id(2), id(3));
    g.add_edge(id(3), id(0)); // a cycle back to the start
    let d = g.descendants(&id(0), 10);
    assert_eq!(d, vec![id(1), id(2), id(3)]);
}

#[test]
fn descendants_at_depth_zero_is_empty() {
    let mut g = CausalGraph::new();
    g.add_edge(id(0), id(1));
    assert!(g.descendants(&id(0), 0).is_empty());
    assert!(g.descendants(&id(9), 5).is_empty());
}

#[test]
fn effects_and_causes_are_dual() {
    let mut g = CausalGraph::new();
    g.add_edge(id(0), id(1));
    g.add_edge(id(1), id(2));
    g.add_edge(id(4), id(2));
    for a in 0..5u8 {
        for b in 0..5u8 {
            for d in 0..4usize {
                let forward = g.descendants(&id(a), d).contains(&id(b));
                let backward = g.ancestors(&id(b), d).contains(&id(a));
                assert_eq!(forward, backward, "a={} b={} d={}", a, b, d);
            }
        }
    }
}

#[test]
fn new_edge_makes_a_direct_effect() {
    let mut g = CausalGraph::new();
    g.add_edge(id(7), id(8));
    assert_eq!(g.descendants(&id(7), 1), vec![id(8)]);
    assert_eq!(g.effects_of(&id(7)), vec![id(8)]);
    assert_eq!(g.causes_of(&id(8)), vec![id(7)]);
}

#[test]
fn shortest_path_is_the_walk_itself() {
    let mut g = CausalGraph::new();
    g.add_edge(id(0), id(1));
    g.add_edge(id(1), id(2));
    g.add_edge(id(2), id(3));
    assert_eq!(g.shortest_path(&id(0), &id(3)), Some(vec![id(0), id(1), id(2), id(3)]));
    assert_eq!(g.shortest_path(&id(2), &id(2)), Some(vec![id(2)]));
    assert_eq!(g.shortest_path(&id(3), &id(0)), None);
}

#[test]
fn counts_edges_and_nodes() {
    let mut g = CausalGraph::new();
    g.add_node(id(0));
    g.add_edge(id(0), id(1));
    g.add_edge(id(0), id(1));
    assert_eq!(g.edge_count(), 2);
    assert_eq!(g.node_count(), 2);
    assert_eq!(g.effects_of(&id(0)), vec![id(1), id(1)]);
    assert!(g.effects_of(&id(5)).is_empty());
    let d = CausalGraph::default();
    assert_eq!(d.edge_count(), 0);
    assert_eq!(d.node_count(), 0);
}

#[test]
fn roots_and_leaves_cover_every_node() {
    let mut g = CausalGraph::new();
    g.add_edge(id(0), id(1));
    assert_eq!(g.roots(), vec![id(0)]);
    assert_eq!(g.leaves(), vec![id(1)]);
    assert_eq!(g.node_count(), 2);
}

#[test]
fn records_of_one_layer_come_in_the_order_they_are_met() {
    let mut g = CausalGraph::new();
    g.add_edge(id(0), id(5));
    g.add_edge(id(0), id(1));
    g.add_edge(id(1), id(7));
    g.add_edge(id(5), id(6));
    g.add_edge(id(5), id(7));
    // layer one in the order of 0's list, layer two in the order its
    // records are met from 5, then from 1
    assert_eq!(g.descendants(&id(0), 10), vec![id(5), id(1), id(6), id(7)]);
    assert_eq!(g.ancestors(&id(7), 10), vec![id(1), id(5), id(0)]);
}

#[test]
fn shortest_path_follows_the_first_discoverer() {
    let mut g = CausalGraph::new();
    g.add_edge(id(0), id(2));
    g.add_edge(id(0), id(1));
    g.add_edge(id(1), id(3));
    g.add_edge(id(2), id(3));
    // both 0-1-3 and 0-2-3 are shortest; 3 is first met from 2
    assert_eq!(g.shortest_path(&id(0), &id(3)), Some(vec![id(0), id(2), id(3)]));
    assert_eq!(g.shortest_path(&id(3), &id(3)), Some(vec![id(3)]));
}
