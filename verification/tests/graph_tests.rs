use reality_engine::topology::graph::{edge_key, SparseGraph};
use reality_engine::topology::ring::{connect_ring, RING_K};

#[test]
fn edge_key_is_canonical() {
    assert_eq!(edge_key(3, 7), (3u64 << 32) | 7);
    assert_eq!(edge_key(7, 3), (3u64 << 32) | 7);
    assert_eq!(edge_key(0, 0), 0);
    assert_eq!(edge_key(u32::MAX, 1), (1u64 << 32) | u32::MAX as u64);
}

#[test]
fn new_graph_is_empty() {
    let g = SparseGraph::new(5);
    assert_eq!(g.node_count(), 5);
    assert_eq!(g.edge_count(), 0);
    assert!(g.active_nodes().is_empty());
    assert!(g.iter_edges().is_empty());
    for v in 0..5 {
        assert_eq!(g.degree(v), 0);
        assert!(g.neighbors(v).is_empty());
    }
}

#[test]
fn add_edge_rules() {
    let mut g = SparseGraph::new(4);
    assert!(g.add_edge(0, 1));
    assert!(!g.add_edge(1, 0), "already joined");
    assert!(!g.add_edge(2, 2), "self-loop");
    assert!(!g.add_edge(0, 4), "out of range");
    assert!(g.add_edge(2, 1));
    assert_eq!(g.edge_count(), 2);
    assert!(g.has_edge(0, 1));
    assert!(g.has_edge(1, 0));
    assert!(g.has_edge(1, 2));
    assert!(!g.has_edge(0, 2));
    assert_eq!(g.neighbors(1), &[0, 2]);
    assert_eq!(g.degree(1), 2);
    assert_eq!(g.degree(3), 0);
    let active = g.active_nodes();
    assert_eq!(active.len(), 3);
    assert!(active.contains(&0) && active.contains(&1) && active.contains(&2));
    assert!(!active.contains(&3));
}

#[test]
fn remove_edge_undoes_add() {
    let mut g = SparseGraph::new(4);
    g.add_edge(0, 1);
    g.add_edge(1, 2);
    g.add_edge(1, 3);
    assert!(g.remove_edge(2, 1));
    assert!(!g.remove_edge(2, 1), "already gone");
    assert!(!g.remove_edge(0, 3), "never joined");
    assert!(!g.remove_edge(3, 3));
    assert_eq!(g.edge_count(), 2);
    assert!(!g.has_edge(1, 2));
    assert_eq!(g.neighbors(1), &[0, 3]);
    assert!(g.neighbors(2).is_empty());
    assert!(!g.active_nodes().contains(&2));
    assert!(g.active_nodes().contains(&1));
}

#[test]
fn iter_edges_lists_each_edge_once() {
    let mut g = SparseGraph::new(5);
    g.add_edge(4, 0);
    g.add_edge(1, 3);
    g.add_edge(2, 3);
    let mut e = g.iter_edges();
    e.sort();
    assert_eq!(e, vec![(0, 4), (1, 3), (2, 3)]);
}

#[test]
fn ring_of_sixteen() {
    let mut g = SparseGraph::new(16);
    connect_ring(&mut g, RING_K);
    assert_eq!(g.edge_count(), 32);
    for v in 0..16u32 {
        assert_eq!(g.degree(v), 4);
        assert!(g.has_edge(v, (v + 1) % 16));
        assert!(g.has_edge(v, (v + 2) % 16));
        assert!(g.has_edge(v, (v + 15) % 16));
        assert!(g.has_edge(v, (v + 14) % 16));
        assert!(!g.has_edge(v, (v + 3) % 16));
        assert!(!g.has_edge(v, (v + 13) % 16));
    }
    assert_eq!(g.active_nodes().len(), 16);
}

#[test]
fn small_ring_wraps_without_loops() {
    let mut g = SparseGraph::new(4);
    connect_ring(&mut g, RING_K);
    // with four nodes every pair is within two steps
    assert_eq!(g.edge_count(), 6);
    for v in 0..4u32 {
        assert_eq!(g.degree(v), 3);
        assert!(!g.has_edge(v, v));
    }
}

#[test]
fn degrees_sum_to_twice_the_edges() {
    let mut g = SparseGraph::new(6);
    g.add_edge(0, 1);
    g.add_edge(0, 2);
    g.add_edge(3, 4);
    g.add_edge(2, 5);
    g.remove_edge(0, 1);
    g.add_edge(1, 5);
    let sum: usize = (0..6u32).map(|v| g.degree(v)).sum();
    assert_eq!(sum, 2 * g.edge_count());
    assert_eq!(g.edge_count(), 4);
}

#[test]
fn ring_keeps_existing_edges() {
    let mut g = SparseGraph::new(10);
    g.add_edge(0, 5);
    connect_ring(&mut g, 2);
    assert!(g.has_edge(0, 5));
    assert!(g.has_edge(9, 0));
    assert!(g.has_edge(3, 4));
    assert!(!g.has_edge(3, 5));
    assert_eq!(g.edge_count(), 11);
}

#[test]
fn ring_depends_only_on_the_node_count() {
    let mut g = SparseGraph::new(12);
    let mut h = SparseGraph::new(12);
    connect_ring(&mut g, RING_K);
    connect_ring(&mut h, RING_K);
    let mut eg = g.iter_edges();
    let mut eh = h.iter_edges();
    eg.sort();
    eh.sort();
    assert_eq!(eg, eh);
    assert_eq!(eg.len(), 24);
}
