use reality_engine::topology::graph::SparseGraph;
use reality_engine::topology::mutation::{MutationEngine, MutationStats};
use reality_engine::topology::ring::connect_ring;

fn ring(n: usize, k: usize) -> SparseGraph {
    let mut g = SparseGraph::new(n);
    connect_ring(&mut g, k);
    g
}

#[test]
fn default_stats_are_zero() {
    let s = MutationStats::default();
    assert_eq!((s.created, s.destroyed), (0, 0));
}

#[test]
fn tears_one_asked_edge() {
    let mut g = ring(8, 4);
    let mut e = MutationEngine::new(8);
    let s = e.apply(&mut g, 100, &|a, b| a == 0 && b == 1, &|_| false, &|_, _| false);
    assert_eq!((s.created, s.destroyed), (0, 1));
    assert!(!g.has_edge(0, 1));
    assert_eq!(g.edge_count(), 15);
    assert_eq!(g.degree(0), 3);
    assert_eq!(g.degree(1), 3);
}

#[test]
fn resting_nodes_do_not_change() {
    let mut g = ring(8, 4);
    let mut e = MutationEngine::new(8);
    // tick 5 is within the cooldown of the initial stamp 0
    let s = e.apply(&mut g, 5, &|_, _| true, &|_| true, &|_, _| true);
    assert_eq!((s.created, s.destroyed), (0, 0));
    assert_eq!(g.edge_count(), 16);
}

#[test]
fn each_node_changes_at_most_once_per_tick() {
    let mut g = ring(16, 8);
    let mut e = MutationEngine::new(16);
    let s = e.apply(&mut g, 100, &|_, _| true, &|_| false, &|_, _| false);
    // every torn edge uses two fresh nodes
    assert!(s.destroyed >= 1);
    assert!(s.destroyed <= 8);
    assert_eq!(g.edge_count(), 64 - s.destroyed as usize);
    let mut changed = 0;
    for v in 0..16u32 {
        let d = g.degree(v);
        assert!(d == 8 || d == 7);
        if d == 7 {
            changed += 1;
        }
    }
    assert_eq!(changed, 2 * s.destroyed as usize);
    // a second round in the same tick finds every touched node resting
    let s2 = e.apply(&mut g, 100, &|_, _| true, &|_| false, &|_, _| false);
    assert_eq!(s2.destroyed, 0);
}

#[test]
fn tearing_stops_at_two_neighbours() {
    let mut g = SparseGraph::new(3);
    g.add_edge(0, 1);
    g.add_edge(1, 2);
    g.add_edge(0, 2);
    let mut e = MutationEngine::new(3);
    let s = e.apply(&mut g, 100, &|_, _| true, &|_| false, &|_, _| false);
    assert_eq!(s.destroyed, 0);
    assert_eq!(g.edge_count(), 3);
}

#[test]
fn joins_neighbour_of_neighbour() {
    let mut g = SparseGraph::new(3);
    g.add_edge(0, 1);
    g.add_edge(1, 2);
    let mut e = MutationEngine::new(3);
    let s = e.apply(&mut g, 100, &|_, _| false, &|a| a == 0, &|_, _| true);
    assert_eq!((s.created, s.destroyed), (1, 0));
    assert!(g.has_edge(0, 2));
    assert_eq!(g.edge_count(), 3);
}

#[test]
fn no_join_without_attraction_or_room() {
    let mut g = SparseGraph::new(3);
    g.add_edge(0, 1);
    g.add_edge(1, 2);
    let mut e = MutationEngine::new(3);
    let s = e.apply(&mut g, 100, &|_, _| false, &|_| true, &|_, _| false);
    assert_eq!(s.created, 0);
    // a node at MAX_DEGREE takes no new edge
    let mut star = SparseGraph::new(10);
    for v in 1..10u32 {
        star.add_edge(0, v);
    }
    let mut e2 = MutationEngine::new(10);
    let s2 = e2.apply(&mut star, 100, &|_, _| false, &|a| a == 0, &|_, _| true);
    assert_eq!(s2.created, 0);
}

#[test]
fn join_takes_the_first_candidate_in_list_order() {
    let mut g = SparseGraph::new(4);
    g.add_edge(0, 1);
    g.add_edge(1, 2);
    g.add_edge(1, 3);
    let mut e = MutationEngine::new(4);
    let s = e.apply(&mut g, 100, &|_, _| false, &|a| a == 0, &|_, _| true);
    assert_eq!((s.created, s.destroyed), (1, 0));
    assert!(g.has_edge(0, 2));
    assert!(!g.has_edge(0, 3));
}

#[test]
fn seekers_are_served_in_id_order() {
    let mut g = SparseGraph::new(4);
    g.add_edge(0, 1);
    g.add_edge(0, 2);
    g.add_edge(0, 3);
    g.add_edge(1, 2);
    let mut e = MutationEngine::new(4);
    let s = e.apply(&mut g, 100, &|_, _| false, &|a| a == 1 || a == 2, &|_, _| true);
    assert_eq!((s.created, s.destroyed), (1, 0));
    assert!(g.has_edge(1, 3));
    assert!(!g.has_edge(2, 3));
}
