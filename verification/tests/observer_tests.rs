use reality_engine::observer::persistence::PersistenceTracker;
use reality_engine::observer::symmetry::SymmetryTracker;
use reality_engine::topology::graph::SparseGraph;

#[test]
fn persistence_counts_unchanged_nonzero_signs() {
    let mut t = PersistenceTracker::new(4);
    t.update(&[1, -1, 0, 1]);
    assert_eq!(t.max_stability(), 0);
    t.update(&[1, -1, 0, -1]);
    assert_eq!((t.stability_at(0), t.stability_at(1), t.stability_at(2), t.stability_at(3)), (1, 1, 0, 0));
    t.update(&[1, 1, 0, -1]);
    assert_eq!((t.stability_at(0), t.stability_at(1), t.stability_at(2), t.stability_at(3)), (2, 0, 0, 1));
    assert_eq!(t.max_stability(), 2);
    assert_eq!(t.total_stability(), 3);
}

#[test]
fn persistence_partial_update_keeps_the_rest() {
    let mut t = PersistenceTracker::new(3);
    t.update(&[1, 1, 1]);
    t.update(&[1, 1, 1]);
    t.update(&[-1]);
    assert_eq!((t.stability_at(0), t.stability_at(1), t.stability_at(2)), (0, 1, 1));
    assert_eq!(t.max_stability(), 0);
    assert_eq!(t.total_stability(), 0);
}

#[test]
fn symmetry_counts_and_walls() {
    let mut g = SparseGraph::new(4);
    g.add_edge(0, 1);
    g.add_edge(1, 2);
    g.add_edge(2, 3);
    let classes: [i8; 4] = [1, 1, -1, 0];
    let mut t = SymmetryTracker::new();
    // too early: the flag waits for the minimum tick
    t.update(&classes, &g, 7, &|a, b| classes[a as usize] * classes[b as usize] < 0, &|p, m, n| 10 * (p + m) > 6 * n);
    assert_eq!((t.plus_count, t.minus_count, t.neutral_count), (2, 1, 1));
    assert_eq!(t.domain_wall_edges, 1);
    assert!(!t.symmetry_broken);
    assert_eq!(t.breaking_tick, None);
    t.update(&classes, &g, 107, &|a, b| classes[a as usize] * classes[b as usize] < 0, &|p, m, n| 10 * (p + m) > 6 * n);
    assert!(t.symmetry_broken);
    assert_eq!(t.breaking_tick, Some(107));
    // the breaking tick is kept once set
    let calm: [i8; 4] = [0, 0, 0, 0];
    t.update(&calm, &g, 109, &|_, _| false, &|p, m, n| 10 * (p + m) > 6 * n);
    assert_eq!(t.neutral_count, 4);
    assert_eq!(t.domain_wall_edges, 0);
    assert!(t.symmetry_broken);
    assert_eq!(t.breaking_tick, Some(107));
}

#[test]
fn symmetry_intact_without_majority() {
    let g = SparseGraph::new(2);
    let mut t = SymmetryTracker::new();
    t.update(&[1, 0], &g, 300, &|_, _| true, &|p, m, n| 10 * (p + m) > 6 * n);
    assert!(!t.symmetry_broken);
    assert_eq!(t.breaking_tick, None);
    assert_eq!(t.domain_wall_edges, 0);
}

use reality_engine::observer::compression::CompressionDetector;

#[test]
fn compression_counts_regions_of_three_or_more() {
    // a path 0-1-2-3-4-5 with values; similar = same value as the seed
    let mut g = SparseGraph::new(7);
    for v in 0..5u32 {
        g.add_edge(v, v + 1);
    }
    let value = [1, 1, 1, 2, 2, 3, 3];
    let mut d = CompressionDetector::new();
    d.update(&g, &|seed, v| value[seed as usize] == value[v as usize]);
    // regions {0,1,2}, {3,4}, {5}, {6}: node 6 is isolated
    assert_eq!(d.macro_region_count, 1);
    assert_eq!(d.largest_region_size, 3);
}

#[test]
fn compression_all_similar_is_one_region_per_component() {
    let mut g = SparseGraph::new(8);
    for v in 0..4u32 {
        g.add_edge(v, (v + 1) % 4);
    }
    g.add_edge(4, 5);
    g.add_edge(5, 6);
    let mut d = CompressionDetector::new();
    d.update(&g, &|_, _| true);
    assert_eq!(d.macro_region_count, 2);
    assert_eq!(d.largest_region_size, 4);
    d.update(&g, &|_, _| false);
    assert_eq!(d.macro_region_count, 0);
    assert_eq!(d.largest_region_size, 0);
}

#[test]
fn persistence_counts_each_update_the_sign_held() {
    let mut t = PersistenceTracker::new(2);
    for _ in 0..4 {
        t.update(&[1, -1]);
    }
    assert_eq!((t.stability_at(0), t.stability_at(1)), (3, 3));
    assert!(t.max_stability() >= 3);
    t.update(&[-1, 0]);
    assert_eq!((t.stability_at(0), t.stability_at(1)), (0, 0));
}
