use vstd::prelude::*;
use crate::topology::graph::{NodeId, SparseGraph, spec_edge_key, key_lo, key_hi, lemma_edge_key_injective, degree_sum};

verus! {

/// Each node of the initial ring has this many neighbours: half of them
/// ahead of it around the ring, half behind.
pub const RING_K: usize = 4;

/// The node `d` places after `x` around a ring of `n`.
pub open spec fn ring_step(n: int, x: int, d: int) -> int {
    (x + d) % n
}

/// `(x, d)` comes before `(i, kk)` in the order the ring is built: node by
/// node, and for each node distance by distance, `d` from 1 to `k`.
pub open spec fn built_before(k: int, i: int, kk: int, x: int, d: int) -> bool {
    (0 <= x < i && 1 <= d <= k) || (x == i && 1 <= d < kk)
}

/// `a` and `b` are distinct and one is `d` places after the other for a
/// step `(x, d)` built before `(i, kk)`.
pub open spec fn ring_linked_upto(n: int, k: int, i: int, kk: int, a: int, b: int) -> bool {
    a != b && exists|x: int, d: int|
        #![trigger ring_step(n, x, d)]
        built_before(k, i, kk, x, d) && ((x == a && ring_step(n, x, d) == b) || (x == b && ring_step(n, x, d) == a))
}

/// `a` and `b` are distinct nodes of a ring of `n`, one at most `k` places
/// after the other.
pub open spec fn ring_linked(n: int, k: int, a: int, b: int) -> bool {
    ring_linked_upto(n, k, n, 1, a, b)
}

/// Joins every node `i` of the graph to its `ring_k / 2` nearest nodes on
/// each side around the ring, `(i ± 1) % n` to `(i ± ring_k / 2) % n`, so
/// that on an empty graph of more than `ring_k` nodes each node has `ring_k`
/// neighbours (for even `ring_k`); edges already there are kept.
pub fn connect_ring(graph: &mut SparseGraph, ring_k: usize)
    requires
        old(graph).wf(),
        old(graph).size() <= u32::MAX,
        old(graph).size() + ring_k / 2 <= usize::MAX,
    ensures
        final(graph).wf(),
        final(graph).size() == old(graph).size(),
        forall|a: NodeId, b: NodeId|
            #[trigger] final(graph).adjacent(a, b) <==> (old(graph).adjacent(a, b) || ring_linked(
                old(graph).size(),
                (ring_k / 2) as int,
                a as int,
                b as int,
            )),
        old(graph).keys() == Set::<u64>::empty() && 2 * (ring_k / 2) < old(graph).size() ==> {
            &&& forall|v: NodeId| (v as int) < final(graph).size() ==> #[trigger] final(graph).deg(v) == 2 * (ring_k / 2)
            &&& final(graph).keys().len() == final(graph).size() * (ring_k / 2)
        },
        old(graph).keys() == Set::<u64>::empty() && ring_k % 2 == 0 && ring_k < old(graph).size() ==> {
            &&& forall|v: NodeId| (v as int) < final(graph).size() ==> #[trigger] final(graph).deg(v) == ring_k
            &&& 2 * final(graph).keys().len() == final(graph).size() * ring_k
        },
{
    let ghost g0 = *graph;
    let n = graph.node_count();
    let half = ring_k / 2;
    let ghost k = half as int;
    let mut i: usize = 0;
    while i < n
        invariant
            graph.wf(),
            graph.size() == n,
            g0.size() == n,
            n <= u32::MAX,
            n + half <= usize::MAX,
            k == half,
            0 <= i <= n,
            forall|a: NodeId, b: NodeId|
                #[trigger] graph.adjacent(a, b) <==> (g0.adjacent(a, b) || ring_linked_upto(n as int, k, i as int, 1, a as int, b as int)),
        decreases n - i,
    {
        let mut kk: usize = 1;
        while kk <= half
            invariant
                graph.wf(),
                graph.size() == n,
                n <= u32::MAX,
                n + half <= usize::MAX,
                k == half,
                0 <= i < n,
                1 <= kk <= half + 1,
                forall|a: NodeId, b: NodeId|
                    #[trigger] graph.adjacent(a, b) <==> (g0.adjacent(a, b) || ring_linked_upto(n as int, k, i as int, kk as int, a as int, b as int)),
            decreases half + 1 - kk,
        {
            let j = (i + kk) % n;
            let ghost gs = *graph;
            graph.add_edge(i as NodeId, j as NodeId);
            proof {
                let ii = i as int;
                let jj = j as int;
                let d = kk as int;
                assert(ring_step(n as int, ii, d) == jj);
                assert forall|a: NodeId, b: NodeId|
                    #[trigger] graph.adjacent(a, b) <==> (g0.adjacent(a, b) || ring_linked_upto(n as int, k, ii, d + 1, a as int, b as int)) by {
                    lemma_edge_key_injective(a, b, i as NodeId, j as NodeId);
                    let now = ring_linked_upto(n as int, k, ii, d + 1, a as int, b as int);
                    let before = ring_linked_upto(n as int, k, ii, d, a as int, b as int);
                    let fresh = a != b && ((a as int == ii && b as int == jj) || (b as int == ii && a as int == jj));
                    assert(now == (before || fresh)) by {
                        if now {
                            let (x, e) = choose|x: int, e: int|
                                #![trigger ring_step(n as int, x, e)]
                                built_before(k, ii, d + 1, x, e) && ((x == a && ring_step(n as int, x, e) == b) || (x == b && ring_step(n as int, x, e) == a));
                            if !(x == ii && e == d) {
                                assert(built_before(k, ii, d, x, e));
                            }
                        }
                        if before {
                            let (x, e) = choose|x: int, e: int|
                                #![trigger ring_step(n as int, x, e)]
                                built_before(k, ii, d, x, e) && ((x == a && ring_step(n as int, x, e) == b) || (x == b && ring_step(n as int, x, e) == a));
                            assert(built_before(k, ii, d + 1, x, e));
                        }
                        if fresh {
                            assert(built_before(k, ii, d + 1, ii, d));
                        }
                    }
                    assert(graph.adjacent(a, b) == (gs.adjacent(a, b) || (fresh && spec_edge_key(a, b) == spec_edge_key(i as NodeId, j as NodeId)))) by {
                        gs.lemma_adjacent(i as NodeId, j as NodeId);
                    }
                }
            }
            kk += 1;
        }
        proof {
            assert forall|a: NodeId, b: NodeId|
                #[trigger] graph.adjacent(a, b) <==> (g0.adjacent(a, b) || ring_linked_upto(n as int, k, i + 1, 1, a as int, b as int)) by {
                let p = ring_linked_upto(n as int, k, i as int, k + 1, a as int, b as int);
                let q = ring_linked_upto(n as int, k, i + 1, 1, a as int, b as int);
                if p {
                    let (x, e) = choose|x: int, e: int|
                        #![trigger ring_step(n as int, x, e)]
                        built_before(k, i as int, k + 1, x, e) && ((x == a && ring_step(n as int, x, e) == b) || (x == b && ring_step(n as int, x, e) == a));
                    assert(built_before(k, i + 1, 1, x, e));
                }
                if q {
                    let (x, e) = choose|x: int, e: int|
                        #![trigger ring_step(n as int, x, e)]
                        built_before(k, i + 1, 1, x, e) && ((x == a && ring_step(n as int, x, e) == b) || (x == b && ring_step(n as int, x, e) == a));
                    assert(built_before(k, i as int, k + 1, x, e));
                }
            }
        }
        i += 1;
    }
    proof {
        if g0.keys() == Set::<u64>::empty() && 2 * half < n {
            lemma_ring_degrees(g0, *graph, half as int);
            if ring_k % 2 == 0 {
                assert(2 * (graph.size() * k) == graph.size() * (2 * k)) by (nonlinear_arith);
            }
        }
    }
}

/// The ring is fixed by the node count and the neighbour count alone: built
/// on two empty graphs of the same size, it gives the same edges.
pub proof fn lemma_ring_determined(g0: SparseGraph, g1: SparseGraph, h0: SparseGraph, h1: SparseGraph, k: int)
    requires
        g0.wf(),
        g1.wf(),
        h0.wf(),
        h1.wf(),
        g0.keys() == Set::<u64>::empty(),
        h0.keys() == Set::<u64>::empty(),
        g0.size() == h0.size(),
        forall|a: NodeId, b: NodeId|
            #[trigger] g1.adjacent(a, b) <==> (g0.adjacent(a, b) || ring_linked(g0.size(), k, a as int, b as int)),
        forall|a: NodeId, b: NodeId|
            #[trigger] h1.adjacent(a, b) <==> (h0.adjacent(a, b) || ring_linked(h0.size(), k, a as int, b as int)),
    ensures
        g1.keys() == h1.keys(),
{
    assert forall|e: u64| g1.keys().contains(e) <==> h1.keys().contains(e) by {
        if g1.keys().contains(e) {
            assert(g1.adjacent(key_lo(e), key_hi(e)));
            assert(h1.adjacent(key_lo(e), key_hi(e)));
        }
        if h1.keys().contains(e) {
            assert(h1.adjacent(key_lo(e), key_hi(e)));
            assert(g1.adjacent(key_lo(e), key_hi(e)));
        }
    }
    assert(g1.keys() =~= h1.keys());
}

/// `x % n` for `x` below `2n`.
proof fn lemma_mod_wrap(x: int, n: int)
    requires
        n > 0,
        0 <= x < 2 * n,
    ensures
        x % n == (if x < n { x } else { x - n }),
{
    if x < n {
        vstd::arithmetic::div_mod::lemma_fundamental_div_mod_converse(x, n, 0, x);
    } else {
        vstd::arithmetic::div_mod::lemma_fundamental_div_mod_converse(x, n, 1, x - n);
    }
}

/// The node `d` places after `v` around a ring of `n`.
pub open spec fn ahead(n: int, v: int, d: int) -> int {
    if v + d < n {
        v + d
    } else {
        v + d - n
    }
}

/// The node `d` places before `v` around a ring of `n`.
pub open spec fn behind(n: int, v: int, d: int) -> int {
    if v - d >= 0 {
        v - d
    } else {
        v - d + n
    }
}

/// The ring neighbours of `v`: `k` ahead, then `k` behind.
pub open spec fn ring_neighbours(n: int, k: int, v: int) -> Seq<NodeId> {
    Seq::new((2 * k) as nat, |i: int| if i < k { ahead(n, v, i + 1) as NodeId } else { behind(n, v, i - k + 1) as NodeId })
}

/// On a ring of more than `2k` nodes the `2k` ring neighbours of a node are
/// distinct, and they are exactly the nodes ring-linked to it.
proof fn lemma_ring_neighbours(n: int, k: int, v: NodeId)
    requires
        0 <= k,
        2 * k < n,
        n <= u32::MAX,
        (v as int) < n,
    ensures
        ring_neighbours(n, k, v as int).no_duplicates(),
        forall|y: NodeId| #[trigger] ring_neighbours(n, k, v as int).contains(y) <==> ring_linked(n, k, v as int, y as int),
{
    let s = ring_neighbours(n, k, v as int);
    let vi = v as int;
    assert forall|i: int, j: int| 0 <= i < s.len() && 0 <= j < s.len() && i != j implies s[i] != s[j] by {
    }
    assert forall|y: NodeId| #[trigger] s.contains(y) <==> ring_linked(n, k, vi, y as int) by {
        let yi = y as int;
        if s.contains(y) {
            let i = choose|i: int| 0 <= i < s.len() && s[i] == y;
            if i < k {
                let d = i + 1;
                lemma_mod_wrap(vi + d, n);
                assert(ring_step(n, vi, d) == yi);
                assert(built_before(k, n, 1, vi, d));
            } else {
                let d = i - k + 1;
                lemma_mod_wrap(yi + d, n);
                assert(ring_step(n, yi, d) == vi);
                assert(built_before(k, n, 1, yi, d));
            }
        }
        if ring_linked(n, k, vi, yi) {
            let (x, d) = choose|x: int, d: int|
                #![trigger ring_step(n, x, d)]
                built_before(k, n, 1, x, d) && ((x == vi && ring_step(n, x, d) == yi) || (x == yi && ring_step(n, x, d) == vi));
            lemma_mod_wrap(x + d, n);
            if x == vi && ring_step(n, x, d) == yi {
                assert(s[d - 1] == y);
            } else {
                assert(s[k + d - 1] == y);
            }
        }
    }
}

/// `n` lists of `m` entries each sum to `n * m`.
proof fn lemma_degree_sum_const(lists: Seq<Seq<NodeId>>, m: int)
    requires
        forall|i: int| 0 <= i < lists.len() ==> #[trigger] lists[i].len() == m,
    ensures
        degree_sum(lists) == lists.len() * m,
    decreases lists.len(),
{
    if lists.len() > 0 {
        lemma_degree_sum_const(lists.drop_last(), m);
        assert(lists.drop_last().len() * m + m == lists.len() * m) by (nonlinear_arith)
            requires lists.drop_last().len() + 1 == lists.len();
    }
}

/// A ring built on an empty graph of more than `2k` nodes gives every node
/// exactly `2k` neighbours, so it has `n * k` edges.
pub proof fn lemma_ring_degrees(g0: SparseGraph, g1: SparseGraph, k: int)
    requires
        g0.wf(),
        g1.wf(),
        g0.keys() == Set::<u64>::empty(),
        g1.size() == g0.size(),
        g0.size() <= u32::MAX,
        0 <= k,
        2 * k < g0.size(),
        forall|a: NodeId, b: NodeId|
            #[trigger] g1.adjacent(a, b) <==> (g0.adjacent(a, b) || ring_linked(g0.size(), k, a as int, b as int)),
    ensures
        forall|v: NodeId| (v as int) < g1.size() ==> #[trigger] g1.deg(v) == 2 * k,
        g1.keys().len() == g1.size() * k,
{
    let n = g0.size();
    assert forall|v: NodeId| (v as int) < n implies #[trigger] g1.deg(v) == 2 * k by {
        lemma_ring_neighbours(n, k, v);
        let s = ring_neighbours(n, k, v as int);
        let l = g1.nbrs()[v as int];
        assert(l.to_set() =~= s.to_set()) by {
            assert forall|y: NodeId| l.to_set().contains(y) <==> s.to_set().contains(y) by {
                assert(l.contains(y) <==> g1.adjacent(v, y));
                assert(!g0.adjacent(v, y));
                assert(s.contains(y) <==> ring_linked(n, k, v as int, y as int));
            }
        }
        l.unique_seq_to_set();
        s.unique_seq_to_set();
    }
    assert forall|i: int| 0 <= i < g1.nbrs().len() implies #[trigger] g1.nbrs()[i].len() == 2 * k by {
        assert(g1.deg(i as NodeId) == 2 * k);
    }
    lemma_degree_sum_const(g1.nbrs(), 2 * k);
    assert(2 * g1.keys().len() == n * (2 * k));
    assert(n * (2 * k) == 2 * (n * k)) by (nonlinear_arith);
}

} // verus!
