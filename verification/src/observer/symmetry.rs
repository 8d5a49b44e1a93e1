use vstd::prelude::*;
use crate::topology::graph::{NodeId, SparseGraph};
use crate::topology::mutation::surely2;

verus! {

/// How many entries of `s` equal `c`.
pub open spec fn count_class(s: Seq<i8>, c: i8) -> nat
    decreases s.len(),
{
    if s.len() == 0 {
        0
    } else {
        count_class(s.drop_last(), c) + if s.last() == c { 1nat } else { 0nat }
    }
}

/// Edges `(a, b)`, `a < b`, of `g` that `is_wall` may call a wall.
pub open spec fn maybe_walls<W: Fn(NodeId, NodeId) -> bool>(g: SparseGraph, is_wall: &W) -> Set<(NodeId, NodeId)> {
    Set::new(|p: (NodeId, NodeId)| p.0 < p.1 && g.adjacent(p.0, p.1) && is_wall.ensures((p.0, p.1), true))
}

/// Edges `(a, b)`, `a < b`, of `g` that `is_wall` surely calls a wall.
pub open spec fn sure_walls<W: Fn(NodeId, NodeId) -> bool>(g: SparseGraph, is_wall: &W) -> Set<(NodeId, NodeId)> {
    Set::new(|p: (NodeId, NodeId)| p.0 < p.1 && g.adjacent(p.0, p.1) && surely2(is_wall, p.0, p.1))
}

/// Symmetry is never reported broken before this tick, so that the unsettled
/// first ticks give no false signal.
pub const MIN_BREAKING_TICK: u64 = 100;

/// Tracks spontaneous symmetry breaking of the ψ field: how many nodes sit in
/// the + vacuum, the - vacuum or near zero, how many edges cross a domain
/// wall, and the tick at which most nodes first committed to a vacuum.
pub struct SymmetryTracker {
    pub plus_count: usize,
    pub minus_count: usize,
    pub neutral_count: usize,
    pub domain_wall_edges: usize,
    pub symmetry_broken: bool,
    pub breaking_tick: Option<u64>,
}

impl SymmetryTracker {
    pub fn new() -> (t: Self)
        ensures
            t.plus_count == 0,
            t.minus_count == 0,
            t.neutral_count == 0,
            t.domain_wall_edges == 0,
            !t.symmetry_broken,
            t.breaking_tick is None,
    {
        SymmetryTracker {
            plus_count: 0,
            minus_count: 0,
            neutral_count: 0,
            domain_wall_edges: 0,
            symmetry_broken: false,
            breaking_tick: None,
        }
    }

    /// Counts the walls among the edges of `graph`.
    fn count_walls<W: Fn(NodeId, NodeId) -> bool>(graph: &SparseGraph, is_wall: &W) -> (n: usize)
        requires
            graph.wf(),
            forall|a: NodeId, b: NodeId| is_wall.requires((a, b)),
        ensures
            sure_walls(*graph, is_wall).finite(),
            maybe_walls(*graph, is_wall).finite(),
            sure_walls(*graph, is_wall).len() <= n <= maybe_walls(*graph, is_wall).len(),
    {
        let edges = graph.iter_edges();
        let ghost all = edges@.to_set();
        let ghost sure = sure_walls(*graph, is_wall);
        let ghost maybe = maybe_walls(*graph, is_wall);
        proof {
            assert(sure.subset_of(all));
            assert(maybe.subset_of(all));
            vstd::set_lib::lemma_len_subset(sure, all);
        }
        let mut count: usize = 0;
        let ghost mut hit: Set<(NodeId, NodeId)> = Set::empty();
        let mut i: usize = 0;
        while i < edges.len()
            invariant
                graph.wf(),
                forall|a: NodeId, b: NodeId| is_wall.requires((a, b)),
                edges@.no_duplicates(),
                forall|p: (NodeId, NodeId)| #[trigger] edges@.contains(p) <==> (p.0 < p.1 && graph.adjacent(p.0, p.1)),
                all == edges@.to_set(),
                sure == sure_walls(*graph, is_wall),
                maybe == maybe_walls(*graph, is_wall),
                0 <= i <= edges.len(),
                hit.finite(),
                hit.subset_of(maybe),
                hit.len() == count,
                count <= i,
                forall|p: (NodeId, NodeId)| #[trigger] hit.contains(p) ==> exists|j: int| 0 <= j < i && edges@[j] == p,
                forall|j: int| 0 <= j < i && sure.contains(#[trigger] edges@[j]) ==> hit.contains(edges@[j]),
            decreases edges.len() - i,
        {
            let (a, b) = edges[i];
            proof {
                assert(edges@.contains(edges@[i as int]));
            }
            if is_wall(a, b) {
                proof {
                    if hit.contains((a, b)) {
                        let j = choose|j: int| 0 <= j < i && edges@[j] == (a, b);
                        assert(edges@[j] == edges@[i as int]);
                    }
                    hit = hit.insert((a, b));
                }
                count += 1;
            }
            i += 1;
        }
        proof {
            assert(sure.subset_of(hit)) by {
                assert forall|p: (NodeId, NodeId)| #[trigger] sure.contains(p) implies hit.contains(p) by {
                    assert(edges@.contains(p));
                    let j = choose|j: int| 0 <= j < edges@.len() && edges@[j] == p;
                    assert(sure.contains(edges@[j]));
                }
            }
            vstd::set_lib::lemma_len_subset(sure, hit);
            vstd::set_lib::lemma_len_subset(hit, maybe);
            vstd::set_lib::lemma_len_subset(maybe, all);
        }
        count
    }

    /// Records one observation. `classes[v]` is +1 when node `v` sits in the
    /// + vacuum, -1 in the - vacuum, anything else near zero; `is_wall(a, b)`
    /// tells whether the edge `{a, b}` crosses a domain wall; `committed(plus,
    /// minus, n)` tells whether that many committed nodes out of `n` count as
    /// most of them. The first tick, not before `MIN_BREAKING_TICK`, at which
    /// they do is kept as the breaking tick.
    pub fn update<W: Fn(NodeId, NodeId) -> bool, M: Fn(usize, usize, usize) -> bool>(
        &mut self,
        classes: &[i8],
        graph: &SparseGraph,
        tick: u64,
        is_wall: &W,
        committed: &M,
    )
        requires
            graph.wf(),
            forall|a: NodeId, b: NodeId| is_wall.requires((a, b)),
            forall|p: usize, m: usize, n: usize| committed.requires((p, m, n)),
        ensures
            final(self).plus_count == count_class(classes@, 1i8),
            final(self).minus_count == count_class(classes@, -1i8),
            final(self).neutral_count + final(self).plus_count + final(self).minus_count == classes@.len(),
            sure_walls(*graph, is_wall).finite(),
            maybe_walls(*graph, is_wall).finite(),
            sure_walls(*graph, is_wall).len() <= final(self).domain_wall_edges <= maybe_walls(*graph, is_wall).len(),
            exists|m: bool|
                #![trigger committed.ensures((final(self).plus_count, final(self).minus_count, classes@.len() as usize), m)]
                committed.ensures((final(self).plus_count, final(self).minus_count, classes@.len() as usize), m)
                && final(self).symmetry_broken == (old(self).symmetry_broken || (m && tick >= MIN_BREAKING_TICK))
                && final(self).breaking_tick == if !old(self).symmetry_broken && m && tick >= MIN_BREAKING_TICK {
                    Some(tick)
                } else {
                    old(self).breaking_tick
                },
    {
        let n = classes.len();
        let mut plus: usize = 0;
        let mut minus: usize = 0;
        let mut neutral: usize = 0;
        let mut i: usize = 0;
        while i < n
            invariant
                0 <= i <= n,
                n == classes@.len(),
                plus == count_class(classes@.take(i as int), 1i8),
                minus == count_class(classes@.take(i as int), -1i8),
                plus + minus + neutral == i,
            decreases n - i,
        {
            proof {
                assert(classes@.take(i + 1).drop_last() =~= classes@.take(i as int));
            }
            let c = classes[i];
            if c == 1 {
                plus += 1;
            } else if c == -1 {
                minus += 1;
            } else {
                neutral += 1;
            }
            i += 1;
        }
        proof {
            assert(classes@.take(n as int) =~= classes@);
        }
        self.plus_count = plus;
        self.minus_count = minus;
        self.neutral_count = neutral;
        self.domain_wall_edges = Self::count_walls(graph, is_wall);
        let m = committed(plus, minus, n);
        if m && tick >= MIN_BREAKING_TICK && !self.symmetry_broken {
            self.symmetry_broken = true;
            self.breaking_tick = Some(tick);
        }
        proof {
            assert(committed.ensures((self.plus_count, self.minus_count, classes@.len() as usize), m));
        }
    }
}

} // verus!
