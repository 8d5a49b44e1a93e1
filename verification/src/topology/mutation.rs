use vstd::prelude::*;
use crate::topology::graph::{drops_one, NodeId, SparseGraph, spec_edge_key, key_lo, key_hi, lemma_edge_key_parts, lemma_edge_key_injective};

verus! {

/// A node with this many neighbours takes no new edge.
pub const MAX_DEGREE: usize = 8;

/// An edge is torn only while both ends have more neighbours than this.
pub const MIN_DEGREE_FOR_DESTROY: usize = 2;

/// Ticks a node rests after a mutation before it may lose an edge again;
/// twice as long before it may gain one.
pub const COOLDOWN_TICKS: u64 = 8;

/// `t` is at least `span` ticks after `last`.
pub open spec fn cooled(t: u64, last: u64, span: int) -> bool {
    t as int >= last as int + span
}

/// The key `k` has `v` as an end.
pub open spec fn ends(k: u64, v: NodeId) -> bool {
    key_lo(k) == v || key_hi(k) == v
}

/// Some key of `ks` has `v` as an end.
pub open spec fn touched(ks: Set<u64>, v: NodeId) -> bool {
    exists|k: u64| #[trigger] ks.contains(k) && ends(k, v)
}

/// No node is an end of two keys of `ks`.
pub open spec fn is_matching(ks: Set<u64>) -> bool {
    forall|k1: u64, k2: u64|
        #[trigger] ks.contains(k1) && #[trigger] ks.contains(k2) && k1 != k2 ==> !ends(k2, key_lo(k1))
            && !ends(k2, key_hi(k1))
}

/// Every answer `f` may give on `a` is `true`.
pub open spec fn surely1<S: Fn(NodeId) -> bool>(f: &S, a: NodeId) -> bool {
    forall|r: bool| f.ensures((a,), r) ==> r
}

/// Every answer `f` may give on `(a, b)` is `true`.
pub open spec fn surely2<A: Fn(NodeId, NodeId) -> bool>(f: &A, a: NodeId, b: NodeId) -> bool {
    forall|r: bool| f.ensures((a, b), r) ==> r
}

/// The edge with key `k` of `g0` was torn by the rules: the field asked for
/// it, neither end was resting, and both ends had more than
/// `MIN_DEGREE_FOR_DESTROY` neighbours.
pub open spec fn tear_ok<D: Fn(NodeId, NodeId) -> bool>(
    g0: SparseGraph,
    cd0: Seq<u64>,
    t: u64,
    tears: &D,
    k: u64,
) -> bool {
    let a = key_lo(k);
    let b = key_hi(k);
    &&& tears.ensures((a, b), true)
    &&& cooled(t, cd0[a as int], COOLDOWN_TICKS as int)
    &&& cooled(t, cd0[b as int], COOLDOWN_TICKS as int)
    &&& g0.deg(a) > MIN_DEGREE_FOR_DESTROY
    &&& g0.deg(b) > MIN_DEGREE_FOR_DESTROY
}

/// The edge `{a, c}` was made by the rules with `a` as the seeker: `a` sought
/// a partner, the field found them attracted, neither was resting, both had
/// room, and `c` was a neighbour of a neighbour `nb` of `a`, whose two edges
/// remain.
pub open spec fn join_ok<S: Fn(NodeId) -> bool, A: Fn(NodeId, NodeId) -> bool>(
    g0: SparseGraph,
    g1: SparseGraph,
    cd0: Seq<u64>,
    t: u64,
    seeks: &S,
    attracts: &A,
    a: NodeId,
    c: NodeId,
) -> bool {
    &&& seeks.ensures((a,), true)
    &&& attracts.ensures((a, c), true)
    &&& cooled(t, cd0[a as int], 2 * COOLDOWN_TICKS as int)
    &&& cooled(t, cd0[c as int], 2 * COOLDOWN_TICKS as int)
    &&& g0.deg(a) < MAX_DEGREE
    &&& g0.deg(c) < MAX_DEGREE
    &&& a != c
    &&& !g0.adjacent(a, c)
    &&& exists|nb: NodeId|
        #![trigger g0.adjacent(a, nb), g0.adjacent(nb, c)]
        g0.adjacent(a, nb) && g0.adjacent(nb, c) && g1.adjacent(a, nb) && g1.adjacent(nb, c)
}

/// How many edges one application made and tore.
#[derive(Debug, Clone, Copy)]
pub struct MutationStats {
    pub created: u32,
    pub destroyed: u32,
}

impl Default for MutationStats {
    fn default() -> (s: Self)
        ensures
            s.created == 0,
            s.destroyed == 0,
    {
        MutationStats { created: 0, destroyed: 0 }
    }
}

/// Topology mutation: tears and makes edges as the field asks, with a
/// per-node cooldown so that each node changes at most once per tick.
pub struct MutationEngine {
    cooldown: Vec<u64>,
}

impl View for MutationEngine {
    type V = Seq<u64>;

    /// The tick of each node's last mutation.
    closed spec fn view(&self) -> Seq<u64> {
        self.cooldown@
    }
}

impl MutationEngine {
    pub fn new(node_count: usize) -> (e: Self)
        ensures
            e@ == Seq::new(node_count as nat, |i: int| 0u64),
    {
        let mut cooldown: Vec<u64> = Vec::new();
        let mut i: usize = 0;
        while i < node_count
            invariant
                0 <= i <= node_count,
                cooldown@ == Seq::new(i as nat, |j: int| 0u64),
            decreases node_count - i,
        {
            cooldown.push(0);
            i += 1;
        }
        MutationEngine { cooldown }
    }
}

/// Adding a key touches its two ends and nothing else.
pub proof fn lemma_touched_insert(ks: Set<u64>, k: u64, v: NodeId)
    ensures
        touched(ks.insert(k), v) == (touched(ks, v) || ends(k, v)),
{
    if touched(ks.insert(k), v) {
        let k2 = choose|k2: u64| #[trigger] ks.insert(k).contains(k2) && ends(k2, v);
        if k2 != k {
            assert(ks.contains(k2));
        }
    }
    if touched(ks, v) {
        let k2 = choose|k2: u64| #[trigger] ks.contains(k2) && ends(k2, v);
        assert(ks.insert(k).contains(k2));
    }
    if ends(k, v) {
        assert(ks.insert(k).contains(k));
    }
}

/// A key whose ends are untouched extends a matching.
pub proof fn lemma_matching_insert(ks: Set<u64>, k: u64)
    requires
        is_matching(ks),
        !touched(ks, key_lo(k)),
        !touched(ks, key_hi(k)),
    ensures
        is_matching(ks.insert(k)),
{
    let ks2 = ks.insert(k);
    assert forall|k1: u64, k2: u64|
        #[trigger] ks2.contains(k1) && #[trigger] ks2.contains(k2) && k1 != k2 implies !ends(k2, key_lo(k1))
            && !ends(k2, key_hi(k1)) by {
        if k1 == k {
            assert(ks.contains(k2));
            if ends(k2, key_lo(k1)) {
                assert(touched(ks, key_lo(k)));
            }
            if ends(k2, key_hi(k1)) {
                assert(touched(ks, key_hi(k)));
            }
        } else if k2 == k {
            assert(ks.contains(k1));
            if ends(k2, key_lo(k1)) {
                assert(ends(k1, key_lo(k1)));
                if key_lo(k2) == key_lo(k1) {
                    assert(touched(ks, key_lo(k)));
                } else {
                    assert(touched(ks, key_hi(k)));
                }
            }
            if ends(k2, key_hi(k1)) {
                assert(ends(k1, key_hi(k1)));
                if key_lo(k2) == key_hi(k1) {
                    assert(touched(ks, key_lo(k)));
                } else {
                    assert(touched(ks, key_hi(k)));
                }
            }
        }
    }
}

impl MutationEngine {
    /// The tearing pass: walks the edges once, in the order the edge set
    /// gives them, and tears each one the rules allow at its turn.
    fn tear_edges<D: Fn(NodeId, NodeId) -> bool>(
        &mut self,
        graph: &mut SparseGraph,
        tick: u64,
        tears: &D,
    ) -> (destroyed: u32)
        requires
            old(graph).wf(),
            old(graph).size() <= u32::MAX,
            old(self)@.len() >= old(graph).size(),
            forall|a: NodeId, b: NodeId| tears.requires((a, b)),
        ensures
            ({
                let g0 = *old(graph);
                let g1 = *final(graph);
                let dd = g0.keys().difference(g1.keys());
                &&& g1.wf()
                &&& g1.size() == g0.size()
                &&& g1.keys().subset_of(g0.keys())
                &&& is_matching(dd)
                &&& forall|k: u64| #[trigger] dd.contains(k) ==> tear_ok(g0, old(self)@, tick, tears, k)
                &&& forall|v: NodeId| (v as int) < g0.size() && !touched(dd, v) ==> #[trigger] g1.nbrs()[v as int] == g0.nbrs()[v as int]
                &&& forall|v: NodeId| (v as int) < g0.size() && touched(dd, v) ==> #[trigger] g1.deg(v) == g0.deg(v) - 1
                &&& final(self)@.len() == old(self)@.len()
                &&& forall|v: int| 0 <= v < old(self)@.len() ==> #[trigger] final(self)@[v] == if v < g0.size() && touched(dd, v as NodeId) { tick } else { old(self)@[v] }
                &&& destroyed == dd.len()
                &&& forall|a: NodeId, b: NodeId|
                    a < b && #[trigger] g1.adjacent(a, b) && surely2(tears, a, b) && cooled(tick, old(self)@[a as int], COOLDOWN_TICKS as int)
                        && cooled(tick, old(self)@[b as int], COOLDOWN_TICKS as int) ==> touched(dd, a) || touched(dd, b)
                        || g0.deg(a) <= MIN_DEGREE_FOR_DESTROY || g0.deg(b) <= MIN_DEGREE_FOR_DESTROY
            }),
    {
        let ghost g0 = *graph;
        let ghost cd0 = self.cooldown@;
        let ghost n = graph.size();
        let edges = graph.iter_edges();
        let mut destroyed: u32 = 0;
        let ghost mut dd: Set<u64> = Set::empty();
        let ghost mut tt: Set<int> = Set::empty();
        let mut i: usize = 0;
        while i < edges.len()
            invariant
                graph.wf(),
                graph.size() == n,
                n == g0.size(),
                g0.wf(),
                n <= u32::MAX,
                cd0.len() >= n,
                self.cooldown@.len() == cd0.len(),
                forall|a: NodeId, b: NodeId| tears.requires((a, b)),
                edges@.no_duplicates(),
                edges@.len() == g0.keys().len(),
                forall|p: (NodeId, NodeId)| #[trigger] edges@.contains(p) <==> (p.0 < p.1 && g0.adjacent(p.0, p.1)),
                0 <= i <= edges.len(),
                dd.finite(),
                dd.subset_of(g0.keys()),
                graph.keys() == g0.keys().difference(dd),
                forall|k: u64| #[trigger] dd.contains(k) ==> exists|j: int| 0 <= j < i && spec_edge_key(edges@[j].0, edges@[j].1) == k,
                forall|k: u64| #[trigger] dd.contains(k) ==> tear_ok(g0, cd0, tick, tears, k),
                is_matching(dd),
                forall|v: NodeId| (v as int) < n && !touched(dd, v) ==> #[trigger] graph.nbrs()[v as int] == g0.nbrs()[v as int],
                forall|v: NodeId| (v as int) < n && touched(dd, v) ==> #[trigger] graph.deg(v) == g0.deg(v) - 1,
                forall|v: int| 0 <= v < cd0.len() ==> #[trigger] self.cooldown@[v] == if v < n && touched(dd, v as NodeId) { tick } else { cd0[v] },
                destroyed == dd.len(),
                tt.finite(),
                tt.len() == 2 * dd.len(),
                forall|v: int| #[trigger] tt.contains(v) <==> (0 <= v < n && touched(dd, v as NodeId)),
                forall|j: int|
                    #![trigger edges@[j]]
                    0 <= j < i && !dd.contains(spec_edge_key(edges@[j].0, edges@[j].1)) && surely2(tears, edges@[j].0, edges@[j].1)
                        && cooled(tick, cd0[edges@[j].0 as int], COOLDOWN_TICKS as int)
                        && cooled(tick, cd0[edges@[j].1 as int], COOLDOWN_TICKS as int) ==> touched(dd, edges@[j].0)
                        || touched(dd, edges@[j].1) || g0.deg(edges@[j].0) <= MIN_DEGREE_FOR_DESTROY
                        || g0.deg(edges@[j].1) <= MIN_DEGREE_FOR_DESTROY,
            decreases edges.len() - i,
        {
            let (a, b) = edges[i];
            let ghost k = spec_edge_key(a, b);
            proof {
                assert(edges@.contains(edges@[i as int]));
                lemma_edge_key_parts(a, b);
                g0.lemma_adjacent(a, b);
                if dd.contains(k) {
                    let j = choose|j: int| 0 <= j < i && spec_edge_key(edges@[j].0, edges@[j].1) == k;
                    assert(edges@.contains(edges@[j]));
                    lemma_edge_key_injective(edges@[j].0, edges@[j].1, a, b);
                    assert(edges@[j] == edges@[i as int]);
                }
                assert(graph.keys().contains(k));
            }
            let on_cooldown = tick.saturating_sub(self.cooldown[a as usize]) < COOLDOWN_TICKS
                || tick.saturating_sub(self.cooldown[b as usize]) < COOLDOWN_TICKS;
            if !on_cooldown && tears(a, b) && graph.degree(a) > MIN_DEGREE_FOR_DESTROY
                && graph.degree(b) > MIN_DEGREE_FOR_DESTROY {
                let ghost gm = *graph;
                proof {
                    // both ends are still untouched: a touched end rests until the next tick
                    if touched(dd, a) {
                        assert(self.cooldown@[a as int] == tick);
                    }
                    if touched(dd, b) {
                        assert(self.cooldown@[b as int] == tick);
                    }
                }
                graph.remove_edge(a, b);
                self.cooldown.set(a as usize, tick);
                self.cooldown.set(b as usize, tick);
                proof {
                    // the two ends were untouched, so the touched nodes grow by two
                    assert(!tt.contains(a as int));
                    assert(!tt.contains(b as int));
                    let tt2 = tt.insert(a as int).insert(b as int);
                    assert(tt2.len() == tt.len() + 2);
                    vstd::set_lib::lemma_int_range(0, n as int);
                    assert(tt2.subset_of(vstd::set_lib::set_int_range(0, n as int)));
                    vstd::set_lib::lemma_len_subset(tt2, vstd::set_lib::set_int_range(0, n as int));
                }
                destroyed += 1;
                proof {
                    let dd0 = dd;
                    tt = tt.insert(a as int).insert(b as int);
                    lemma_matching_insert(dd0, k);
                    dd = dd0.insert(k);
                    assert(graph.keys() =~= g0.keys().difference(dd));
                    assert forall|v: NodeId| #![auto] touched(dd, v) == (touched(dd0, v) || v == a || v == b) by {
                        lemma_touched_insert(dd0, k, v);
                    }
                    assert forall|v: int| #[trigger] tt.contains(v) <==> (0 <= v < n && touched(dd, v as NodeId)) by {
                        if 0 <= v < n {
                            assert(touched(dd, v as NodeId) == (touched(dd0, v as NodeId) || v as NodeId == a || v as NodeId == b));
                        }
                    }
                    assert(tear_ok(g0, cd0, tick, tears, k));
                    assert forall|k2: u64| #[trigger] dd.contains(k2) implies exists|j: int| 0 <= j < i + 1 && spec_edge_key(edges@[j].0, edges@[j].1) == k2 by {
                        if k2 == k {
                            assert(spec_edge_key(edges@[i as int].0, edges@[i as int].1) == k2);
                        } else {
                            assert(dd0.contains(k2));
                        }
                    }
                    assert forall|v: NodeId| (v as int) < n && !touched(dd, v) implies #[trigger] graph.nbrs()[v as int] == g0.nbrs()[v as int] by {
                        assert(gm.nbrs()[v as int] == g0.nbrs()[v as int]);
                    }
                    assert forall|v: NodeId| (v as int) < n && touched(dd, v) implies #[trigger] graph.deg(v) == g0.deg(v) - 1 by {
                        if v == a || v == b {
                            assert(gm.nbrs()[v as int] == g0.nbrs()[v as int]);
                            let other = if v == a { b } else { a };
                            let before = gm.nbrs()[v as int];
                            assert(gm.adjacent(a, b));
                            assert(drops_one(gm.nbrs()[a as int], graph.nbrs()[a as int], b));
                            assert(drops_one(gm.nbrs()[b as int], graph.nbrs()[b as int], a));
                            assert(drops_one(before, graph.nbrs()[v as int], other));
                            let ii = choose|ii: int| 0 <= ii < before.len() && before[ii] == other && graph.nbrs()[v as int] == before.remove(ii);
                            before.remove_ensures(ii);
                            assert(graph.deg(v) == gm.deg(v) - 1);
                            assert(gm.deg(v) == g0.deg(v));
                        } else {
                            assert(touched(dd0, v));
                            assert(graph.nbrs()[v as int] == gm.nbrs()[v as int]);
                            assert(gm.deg(v) == g0.deg(v) - 1);
                        }
                    }
                    assert forall|v: int| 0 <= v < cd0.len() implies #[trigger] self.cooldown@[v] == if v < n && touched(dd, v as NodeId) { tick } else { cd0[v] } by {
                        if v < n {
                            assert(touched(dd, v as NodeId) == (touched(dd0, v as NodeId) || v as NodeId == a || v as NodeId == b));
                        }
                    }
                    assert forall|j: int|
                        #![trigger edges@[j]]
                        0 <= j < i + 1 && !dd.contains(spec_edge_key(edges@[j].0, edges@[j].1)) && surely2(tears, edges@[j].0, edges@[j].1)
                            && cooled(tick, cd0[edges@[j].0 as int], COOLDOWN_TICKS as int)
                            && cooled(tick, cd0[edges@[j].1 as int], COOLDOWN_TICKS as int) implies touched(dd, edges@[j].0)
                            || touched(dd, edges@[j].1) || g0.deg(edges@[j].0) <= MIN_DEGREE_FOR_DESTROY
                            || g0.deg(edges@[j].1) <= MIN_DEGREE_FOR_DESTROY by {
                        if j < i {
                            assert(!dd0.contains(spec_edge_key(edges@[j].0, edges@[j].1)));
                        }
                    }
                }
            } else {
                proof {
                    if surely2(tears, a, b) && cooled(tick, cd0[a as int], COOLDOWN_TICKS as int)
                        && cooled(tick, cd0[b as int], COOLDOWN_TICKS as int) && !touched(dd, a) && !touched(dd, b) {
                        assert(self.cooldown@[a as int] == cd0[a as int]);
                        assert(self.cooldown@[b as int] == cd0[b as int]);
                        assert(graph.nbrs()[a as int] == g0.nbrs()[a as int]);
                        assert(graph.nbrs()[b as int] == g0.nbrs()[b as int]);
                    }
                }
            }
            i += 1;
        }
        proof {
            assert(g0.keys().difference(graph.keys()) =~= dd);
            assert forall|a: NodeId, b: NodeId|
                a < b && #[trigger] graph.adjacent(a, b) && surely2(tears, a, b) && cooled(tick, cd0[a as int], COOLDOWN_TICKS as int)
                    && cooled(tick, cd0[b as int], COOLDOWN_TICKS as int) implies touched(dd, a) || touched(dd, b)
                    || g0.deg(a) <= MIN_DEGREE_FOR_DESTROY || g0.deg(b) <= MIN_DEGREE_FOR_DESTROY by {
                assert(edges@.contains((a, b)));
                let j = choose|j: int| 0 <= j < edges@.len() && edges@[j] == (a, b);
                assert(edges@[j] == (a, b));
            }
        }
        destroyed
    }
}

/// `c` may be joined to `a` as far as the graph and the cooldowns go.
pub open spec fn joinable(g: SparseGraph, cd: Seq<u64>, t: u64, a: NodeId, c: NodeId) -> bool {
    &&& c != a
    &&& !g.adjacent(a, c)
    &&& g.deg(c) < MAX_DEGREE
    &&& cooled(t, cd[c as int], 2 * COOLDOWN_TICKS as int)
}

/// In `g`, the `q`-th neighbour of the `p`-th neighbour of `a` is the first
/// candidate, neighbours in list order and their neighbours in list order,
/// that may be joined to `a` without the field surely refusing: every one
/// before it that may be joined is one `attracts` may turn down.
pub open spec fn first_at<A: Fn(NodeId, NodeId) -> bool>(
    g: SparseGraph,
    cd: Seq<u64>,
    t: u64,
    attracts: &A,
    a: NodeId,
    p: int,
    q: int,
) -> bool {
    let la = g.nbrs()[a as int];
    &&& 0 <= p < la.len()
    &&& 0 <= q < g.nbrs()[la[p] as int].len()
    &&& forall|p2: int, c2: NodeId|
        #![trigger la[p2], g.adjacent(la[p2], c2)]
        0 <= p2 < p && g.adjacent(la[p2], c2) && joinable(g, cd, t, a, c2) ==> !surely2(attracts, a, c2)
    &&& forall|q2: int|
        #![trigger g.nbrs()[la[p] as int][q2]]
        0 <= q2 < q && joinable(g, cd, t, a, g.nbrs()[la[p] as int][q2]) ==> !surely2(attracts, a, g.nbrs()[la[p] as int][q2])
}

impl MutationEngine {
    /// Looks for the first neighbour of a neighbour of `a` that may be
    /// joined to it and that the field finds attracted: neighbours in list
    /// order, and their neighbours in list order.
    fn find_partner<A: Fn(NodeId, NodeId) -> bool>(
        &self,
        graph: &SparseGraph,
        tick: u64,
        a: NodeId,
        attracts: &A,
    ) -> (r: Option<(NodeId, NodeId)>)
        requires
            graph.wf(),
            (a as int) < graph.size(),
            self@.len() >= graph.size(),
            forall|x: NodeId, y: NodeId| attracts.requires((x, y)),
        ensures
            r matches Some(p) ==> {
                &&& graph.adjacent(a, p.0)
                &&& graph.adjacent(p.0, p.1)
                &&& joinable(*graph, self@, tick, a, p.1)
                &&& attracts.ensures((a, p.1), true)
                &&& exists|i: int, j: int|
                    #[trigger] first_at(*graph, self@, tick, attracts, a, i, j)
                        && graph.nbrs()[a as int][i] == p.0 && graph.nbrs()[p.0 as int][j] == p.1
            },
            r is None ==> forall|nb: NodeId, c: NodeId|
                #![trigger graph.adjacent(a, nb), graph.adjacent(nb, c)]
                graph.adjacent(a, nb) && graph.adjacent(nb, c) && joinable(*graph, self@, tick, a, c)
                    ==> !surely2(attracts, a, c),
    {
        let current = vstd::slice::slice_to_vec(graph.neighbors(a));
        let mut p: usize = 0;
        while p < current.len()
            invariant
                graph.wf(),
                (a as int) < graph.size(),
                self@.len() >= graph.size(),
                forall|x: NodeId, y: NodeId| attracts.requires((x, y)),
                current@ == graph.nbrs()[a as int],
                0 <= p <= current@.len(),
                forall|i: int, c: NodeId|
                    #![trigger current@[i], graph.adjacent(current@[i], c)]
                    0 <= i < p && graph.adjacent(current@[i], c) && joinable(*graph, self@, tick, a, c)
                        ==> !surely2(attracts, a, c),
            decreases current.len() - p,
        {
            let nb = current[p];
            proof {
                assert(graph.nbrs()[a as int].contains(nb));
                graph.lemma_adjacent(a, nb);
            }
            let nb_list = vstd::slice::slice_to_vec(graph.neighbors(nb));
            let mut q: usize = 0;
            while q < nb_list.len()
                invariant
                    graph.wf(),
                    (a as int) < graph.size(),
                    (nb as int) < graph.size(),
                    graph.adjacent(a, nb),
                    self@.len() >= graph.size(),
                    forall|x: NodeId, y: NodeId| attracts.requires((x, y)),
                    nb_list@ == graph.nbrs()[nb as int],
                    current@ == graph.nbrs()[a as int],
                    0 <= p < current@.len(),
                    nb == current@[p as int],
                    forall|i: int, c: NodeId|
                        #![trigger current@[i], graph.adjacent(current@[i], c)]
                        0 <= i < p && graph.adjacent(current@[i], c) && joinable(*graph, self@, tick, a, c)
                            ==> !surely2(attracts, a, c),
                    0 <= q <= nb_list@.len(),
                    forall|j: int|
                        #![trigger nb_list@[j]]
                        0 <= j < q && joinable(*graph, self@, tick, a, nb_list@[j]) ==> !surely2(attracts, a, nb_list@[j]),
                decreases nb_list.len() - q,
            {
                let c = nb_list[q];
                proof {
                    assert(graph.nbrs()[nb as int].contains(c));
                    graph.lemma_adjacent(nb, c);
                }
                if c != a && !graph.has_edge(a, c) && graph.degree(c) < MAX_DEGREE
                    && tick.saturating_sub(self.cooldown[c as usize]) >= 2 * COOLDOWN_TICKS {
                    if attracts(a, c) {
                        proof {
                            assert(first_at(*graph, self@, tick, attracts, a, p as int, q as int));
                        }
                        return Some((nb, c));
                    }
                }
                q += 1;
            }
            proof {
                assert forall|c: NodeId|
                    graph.adjacent(nb, c) && joinable(*graph, self@, tick, a, c) implies !surely2(attracts, a, c) by {
                    assert(graph.nbrs()[nb as int].contains(c));
                    let j = choose|j: int| 0 <= j < nb_list@.len() && nb_list@[j] == c;
                    assert(nb_list@[j] == c);
                }
            }
            p += 1;
        }
        proof {
            assert forall|nb: NodeId, c: NodeId|
                #![trigger graph.adjacent(a, nb), graph.adjacent(nb, c)]
                graph.adjacent(a, nb) && graph.adjacent(nb, c) && joinable(*graph, self@, tick, a, c)
                    implies !surely2(attracts, a, c) by {
                assert(graph.nbrs()[a as int].contains(nb));
                let i = choose|i: int| 0 <= i < current@.len() && current@[i] == nb;
                assert(current@[i] == nb);
            }
        }
        None
    }
}

/// Two well-formed graphs that give `x` the same list agree on its edges.
pub proof fn lemma_same_list_same_edges(g1: SparseGraph, g2: SparseGraph, x: NodeId, y: NodeId)
    requires
        g1.wf(),
        g2.wf(),
        g1.size() == g2.size(),
        (x as int) < g1.size(),
        g1.nbrs()[x as int] == g2.nbrs()[x as int],
    ensures
        g1.adjacent(x, y) == g2.adjacent(x, y),
{
    assert(g1.nbrs()[x as int].contains(y) == g1.adjacent(x, y));
    assert(g2.nbrs()[x as int].contains(y) == g2.adjacent(x, y));
}

/// A recorded join stays valid while edges are only added.
pub proof fn lemma_join_ok_grows<S: Fn(NodeId) -> bool, A: Fn(NodeId, NodeId) -> bool>(
    g0: SparseGraph,
    g1: SparseGraph,
    g2: SparseGraph,
    cd0: Seq<u64>,
    t: u64,
    seeks: &S,
    attracts: &A,
    a: NodeId,
    c: NodeId,
)
    requires
        join_ok(g0, g1, cd0, t, seeks, attracts, a, c),
        g1.keys().subset_of(g2.keys()),
    ensures
        join_ok(g0, g2, cd0, t, seeks, attracts, a, c),
{
    let nb = choose|nb: NodeId|
        #![trigger g0.adjacent(a, nb), g0.adjacent(nb, c)]
        g0.adjacent(a, nb) && g0.adjacent(nb, c) && g1.adjacent(a, nb) && g1.adjacent(nb, c);
    assert(g2.adjacent(a, nb) && g2.adjacent(nb, c));
}

/// `c` is the `q`-th entry of the list `l`, and every entry before it that
/// nothing in `ch` touches and that may be joined to `a` in `g0` is one the
/// field may turn down.
pub open spec fn first_in_list<A: Fn(NodeId, NodeId) -> bool>(
    g0: SparseGraph,
    cd0: Seq<u64>,
    t: u64,
    attracts: &A,
    ch: Set<u64>,
    a: NodeId,
    l: Seq<NodeId>,
    c: NodeId,
    q: int,
) -> bool {
    &&& 0 <= q < l.len()
    &&& l[q] == c
    &&& forall|q2: int|
        #![trigger l[q2]]
        0 <= q2 < q && !touched(ch, l[q2]) && joinable(g0, cd0, t, a, l[q2]) ==> !surely2(attracts, a, l[q2])
}

/// The join of `a` to `c` went through the `p`-th neighbour `nb` of `a` in
/// `g0`, a neighbour of `c`: no candidate behind an earlier neighbour, and
/// (when `nb` kept its list) no earlier candidate of `nb`'s list, was one the
/// field surely wanted, among those that nothing in `ch` touches.
pub open spec fn picked_at<A: Fn(NodeId, NodeId) -> bool>(
    g0: SparseGraph,
    cd0: Seq<u64>,
    t: u64,
    attracts: &A,
    ch: Set<u64>,
    a: NodeId,
    c: NodeId,
    p: int,
) -> bool {
    let la = g0.nbrs()[a as int];
    &&& 0 <= p < la.len()
    &&& g0.adjacent(la[p], c)
    &&& forall|p2: int, c2: NodeId|
        #![trigger la[p2], g0.adjacent(la[p2], c2)]
        0 <= p2 < p && g0.adjacent(la[p2], c2) && !touched(ch, la[p2]) && !touched(ch, c2)
            && joinable(g0, cd0, t, a, c2) ==> !surely2(attracts, a, c2)
    &&& !touched(ch, la[p]) ==> exists|q: int| #[trigger] first_in_list(g0, cd0, t, attracts, ch, a, g0.nbrs()[la[p] as int], c, q)
}

/// `c` is the first candidate for `a`, neighbours of `a` in list order and
/// their neighbours in list order, as far as the untouched nodes show.
pub open spec fn chosen_first<A: Fn(NodeId, NodeId) -> bool>(
    g0: SparseGraph,
    cd0: Seq<u64>,
    t: u64,
    attracts: &A,
    ch: Set<u64>,
    a: NodeId,
    c: NodeId,
) -> bool {
    exists|p: int| #[trigger] picked_at(g0, cd0, t, attracts, ch, a, c, p)
}

/// A node touched by a set of keys is touched by any larger set.
pub proof fn lemma_touched_subset(ch1: Set<u64>, ch2: Set<u64>, v: NodeId)
    requires
        ch1.subset_of(ch2),
        touched(ch1, v),
    ensures
        touched(ch2, v),
{
    let k = choose|k: u64| #[trigger] ch1.contains(k) && ends(k, v);
    assert(ch2.contains(k));
}

/// The first choice made in a graph `gs` with cooldowns `cds` is the first
/// choice in `g0` with `cd0` among the nodes `ch` leaves untouched, where
/// those nodes have the same lists and cooldowns in both.
pub proof fn lemma_first_at_transfers<A: Fn(NodeId, NodeId) -> bool>(
    g0: SparseGraph,
    gs: SparseGraph,
    cd0: Seq<u64>,
    cds: Seq<u64>,
    t: u64,
    attracts: &A,
    ch: Set<u64>,
    a: NodeId,
    c: NodeId,
    i: int,
    j: int,
)
    requires
        g0.wf(),
        gs.wf(),
        gs.size() == g0.size(),
        (a as int) < g0.size(),
        cd0.len() >= g0.size(),
        cds.len() >= g0.size(),
        first_at(gs, cds, t, attracts, a, i, j),
        gs.nbrs()[a as int] == g0.nbrs()[a as int],
        gs.nbrs()[gs.nbrs()[a as int][i] as int][j] == c,
        g0.adjacent(g0.nbrs()[a as int][i], c),
        forall|v: NodeId| (v as int) < g0.size() && !touched(ch, v) ==> #[trigger] gs.nbrs()[v as int] == g0.nbrs()[v as int]
            && cds[v as int] == cd0[v as int],
    ensures
        chosen_first(g0, cd0, t, attracts, ch, a, c),
{
    let la = g0.nbrs()[a as int];
    let nb = la[i];
    assert forall|c2: NodeId| (c2 as int) < g0.size() && !touched(ch, c2) && joinable(g0, cd0, t, a, c2)
        implies #[trigger] joinable(gs, cds, t, a, c2) by {
        lemma_same_list_same_edges(gs, g0, a, c2);
        assert(gs.nbrs()[c2 as int] == g0.nbrs()[c2 as int]);
    }
    assert forall|p2: int, c2: NodeId|
        #![trigger la[p2], g0.adjacent(la[p2], c2)]
        0 <= p2 < i && g0.adjacent(la[p2], c2) && !touched(ch, la[p2]) && !touched(ch, c2)
            && joinable(g0, cd0, t, a, c2) implies !surely2(attracts, a, c2) by {
        let nb2 = la[p2];
        g0.lemma_adjacent(nb2, c2);
        lemma_same_list_same_edges(gs, g0, nb2, c2);
        assert(gs.nbrs()[a as int][p2] == nb2);
        assert(joinable(gs, cds, t, a, c2));
    }
    if !touched(ch, nb) {
        g0.lemma_adjacent(nb, c);
        let l = g0.nbrs()[nb as int];
        assert(gs.nbrs()[nb as int] == l);
        assert forall|q2: int|
            #![trigger l[q2]]
            0 <= q2 < j && !touched(ch, l[q2]) && joinable(g0, cd0, t, a, l[q2]) implies !surely2(attracts, a, l[q2]) by {
            assert(l.contains(l[q2]));
            assert(g0.adjacent(nb, l[q2]));
            g0.lemma_adjacent(nb, l[q2]);
            assert(joinable(gs, cds, t, a, l[q2]));
        }
        assert(first_in_list(g0, cd0, t, attracts, ch, a, l, c, j));
    }
    assert(picked_at(g0, cd0, t, attracts, ch, a, c, i));
}

/// A first choice stays one as the set of touched nodes grows.
pub proof fn lemma_chosen_first_grows<A: Fn(NodeId, NodeId) -> bool>(
    g0: SparseGraph,
    cd0: Seq<u64>,
    t: u64,
    attracts: &A,
    ch1: Set<u64>,
    ch2: Set<u64>,
    a: NodeId,
    c: NodeId,
)
    requires
        chosen_first(g0, cd0, t, attracts, ch1, a, c),
        ch1.subset_of(ch2),
    ensures
        chosen_first(g0, cd0, t, attracts, ch2, a, c),
{
    let p = choose|p: int| #[trigger] picked_at(g0, cd0, t, attracts, ch1, a, c, p);
    let la = g0.nbrs()[a as int];
    assert forall|v: NodeId| touched(ch1, v) implies #[trigger] touched(ch2, v) by {
        lemma_touched_subset(ch1, ch2, v);
    }
    if !touched(ch2, la[p]) {
        let l = g0.nbrs()[la[p] as int];
        let q = choose|q: int| #[trigger] first_in_list(g0, cd0, t, attracts, ch1, a, l, c, q);
        assert(first_in_list(g0, cd0, t, attracts, ch2, a, l, c, q));
    }
    assert(picked_at(g0, cd0, t, attracts, ch2, a, c, p));
}

/// The end of the key `k` other than `v`.
pub open spec fn other_end(k: u64, v: NodeId) -> NodeId {
    if key_lo(k) == v {
        key_hi(k)
    } else {
        key_lo(k)
    }
}

/// `x` is the seeker of one of the joins recorded in `sk`.
pub open spec fn seeker_of(sk: Map<u64, NodeId>, x: NodeId) -> bool {
    exists|k: u64| #[trigger] sk.dom().contains(k) && sk[k] == x
}

/// At the turn of seeker `x`, node `v` was still free: no torn edge of
/// `gone` and no join made by a seeker below `x` touched it.
pub open spec fn free_at(gone: Set<u64>, sk: Map<u64, NodeId>, x: NodeId, v: NodeId) -> bool {
    &&& !touched(gone, v)
    &&& forall|k: u64| #[trigger] sk.dom().contains(k) && sk[k] < x ==> !ends(k, v)
}

/// `sk` names the seeker of each join of `made`: one of its ends, for which
/// the join was made by the rules.
pub open spec fn seekers_named<S: Fn(NodeId) -> bool, A: Fn(NodeId, NodeId) -> bool>(
    g0: SparseGraph,
    g1: SparseGraph,
    cd0: Seq<u64>,
    t: u64,
    seeks: &S,
    attracts: &A,
    made: Set<u64>,
    sk: Map<u64, NodeId>,
) -> bool {
    &&& sk.dom() == made
    &&& forall|k: u64| #[trigger] made.contains(k) ==> ends(k, sk[k]) && join_ok(g0, g1, cd0, t, seeks, attracts, sk[k], other_end(k, sk[k]))
}

/// Seekers below `bound` were served in id order: a node `x` that sought a
/// partner, had room and had rested, but made no join, had at its turn no
/// neighbour of a neighbour that could be joined to it, was free then (as
/// was the neighbour between them), and that the field surely wanted.
pub open spec fn seekers_in_order<S: Fn(NodeId) -> bool, A: Fn(NodeId, NodeId) -> bool>(
    g: SparseGraph,
    cd: Seq<u64>,
    t: u64,
    seeks: &S,
    attracts: &A,
    gone: Set<u64>,
    sk: Map<u64, NodeId>,
    bound: int,
) -> bool {
    forall|x: NodeId, nb: NodeId, c: NodeId|
        #![trigger g.adjacent(x, nb), g.adjacent(nb, c)]
        (x as int) < bound && !seeker_of(sk, x) && free_at(gone, sk, x, x) && surely1(seeks, x)
            && cooled(t, cd[x as int], 2 * COOLDOWN_TICKS as int) && g.deg(x) < MAX_DEGREE
            && g.adjacent(x, nb) && g.adjacent(nb, c) && free_at(gone, sk, x, nb) && free_at(gone, sk, x, c)
            && joinable(g, cd, t, x, c) ==> !surely2(attracts, x, c)
}

/// When every recorded join has a seeker below `x`, a node free at `x`'s
/// turn is touched by none of them.
pub proof fn lemma_free_untouched(gone: Set<u64>, sk: Map<u64, NodeId>, made: Set<u64>, x: NodeId, v: NodeId)
    requires
        sk.dom() == made,
        forall|k: u64| #[trigger] made.contains(k) ==> sk[k] < x,
        free_at(gone, sk, x, v),
    ensures
        !touched(made, v),
        !touched(gone, v),
{
    if touched(made, v) {
        let k = choose|k: u64| #[trigger] made.contains(k) && ends(k, v);
        assert(sk.dom().contains(k));
    }
}

/// Recording more joins only narrows which seekers and which free nodes the
/// order claim speaks of.
pub proof fn lemma_seekers_in_order_grows<S: Fn(NodeId) -> bool, A: Fn(NodeId, NodeId) -> bool>(
    g: SparseGraph,
    cd: Seq<u64>,
    t: u64,
    seeks: &S,
    attracts: &A,
    gone: Set<u64>,
    sk1: Map<u64, NodeId>,
    sk2: Map<u64, NodeId>,
    bound: int,
)
    requires
        seekers_in_order(g, cd, t, seeks, attracts, gone, sk1, bound),
        sk1.dom().subset_of(sk2.dom()),
        forall|k: u64| #[trigger] sk1.dom().contains(k) ==> sk2[k] == sk1[k],
    ensures
        seekers_in_order(g, cd, t, seeks, attracts, gone, sk2, bound),
{
    assert forall|x: NodeId, v: NodeId| #[trigger] free_at(gone, sk2, x, v) implies free_at(gone, sk1, x, v) by {
        assert forall|k: u64| #[trigger] sk1.dom().contains(k) && sk1[k] < x implies !ends(k, v) by {
            assert(sk2.dom().contains(k));
        }
    }
    assert forall|x: NodeId| #[trigger] seeker_of(sk1, x) implies seeker_of(sk2, x) by {
        let k = choose|k: u64| #[trigger] sk1.dom().contains(k) && sk1[k] == x;
        assert(sk2.dom().contains(k));
    }
}

impl MutationEngine {
    /// The joining pass: each node in id order that seeks a partner, has
    /// room and is rested is joined to the first partner `find_partner`
    /// gives.
    fn join_edges<S: Fn(NodeId) -> bool, A: Fn(NodeId, NodeId) -> bool>(
        &mut self,
        graph: &mut SparseGraph,
        tick: u64,
        seeks: &S,
        attracts: &A,
    ) -> (created: u32)
        requires
            old(graph).wf(),
            old(graph).size() <= u32::MAX,
            old(self)@.len() >= old(graph).size(),
            forall|a: NodeId| seeks.requires((a,)),
            forall|a: NodeId, b: NodeId| attracts.requires((a, b)),
        ensures
            ({
                let g0 = *old(graph);
                let g1 = *final(graph);
                let cc = g1.keys().difference(g0.keys());
                let cd0 = old(self)@;
                &&& g1.wf()
                &&& g1.size() == g0.size()
                &&& g0.keys().subset_of(g1.keys())
                &&& is_matching(cc)
                &&& forall|k: u64| #[trigger] cc.contains(k) ==> (join_ok(g0, g1, cd0, tick, seeks, attracts, key_lo(k), key_hi(k))
                    && chosen_first(g0, cd0, tick, attracts, cc, key_lo(k), key_hi(k)))
                    || (join_ok(g0, g1, cd0, tick, seeks, attracts, key_hi(k), key_lo(k))
                    && chosen_first(g0, cd0, tick, attracts, cc, key_hi(k), key_lo(k)))
                &&& forall|v: NodeId| (v as int) < g0.size() && !touched(cc, v) ==> #[trigger] g1.nbrs()[v as int] == g0.nbrs()[v as int]
                &&& forall|v: NodeId| (v as int) < g0.size() && touched(cc, v) ==> #[trigger] g1.deg(v) == g0.deg(v) + 1
                &&& final(self)@.len() == cd0.len()
                &&& forall|v: int| 0 <= v < cd0.len() ==> #[trigger] final(self)@[v] == if v < g0.size() && touched(cc, v as NodeId) { tick } else { cd0[v] }
                &&& created == cc.len()
                &&& forall|a: NodeId, nb: NodeId, c: NodeId|
                    #![trigger g0.adjacent(a, nb), g0.adjacent(nb, c)]
                    (a as int) < g0.size() && !touched(cc, a) && surely1(seeks, a)
                        && cooled(tick, cd0[a as int], 2 * COOLDOWN_TICKS as int) && g0.deg(a) < MAX_DEGREE
                        && g0.adjacent(a, nb) && g0.adjacent(nb, c) && !touched(cc, nb) && !touched(cc, c)
                        && joinable(g0, cd0, tick, a, c) ==> !surely2(attracts, a, c)
                &&& exists|sk: Map<u64, NodeId>|
                    seekers_named(g0, g1, cd0, tick, seeks, attracts, cc, sk)
                    && #[trigger] seekers_in_order(g0, cd0, tick, seeks, attracts, Set::empty(), sk, g0.size() as int)
            }),
    {
        let ghost g0 = *graph;
        let ghost cd0 = self.cooldown@;
        let ghost n = graph.size();
        let node_count = graph.node_count();
        let mut created: u32 = 0;
        let ghost mut cc: Set<u64> = Set::empty();
        let ghost mut sk: Map<u64, NodeId> = Map::empty();
        let mut a: usize = 0;
        while a < node_count
            invariant
                graph.wf(),
                g0.wf(),
                graph.size() == n,
                n == g0.size(),
                node_count == n,
                n <= u32::MAX,
                cd0.len() >= n,
                self.cooldown@.len() == cd0.len(),
                forall|x: NodeId| seeks.requires((x,)),
                forall|x: NodeId, y: NodeId| attracts.requires((x, y)),
                0 <= a <= n,
                cc.finite(),
                cc.disjoint(g0.keys()),
                graph.keys() == g0.keys().union(cc),
                is_matching(cc),
                forall|k: u64| #[trigger] cc.contains(k) ==> (join_ok(g0, *graph, cd0, tick, seeks, attracts, key_lo(k), key_hi(k))
                    && chosen_first(g0, cd0, tick, attracts, cc, key_lo(k), key_hi(k)))
                    || (join_ok(g0, *graph, cd0, tick, seeks, attracts, key_hi(k), key_lo(k))
                    && chosen_first(g0, cd0, tick, attracts, cc, key_hi(k), key_lo(k))),
                forall|v: NodeId| (v as int) < n && !touched(cc, v) ==> #[trigger] graph.nbrs()[v as int] == g0.nbrs()[v as int],
                forall|v: NodeId| (v as int) < n && touched(cc, v) ==> #[trigger] graph.deg(v) == g0.deg(v) + 1,
                forall|v: int| 0 <= v < cd0.len() ==> #[trigger] self.cooldown@[v] == if v < n && touched(cc, v as NodeId) { tick } else { cd0[v] },
                created == cc.len(),
                cc.len() <= a,
                sk.dom() == cc,
                forall|k: u64| #[trigger] cc.contains(k) ==> (sk[k] as int) < a && ends(k, sk[k])
                    && join_ok(g0, *graph, cd0, tick, seeks, attracts, sk[k], other_end(k, sk[k])),
                seekers_in_order(g0, cd0, tick, seeks, attracts, Set::empty(), sk, a as int),
                forall|x: NodeId, nb: NodeId, c: NodeId|
                    #![trigger g0.adjacent(x, nb), g0.adjacent(nb, c)]
                    (x as int) < a && !touched(cc, x) && surely1(seeks, x)
                        && cooled(tick, cd0[x as int], 2 * COOLDOWN_TICKS as int) && g0.deg(x) < MAX_DEGREE
                        && g0.adjacent(x, nb) && g0.adjacent(nb, c) && !touched(cc, nb) && !touched(cc, c)
                        && joinable(g0, cd0, tick, x, c) ==> !surely2(attracts, x, c),
            decreases n - a,
        {
            let id = a as NodeId;
            let ghost gs = *graph;
            let ghost cds = self.cooldown@;
            let ghost sk0 = sk;
            let ghost cc_start = cc;
            if seeks(id) && graph.degree(id) < MAX_DEGREE
                && tick.saturating_sub(self.cooldown[a]) >= 2 * COOLDOWN_TICKS {
                proof {
                    if touched(cc, id) {
                        assert(self.cooldown@[a as int] == tick);
                    }
                    assert(graph.nbrs()[a as int] == g0.nbrs()[a as int]);
                }
                match self.find_partner(graph, tick, id, attracts) {
                    Some((nb, c)) => {
                        proof {
                            graph.lemma_adjacent(nb, c);
                            graph.lemma_adjacent(id, nb);
                            if touched(cc, c) {
                                assert(self.cooldown@[c as int] == tick);
                            }
                            lemma_same_list_same_edges(*graph, g0, id, nb);
                            lemma_same_list_same_edges(*graph, g0, id, c);
                            lemma_same_list_same_edges(*graph, g0, c, nb);
                            g0.lemma_adjacent(c, nb);
                            assert(graph.nbrs()[c as int] == g0.nbrs()[c as int]);
                        }
                        graph.add_edge(id, c);
                        self.cooldown.set(a, tick);
                        self.cooldown.set(c as usize, tick);
                        created += 1;
                        proof {
                            let k = spec_edge_key(id, c);
                            let cc0 = cc;
                            lemma_edge_key_parts(id, c);
                            assert(!touched(cc0, key_lo(k)));
                            assert(!touched(cc0, key_hi(k)));
                            lemma_matching_insert(cc0, k);
                            cc = cc0.insert(k);
                            assert(!cc0.contains(k)) by {
                                if cc0.contains(k) {
                                    assert(ends(k, key_lo(k)));
                                }
                            }
                            sk = sk.insert(k, id);
                            assert(!g0.keys().contains(k));
                            assert(graph.keys() =~= g0.keys().union(cc));
                            assert forall|v: NodeId| #![auto] touched(cc, v) == (touched(cc0, v) || v == id || v == c) by {
                                lemma_touched_insert(cc0, k, v);
                            }
                            assert(join_ok(g0, *graph, cd0, tick, seeks, attracts, id, c)) by {
                                assert(g0.adjacent(id, nb) && g0.adjacent(nb, c) && graph.adjacent(id, nb) && graph.adjacent(nb, c));
                            }
                            assert(chosen_first(g0, cd0, tick, attracts, cc, id, c)) by {
                                let (i, j) = choose|i: int, j: int|
                                    #[trigger] first_at(gs, cds, tick, attracts, id, i, j)
                                        && gs.nbrs()[a as int][i] == nb && gs.nbrs()[nb as int][j] == c;
                                assert forall|v: NodeId| (v as int) < g0.size() && !touched(cc, v) implies #[trigger] gs.nbrs()[v as int] == g0.nbrs()[v as int]
                                    && cds[v as int] == cd0[v as int] by {
                                    assert(!touched(cc0, v));
                                }
                                lemma_first_at_transfers(g0, gs, cd0, cds, tick, attracts, cc, id, c, i, j);
                            }
                            assert forall|k2: u64| #[trigger] cc.contains(k2) implies (join_ok(g0, *graph, cd0, tick, seeks, attracts, key_lo(k2), key_hi(k2))
                                && chosen_first(g0, cd0, tick, attracts, cc, key_lo(k2), key_hi(k2)))
                                || (join_ok(g0, *graph, cd0, tick, seeks, attracts, key_hi(k2), key_lo(k2))
                                && chosen_first(g0, cd0, tick, attracts, cc, key_hi(k2), key_lo(k2))) by {
                                if k2 != k {
                                    assert(cc0.contains(k2));
                                    if join_ok(g0, gs, cd0, tick, seeks, attracts, key_lo(k2), key_hi(k2))
                                        && chosen_first(g0, cd0, tick, attracts, cc0, key_lo(k2), key_hi(k2)) {
                                        lemma_join_ok_grows(g0, gs, *graph, cd0, tick, seeks, attracts, key_lo(k2), key_hi(k2));
                                        lemma_chosen_first_grows(g0, cd0, tick, attracts, cc0, cc, key_lo(k2), key_hi(k2));
                                    } else {
                                        lemma_join_ok_grows(g0, gs, *graph, cd0, tick, seeks, attracts, key_hi(k2), key_lo(k2));
                                        lemma_chosen_first_grows(g0, cd0, tick, attracts, cc0, cc, key_hi(k2), key_lo(k2));
                                    }
                                }
                            }
                            assert forall|v: NodeId| (v as int) < n && !touched(cc, v) implies #[trigger] graph.nbrs()[v as int] == g0.nbrs()[v as int] by {
                                assert(gs.nbrs()[v as int] == g0.nbrs()[v as int]);
                            }
                            assert forall|v: NodeId| (v as int) < n && touched(cc, v) implies #[trigger] graph.deg(v) == g0.deg(v) + 1 by {
                                if v == id || v == c {
                                    assert(gs.nbrs()[v as int] == g0.nbrs()[v as int]);
                                } else {
                                    assert(touched(cc0, v));
                                    assert(gs.deg(v) == g0.deg(v) + 1);
                                }
                            }
                            assert forall|v: int| 0 <= v < cd0.len() implies #[trigger] self.cooldown@[v] == if v < n && touched(cc, v as NodeId) { tick } else { cd0[v] } by {
                                if v < n {
                                    assert(touched(cc, v as NodeId) == (touched(cc0, v as NodeId) || v as NodeId == id || v as NodeId == c));
                                }
                            }
                            assert forall|x: NodeId, nb2: NodeId, c2: NodeId|
                                #![trigger g0.adjacent(x, nb2), g0.adjacent(nb2, c2)]
                                (x as int) < a + 1 && !touched(cc, x) && surely1(seeks, x)
                                    && cooled(tick, cd0[x as int], 2 * COOLDOWN_TICKS as int) && g0.deg(x) < MAX_DEGREE
                                    && g0.adjacent(x, nb2) && g0.adjacent(nb2, c2) && !touched(cc, nb2) && !touched(cc, c2)
                                    && joinable(g0, cd0, tick, x, c2) implies !surely2(attracts, x, c2) by {
                                assert(x != id);
                            }
                        }
                        proof {
                            let k = spec_edge_key(id, c);
                            assert(other_end(k, id) == c);
                            assert(forall|k2: u64| #[trigger] cc.contains(k2) && !cc_start.contains(k2) ==> k2 == k);
                            assert(sk.dom().contains(k) && sk[k] == id);
                            assert(ends(k, id) && join_ok(g0, *graph, cd0, tick, seeks, attracts, id, other_end(k, id)));
                        }
                    }
                    None => {
                        proof {
                            assert(cc == cc_start && sk == sk0);
                            assert forall|x: NodeId, nb2: NodeId, c2: NodeId|
                                #![trigger g0.adjacent(x, nb2), g0.adjacent(nb2, c2)]
                                (x as int) < a + 1 && !touched(cc, x) && surely1(seeks, x)
                                    && cooled(tick, cd0[x as int], 2 * COOLDOWN_TICKS as int) && g0.deg(x) < MAX_DEGREE
                                    && g0.adjacent(x, nb2) && g0.adjacent(nb2, c2) && !touched(cc, nb2) && !touched(cc, c2)
                                    && joinable(g0, cd0, tick, x, c2) implies !surely2(attracts, x, c2) by {
                                if x == id {
                                    g0.lemma_adjacent(x, nb2);
                                    g0.lemma_adjacent(nb2, c2);
                                    lemma_same_list_same_edges(*graph, g0, id, nb2);
                                    lemma_same_list_same_edges(*graph, g0, id, c2);
                                    lemma_same_list_same_edges(*graph, g0, nb2, c2);
                                    assert(graph.nbrs()[c2 as int] == g0.nbrs()[c2 as int]);
                                    assert(self.cooldown@[c2 as int] == cd0[c2 as int]);
                                    assert(joinable(*graph, self@, tick, id, c2));
                                    assert(graph.adjacent(id, nb2) && graph.adjacent(nb2, c2));
                                }
                            }
                        }
                    }
                }
            } else {
                proof {
                    assert(cc == cc_start && sk == sk0);
                    assert forall|x: NodeId, nb2: NodeId, c2: NodeId|
                        #![trigger g0.adjacent(x, nb2), g0.adjacent(nb2, c2)]
                        (x as int) < a + 1 && !touched(cc, x) && surely1(seeks, x)
                            && cooled(tick, cd0[x as int], 2 * COOLDOWN_TICKS as int) && g0.deg(x) < MAX_DEGREE
                            && g0.adjacent(x, nb2) && g0.adjacent(nb2, c2) && !touched(cc, nb2) && !touched(cc, c2)
                            && joinable(g0, cd0, tick, x, c2) implies !surely2(attracts, x, c2) by {
                        if x == id {
                            assert(graph.nbrs()[a as int] == g0.nbrs()[a as int]);
                            assert(self.cooldown@[a as int] == cd0[a as int]);
                        }
                    }
                }
            }
            proof {
                let ghost new_seeker = cc != cc_start;
                assert(sk0.dom().subset_of(sk.dom()));
                assert(forall|k: u64| #[trigger] sk0.dom().contains(k) ==> sk[k] == sk0[k]);
                assert forall|k: u64| #[trigger] cc.contains(k) implies (sk[k] as int) < a + 1 && ends(k, sk[k])
                    && join_ok(g0, *graph, cd0, tick, seeks, attracts, sk[k], other_end(k, sk[k])) by {
                    if cc_start.contains(k) {
                        assert(sk[k] == sk0[k]);
                        lemma_join_ok_grows(g0, gs, *graph, cd0, tick, seeks, attracts, sk[k], other_end(k, sk[k]));
                    } else {
                        assert(sk[k] == a);
                    }
                }
                lemma_seekers_in_order_grows(g0, cd0, tick, seeks, attracts, Set::empty(), sk0, sk, a as int);
                assert forall|x: NodeId, nb2: NodeId, c2: NodeId|
                    #![trigger g0.adjacent(x, nb2), g0.adjacent(nb2, c2)]
                    (x as int) < a + 1 && !seeker_of(sk, x) && free_at(Set::empty(), sk, x, x) && surely1(seeks, x)
                        && cooled(tick, cd0[x as int], 2 * COOLDOWN_TICKS as int) && g0.deg(x) < MAX_DEGREE
                        && g0.adjacent(x, nb2) && g0.adjacent(nb2, c2) && free_at(Set::empty(), sk, x, nb2)
                        && free_at(Set::empty(), sk, x, c2) && joinable(g0, cd0, tick, x, c2) implies !surely2(attracts, x, c2) by {
                    if (x as int) == a {
                        assert forall|k: u64| #[trigger] cc.contains(k) implies sk[k] < x by {
                            if !cc_start.contains(k) {
                                assert(sk[k] == a);
                                assert(sk.dom().contains(k) && sk[k] == x);
                            }
                        }
                        lemma_free_untouched(Set::empty(), sk, cc, x, x);
                        lemma_free_untouched(Set::empty(), sk, cc, x, nb2);
                        lemma_free_untouched(Set::empty(), sk, cc, x, c2);
                    }
                }
            }
            a += 1;
        }
        proof {
            assert(graph.keys().difference(g0.keys()) =~= cc);
            assert(seekers_named(g0, *graph, cd0, tick, seeks, attracts, cc, sk));
        }
        created
    }
}

/// A first choice made after the tearing pass, in `gm` with cooldowns `cdm`
/// and touched set `cm`, is one in the graph `g0` before it, with `cd0`,
/// among the nodes left untouched by all changes `ch`: those kept their
/// lists and cooldowns, and the tearing pass only removed edges.
pub proof fn lemma_chosen_first_transfers<A: Fn(NodeId, NodeId) -> bool>(
    gm: SparseGraph,
    g0: SparseGraph,
    cdm: Seq<u64>,
    cd0: Seq<u64>,
    t: u64,
    attracts: &A,
    cm: Set<u64>,
    ch: Set<u64>,
    a: NodeId,
    c: NodeId,
)
    requires
        g0.wf(),
        gm.wf(),
        gm.size() == g0.size(),
        (a as int) < g0.size(),
        cd0.len() >= g0.size(),
        cdm.len() >= g0.size(),
        chosen_first(gm, cdm, t, attracts, cm, a, c),
        cm.subset_of(ch),
        gm.keys().subset_of(g0.keys()),
        gm.nbrs()[a as int] == g0.nbrs()[a as int],
        forall|v: NodeId| (v as int) < g0.size() && !touched(ch, v) ==> #[trigger] gm.nbrs()[v as int] == g0.nbrs()[v as int]
            && cdm[v as int] == cd0[v as int],
    ensures
        chosen_first(g0, cd0, t, attracts, ch, a, c),
{
    let p = choose|p: int| #[trigger] picked_at(gm, cdm, t, attracts, cm, a, c, p);
    let la = g0.nbrs()[a as int];
    assert forall|v: NodeId| touched(cm, v) implies #[trigger] touched(ch, v) by {
        lemma_touched_subset(cm, ch, v);
    }
    assert forall|c2: NodeId| (c2 as int) < g0.size() && !touched(ch, c2) && joinable(g0, cd0, t, a, c2)
        implies #[trigger] joinable(gm, cdm, t, a, c2) by {
        lemma_same_list_same_edges(gm, g0, a, c2);
        assert(gm.nbrs()[c2 as int] == g0.nbrs()[c2 as int]);
    }
    assert forall|p2: int, c2: NodeId|
        #![trigger la[p2], g0.adjacent(la[p2], c2)]
        0 <= p2 < p && g0.adjacent(la[p2], c2) && !touched(ch, la[p2]) && !touched(ch, c2)
            && joinable(g0, cd0, t, a, c2) implies !surely2(attracts, a, c2) by {
        let nb2 = la[p2];
        g0.lemma_adjacent(nb2, c2);
        lemma_same_list_same_edges(gm, g0, nb2, c2);
        assert(gm.nbrs()[a as int][p2] == nb2);
        assert(joinable(gm, cdm, t, a, c2));
        assert(gm.adjacent(gm.nbrs()[a as int][p2], c2));
    }
    let nb = la[p];
    if !touched(ch, nb) {
        gm.lemma_adjacent(nb, c);
        let l = g0.nbrs()[nb as int];
        assert(gm.nbrs()[nb as int] == l);
        let q = choose|q: int| #[trigger] first_in_list(gm, cdm, t, attracts, cm, a, l, c, q);
        assert forall|q2: int|
            #![trigger l[q2]]
            0 <= q2 < q && !touched(ch, l[q2]) && joinable(g0, cd0, t, a, l[q2]) implies !surely2(attracts, a, l[q2]) by {
            assert(l.contains(l[q2]));
            assert(g0.adjacent(nb, l[q2]));
            g0.lemma_adjacent(nb, l[q2]);
            assert(joinable(gm, cdm, t, a, l[q2]));
        }
        assert(first_in_list(g0, cd0, t, attracts, ch, a, l, c, q));
    }
    assert(g0.adjacent(la[p], c));
    assert(picked_at(g0, cd0, t, attracts, ch, a, c, p));
}

/// A join made after the tearing pass, in `gm` with cooldowns `cdm`, was
/// made by the rules in the graph `g0` before it, with `cd0`, when its two
/// ends kept their lists and cooldowns through the tearing pass.
pub proof fn lemma_join_ok_transfers<S: Fn(NodeId) -> bool, A: Fn(NodeId, NodeId) -> bool>(
    gm: SparseGraph,
    g0: SparseGraph,
    g1: SparseGraph,
    cdm: Seq<u64>,
    cd0: Seq<u64>,
    t: u64,
    seeks: &S,
    attracts: &A,
    x: NodeId,
    y: NodeId,
)
    requires
        g0.wf(),
        gm.wf(),
        gm.size() == g0.size(),
        (x as int) < g0.size(),
        (y as int) < g0.size(),
        join_ok(gm, g1, cdm, t, seeks, attracts, x, y),
        gm.nbrs()[x as int] == g0.nbrs()[x as int],
        gm.nbrs()[y as int] == g0.nbrs()[y as int],
        cdm[x as int] == cd0[x as int],
        cdm[y as int] == cd0[y as int],
    ensures
        join_ok(g0, g1, cd0, t, seeks, attracts, x, y),
{
    let nb = choose|nb: NodeId|
        #![trigger gm.adjacent(x, nb), gm.adjacent(nb, y)]
        gm.adjacent(x, nb) && gm.adjacent(nb, y) && g1.adjacent(x, nb) && g1.adjacent(nb, y);
    gm.lemma_adjacent(nb, y);
    lemma_same_list_same_edges(gm, g0, x, nb);
    lemma_same_list_same_edges(gm, g0, x, y);
    lemma_same_list_same_edges(gm, g0, y, nb);
    g0.lemma_adjacent(y, nb);
    assert(g0.adjacent(x, nb) && g0.adjacent(nb, y) && g1.adjacent(x, nb) && g1.adjacent(nb, y));
}

/// The order in which seekers were served after the tearing pass holds of
/// the graph `g0` before it, counting the torn edges `gone` as taken: nodes
/// they leave free kept their lists and cooldowns.
pub proof fn lemma_seekers_in_order_transfers<S: Fn(NodeId) -> bool, A: Fn(NodeId, NodeId) -> bool>(
    gm: SparseGraph,
    g0: SparseGraph,
    cdm: Seq<u64>,
    cd0: Seq<u64>,
    t: u64,
    seeks: &S,
    attracts: &A,
    gone: Set<u64>,
    sk: Map<u64, NodeId>,
)
    requires
        g0.wf(),
        gm.wf(),
        gm.size() == g0.size(),
        cd0.len() >= g0.size(),
        cdm.len() >= g0.size(),
        seekers_in_order(gm, cdm, t, seeks, attracts, Set::empty(), sk, gm.size() as int),
        forall|v: NodeId| (v as int) < g0.size() && !touched(gone, v) ==> #[trigger] gm.nbrs()[v as int] == g0.nbrs()[v as int]
            && cdm[v as int] == cd0[v as int],
    ensures
        seekers_in_order(g0, cd0, t, seeks, attracts, gone, sk, g0.size() as int),
{
    assert forall|x: NodeId, nb: NodeId, c: NodeId|
        #![trigger g0.adjacent(x, nb), g0.adjacent(nb, c)]
        (x as int) < g0.size() && !seeker_of(sk, x) && free_at(gone, sk, x, x) && surely1(seeks, x)
            && cooled(t, cd0[x as int], 2 * COOLDOWN_TICKS as int) && g0.deg(x) < MAX_DEGREE
            && g0.adjacent(x, nb) && g0.adjacent(nb, c) && free_at(gone, sk, x, nb) && free_at(gone, sk, x, c)
            && joinable(g0, cd0, t, x, c) implies !surely2(attracts, x, c) by {
        g0.lemma_adjacent(x, nb);
        g0.lemma_adjacent(nb, c);
        assert(gm.nbrs()[x as int] == g0.nbrs()[x as int]);
        assert(gm.nbrs()[nb as int] == g0.nbrs()[nb as int]);
        assert(gm.nbrs()[c as int] == g0.nbrs()[c as int]);
        lemma_same_list_same_edges(gm, g0, x, nb);
        lemma_same_list_same_edges(gm, g0, nb, c);
        lemma_same_list_same_edges(gm, g0, x, c);
        assert(free_at(Set::empty(), sk, x, x));
        assert(free_at(Set::empty(), sk, x, nb));
        assert(free_at(Set::empty(), sk, x, c));
        assert(joinable(gm, cdm, t, x, c));
        assert(gm.adjacent(x, nb) && gm.adjacent(nb, c));
    }
}

/// A node is touched by a union exactly when it is touched by one side.
pub proof fn lemma_touched_union(d: Set<u64>, c: Set<u64>, v: NodeId)
    ensures
        touched(d.union(c), v) == (touched(d, v) || touched(c, v)),
{
    if touched(d.union(c), v) {
        let k = choose|k: u64| #[trigger] d.union(c).contains(k) && ends(k, v);
        if d.contains(k) {
            assert(touched(d, v));
        } else {
            assert(touched(c, v));
        }
    }
    if touched(d, v) {
        let k = choose|k: u64| #[trigger] d.contains(k) && ends(k, v);
        assert(d.union(c).contains(k));
    }
    if touched(c, v) {
        let k = choose|k: u64| #[trigger] c.contains(k) && ends(k, v);
        assert(d.union(c).contains(k));
    }
}

impl MutationEngine {
    /// One round of topology mutation at `tick`.
    ///
    /// The field enters through three questions: `tears(a, b)` (with `a < b`)
    /// whether the edge `{a, b}` is under enough strain to break, `seeks(a)`
    /// whether `a` looks for a new partner, and `attracts(a, c)` whether `a`
    /// and `c` draw together.
    ///
    /// First every edge is visited once, in the edge set's order, and torn when
    /// the field asks for it, neither end rests (its last mutation at least
    /// `COOLDOWN_TICKS` ago) and both ends have more than
    /// `MIN_DEGREE_FOR_DESTROY` neighbours. Then every node in id order that
    /// seeks, has fewer than `MAX_DEGREE` neighbours and has rested twice as
    /// long is joined to the first neighbour of a neighbour that is not yet
    /// joined to it, has room, has rested as long and is attracted. Each
    /// change stamps both ends with `tick`.
    pub fn apply<D: Fn(NodeId, NodeId) -> bool, S: Fn(NodeId) -> bool, A: Fn(NodeId, NodeId) -> bool>(
        &mut self,
        graph: &mut SparseGraph,
        tick: u64,
        tears: &D,
        seeks: &S,
        attracts: &A,
    ) -> (stats: MutationStats)
        requires
            old(graph).wf(),
            old(graph).size() <= u32::MAX,
            old(self)@.len() >= old(graph).size(),
            forall|a: NodeId, b: NodeId| tears.requires((a, b)),
            forall|a: NodeId| seeks.requires((a,)),
            forall|a: NodeId, b: NodeId| attracts.requires((a, b)),
        ensures
            ({
                let g0 = *old(graph);
                let g1 = *final(graph);
                let cd0 = old(self)@;
                let dd = g0.keys().difference(g1.keys());
                let cc = g1.keys().difference(g0.keys());
                let all = dd.union(cc);
                &&& g1.wf()
                &&& g1.size() == g0.size()
                &&& final(self)@.len() == cd0.len()
                &&& is_matching(all)
                &&& forall|k: u64| #[trigger] dd.contains(k) ==> tear_ok(g0, cd0, tick, tears, k)
                &&& forall|k: u64| #[trigger] cc.contains(k) ==> (join_ok(g0, g1, cd0, tick, seeks, attracts, key_lo(k), key_hi(k))
                    && chosen_first(g0, cd0, tick, attracts, all, key_lo(k), key_hi(k)))
                    || (join_ok(g0, g1, cd0, tick, seeks, attracts, key_hi(k), key_lo(k))
                    && chosen_first(g0, cd0, tick, attracts, all, key_hi(k), key_lo(k)))
                &&& forall|v: NodeId| (v as int) < g0.size() && !touched(all, v) ==> #[trigger] g1.nbrs()[v as int] == g0.nbrs()[v as int]
                &&& forall|v: NodeId| (v as int) < g0.size() ==> #[trigger] g1.deg(v) == g0.deg(v)
                    - (if touched(dd, v) { 1int } else { 0int }) + (if touched(cc, v) { 1int } else { 0int })
                &&& forall|v: int| 0 <= v < cd0.len() ==> #[trigger] final(self)@[v] == if v < g0.size() && touched(all, v as NodeId) { tick } else { cd0[v] }
                &&& stats.destroyed == dd.len()
                &&& stats.created == cc.len()
                &&& forall|v: NodeId| (v as int) < g0.size() ==> !(touched(dd, v) && #[trigger] touched(cc, v))
                &&& forall|v: NodeId| (v as int) < g0.size() && #[trigger] touched(cc, v) ==> g1.deg(v) <= MAX_DEGREE
                &&& forall|v: NodeId| (v as int) < g0.size() && #[trigger] touched(dd, v) ==> g1.deg(v) >= MIN_DEGREE_FOR_DESTROY
                &&& forall|v: NodeId| (v as int) < g0.size() && !cooled(tick, cd0[v as int], COOLDOWN_TICKS as int) ==> !#[trigger] touched(all, v)
                &&& forall|a: NodeId, b: NodeId|
                    a < b && g0.adjacent(a, b) && #[trigger] g1.adjacent(a, b) && surely2(tears, a, b)
                        && cooled(tick, cd0[a as int], COOLDOWN_TICKS as int)
                        && cooled(tick, cd0[b as int], COOLDOWN_TICKS as int) ==> touched(dd, a) || touched(dd, b)
                        || g0.deg(a) <= MIN_DEGREE_FOR_DESTROY || g0.deg(b) <= MIN_DEGREE_FOR_DESTROY
                &&& forall|a: NodeId, nb: NodeId, c: NodeId|
                    #![trigger g0.adjacent(a, nb), g0.adjacent(nb, c)]
                    (a as int) < g0.size() && !touched(all, a) && surely1(seeks, a)
                        && cooled(tick, cd0[a as int], 2 * COOLDOWN_TICKS as int) && g0.deg(a) < MAX_DEGREE
                        && g0.adjacent(a, nb) && g0.adjacent(nb, c) && !touched(all, nb) && !touched(all, c)
                        && joinable(g0, cd0, tick, a, c) ==> !surely2(attracts, a, c)
                &&& exists|sk: Map<u64, NodeId>|
                    seekers_named(g0, g1, cd0, tick, seeks, attracts, cc, sk)
                    && #[trigger] seekers_in_order(g0, cd0, tick, seeks, attracts, dd, sk, g0.size() as int)
            }),
    {
        let ghost g0 = *graph;
        let ghost cd0 = self.cooldown@;
        let destroyed = self.tear_edges(graph, tick, tears);
        let ghost gm = *graph;
        let ghost cdm = self.cooldown@;
        let created = self.join_edges(graph, tick, seeks, attracts);
        proof {
            let g1 = *graph;
            let n = g0.size();
            let dd = g0.keys().difference(gm.keys());
            let cm = g1.keys().difference(gm.keys());
            // a node touched by a join had rested, so no tear touched it
            assert forall|v: NodeId| (v as int) < n && touched(cm, v) implies !touched(dd, v) && cdm[v as int] == cd0[v as int]
                && gm.nbrs()[v as int] == g0.nbrs()[v as int] by {
                let k = choose|k: u64| #[trigger] cm.contains(k) && ends(k, v);
                assert(join_ok(gm, g1, cdm, tick, seeks, attracts, key_lo(k), key_hi(k))
                    || join_ok(gm, g1, cdm, tick, seeks, attracts, key_hi(k), key_lo(k)));
                if touched(dd, v) {
                    assert(cdm[v as int] == tick);
                }
            }
            assert(cm.disjoint(g0.keys())) by {
                assert forall|k: u64| cm.contains(k) implies !g0.keys().contains(k) by {
                    if g0.keys().contains(k) {
                        assert(dd.contains(k));
                        g0.lemma_adjacent(key_lo(k), key_hi(k));
                        assert(touched(cm, key_lo(k)));
                        assert(touched(dd, key_lo(k)));
                    }
                }
            }
            assert(g0.keys().difference(g1.keys()) =~= dd);
            assert(g1.keys().difference(g0.keys()) =~= cm);
            let all = dd.union(cm);
            assert forall|v: NodeId| #![auto] touched(all, v) == (touched(dd, v) || touched(cm, v)) by {
                lemma_touched_union(dd, cm, v);
            }
            assert(is_matching(all)) by {
                assert forall|k1: u64, k2: u64|
                    #[trigger] all.contains(k1) && #[trigger] all.contains(k2) && k1 != k2 implies !ends(k2, key_lo(k1))
                        && !ends(k2, key_hi(k1)) by {
                    if dd.contains(k1) && cm.contains(k2) {
                        if ends(k2, key_lo(k1)) {
                            assert(touched(cm, key_lo(k1)));
                            assert(touched(dd, key_lo(k1)));
                        }
                        if ends(k2, key_hi(k1)) {
                            assert(touched(cm, key_hi(k1)));
                            assert(touched(dd, key_hi(k1)));
                        }
                    } else if cm.contains(k1) && dd.contains(k2) {
                        if ends(k2, key_lo(k1)) {
                            assert(touched(cm, key_lo(k1)));
                            assert(touched(dd, key_lo(k1)));
                        }
                        if ends(k2, key_hi(k1)) {
                            assert(touched(cm, key_hi(k1)));
                            assert(touched(dd, key_hi(k1)));
                        }
                    }
                }
            }
            assert forall|k: u64| #[trigger] cm.contains(k) implies (join_ok(g0, g1, cd0, tick, seeks, attracts, key_lo(k), key_hi(k))
                && chosen_first(g0, cd0, tick, attracts, all, key_lo(k), key_hi(k)))
                || (join_ok(g0, g1, cd0, tick, seeks, attracts, key_hi(k), key_lo(k))
                && chosen_first(g0, cd0, tick, attracts, all, key_hi(k), key_lo(k))) by {
                let lo = key_lo(k);
                let hi = key_hi(k);
                assert(g1.keys().contains(k));
                g1.lemma_adjacent(lo, hi);
                assert(touched(cm, lo));
                assert(touched(cm, hi));
                let (x, y) = if join_ok(gm, g1, cdm, tick, seeks, attracts, lo, hi) && chosen_first(gm, cdm, tick, attracts, cm, lo, hi) {
                    (lo, hi)
                } else {
                    (hi, lo)
                };
                assert(join_ok(gm, g1, cdm, tick, seeks, attracts, x, y));
                assert(chosen_first(gm, cdm, tick, attracts, cm, x, y));
                assert(cm.subset_of(all));
                assert forall|v: NodeId| (v as int) < n && !touched(all, v) implies #[trigger] gm.nbrs()[v as int] == g0.nbrs()[v as int]
                    && cdm[v as int] == cd0[v as int] by {
                    assert(!touched(dd, v));
                }
                assert(gm.nbrs()[x as int] == g0.nbrs()[x as int]);
                lemma_chosen_first_transfers(gm, g0, cdm, cd0, tick, attracts, cm, all, x, y);
                let nb = choose|nb: NodeId|
                    #![trigger gm.adjacent(x, nb), gm.adjacent(nb, y)]
                    gm.adjacent(x, nb) && gm.adjacent(nb, y) && g1.adjacent(x, nb) && g1.adjacent(nb, y);
                gm.lemma_adjacent(nb, y);
                lemma_same_list_same_edges(gm, g0, x, nb);
                lemma_same_list_same_edges(gm, g0, x, y);
                lemma_same_list_same_edges(gm, g0, y, nb);
                g0.lemma_adjacent(y, nb);
                assert(g0.adjacent(x, nb) && g0.adjacent(nb, y) && g1.adjacent(x, nb) && g1.adjacent(nb, y));
                assert(join_ok(g0, g1, cd0, tick, seeks, attracts, x, y));
            }
            assert forall|v: NodeId| (v as int) < n && !touched(all, v) implies #[trigger] g1.nbrs()[v as int] == g0.nbrs()[v as int] by {
                assert(gm.nbrs()[v as int] == g0.nbrs()[v as int]);
            }
            assert forall|v: NodeId| (v as int) < n implies #[trigger] g1.deg(v) == g0.deg(v)
                - (if touched(dd, v) { 1int } else { 0int }) + (if touched(cm, v) { 1int } else { 0int }) by {
                if touched(cm, v) {
                    assert(g1.deg(v) == gm.deg(v) + 1);
                    assert(!touched(dd, v));
                    assert(gm.nbrs()[v as int] == g0.nbrs()[v as int]);
                } else {
                    assert(g1.nbrs()[v as int] == gm.nbrs()[v as int]);
                    if !touched(dd, v) {
                        assert(gm.nbrs()[v as int] == g0.nbrs()[v as int]);
                    } else {
                        assert(gm.deg(v) == g0.deg(v) - 1);
                    }
                }
            }
            assert forall|v: int| 0 <= v < cd0.len() implies #[trigger] self.cooldown@[v] == if v < n && touched(all, v as NodeId) { tick } else { cd0[v] } by {
                if v < n {
                    assert(touched(all, v as NodeId) == (touched(dd, v as NodeId) || touched(cm, v as NodeId)));
                }
            }
            assert forall|v: NodeId| (v as int) < n && #[trigger] touched(cm, v) implies g1.deg(v) <= MAX_DEGREE by {
                let k = choose|k: u64| #[trigger] cm.contains(k) && ends(k, v);
                assert(g1.deg(v) == gm.deg(v) + 1);
                assert(gm.nbrs()[v as int] == g0.nbrs()[v as int]);
            }
            assert forall|v: NodeId| (v as int) < n && #[trigger] touched(dd, v) implies g1.deg(v) >= MIN_DEGREE_FOR_DESTROY by {
                let k = choose|k: u64| #[trigger] dd.contains(k) && ends(k, v);
                assert(tear_ok(g0, cd0, tick, tears, k));
                assert(!touched(cm, v));
                assert(g1.nbrs()[v as int] == gm.nbrs()[v as int]);
            }
            assert forall|v: NodeId| (v as int) < n && !cooled(tick, cd0[v as int], COOLDOWN_TICKS as int) implies !#[trigger] touched(all, v) by {
                if touched(dd, v) {
                    let k = choose|k: u64| #[trigger] dd.contains(k) && ends(k, v);
                    assert(tear_ok(g0, cd0, tick, tears, k));
                }
                if touched(cm, v) {
                    let k = choose|k: u64| #[trigger] cm.contains(k) && ends(k, v);
                    assert(cdm[v as int] == cd0[v as int]);
                    assert(join_ok(gm, g1, cdm, tick, seeks, attracts, key_lo(k), key_hi(k))
                        || join_ok(gm, g1, cdm, tick, seeks, attracts, key_hi(k), key_lo(k)));
                }
            }
            assert forall|a: NodeId, b: NodeId|
                a < b && g0.adjacent(a, b) && #[trigger] g1.adjacent(a, b) && surely2(tears, a, b)
                    && cooled(tick, cd0[a as int], COOLDOWN_TICKS as int)
                    && cooled(tick, cd0[b as int], COOLDOWN_TICKS as int) implies touched(dd, a) || touched(dd, b)
                    || g0.deg(a) <= MIN_DEGREE_FOR_DESTROY || g0.deg(b) <= MIN_DEGREE_FOR_DESTROY by {
                assert(!cm.contains(spec_edge_key(a, b)));
                assert(gm.adjacent(a, b));
            }
            assert forall|a: NodeId, nb: NodeId, c: NodeId|
                #![trigger g0.adjacent(a, nb), g0.adjacent(nb, c)]
                (a as int) < n && !touched(all, a) && surely1(seeks, a)
                    && cooled(tick, cd0[a as int], 2 * COOLDOWN_TICKS as int) && g0.deg(a) < MAX_DEGREE
                    && g0.adjacent(a, nb) && g0.adjacent(nb, c) && !touched(all, nb) && !touched(all, c)
                    && joinable(g0, cd0, tick, a, c) implies !surely2(attracts, a, c) by {
                g0.lemma_adjacent(a, nb);
                g0.lemma_adjacent(nb, c);
                assert(gm.nbrs()[a as int] == g0.nbrs()[a as int]);
                assert(gm.nbrs()[nb as int] == g0.nbrs()[nb as int]);
                assert(gm.nbrs()[c as int] == g0.nbrs()[c as int]);
                lemma_same_list_same_edges(gm, g0, a, nb);
                lemma_same_list_same_edges(gm, g0, a, c);
                lemma_same_list_same_edges(gm, g0, nb, c);
                assert(cdm[a as int] == cd0[a as int]);
                assert(cdm[c as int] == cd0[c as int]);
                assert(gm.adjacent(a, nb) && gm.adjacent(nb, c));
                assert(joinable(gm, cdm, tick, a, c));
            }
            let sk = choose|sk: Map<u64, NodeId>|
                seekers_named(gm, g1, cdm, tick, seeks, attracts, cm, sk)
                && #[trigger] seekers_in_order(gm, cdm, tick, seeks, attracts, Set::empty(), sk, gm.size() as int);
            assert forall|v: NodeId| (v as int) < n && !touched(dd, v) implies #[trigger] gm.nbrs()[v as int] == g0.nbrs()[v as int]
                && cdm[v as int] == cd0[v as int] by {
            }
            lemma_seekers_in_order_transfers(gm, g0, cdm, cd0, tick, seeks, attracts, dd, sk);
            assert forall|k: u64| #[trigger] cm.contains(k) implies ends(k, sk[k])
                && join_ok(g0, g1, cd0, tick, seeks, attracts, sk[k], other_end(k, sk[k])) by {
                let x = sk[k];
                let y = other_end(k, x);
                g1.lemma_adjacent(key_lo(k), key_hi(k));
                assert(g1.keys().contains(k));
                assert(touched(cm, key_lo(k)) && touched(cm, key_hi(k)));
                assert(touched(cm, x) && touched(cm, y));
                lemma_join_ok_transfers(gm, g0, g1, cdm, cd0, tick, seeks, attracts, x, y);
            }
            assert(seekers_named(g0, g1, cd0, tick, seeks, attracts, cm, sk));
        }
        MutationStats { created, destroyed }
    }
}

} // verus!
