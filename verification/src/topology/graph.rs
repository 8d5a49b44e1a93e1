use vstd::prelude::*;
use rustc_hash::FxHashSet;
use crate::topology::fxset::{
    key_set, id_set, key_set_new, key_set_insert, key_set_remove, key_set_contains,
    key_set_len, key_set_items, id_set_new, id_set_insert, id_set_remove,
};

verus! {

/// Identifier of a node.
pub type NodeId = u32;

/// 2^32: the weight of the upper half of an edge key.
pub open spec fn half() -> int {
    0x1_0000_0000
}

/// The canonical 64-bit key of the undirected pair `{a, b}`: the smaller id in
/// the upper half, the larger in the lower half.
pub open spec fn spec_edge_key(a: u32, b: u32) -> u64 {
    if a <= b {
        (a as int * half() + b as int) as u64
    } else {
        (b as int * half() + a as int) as u64
    }
}

/// The upper half of a key.
pub open spec fn key_lo(k: u64) -> u32 {
    (k as int / half()) as u32
}

/// The lower half of a key.
pub open spec fn key_hi(k: u64) -> u32 {
    (k as int % half()) as u32
}

/// A key splits back into the two ids it was made of, smaller first.
pub proof fn lemma_edge_key_parts(a: u32, b: u32)
    ensures
        key_lo(spec_edge_key(a, b)) == (if a <= b { a } else { b }),
        key_hi(spec_edge_key(a, b)) == (if a <= b { b } else { a }),
        spec_edge_key(a, b) == spec_edge_key(b, a),
{
    let lo: u32 = if a <= b { a } else { b };
    let hi: u32 = if a <= b { b } else { a };
    let x: int = lo as int * half() + hi as int;
    assert(0 <= lo as int * half() <= 0xFFFF_FFFF * half()) by (nonlinear_arith)
        requires
            0 <= lo <= 0xFFFF_FFFF,
            half() == 0x1_0000_0000,
    ;
    assert(0 <= x < 0x1_0000_0000_0000_0000);
    assert((x as u64) as int == x);
    vstd::arithmetic::div_mod::lemma_fundamental_div_mod_converse(x, half(), lo as int, hi as int);
}

/// Two pairs have the same key exactly when they are the same unordered pair.
pub proof fn lemma_edge_key_injective(a: u32, b: u32, c: u32, d: u32)
    ensures
        spec_edge_key(a, b) == spec_edge_key(c, d) <==> ((a == c && b == d) || (a == d && b == c)),
{
    lemma_edge_key_parts(a, b);
    lemma_edge_key_parts(c, d);
}

pub fn edge_key(a: NodeId, b: NodeId) -> (k: u64)
    ensures
        k == spec_edge_key(a, b),
{
    let (lo, hi) = if a <= b { (a, b) } else { (b, a) };
    let r = ((lo as u64) << 32) | hi as u64;
    assert(((lo as u64) << 32) | (hi as u64) == lo as u64 * 0x1_0000_0000u64 + hi as u64)
        by (bit_vector);
    r
}

/// `after` is `before` with the one occurrence of `x` taken out, the rest in
/// their order.
pub open spec fn drops_one(before: Seq<NodeId>, after: Seq<NodeId>, x: NodeId) -> bool {
    exists|i: int| 0 <= i < before.len() && before[i] == x && after == before.remove(i)
}

/// Removes the one occurrence of `x` from a list that holds each value once.
fn remove_value(v: &mut Vec<NodeId>, x: NodeId)
    requires
        old(v)@.no_duplicates(),
        old(v)@.contains(x),
    ensures
        drops_one(old(v)@, final(v)@, x),
        final(v)@.no_duplicates(),
        final(v)@.len() == old(v)@.len() - 1,
        forall|y: NodeId| #[trigger] final(v)@.contains(y) <==> (old(v)@.contains(y) && y != x),
{
    let mut i: usize = 0;
    while i < v.len() && v[i] != x
        invariant
            0 <= i <= v.len(),
            forall|j: int| 0 <= j < i ==> v@[j] != x,
            v@.contains(x),
        decreases v.len() - i,
    {
        i += 1;
    }
    if i == v.len() {
        proof {
            let j = choose|j: int| 0 <= j < v@.len() && v@[j] == x;
            assert(v@[j] != x);
        }
        return;
    }
    let ghost s = v@;
    v.remove(i);
    proof {
        s.remove_ensures(i as int);
        assert forall|y: NodeId| #[trigger] v@.contains(y) <==> (s.contains(y) && y != x) by {
            if v@.contains(y) {
                let j = choose|j: int| 0 <= j < v@.len() && v@[j] == y;
                if j < i {
                    assert(s[j] == y);
                } else {
                    assert(s[j + 1] == y);
                    assert(j + 1 != i);
                }
            }
            if s.contains(y) && y != x {
                let j = choose|j: int| 0 <= j < s.len() && s[j] == y;
                assert(s[i as int] == x);
                assert(j != i);
                if j < i {
                    assert(v@[j] == y);
                } else {
                    assert(v@[j - 1] == y);
                }
            }
        }
        assert forall|p: int, q: int| 0 <= p < v@.len() && 0 <= q < v@.len() && p != q implies v@[p]
            != v@[q] by {
            let pp = if p < i { p } else { p + 1 };
            let qq = if q < i { q } else { q + 1 };
            assert(v@[p] == s[pp]);
            assert(v@[q] == s[qq]);
        }
    }
}

/// The sum of the lengths of the lists.
pub open spec fn degree_sum(lists: Seq<Seq<NodeId>>) -> int
    decreases lists.len(),
{
    if lists.len() == 0 {
        0
    } else {
        degree_sum(lists.drop_last()) + lists.last().len()
    }
}

/// Replacing one list changes the sum by the difference of lengths.
pub proof fn lemma_degree_sum_update(lists: Seq<Seq<NodeId>>, i: int, x: Seq<NodeId>)
    requires
        0 <= i < lists.len(),
    ensures
        degree_sum(lists.update(i, x)) == degree_sum(lists) - lists[i].len() + x.len(),
    decreases lists.len(),
{
    let l2 = lists.update(i, x);
    if i == lists.len() - 1 {
        assert(l2.drop_last() =~= lists.drop_last());
    } else {
        lemma_degree_sum_update(lists.drop_last(), i, x);
        assert(l2.drop_last() =~= lists.drop_last().update(i, x));
    }
}

/// Empty lists sum to zero.
proof fn lemma_degree_sum_empty(lists: Seq<Seq<NodeId>>)
    requires
        forall|i: int| 0 <= i < lists.len() ==> #[trigger] lists[i].len() == 0,
    ensures
        degree_sum(lists) == 0,
    decreases lists.len(),
{
    if lists.len() > 0 {
        lemma_degree_sum_empty(lists.drop_last());
    }
}

/// An undirected simple graph over the nodes `0..node_count`: adjacency lists,
/// the set of canonical edge keys, and the set of nodes that have a neighbour.
pub struct SparseGraph {
    adj: Vec<Vec<NodeId>>,
    edges: FxHashSet<u64>,
    active: FxHashSet<NodeId>,
    node_count: usize,
}

impl SparseGraph {
    /// The adjacency list of each node, in insertion order.
    pub closed spec fn nbrs(&self) -> Seq<Seq<NodeId>> {
        self.adj@.map_values(|v: Vec<NodeId>| v@)
    }

    /// The canonical keys of the edges.
    pub closed spec fn keys(&self) -> Set<u64> {
        key_set(self.edges)
    }

    /// The nodes recorded as having at least one neighbour.
    pub closed spec fn active_ids(&self) -> Set<NodeId> {
        id_set(self.active)
    }

    /// The number of nodes.
    pub closed spec fn size(&self) -> int {
        self.node_count as int
    }


    /// `a` and `b` are joined by an edge.
    pub open spec fn adjacent(&self, a: NodeId, b: NodeId) -> bool {
        self.keys().contains(spec_edge_key(a, b))
    }

    /// The number of neighbours of `v`.
    pub open spec fn deg(&self, v: NodeId) -> int {
        self.nbrs()[v as int].len() as int
    }

    /// The graph's invariant: the three views agree, keys are canonical pairs
    /// of distinct nodes in range, and no list names a neighbour twice.
    pub open spec fn wf(&self) -> bool {
        &&& self.nbrs().len() == self.size()
        &&& degree_sum(self.nbrs()) == 2 * self.keys().len()
        &&& self.keys().finite()
        &&& self.active_ids().finite()
        &&& forall|k: u64| #[trigger]
            self.keys().contains(k) ==> key_lo(k) < key_hi(k) && (key_hi(k) as int)
                < self.size() && k == spec_edge_key(key_lo(k), key_hi(k))
        &&& forall|a: NodeId, b: NodeId|
            (a as int) < self.size() ==> (#[trigger] self.nbrs()[a as int].contains(b)
                <==> self.adjacent(a, b))
        &&& forall|a: NodeId| (a as int) < self.size() ==> #[trigger] self.nbrs()[a as int].no_duplicates()
        &&& forall|v: NodeId| #[trigger]
            self.active_ids().contains(v) <==> ((v as int) < self.size() && self.nbrs()[v as int].len() > 0)
    }

    /// The degrees add up to twice the number of edges: every edge is counted
    /// once at each end. The law is part of `wf`, which `new` establishes and
    /// `add_edge` and `remove_edge` keep; this states it on its own.
    pub proof fn lemma_handshake(&self)
        requires
            self.wf(),
        ensures
            degree_sum(self.nbrs()) == 2 * self.keys().len(),
    {
    }

    /// Facts that follow from the invariant: an edge joins two distinct nodes
    /// in range, and adjacency is symmetric.
    pub proof fn lemma_adjacent(&self, a: NodeId, b: NodeId)
        requires
            self.wf(),
        ensures
            self.adjacent(a, b) ==> a != b && (a as int) < self.size() && (b as int) < self.size(),
            self.adjacent(a, b) == self.adjacent(b, a),
    {
        lemma_edge_key_parts(a, b);
    }

    /// The number of nodes.
    pub fn node_count(&self) -> (n: usize)
        ensures
            n == self.size(),
    {
        self.node_count
    }

    /// Joins `a` and `b`. Refused (returning `false`, nothing changed) for a
    /// self-loop, an id out of range, or a pair that is already joined.
    pub fn add_edge(&mut self, a: NodeId, b: NodeId) -> (added: bool)
        requires
            old(self).wf(),
        ensures
            final(self).wf(),
            final(self).size() == old(self).size(),
            added == (a != b && (a as int) < old(self).size() && (b as int) < old(self).size()
                && !old(self).adjacent(a, b)),
            added ==> final(self).keys() == old(self).keys().insert(spec_edge_key(a, b)),
            added ==> final(self).nbrs() == old(self).nbrs().update(
                a as int,
                old(self).nbrs()[a as int].push(b),
            ).update(b as int, old(self).nbrs()[b as int].push(a)),
            added ==> final(self).active_ids() == old(self).active_ids().insert(a).insert(b),
            !added ==> final(self).keys() == old(self).keys(),
            !added ==> final(self).nbrs() == old(self).nbrs(),
            !added ==> final(self).active_ids() == old(self).active_ids(),
    {
        if a == b || a as usize >= self.node_count || b as usize >= self.node_count {
            return false;
        }
        let key = edge_key(a, b);
        let ghost g0 = *self;
        if key_set_insert(&mut self.edges, key) {
            self.adj[a as usize].push(b);
            self.adj[b as usize].push(a);
            id_set_insert(&mut self.active, a);
            id_set_insert(&mut self.active, b);
            proof {
                let na = g0.nbrs()[a as int].push(b);
                let nb = g0.nbrs()[b as int].push(a);
                assert(self.nbrs() =~= g0.nbrs().update(a as int, na).update(b as int, nb));
                lemma_degree_sum_update(g0.nbrs(), a as int, na);
                lemma_degree_sum_update(g0.nbrs().update(a as int, na), b as int, nb);
                assert(!g0.keys().contains(key));
                assert(self.keys().len() == g0.keys().len() + 1);
                lemma_edge_key_parts(a, b);
                assert(!g0.nbrs()[a as int].contains(b));
                assert(!g0.nbrs()[b as int].contains(a)) by {
                    assert(g0.nbrs()[b as int].contains(a) <==> g0.adjacent(b, a));
                }
                assert forall|x: NodeId, y: NodeId| (x as int) < self.size() implies (#[trigger] self.nbrs()[x as int].contains(y)
                    <==> self.adjacent(x, y)) by {
                    lemma_edge_key_injective(x, y, a, b);
                    assert(g0.nbrs()[x as int].contains(y) <==> g0.adjacent(x, y));
                    if x == a {
                        assert(self.nbrs()[x as int] == na);
                        assert(na.contains(y) <==> (g0.nbrs()[a as int].contains(y) || y == b)) by {
                            if na.contains(y) && y != b {
                                let j = choose|j: int| 0 <= j < na.len() && na[j] == y;
                                assert(g0.nbrs()[a as int][j] == y);
                            }
                            if y == b {
                                assert(na[na.len() - 1] == b);
                            }
                            if g0.nbrs()[a as int].contains(y) {
                                let j = choose|j: int| 0 <= j < g0.nbrs()[a as int].len() && g0.nbrs()[a as int][j] == y;
                                assert(na[j] == y);
                            }
                        }
                    } else if x == b {
                        assert(self.nbrs()[x as int] == nb);
                        assert(nb.contains(y) <==> (g0.nbrs()[b as int].contains(y) || y == a)) by {
                            if nb.contains(y) && y != a {
                                let j = choose|j: int| 0 <= j < nb.len() && nb[j] == y;
                                assert(g0.nbrs()[b as int][j] == y);
                            }
                            if y == a {
                                assert(nb[nb.len() - 1] == a);
                            }
                            if g0.nbrs()[b as int].contains(y) {
                                let j = choose|j: int| 0 <= j < g0.nbrs()[b as int].len() && g0.nbrs()[b as int][j] == y;
                                assert(nb[j] == y);
                            }
                        }
                    } else {
                        assert(self.nbrs()[x as int] == g0.nbrs()[x as int]);
                    }
                }
                assert forall|x: NodeId| (x as int) < self.size() implies #[trigger] self.nbrs()[x as int].no_duplicates() by {
                    assert(g0.nbrs()[x as int].no_duplicates());
                    if x == a {
                        assert(self.nbrs()[x as int] == na);
                        assert(forall|j: int| 0 <= j < g0.nbrs()[a as int].len() ==> g0.nbrs()[a as int][j] != b);
                    } else if x == b {
                        assert(self.nbrs()[x as int] == nb);
                        assert(forall|j: int| 0 <= j < g0.nbrs()[b as int].len() ==> g0.nbrs()[b as int][j] != a);
                    }
                }
                assert forall|v: NodeId| #[trigger] self.active_ids().contains(v) <==> ((v as int) < self.size()
                    && self.nbrs()[v as int].len() > 0) by {
                    assert(g0.active_ids().contains(v) <==> ((v as int) < g0.size() && g0.nbrs()[v as int].len() > 0));
                }
            }
            true
        } else {
            false
        }
    }

    /// Separates `a` and `b`. Returns whether they were joined; when they were
    /// not, nothing changes.
    pub fn remove_edge(&mut self, a: NodeId, b: NodeId) -> (removed: bool)
        requires
            old(self).wf(),
        ensures
            final(self).wf(),
            final(self).size() == old(self).size(),
            removed == old(self).adjacent(a, b),
            final(self).keys() == old(self).keys().remove(spec_edge_key(a, b)),
            removed ==> drops_one(old(self).nbrs()[a as int], final(self).nbrs()[a as int], b),
            removed ==> drops_one(old(self).nbrs()[b as int], final(self).nbrs()[b as int], a),
            removed ==> final(self).nbrs().len() == old(self).nbrs().len(),
            removed ==> forall|v: int|
                0 <= v < old(self).size() && v != a && v != b ==> #[trigger] final(self).nbrs()[v]
                    == old(self).nbrs()[v],
            !removed ==> final(self).nbrs() == old(self).nbrs(),
    {
        let key = edge_key(a, b);
        let ghost g0 = *self;
        proof {
            g0.lemma_adjacent(a, b);
        }
        if key_set_remove(&mut self.edges, key) {
            proof {
                lemma_edge_key_parts(a, b);
                assert(g0.nbrs()[a as int].contains(b));
                assert(g0.nbrs()[b as int].contains(a));
            }
            remove_value(&mut self.adj[a as usize], b);
            remove_value(&mut self.adj[b as usize], a);
            if self.adj[a as usize].len() == 0 {
                id_set_remove(&mut self.active, a);
            }
            if self.adj[b as usize].len() == 0 {
                id_set_remove(&mut self.active, b);
            }
            proof {
                assert(self.nbrs().len() == g0.nbrs().len());
                let la = self.nbrs()[a as int];
                let lb = self.nbrs()[b as int];
                assert(self.nbrs() =~= g0.nbrs().update(a as int, la).update(b as int, lb));
                lemma_degree_sum_update(g0.nbrs(), a as int, la);
                lemma_degree_sum_update(g0.nbrs().update(a as int, la), b as int, lb);
                assert(self.keys().len() == g0.keys().len() - 1);
                assert forall|v: int| 0 <= v < g0.size() && v != a && v != b implies #[trigger] self.nbrs()[v]
                    == g0.nbrs()[v] by {
                }
                assert forall|x: NodeId, y: NodeId| (x as int) < self.size() implies (#[trigger] self.nbrs()[x as int].contains(y)
                    <==> self.adjacent(x, y)) by {
                    lemma_edge_key_injective(x, y, a, b);
                    assert(g0.nbrs()[x as int].contains(y) <==> g0.adjacent(x, y));
                }
                assert forall|x: NodeId| (x as int) < self.size() implies #[trigger] self.nbrs()[x as int].no_duplicates() by {
                    assert(g0.nbrs()[x as int].no_duplicates());
                }
                assert forall|v: NodeId| #[trigger] self.active_ids().contains(v) <==> ((v as int) < self.size()
                    && self.nbrs()[v as int].len() > 0) by {
                    assert(g0.active_ids().contains(v) <==> ((v as int) < g0.size() && g0.nbrs()[v as int].len() > 0));
                }
            }
            true
        } else {
            proof {
                assert(self.keys() =~= g0.keys().remove(key));
            }
            false
        }
    }

    /// The neighbours of `node`, in the order they were joined.
    pub fn neighbors(&self, node: NodeId) -> (r: &[NodeId])
        requires
            self.wf(),
            (node as int) < self.size(),
        ensures
            r@ == self.nbrs()[node as int],
    {
        self.adj[node as usize].as_slice()
    }

    /// The number of neighbours of `node`.
    pub fn degree(&self, node: NodeId) -> (d: usize)
        requires
            self.wf(),
            (node as int) < self.size(),
        ensures
            d == self.deg(node),
    {
        self.adj[node as usize].len()
    }

    /// Whether `a` and `b` are joined.
    pub fn has_edge(&self, a: NodeId, b: NodeId) -> (r: bool)
        ensures
            r == self.adjacent(a, b),
    {
        key_set_contains(&self.edges, edge_key(a, b))
    }

    /// The number of edges.
    pub fn edge_count(&self) -> (n: usize)
        ensures
            n == self.keys().len(),
    {
        key_set_len(&self.edges)
    }

    /// The set of nodes with at least one neighbour.
    pub fn active_nodes(&self) -> (r: &FxHashSet<NodeId>)
        ensures
            id_set(*r) == self.active_ids(),
    {
        &self.active
    }

    /// Every edge once, as `(smaller id, larger id)`, in the order the edge
    /// set walks its keys.
    pub fn iter_edges(&self) -> (r: Vec<(NodeId, NodeId)>)
        requires
            self.wf(),
        ensures
            r@.no_duplicates(),
            r@.len() == self.keys().len(),
            forall|p: (NodeId, NodeId)| #[trigger] r@.contains(p) <==> (p.0 < p.1 && self.adjacent(p.0, p.1)),
    {
        let keys = key_set_items(&self.edges);
        let mut out: Vec<(NodeId, NodeId)> = Vec::new();
        let mut i: usize = 0;
        while i < keys.len()
            invariant
                self.wf(),
                keys@.to_set() == self.keys(),
                keys@.no_duplicates(),
                0 <= i <= keys.len(),
                out@.len() == i,
                forall|j: int| 0 <= j < i ==> #[trigger] out@[j] == (key_lo(keys@[j]), key_hi(keys@[j])),
            decreases keys.len() - i,
        {
            let key = keys[i];
            let a = (key >> 32) as NodeId;
            let b = (key & 0xFFFF_FFFF) as NodeId;
            assert(key >> 32 == key / 0x1_0000_0000u64) by (bit_vector);
            assert(key & 0xFFFF_FFFF == key % 0x1_0000_0000u64) by (bit_vector);
            out.push((a, b));
            i += 1;
        }
        proof {
            let ks = self.keys();
            assert(ks.contains(keys@[0]) || keys@.len() == 0);
            assert forall|j: int| 0 <= j < keys@.len() implies #[trigger] ks.contains(keys@[j]) by {
                assert(keys@.to_set().contains(keys@[j]));
            }
            assert forall|p: (NodeId, NodeId)| #[trigger] out@.contains(p) <==> (p.0 < p.1 && self.adjacent(p.0, p.1)) by {
                if out@.contains(p) {
                    let j = choose|j: int| 0 <= j < out@.len() && out@[j] == p;
                    let k = keys@[j];
                    assert(ks.contains(k));
                    lemma_edge_key_parts(p.0, p.1);
                }
                if p.0 < p.1 && self.adjacent(p.0, p.1) {
                    let k = spec_edge_key(p.0, p.1);
                    lemma_edge_key_parts(p.0, p.1);
                    assert(keys@.to_set().contains(k));
                    let j = choose|j: int| 0 <= j < keys@.len() && keys@[j] == k;
                    assert(out@[j] == p);
                }
            }
            assert forall|x: int, y: int| 0 <= x < out@.len() && 0 <= y < out@.len() && x != y implies out@[x] != out@[y] by {
                assert(ks.contains(keys@[x]));
                assert(ks.contains(keys@[y]));
                assert(keys@[x] != keys@[y]);
            }
            keys@.unique_seq_to_set();
        }
        out
    }

    pub fn new(node_count: usize) -> (g: Self)
        ensures
            g.wf(),
            g.size() == node_count,
            g.keys() == Set::<u64>::empty(),
            forall|v: int| 0 <= v < node_count ==> #[trigger] g.nbrs()[v] == Seq::<NodeId>::empty(),
            g.active_ids() == Set::<NodeId>::empty(),
    {
        let mut adj: Vec<Vec<NodeId>> = Vec::new();
        let mut i: usize = 0;
        while i < node_count
            invariant
                0 <= i <= node_count,
                adj@.len() == i,
                forall|v: int| 0 <= v < i ==> (#[trigger] adj@[v])@ == Seq::<NodeId>::empty(),
            decreases node_count - i,
        {
            adj.push(Vec::new());
            i += 1;
        }
        let g = SparseGraph { adj, edges: key_set_new(), active: id_set_new(), node_count };
        proof {
            lemma_degree_sum_empty(g.nbrs());
        }
        assert forall|a: NodeId, b: NodeId| (a as int) < g.size() implies (#[trigger] g.nbrs()[a as int].contains(b)
                <==> g.adjacent(a, b)) by {
            assert(g.nbrs()[a as int] == Seq::<NodeId>::empty());
        }
        g
    }
}

} // verus!
