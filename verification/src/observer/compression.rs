use vstd::prelude::*;
use crate::topology::graph::{NodeId, SparseGraph};
use crate::topology::mutation::surely2;

verus! {

/// How many entries of `label` equal `t`.
pub open spec fn count_label(label: Seq<int>, t: int) -> nat
    decreases label.len(),
{
    if label.len() == 0 {
        0
    } else {
        count_label(label.drop_last(), t) + if label.last() == t { 1nat } else { 0nat }
    }
}

/// Regions that count as macro-regions have at least this many nodes.
pub const MIN_REGION_SIZE: usize = 3;

/// How many of the nodes `0..k` seed a region of at least
/// `MIN_REGION_SIZE` nodes under `label`.
pub open spec fn big_count(label: Seq<int>, k: nat) -> nat
    decreases k,
{
    if k == 0 {
        0
    } else {
        let s = (k - 1) as int;
        big_count(label, (k - 1) as nat) + if label[s] == s && count_label(label, s) >= MIN_REGION_SIZE { 1nat } else { 0nat }
    }
}

/// The size of the largest such region seeded among `0..k` (0 if none).
pub open spec fn big_max(label: Seq<int>, k: nat) -> nat
    decreases k,
{
    if k == 0 {
        0
    } else {
        let s = (k - 1) as int;
        let m = big_max(label, (k - 1) as nat);
        if label[s] == s && count_label(label, s) >= MIN_REGION_SIZE && count_label(label, s) > m {
            count_label(label, s)
        } else {
            m
        }
    }
}

/// The seeds among `0..k` of regions of at least `MIN_REGION_SIZE` nodes
/// under `label`: the macro-regions.
pub open spec fn macro_seeds(label: Seq<int>, k: nat) -> Set<int> {
    Set::new(|s: int| 0 <= s < k && label[s] == s && count_label(label, s) >= MIN_REGION_SIZE)
}

/// `big_count` counts the macro-regions: it is the number of their seeds.
pub proof fn lemma_big_count_counts(label: Seq<int>, k: nat)
    ensures
        macro_seeds(label, k).finite(),
        big_count(label, k) == macro_seeds(label, k).len(),
    decreases k,
{
    if k == 0 {
        assert(macro_seeds(label, k) =~= Set::<int>::empty());
    } else {
        let j = (k - 1) as nat;
        lemma_big_count_counts(label, j);
        let s = j as int;
        if label[s] == s && count_label(label, s) >= MIN_REGION_SIZE {
            assert(macro_seeds(label, k) =~= macro_seeds(label, j).insert(s));
        } else {
            assert(macro_seeds(label, k) =~= macro_seeds(label, j));
        }
    }
}

/// `big_max` is the size of the largest macro-region: at least the size of
/// each, and the size of one of them, or 0 when there is none.
pub proof fn lemma_big_max_is_largest(label: Seq<int>, k: nat)
    ensures
        forall|s: int| #[trigger] macro_seeds(label, k).contains(s) ==> count_label(label, s) <= big_max(label, k),
        big_max(label, k) == 0 <==> macro_seeds(label, k) == Set::<int>::empty(),
        big_max(label, k) != 0 ==> exists|s: int| #[trigger] macro_seeds(label, k).contains(s)
            && count_label(label, s) == big_max(label, k),
    decreases k,
{
    if k == 0 {
        assert(macro_seeds(label, k) =~= Set::<int>::empty());
    } else {
        let j = (k - 1) as nat;
        lemma_big_max_is_largest(label, j);
        let s = j as int;
        assert forall|t: int| #[trigger] macro_seeds(label, k).contains(t) implies count_label(label, t) <= big_max(label, k) by {
            if t < s {
                assert(macro_seeds(label, j).contains(t));
            }
        }
        if label[s] == s && count_label(label, s) >= MIN_REGION_SIZE {
            assert(macro_seeds(label, k).contains(s));
            if count_label(label, s) <= big_max(label, j) {
                let w = choose|w: int| #[trigger] macro_seeds(label, j).contains(w) && count_label(label, w) == big_max(label, j);
                assert(macro_seeds(label, k).contains(w));
            }
            assert(macro_seeds(label, k) != Set::<int>::empty());
        } else {
            assert(macro_seeds(label, k) =~= macro_seeds(label, j));
            if big_max(label, j) != 0 {
                let w = choose|w: int| #[trigger] macro_seeds(label, j).contains(w) && count_label(label, w) == big_max(label, j);
                assert(macro_seeds(label, k).contains(w));
            }
        }
    }
}

/// `label` splits the nodes of `g` into regions, each named by its seed,
/// its smallest node: every other member was found similar to the seed and
/// joined through an edge from a member reached earlier (`order`), and no
/// edge leaves a region towards a node the predicate surely calls similar to
/// the seed unless that node belongs to this or an earlier region.
pub open spec fn regions_ok<F: Fn(NodeId, NodeId) -> bool>(
    g: SparseGraph,
    similar: &F,
    label: Seq<int>,
    order: Seq<int>,
) -> bool {
    &&& label.len() == g.size()
    &&& order.len() == g.size()
    &&& forall|v: NodeId|
        (v as int) < g.size() ==> 0 <= #[trigger] label[v as int] <= v && label[label[v as int]] == label[v as int]
    &&& forall|v: NodeId|
        (v as int) < g.size() && #[trigger] label[v as int] != v ==> similar.ensures(
            (label[v as int] as NodeId, v),
            true,
        )
    &&& forall|v: NodeId|
        (v as int) < g.size() && #[trigger] label[v as int] != v ==> exists|u: NodeId|
            #![trigger g.adjacent(u, v)]
            label[u as int] == label[v as int] && g.adjacent(u, v) && order[u as int] < order[v as int]
    &&& forall|u: NodeId, w: NodeId|
        (u as int) < g.size() && #[trigger] g.adjacent(u, w) && surely2(similar, label[u as int] as NodeId, w)
            ==> label[w as int] <= label[u as int]
}

/// Changing one entry moves one count.
pub proof fn lemma_count_label_update(label: Seq<int>, i: int, x: int, t: int)
    requires
        0 <= i < label.len(),
    ensures
        count_label(label.update(i, x), t) == count_label(label, t) - (if label[i] == t { 1int } else { 0int })
            + (if x == t { 1int } else { 0int }),
    decreases label.len(),
{
    let l2 = label.update(i, x);
    if i == label.len() - 1 {
        assert(l2.drop_last() =~= label.drop_last());
    } else {
        lemma_count_label_update(label.drop_last(), i, x, t);
        assert(l2.drop_last() =~= label.drop_last().update(i, x));
    }
}

/// Counts agree when the labels differ only where neither is `t`.
pub proof fn lemma_count_label_same(a: Seq<int>, b: Seq<int>, t: int)
    requires
        a.len() == b.len(),
        forall|v: int| 0 <= v < a.len() ==> (#[trigger] a[v] == t) == (b[v] == t),
    ensures
        count_label(a, t) == count_label(b, t),
    decreases a.len(),
{
    if a.len() > 0 {
        lemma_count_label_same(a.drop_last(), b.drop_last(), t);
    }
}

/// `big_count` and `big_max` over `0..k` agree for labels that agree on the
/// seeds below `k` and on the sizes of their regions.
pub proof fn lemma_big_same(a: Seq<int>, b: Seq<int>, k: nat)
    requires
        k <= a.len(),
        k <= b.len(),
        forall|s: int| 0 <= s < k ==> #[trigger] a[s] == b[s],
        forall|s: int| 0 <= s < k ==> #[trigger] count_label(a, s) == count_label(b, s),
    ensures
        big_count(a, k) == big_count(b, k),
        big_max(a, k) == big_max(b, k),
    decreases k,
{
    if k > 0 {
        lemma_big_same(a, b, (k - 1) as nat);
        let s = (k - 1) as int;
        assert(a[s] == b[s]);
        assert(count_label(a, s) == count_label(b, s));
    }
}

/// No entry equals a label that is never used.
proof fn lemma_count_label_zero(label: Seq<int>, t: int)
    requires
        forall|v: int| 0 <= v < label.len() ==> #[trigger] label[v] != t,
    ensures
        count_label(label, t) == 0,
    decreases label.len(),
{
    if label.len() > 0 {
        lemma_count_label_zero(label.drop_last(), t);
    }
}

/// `count_label` never exceeds the length.
pub proof fn lemma_count_label_bound(label: Seq<int>, t: int)
    ensures
        count_label(label, t) <= label.len(),
    decreases label.len(),
{
    if label.len() > 0 {
        lemma_count_label_bound(label.drop_last(), t);
    }
}

/// Macro-region detection over a graph: the number of regions of at least
/// `MIN_REGION_SIZE` nodes and the size of the largest.
pub struct CompressionDetector {
    pub macro_region_count: usize,
    pub largest_region_size: usize,
}

impl CompressionDetector {
    pub fn new() -> (d: Self)
        ensures
            d.macro_region_count == 0,
            d.largest_region_size == 0,
    {
        CompressionDetector { macro_region_count: 0, largest_region_size: 0 }
    }

}

/// The bookkeeping of a partial split: each claimed node names a claimed seed
/// no larger than itself or than `bound`; claimed nodes carry a visit time
/// below `clock`; every claimed non-seed was accepted by the predicate and
/// joined through an edge from a member of its region visited earlier.
#[verifier::opaque]
spec fn labels_ok<F: Fn(NodeId, NodeId) -> bool>(
    g: SparseGraph,
    similar: &F,
    label: Seq<int>,
    order: Seq<int>,
    clock: int,
    bound: int,
) -> bool {
    &&& label.len() == g.size()
    &&& order.len() == g.size()
    &&& forall|v: int|
        0 <= v < g.size() ==> #[trigger] label[v] == -1 || (0 <= label[v] <= v && label[v] <= bound
            && label[label[v]] == label[v])
    &&& forall|v: int| 0 <= v < g.size() ==> (#[trigger] order[v] == -1) == (label[v] == -1) && -1 <= order[v] < clock
    &&& forall|v: int|
        0 <= v < g.size() && #[trigger] label[v] >= 0 && label[v] != v ==> similar.ensures(
            (label[v] as NodeId, v as NodeId),
            true,
        )
    &&& forall|v: int|
        0 <= v < g.size() && #[trigger] label[v] >= 0 && label[v] != v ==> exists|u: NodeId|
            #![trigger g.adjacent(u, v as NodeId)]
            label[u as int] == label[v] && g.adjacent(u, v as NodeId) && 0 <= order[u as int] < order[v]
}

/// Every region seeded below `s` is closed: no edge from it reaches a node
/// that the predicate surely calls similar to its seed, unless that node is
/// claimed by it or by an earlier region.
#[verifier::opaque]
spec fn closed_below<F: Fn(NodeId, NodeId) -> bool>(g: SparseGraph, similar: &F, label: Seq<int>, s: int) -> bool {
    forall|u: NodeId, w: NodeId|
        (u as int) < g.size() && 0 <= label[u as int] < s && #[trigger] g.adjacent(u, w) && surely2(
            similar,
            label[u as int] as NodeId,
            w,
        ) ==> 0 <= label[w as int] <= label[u as int]
}

/// Every member of the region of `seed` outside `queue` (and other than
/// `skip`) has had all its neighbours looked at.
#[verifier::opaque]
spec fn expanded<F: Fn(NodeId, NodeId) -> bool>(
    g: SparseGraph,
    similar: &F,
    label: Seq<int>,
    seed: int,
    queue: Seq<NodeId>,
    skip: int,
) -> bool {
    forall|u: NodeId, w: NodeId|
        (u as int) < g.size() && label[u as int] == seed && !queue.contains(u) && u as int != skip
            && #[trigger] g.adjacent(u, w) && surely2(similar, seed as NodeId, w) ==> label[w as int] >= 0
}

proof fn lemma_claim_seed<F: Fn(NodeId, NodeId) -> bool>(
    g: SparseGraph,
    similar: &F,
    label: Seq<int>,
    order: Seq<int>,
    clock: int,
    bound: int,
    s: int,
)
    requires
        labels_ok(g, similar, label, order, clock, bound),
        g.wf(),
        0 <= s < g.size(),
        s <= bound,
        label[s] == -1,
    ensures
        labels_ok(g, similar, label.update(s, s), order.update(s, clock), clock + 1, bound),
{
    reveal(labels_ok);
    let l2 = label.update(s, s);
    let o2 = order.update(s, clock);
    assert forall|v: int| 0 <= v < g.size() && #[trigger] l2[v] >= 0 && l2[v] != v implies exists|u: NodeId|
        #![trigger g.adjacent(u, v as NodeId)]
        l2[u as int] == l2[v] && g.adjacent(u, v as NodeId) && 0 <= o2[u as int] < o2[v] by {
        assert(label[v] >= 0 && label[v] != v);
        let u = choose|u: NodeId|
            #![trigger g.adjacent(u, v as NodeId)]
            label[u as int] == label[v] && g.adjacent(u, v as NodeId) && 0 <= order[u as int] < order[v];
        g.lemma_adjacent(u, v as NodeId);
        assert(u as int != s);
        assert(l2[u as int] == l2[v] && g.adjacent(u, v as NodeId) && 0 <= o2[u as int] < o2[v]);
    }
}

proof fn lemma_push_expanded<F: Fn(NodeId, NodeId) -> bool>(
    g: SparseGraph,
    similar: &F,
    label: Seq<int>,
    seed: int,
    queue: Seq<NodeId>,
    nb: NodeId,
    node: int,
)
    requires
        expanded(g, similar, label, seed, queue, node),
        g.wf(),
        g.size() <= u32::MAX,
        seed < g.size(),
        label.len() == g.size(),
        (nb as int) < g.size(),
        label[nb as int] == -1,
        forall|i: int| 0 <= i < queue.len() ==> (#[trigger] queue[i] as int) < g.size() && label[queue[i] as int] == seed,
        queue.no_duplicates(),
        seed >= 0,
    ensures
        expanded(g, similar, label.update(nb as int, seed), seed, queue.push(nb), node),
        queue.push(nb).no_duplicates(),
        !queue.contains(nb),
{
    reveal(expanded);
    let l2 = label.update(nb as int, seed);
    let q2 = queue.push(nb);
    assert(!queue.contains(nb)) by {
        if queue.contains(nb) {
            let k = choose|k: int| 0 <= k < queue.len() && queue[k] == nb;
            assert(label[queue[k] as int] == seed);
        }
    }
    assert forall|i: int, k: int| 0 <= i < q2.len() && 0 <= k < q2.len() && i != k implies q2[i] != q2[k] by {
        if i < queue.len() && k < queue.len() {
            assert(q2[i] == queue[i] && q2[k] == queue[k]);
        } else if i < queue.len() {
            assert(q2[i] == queue[i]);
            assert(queue.contains(queue[i]));
        } else if k < queue.len() {
            assert(q2[k] == queue[k]);
            assert(queue.contains(queue[k]));
        }
    }
    assert forall|u: NodeId, w: NodeId|
        (u as int) < g.size() && l2[u as int] == seed && !q2.contains(u) && u as int != node
            && #[trigger] g.adjacent(u, w) && surely2(similar, seed as NodeId, w) implies l2[w as int] >= 0 by {
        assert(q2[q2.len() - 1] == nb);
        assert(u != nb);
        if queue.contains(u) {
            let k = choose|k: int| 0 <= k < queue.len() && queue[k] == u;
            assert(q2[k] == u);
        }
        g.lemma_adjacent(u, w);
        if w != nb {
            assert(label[w as int] >= 0);
        }
    }
}

proof fn lemma_pop_expanded<F: Fn(NodeId, NodeId) -> bool>(
    g: SparseGraph,
    similar: &F,
    label: Seq<int>,
    seed: int,
    queue: Seq<NodeId>,
)
    requires
        expanded(g, similar, label, seed, queue, -1),
        queue.len() > 0,
        queue.no_duplicates(),
    ensures
        expanded(g, similar, label, seed, queue.drop_last(), queue.last() as int),
        !queue.drop_last().contains(queue.last()),
        queue.drop_last().no_duplicates(),
{
    reveal(expanded);
    let q = queue.drop_last();
    let node = queue.last();
    assert(!q.contains(node)) by {
        if q.contains(node) {
            let k = choose|k: int| 0 <= k < q.len() && q[k] == node;
            assert(queue[k] == queue[queue.len() - 1]);
        }
    }
    assert forall|u: NodeId, w: NodeId|
        (u as int) < g.size() && label[u as int] == seed && !q.contains(u) && u as int != node as int
            && #[trigger] g.adjacent(u, w) && surely2(similar, seed as NodeId, w) implies label[w as int] >= 0 by {
        if queue.contains(u) {
            let k = choose|k: int| 0 <= k < queue.len() && queue[k] == u;
            if k < q.len() {
                assert(q[k] == u);
            }
        }
    }
}

proof fn lemma_claim_member<F: Fn(NodeId, NodeId) -> bool>(
    g: SparseGraph,
    similar: &F,
    label: Seq<int>,
    order: Seq<int>,
    clock: int,
    bound: int,
    s: int,
    x: int,
    u: NodeId,
)
    requires
        labels_ok(g, similar, label, order, clock, bound),
        g.wf(),
        0 <= x < g.size(),
        label[x] == -1,
        0 <= s <= bound,
        s <= x,
        label[s] == s,
        (u as int) < g.size(),
        label[u as int] == s,
        g.adjacent(u, x as NodeId),
        similar.ensures((s as NodeId, x as NodeId), true),
    ensures
        labels_ok(g, similar, label.update(x, s), order.update(x, clock), clock + 1, bound),
{
    reveal(labels_ok);
    let l2 = label.update(x, s);
    let o2 = order.update(x, clock);
    assert(order[u as int] >= 0);
    assert forall|v: int| 0 <= v < g.size() && #[trigger] l2[v] >= 0 && l2[v] != v implies exists|u2: NodeId|
        #![trigger g.adjacent(u2, v as NodeId)]
        l2[u2 as int] == l2[v] && g.adjacent(u2, v as NodeId) && 0 <= o2[u2 as int] < o2[v] by {
        if v == x {
            assert(l2[u as int] == l2[v] && g.adjacent(u, v as NodeId) && 0 <= o2[u as int] < o2[v]);
        } else {
            assert(label[v] >= 0 && label[v] != v);
            let u2 = choose|u2: NodeId|
                #![trigger g.adjacent(u2, v as NodeId)]
                label[u2 as int] == label[v] && g.adjacent(u2, v as NodeId) && 0 <= order[u2 as int] < order[v];
            assert(u2 as int != x);
        }
    }
    assert forall|v: int| 0 <= v < g.size() && #[trigger] l2[v] >= 0 && l2[v] != v implies similar.ensures(
        (l2[v] as NodeId, v as NodeId),
        true,
    ) by {
        if v != x {
            assert(label[v] >= 0 && label[v] != v);
        }
    }
}

proof fn lemma_closed_grows<F: Fn(NodeId, NodeId) -> bool>(
    g: SparseGraph,
    similar: &F,
    label: Seq<int>,
    label2: Seq<int>,
    s: int,
)
    requires
        closed_below(g, similar, label, s),
        label.len() == g.size(),
        label2.len() == g.size(),
        forall|v: int| 0 <= v < g.size() && #[trigger] label[v] >= 0 ==> label2[v] == label[v],
        forall|v: int| 0 <= v < g.size() && #[trigger] label[v] < 0 ==> label2[v] < 0 || label2[v] >= s,
        g.wf(),
    ensures
        closed_below(g, similar, label2, s),
{
    reveal(closed_below);
    assert forall|u: NodeId, w: NodeId|
        (u as int) < g.size() && 0 <= label2[u as int] < s && #[trigger] g.adjacent(u, w) && surely2(
            similar,
            label2[u as int] as NodeId,
            w,
        ) implies 0 <= label2[w as int] <= label2[u as int] by {
        g.lemma_adjacent(u, w);
        if label[u as int] >= 0 {
            assert(label[u as int] == label2[u as int]);
            assert(0 <= label[w as int] <= label[u as int]);
        }
    }
}

impl CompressionDetector {
    /// Grows the region of `seed`: claims it, then repeatedly takes the most
    /// recently claimed member and claims every unclaimed neighbour that
    /// `similar(seed, neighbour)` accepts. Returns the region's size.
    fn grow_region<F: Fn(NodeId, NodeId) -> bool>(
        graph: &SparseGraph,
        similar: &F,
        visited: &mut Vec<bool>,
        seed: usize,
        Ghost(label0): Ghost<Seq<int>>,
        Ghost(order0): Ghost<Seq<int>>,
        Ghost(clock0): Ghost<int>,
    ) -> (r: (usize, Ghost<Seq<int>>, Ghost<Seq<int>>, Ghost<int>))
        requires
            graph.wf(),
            graph.size() <= u32::MAX,
            forall|a: NodeId, b: NodeId| similar.requires((a, b)),
            old(visited)@.len() == graph.size(),
            0 <= seed < graph.size(),
            labels_ok(*graph, similar, label0, order0, clock0, seed - 1),
            closed_below(*graph, similar, label0, seed as int),
            label0[seed as int] == -1,
            label0.len() == graph.size(),
            forall|v: int| 0 <= v < seed ==> #[trigger] label0[v] >= 0,
            forall|v: int| 0 <= v < graph.size() ==> #[trigger] old(visited)@[v] == (label0[v] >= 0),
        ensures
            ({
                let (len, label, order, clock) = r;
                &&& labels_ok(*graph, similar, label@, order@, clock@, seed as int)
                &&& closed_below(*graph, similar, label@, seed + 1)
                &&& label@.len() == graph.size()
                &&& label@[seed as int] == seed
                &&& forall|v: int| 0 <= v < graph.size() && #[trigger] label0[v] >= 0 ==> label@[v] == label0[v]
                &&& forall|v: int| 0 <= v < graph.size() && #[trigger] label0[v] < 0 ==> label@[v] == -1 || label@[v] == seed
                &&& forall|v: int| 0 <= v < graph.size() ==> #[trigger] final(visited)@[v] == (label@[v] >= 0)
                &&& final(visited)@.len() == graph.size()
                &&& len == count_label(label@, seed as int)
            }),
    {
        let ghost n = graph.size();
        let s32 = seed as NodeId;
        visited.set(seed, true);
        let ghost mut label = label0.update(seed as int, seed as int);
        let ghost mut order = order0.update(seed as int, clock0);
        let ghost mut clock = clock0 + 1;
        proof {
            reveal(labels_ok);
            assert(labels_ok(*graph, similar, label0, order0, clock0, seed as int));
            lemma_claim_seed(*graph, similar, label0, order0, clock0, seed as int, seed as int);
            assert(labels_ok(*graph, similar, label, order, clock, seed as int));
            lemma_count_label_update(label0, seed as int, seed as int, seed as int);
            lemma_count_label_update(label0, seed as int, seed as int, -1);
            assert forall|v: int| 0 <= v < n implies #[trigger] label0[v] != seed as int by {
            }
            lemma_count_label_zero(label0, seed as int);
            lemma_closed_grows(*graph, similar, label0, label, seed as int);
        }
        let mut region_len: usize = 1;
        let mut queue: Vec<NodeId> = Vec::new();
        queue.push(s32);
        proof {
            reveal(expanded);
            reveal(labels_ok);
            assert forall|u: NodeId| (u as int) < n && label[u as int] == seed implies u as int == seed by {
                if u as int != seed {
                    assert(label0[u as int] == -1 || label0[u as int] < seed);
                }
            }
            assert(queue@[0] == s32);
        }
        while queue.len() > 0
            invariant
                graph.wf(),
                n == graph.size(),
                n <= u32::MAX,
                forall|a: NodeId, b: NodeId| similar.requires((a, b)),
                visited@.len() == n,
                0 <= seed < n,
                s32 as int == seed,
                label.len() == n,
                label[seed as int] == seed,
                labels_ok(*graph, similar, label, order, clock, seed as int),
                closed_below(*graph, similar, label, seed as int),
                forall|v: int| 0 <= v < n ==> #[trigger] visited@[v] == (label[v] >= 0),
                forall|v: int| 0 <= v < n && #[trigger] label0[v] >= 0 ==> label[v] == label0[v],
                forall|v: int| 0 <= v < n && #[trigger] label0[v] < 0 ==> label[v] == -1 || label[v] == seed,
                forall|v: int| 0 <= v < seed ==> #[trigger] label0[v] >= 0,
                label0.len() == n,
                forall|i: int| 0 <= i < queue@.len() ==> (#[trigger] queue@[i] as int) < n && label[queue@[i] as int] == seed,
                queue@.no_duplicates(),
                expanded(*graph, similar, label, seed as int, queue@, -1),
                region_len == count_label(label, seed as int),
            decreases 2 * count_label(label, -1) + queue@.len(),
        {
            let ghost m0 = 2 * count_label(label, -1) + queue@.len();
            let ghost q0 = queue@;
            let node = queue.pop().unwrap();
            proof {
                assert(q0[q0.len() - 1] == node);
                assert(queue@ =~= q0.drop_last());
                lemma_pop_expanded(*graph, similar, label, seed as int, q0);
                assert(label[q0[q0.len() - 1] as int] == seed);
            }
            let nbrs = graph.neighbors(node);
            let mut j: usize = 0;
            while j < nbrs.len()
                invariant
                    graph.wf(),
                    n == graph.size(),
                    n <= u32::MAX,
                    forall|a: NodeId, b: NodeId| similar.requires((a, b)),
                    visited@.len() == n,
                    0 <= seed < n,
                    s32 as int == seed,
                    label.len() == n,
                    label[seed as int] == seed,
                    (node as int) < n,
                    label[node as int] == seed,
                    !queue@.contains(node),
                    nbrs@ == graph.nbrs()[node as int],
                    0 <= j <= nbrs@.len(),
                    labels_ok(*graph, similar, label, order, clock, seed as int),
                    closed_below(*graph, similar, label, seed as int),
                    forall|v: int| 0 <= v < n ==> #[trigger] visited@[v] == (label[v] >= 0),
                    forall|v: int| 0 <= v < n && #[trigger] label0[v] >= 0 ==> label[v] == label0[v],
                    forall|v: int| 0 <= v < n && #[trigger] label0[v] < 0 ==> label[v] == -1 || label[v] == seed,
                    forall|v: int| 0 <= v < seed ==> #[trigger] label0[v] >= 0,
                    label0.len() == n,
                    forall|i: int| 0 <= i < queue@.len() ==> (#[trigger] queue@[i] as int) < n && label[queue@[i] as int] == seed,
                    queue@.no_duplicates(),
                    expanded(*graph, similar, label, seed as int, queue@, node as int),
                    forall|k: int| 0 <= k < j && surely2(similar, s32, #[trigger] nbrs@[k]) ==> label[nbrs@[k] as int] >= 0,
                    region_len == count_label(label, seed as int),
                    2 * count_label(label, -1) + queue@.len() + 1 <= m0,
                decreases nbrs@.len() - j,
            {
                let nb = nbrs[j];
                let ghost lb = label;
                proof {
                    assert(graph.nbrs()[node as int].contains(nb));
                    graph.lemma_adjacent(node, nb);
                }
                let seen = visited[nb as usize];
                let mut accepted = false;
                if !seen {
                    accepted = similar(s32, nb);
                    if accepted {
                        visited.set(nb as usize, true);
                        proof {
                            let l0 = label;
                            assert(l0[nb as int] == -1) by {
                                reveal(labels_ok);
                            }
                            assert(seed <= nb) by {
                                if (nb as int) < seed {
                                    assert(label0[nb as int] >= 0);
                                }
                            }
                            lemma_claim_member(*graph, similar, l0, order, clock, seed as int, seed as int, nb as int, node);
                            lemma_count_label_update(l0, nb as int, seed as int, seed as int);
                            lemma_count_label_update(l0, nb as int, seed as int, -1);
                            lemma_count_label_bound(l0.update(nb as int, seed as int), seed as int);
                            lemma_push_expanded(*graph, similar, l0, seed as int, queue@, nb, node as int);
                            label = l0.update(nb as int, seed as int);
                            order = order.update(nb as int, clock);
                            clock = clock + 1;
                            lemma_closed_grows(*graph, similar, l0, label, seed as int);
                        }
                        region_len += 1;
                        queue.push(nb);
                    }
                }
                proof {
                    assert forall|k: int| 0 <= k < j + 1 && surely2(similar, s32, #[trigger] nbrs@[k]) implies label[nbrs@[k] as int] >= 0 by {
                        if k < j {
                            assert(graph.nbrs()[node as int].contains(nbrs@[k]));
                            graph.lemma_adjacent(node, nbrs@[k]);
                            assert(lb[nbrs@[k] as int] >= 0);
                            if !seen && accepted {
                                assert(label == lb.update(nb as int, seed as int));
                                assert(label[nbrs@[k] as int] >= 0);
                            } else {
                                assert(label == lb);
                                assert(label[nbrs@[k] as int] >= 0);
                            }
                        } else {
                            assert(nbrs@[k] == nb);
                            if seen {
                                assert(visited@[nb as int]);
                                assert(lb[nb as int] >= 0);
                                assert(label == lb);
                                assert(label[nbrs@[k] as int] >= 0);
                            } else if !accepted {
                                assert(similar.ensures((s32, nb), false));
                                assert(!surely2(similar, s32, nb));
                            } else {
                                assert(label[nb as int] == seed);
                                assert(label[nbrs@[k] as int] >= 0);
                            }
                        }
                    }
                }
                j += 1;
            }
            proof {
                reveal(expanded);
                assert forall|u: NodeId, w: NodeId|
                    (u as int) < n && label[u as int] == seed && !queue@.contains(u) && u as int != -1
                        && #[trigger] graph.adjacent(u, w) && surely2(similar, seed as NodeId, w) implies label[w as int] >= 0 by {
                    if u == node {
                        assert(graph.nbrs()[node as int].contains(w));
                        let k = choose|k: int| 0 <= k < nbrs@.len() && nbrs@[k] == w;
                        assert(nbrs@[k] == w);
                    }
                }
            }
        }
        proof {
            reveal(expanded);
            reveal(closed_below);
            reveal(labels_ok);
            assert forall|u: NodeId, w: NodeId|
                (u as int) < n && 0 <= label[u as int] < seed + 1 && #[trigger] graph.adjacent(u, w) && surely2(
                    similar,
                    label[u as int] as NodeId,
                    w,
                ) implies 0 <= label[w as int] <= label[u as int] by {
                graph.lemma_adjacent(u, w);
                if label[u as int] == seed {
                    assert(!queue@.contains(u));
                    assert(label[w as int] >= 0);
                } else {
                    assert(0 <= label[w as int] <= label[u as int]);
                }
            }
        }
        (region_len, Ghost(label), Ghost(order), Ghost(clock))
    }
}

proof fn lemma_labels_raise<F: Fn(NodeId, NodeId) -> bool>(
    g: SparseGraph,
    similar: &F,
    label: Seq<int>,
    order: Seq<int>,
    clock: int,
    bound: int,
    bound2: int,
)
    requires
        labels_ok(g, similar, label, order, clock, bound),
        bound <= bound2,
    ensures
        labels_ok(g, similar, label, order, clock, bound2),
{
    reveal(labels_ok);
}

impl CompressionDetector {
    /// Splits the nodes into regions and counts the macro-regions.
    ///
    /// Nodes are taken in id order; each node not yet in a region seeds a new
    /// one, which grows depth-first along edges to every unclaimed node that
    /// `similar(seed, node)` accepts. Regions of at least `MIN_REGION_SIZE`
    /// nodes are macro-regions.
    pub fn update<F: Fn(NodeId, NodeId) -> bool>(&mut self, graph: &SparseGraph, similar: &F)
        requires
            graph.wf(),
            graph.size() <= u32::MAX,
            forall|a: NodeId, b: NodeId| similar.requires((a, b)),
        ensures
            exists|label: Seq<int>, order: Seq<int>|
                #[trigger] regions_ok(*graph, similar, label, order)
                    && final(self).macro_region_count == big_count(label, graph.size() as nat)
                    && final(self).largest_region_size == big_max(label, graph.size() as nat)
                    && final(self).macro_region_count == macro_seeds(label, graph.size() as nat).len()
                    && (forall|s: int| #[trigger] macro_seeds(label, graph.size() as nat).contains(s)
                        ==> count_label(label, s) <= final(self).largest_region_size)
                    && (final(self).largest_region_size == 0 <==> macro_seeds(label, graph.size() as nat) == Set::<int>::empty())
                    && (final(self).largest_region_size != 0 ==> exists|s: int|
                        #[trigger] macro_seeds(label, graph.size() as nat).contains(s)
                            && count_label(label, s) == final(self).largest_region_size),
    {
        let n = graph.node_count();
        let mut visited: Vec<bool> = Vec::new();
        let mut i: usize = 0;
        while i < n
            invariant
                0 <= i <= n,
                visited@ == Seq::new(i as nat, |k: int| false),
            decreases n - i,
        {
            visited.push(false);
            i += 1;
        }
        let ghost mut label: Seq<int> = Seq::new(n as nat, |k: int| -1int);
        let ghost mut order: Seq<int> = Seq::new(n as nat, |k: int| -1int);
        let ghost mut clock: int = 0;
        proof {
            reveal(labels_ok);
            reveal(closed_below);
        }
        let mut count: usize = 0;
        let mut largest: usize = 0;
        let mut start: usize = 0;
        while start < n
            invariant
                graph.wf(),
                n == graph.size(),
                n <= u32::MAX,
                forall|a: NodeId, b: NodeId| similar.requires((a, b)),
                visited@.len() == n,
                label.len() == n,
                0 <= start <= n,
                labels_ok(*graph, similar, label, order, clock, start - 1),
                closed_below(*graph, similar, label, start as int),
                forall|v: int| 0 <= v < n ==> #[trigger] visited@[v] == (label[v] >= 0),
                forall|v: int| 0 <= v < start ==> #[trigger] label[v] >= 0,
                count == big_count(label, start as nat),
                largest == big_max(label, start as nat),
                count <= start,
                largest <= n,
            decreases n - start,
        {
            let ghost lh = label;
            if !visited[start] {
                proof {
                    reveal(labels_ok);
                    assert(label[start as int] == -1);
                }
                let (len, Ghost(l2), Ghost(o2), Ghost(c2)) = Self::grow_region(
                    graph,
                    similar,
                    &mut visited,
                    start,
                    Ghost(label),
                    Ghost(order),
                    Ghost(clock),
                );
                proof {
                    label = l2;
                    order = o2;
                    clock = c2;
                    assert forall|t: int| 0 <= t < start implies #[trigger] label[t] == lh[t] by {
                        assert(lh[t] >= 0);
                    }
                    assert forall|t: int| 0 <= t < start implies #[trigger] count_label(label, t) == count_label(lh, t) by {
                        assert forall|v: int| 0 <= v < n implies (#[trigger] label[v] == t) == (lh[v] == t) by {
                            if lh[v] >= 0 {
                                assert(label[v] == lh[v]);
                            }
                        }
                        lemma_count_label_same(label, lh, t);
                    }
                    lemma_big_same(label, lh, start as nat);
                    lemma_count_label_bound(label, start as int);
                    assert forall|v: int| 0 <= v < start + 1 implies #[trigger] label[v] >= 0 by {
                        if v < start {
                            assert(lh[v] >= 0);
                        }
                    }
                }
                if len >= MIN_REGION_SIZE {
                    count += 1;
                    if len > largest {
                        largest = len;
                    }
                }
            } else {
                proof {
                    reveal(labels_ok);
                    assert(label[start as int] >= 0);
                    assert(label[start as int] != start);
                    lemma_labels_raise(*graph, similar, label, order, clock, start - 1, start as int);
                    reveal(closed_below);
                }
            }
            start += 1;
        }
        proof {
            reveal(labels_ok);
            reveal(closed_below);
            assert(regions_ok(*graph, similar, label, order)) by {
                assert forall|v: NodeId|
                    (v as int) < n implies 0 <= #[trigger] label[v as int] <= v && label[label[v as int]] == label[v as int] by {
                    assert(label[v as int] >= 0);
                }
                assert forall|v: NodeId|
                    (v as int) < n && #[trigger] label[v as int] != v implies exists|u: NodeId|
                        #![trigger graph.adjacent(u, v)]
                        label[u as int] == label[v as int] && graph.adjacent(u, v) && order[u as int] < order[v as int] by {
                    assert(label[v as int] >= 0);
                    let u = choose|u: NodeId|
                        #![trigger graph.adjacent(u, v as NodeId)]
                        label[u as int] == label[v as int] && graph.adjacent(u, v as NodeId) && 0 <= order[u as int] < order[v as int];
                }
                assert forall|v: NodeId|
                    (v as int) < n && #[trigger] label[v as int] != v implies similar.ensures((label[v as int] as NodeId, v), true) by {
                    assert(label[v as int] >= 0);
                }
                assert forall|u: NodeId, w: NodeId|
                    (u as int) < n && #[trigger] graph.adjacent(u, w) && surely2(similar, label[u as int] as NodeId, w)
                        implies label[w as int] <= label[u as int] by {
                    assert(label[u as int] >= 0);
                }
            }
        }
        proof {
            lemma_big_count_counts(label, n as nat);
            lemma_big_max_is_largest(label, n as nat);
        }
        self.macro_region_count = count;
        self.largest_region_size = largest;
    }
}

} // verus!
