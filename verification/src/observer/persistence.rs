use vstd::prelude::*;
use crate::topology::graph::NodeId;

verus! {

/// The largest entry of `s` (0 for an empty sequence).
pub open spec fn seq_max(s: Seq<u32>) -> u32
    decreases s.len(),
{
    if s.len() == 0 {
        0
    } else {
        let m = seq_max(s.drop_last());
        if s.last() > m {
            s.last()
        } else {
            m
        }
    }
}

/// The sum of the entries of `s`.
pub open spec fn seq_sum(s: Seq<u32>) -> int
    decreases s.len(),
{
    if s.len() == 0 {
        0
    } else {
        seq_sum(s.drop_last()) + s.last()
    }
}

/// `seq_max` bounds every entry and is one of them (or 0).
pub proof fn lemma_seq_max(s: Seq<u32>)
    ensures
        forall|i: int| 0 <= i < s.len() ==> #[trigger] s[i] <= seq_max(s),
        s.len() == 0 ==> seq_max(s) == 0,
        s.len() > 0 ==> s.contains(seq_max(s)),
    decreases s.len(),
{
    if s.len() > 0 {
        lemma_seq_max(s.drop_last());
        assert forall|i: int| 0 <= i < s.len() implies #[trigger] s[i] <= seq_max(s) by {
            if i < s.len() - 1 {
                assert(s[i] == s.drop_last()[i]);
            }
        }
        if s.last() <= seq_max(s.drop_last()) && s.drop_last().len() > 0 {
            let j = choose|j: int| 0 <= j < s.drop_last().len() && s.drop_last()[j] == seq_max(s.drop_last());
            assert(s[j] == seq_max(s));
        }
        if s.drop_last().len() == 0 {
            assert(s[s.len() - 1] == seq_max(s));
        }
    }
}

/// The sum of `n` entries none above `m` is at most `n * m`.
pub proof fn lemma_seq_sum_bound(s: Seq<u32>, m: u32)
    requires
        forall|i: int| 0 <= i < s.len() ==> #[trigger] s[i] <= m,
    ensures
        0 <= seq_sum(s) <= s.len() * m,
    decreases s.len(),
{
    if s.len() > 0 {
        lemma_seq_sum_bound(s.drop_last(), m);
        assert(s.drop_last().len() * m + m == s.len() * m) by (nonlinear_arith)
            requires s.drop_last().len() + 1 == s.len();
    }
}

/// After an update the reported maximum bounds every updated node's
/// stability and is one of them (0 when none was updated), and the reported
/// total is at most the count times the maximum: the average never exceeds
/// the maximum.
pub proof fn lemma_max_and_total(s: Seq<u32>)
    ensures
        forall|i: int| 0 <= i < s.len() ==> #[trigger] s[i] <= seq_max(s),
        s.len() > 0 ==> s.contains(seq_max(s)),
        s.len() == 0 ==> seq_max(s) == 0,
        0 <= seq_sum(s) <= s.len() * seq_max(s),
{
    lemma_seq_max(s);
    lemma_seq_sum_bound(s, seq_max(s));
}

/// One node's stability after a tick: one more when its sign is nonzero and
/// unchanged, otherwise reset.
pub open spec fn next_stability(prev_sign: i8, sign: i8, stability: u32) -> u32 {
    if sign == prev_sign && sign != 0 {
        if stability == u32::MAX {
            u32::MAX
        } else {
            (stability + 1) as u32
        }
    } else {
        0
    }
}

/// Tracks how long each node's φ sign has held.
pub struct PersistenceTracker {
    prev_phi_sign: Vec<i8>,
    stability: Vec<u32>,
    max_stability: u32,
    total_stability: u64,
}

impl PersistenceTracker {
    /// The sign each node had at the last update.
    pub closed spec fn signs(&self) -> Seq<i8> {
        self.prev_phi_sign@
    }

    /// Ticks since each node's sign last changed.
    pub closed spec fn stabilities(&self) -> Seq<u32> {
        self.stability@
    }

    /// The largest stability seen at the last update.
    pub closed spec fn spec_max(&self) -> u32 {
        self.max_stability
    }

    /// The summed stability at the last update.
    pub closed spec fn spec_total(&self) -> u64 {
        self.total_stability
    }

    pub open spec fn wf(&self) -> bool {
        self.signs().len() == self.stabilities().len()
    }

    /// `after` is `before` updated with `signs` (no longer than the node
    /// count): the first `signs.len()` nodes take the new sign and their next stability, the others keep
    /// theirs, and the maximum and total are taken over the updated nodes.
    pub open spec fn stepped(before: Self, after: Self, signs: Seq<i8>) -> bool {
        &&& signs.len() <= before.signs().len()
        &&& after.wf()
        &&& after.signs().len() == before.signs().len()
        &&& forall|i: int| 0 <= i < before.signs().len() ==> #[trigger] after.signs()[i]
            == if i < signs.len() { signs[i] } else { before.signs()[i] }
        &&& forall|i: int| 0 <= i < before.signs().len() ==> #[trigger] after.stabilities()[i]
            == if i < signs.len() {
                next_stability(before.signs()[i], signs[i], before.stabilities()[i])
            } else {
                before.stabilities()[i]
            }
        &&& after.spec_max() == seq_max(after.stabilities().take(signs.len() as int))
        &&& after.spec_total() == seq_sum(after.stabilities().take(signs.len() as int))
    }

    pub fn new(node_count: usize) -> (t: Self)
        ensures
            t.wf(),
            t.signs() == Seq::new(node_count as nat, |i: int| 0i8),
            t.stabilities() == Seq::new(node_count as nat, |i: int| 0u32),
            t.spec_max() == 0,
            t.spec_total() == 0,
    {
        let mut prev_phi_sign: Vec<i8> = Vec::new();
        let mut stability: Vec<u32> = Vec::new();
        let mut i: usize = 0;
        while i < node_count
            invariant
                0 <= i <= node_count,
                prev_phi_sign@ == Seq::new(i as nat, |j: int| 0i8),
                stability@ == Seq::new(i as nat, |j: int| 0u32),
            decreases node_count - i,
        {
            prev_phi_sign.push(0);
            stability.push(0);
            i += 1;
        }
        PersistenceTracker { prev_phi_sign, stability, max_stability: 0, total_stability: 0 }
    }

    /// Records this tick's signs, one per node from node 0 on.
    pub fn update(&mut self, signs: &[i8])
        requires
            old(self).wf(),
            signs@.len() <= old(self).signs().len(),
            signs@.len() <= u32::MAX,
        ensures
            Self::stepped(*old(self), *final(self), signs@),
    {
        let n = signs.len();
        let mut total: u64 = 0;
        let mut max: u32 = 0;
        let mut i: usize = 0;
        while i < n
            invariant
                0 <= i <= n,
                n == signs@.len(),
                n <= u32::MAX,
                self.prev_phi_sign@.len() == old(self).signs().len(),
                self.stability@.len() == old(self).signs().len(),
                n <= self.prev_phi_sign@.len(),
                forall|j: int| 0 <= j < old(self).signs().len() ==> #[trigger] self.prev_phi_sign@[j]
                    == if j < i { signs@[j] } else { old(self).signs()[j] },
                forall|j: int| 0 <= j < old(self).signs().len() ==> #[trigger] self.stability@[j]
                    == if j < i {
                        next_stability(old(self).signs()[j], signs@[j], old(self).stabilities()[j])
                    } else {
                        old(self).stabilities()[j]
                    },
                max == seq_max(self.stability@.take(i as int)),
                total == seq_sum(self.stability@.take(i as int)),
                total <= i * (u32::MAX as int),
            decreases n - i,
        {
            let sign = signs[i];
            let ghost before = self.stability@;
            if sign == self.prev_phi_sign[i] && sign != 0 {
                let s = self.stability[i].saturating_add(1);
                self.stability.set(i, s);
            } else {
                self.stability.set(i, 0);
            }
            self.prev_phi_sign.set(i, sign);
            let st = self.stability[i];
            proof {
                assert(self.stability@.take(i as int) =~= before.take(i as int));
                assert(self.stability@.take(i + 1).drop_last() =~= self.stability@.take(i as int));
                assert(total + st <= (i + 1) * (u32::MAX as int)) by (nonlinear_arith)
                    requires total <= i * (u32::MAX as int), st <= u32::MAX;
            }
            total += st as u64;
            if st > max {
                max = st;
            }
            i += 1;
        }
        self.max_stability = max;
        self.total_stability = total;
    }

    /// The largest stability at the last update.
    pub fn max_stability(&self) -> (m: u32)
        ensures
            m == self.spec_max(),
    {
        self.max_stability
    }

    /// The summed stability at the last update (the average is this over the
    /// node count).
    pub fn total_stability(&self) -> (t: u64)
        ensures
            t == self.spec_total(),
    {
        self.total_stability
    }

    /// The number of nodes tracked.
    pub fn node_count(&self) -> (n: usize)
        ensures
            n == self.signs().len(),
    {
        self.prev_phi_sign.len()
    }

    /// The stability of `node`.
    pub fn stability_at(&self, node: NodeId) -> (s: u32)
        requires
            (node as int) < self.stabilities().len(),
        ensures
            s == self.stabilities()[node as int],
    {
        self.stability[node as usize]
    }
}

/// The number of ticks a sign has held after `k` updates that all gave it,
/// counting from the update that first set it; it stops at `u32::MAX`.
pub open spec fn held_for(k: int) -> int {
    if k - 1 >= u32::MAX { u32::MAX as int } else { k - 1 }
}

/// Along the run of trackers `ts`, each `ts[j + 1]` being `ts[j]` updated
/// with `hist[j]`, a node whose sign in all of the first `m` updates is
/// `sigma` and differed from it before has `sigma` as its sign and
/// `held_for(m)` as its stability.
proof fn lemma_run_prefix(ts: Seq<PersistenceTracker>, hist: Seq<Seq<i8>>, i: int, sigma: i8, m: int)
    requires
        ts.len() == hist.len() + 1,
        forall|j: int| #![trigger hist[j]] 0 <= j < hist.len() ==> PersistenceTracker::stepped(ts[j], ts[j + 1], hist[j]),
        0 <= i < ts[0].signs().len(),
        ts[0].signs()[i] != sigma,
        sigma != 0,
        forall|j: int| #![trigger hist[j]] 0 <= j < hist.len() ==> i < hist[j].len() && hist[j][i] == sigma,
        1 <= m <= hist.len(),
    ensures
        ts[m].signs().len() == ts[0].signs().len(),
        ts[m].signs()[i] == sigma,
        ts[m].stabilities()[i] == held_for(m),
    decreases m,
{
    assert(PersistenceTracker::stepped(ts[m - 1], ts[m], hist[m - 1]));
    assert(i < hist[m - 1].len() && hist[m - 1][i] == sigma);
    if m > 1 {
        lemma_run_prefix(ts, hist, i, sigma, m - 1);
    }
}

/// A node's stability counts the updates for which it kept its sign: after
/// `k >= 1` successive updates that all give node `i` the same nonzero sign
/// `sigma` (which it did not have before them, as on a new tracker), its
/// stability is `k - 1` (held at `u32::MAX` once it gets there), and the
/// reported maximum is at least that. `ts[j + 1]` is `ts[j]` after the
/// update with `hist[j]`.
pub proof fn lemma_stability_counts_held_sign(ts: Seq<PersistenceTracker>, hist: Seq<Seq<i8>>, i: int, sigma: i8)
    requires
        ts.len() == hist.len() + 1,
        hist.len() >= 1,
        forall|j: int| #![trigger hist[j]] 0 <= j < hist.len() ==> PersistenceTracker::stepped(ts[j], ts[j + 1], hist[j]),
        0 <= i < ts[0].signs().len(),
        ts[0].signs()[i] != sigma,
        sigma != 0,
        forall|j: int| #![trigger hist[j]] 0 <= j < hist.len() ==> i < hist[j].len() && hist[j][i] == sigma,
    ensures
        ts.last().stabilities()[i] == held_for(hist.len() as int),
        ts.last().spec_max() >= held_for(hist.len() as int),
{
    let k = hist.len() as int;
    lemma_run_prefix(ts, hist, i, sigma, k);
    assert(PersistenceTracker::stepped(ts[k - 1], ts[k], hist[k - 1]));
    assert(i < hist[k - 1].len());
    assert(ts[k].stabilities().len() == ts[0].signs().len());
    let taken = ts[k].stabilities().take(hist[k - 1].len() as int);
    lemma_seq_max(taken);
    assert(taken[i] == ts[k].stabilities()[i]);
}

/// One update in which a node's sign is zero, or differs from the sign it
/// had, sets that node's stability back to 0.
pub proof fn lemma_stability_resets(before: PersistenceTracker, after: PersistenceTracker, signs: Seq<i8>, i: int)
    requires
        PersistenceTracker::stepped(before, after, signs),
        0 <= i < signs.len(),
        i < before.signs().len(),
        signs[i] == 0 || signs[i] != before.signs()[i],
    ensures
        after.stabilities()[i] == 0,
{
}

} // verus!
