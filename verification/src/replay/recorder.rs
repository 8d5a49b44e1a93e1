use vstd::prelude::*;

verus! {

/// The node states and the optional report of one recorded tick.
pub struct StateSnapshot<S, R> {
    pub tick: u64,
    pub states: Vec<S>,
    pub report: Option<R>,
}

/// A rolling window of the last `max_snapshots` snapshots, oldest first.
pub struct Recorder<S, R> {
    pub snapshots: Vec<StateSnapshot<S, R>>,
    pub max_snapshots: usize,
}

impl<S: Copy, R> Recorder<S, R> {
    pub fn new(max_snapshots: usize) -> (r: Self)
        ensures
            r.snapshots@.len() == 0,
            r.max_snapshots == max_snapshots,
    {
        Recorder { snapshots: Vec::new(), max_snapshots }
    }

    /// Appends a snapshot of `states` at `tick`; when the window is full the
    /// oldest snapshot is dropped first.
    pub fn record(&mut self, tick: u64, states: &[S], report: Option<R>)
        requires
            old(self).snapshots@.len() > 0 || old(self).max_snapshots > 0,
        ensures
            ({
                let before = old(self).snapshots@;
                let kept = if before.len() >= old(self).max_snapshots { before.drop_first() } else { before };
                let after = final(self).snapshots@;
                &&& final(self).max_snapshots == old(self).max_snapshots
                &&& after.len() == kept.len() + 1
                &&& forall|i: int| 0 <= i < kept.len() ==> #[trigger] after[i] == kept[i]
                &&& after.last().tick == tick
                &&& after.last().states@ == states@
                &&& after.last().report == report
            }),
            old(self).snapshots@.len() <= old(self).max_snapshots ==> final(self).snapshots@.len() <= final(self).max_snapshots,
    {
        if self.snapshots.len() >= self.max_snapshots {
            self.snapshots.remove(0);
        }
        self.snapshots.push(StateSnapshot { tick, states: vstd::slice::slice_to_vec(states), report });
    }

    /// The oldest snapshot taken at `tick`, if any.
    pub fn get(&self, tick: u64) -> (r: Option<&StateSnapshot<S, R>>)
        ensures
            match r {
                Some(s) => exists|i: int|
                    0 <= i < self.snapshots@.len() && self.snapshots@[i] == *s && s.tick == tick
                        && forall|j: int| 0 <= j < i ==> #[trigger] self.snapshots@[j].tick != tick,
                None => forall|i: int| 0 <= i < self.snapshots@.len() ==> #[trigger] self.snapshots@[i].tick != tick,
            },
    {
        let mut i: usize = 0;
        while i < self.snapshots.len()
            invariant
                0 <= i <= self.snapshots@.len(),
                forall|j: int| 0 <= j < i ==> #[trigger] self.snapshots@[j].tick != tick,
            decreases self.snapshots@.len() - i,
        {
            if self.snapshots[i].tick == tick {
                return Some(&self.snapshots[i]);
            }
            i += 1;
        }
        None
    }

    /// The newest snapshot, if any.
    pub fn latest(&self) -> (r: Option<&StateSnapshot<S, R>>)
        ensures
            match r {
                Some(s) => self.snapshots@.len() > 0 && *s == self.snapshots@.last(),
                None => self.snapshots@.len() == 0,
            },
    {
        let n = self.snapshots.len();
        if n == 0 {
            None
        } else {
            Some(&self.snapshots[n - 1])
        }
    }
}

} // verus!
