//! One worker's trials and the shared best hit count.
use vstd::prelude::*;
use std::sync::atomic::{AtomicU32, Ordering};
use rand::rngs::SmallRng;
use crate::evaluator::TRIAL_SAMPLES;
use crate::sampling::packed_trial;

verus! {

/// The value of a running-maximum register holding `prev` after `hits` is
/// proposed to it.
pub open spec fn raised_best(prev: u32, hits: u32) -> u32 {
    if hits > prev {
        hits
    } else {
        prev
    }
}

/// The register's value after each of `proposals` is proposed in turn,
/// starting from `init`.
pub open spec fn best_after(init: u32, proposals: Seq<u32>) -> u32
    decreases proposals.len(),
{
    if proposals.len() == 0 {
        init
    } else {
        raised_best(best_after(init, proposals.drop_last()), proposals.last())
    }
}

/// Whatever order the proposals of all workers come in, the best never
/// decreases: the value after the first `i` proposals is at most the value
/// after the first `j`, for `i <= j`, and it is at least every proposal made.
pub proof fn lemma_best_never_decreases(init: u32, proposals: Seq<u32>, i: int, j: int)
    requires
        0 <= i <= j <= proposals.len(),
    ensures
        best_after(init, proposals.take(i)) <= best_after(init, proposals.take(j)),
        forall|k: int| 0 <= k < j ==> proposals[k] <= best_after(init, proposals.take(j)),
        init <= best_after(init, proposals.take(j)),
    decreases j,
{
    if j > 0 {
        assert(proposals.take(j).drop_last() =~= proposals.take(j - 1));
        if i < j {
            lemma_best_never_decreases(init, proposals, i, j - 1);
        } else {
            lemma_best_never_decreases(init, proposals, j - 1, j - 1);
        }
    }
}

/// A worker's report that it holds the best hit count: its index, the
/// ordinal of the trial within its share, and the best value.
#[derive(PartialEq, Eq, Structural, Clone, Copy, Debug)]
pub struct BestUpdate {
    pub worker: usize,
    pub trial: usize,
    pub best: u32,
}

/// The report owed after trial `trial` of `worker` proposed `hits` to a
/// register that held `prev`: one exactly when `hits` is the register's value
/// afterwards.
pub open spec fn update_for(worker: usize, trial: usize, hits: u32, prev: u32) -> Option<BestUpdate> {
    if raised_best(prev, hits) == hits {
        Some(BestUpdate { worker, trial, best: hits })
    } else {
        None
    }
}

/// Decides whether the worker reports a new best after its proposal of
/// `hits` found `prev` in the shared register.
pub fn best_update(worker: usize, trial: usize, hits: u32, prev: u32) -> (r: Option<BestUpdate>)
    ensures
        r == update_for(worker, trial, hits, prev),
{
    let now = if hits > prev {
        hits
    } else {
        prev
    };
    if now == hits {
        Some(BestUpdate { worker, trial, best: hits })
    } else {
        None
    }
}

/// One worker: its index, the number of trials assigned to it, how many it
/// has run, and its own random generator.
pub struct Worker {
    pub index: usize,
    pub assigned: usize,
    pub completed: usize,
    pub rng: SmallRng,
}

impl Worker {
    /// A worker that has run none of its `assigned` trials yet.
    pub fn new(index: usize, assigned: usize, rng: SmallRng) -> (w: Worker)
        ensures
            w.index == index,
            w.assigned == assigned,
            w.completed == 0,
    {
        Worker { index, assigned, completed: 0, rng }
    }

    /// Whether every assigned trial has run.
    pub fn is_done(&self) -> (r: bool)
        ensures
            r == (self.completed >= self.assigned),
    {
        self.completed >= self.assigned
    }

    /// Runs the next trial, proposes its hit count to `best` by an atomic
    /// maximum, and returns the report owed for the value found there.
    pub fn run_trial(&mut self, best: &AtomicU32) -> (r: Option<BestUpdate>)
        requires
            old(self).completed < old(self).assigned,
        ensures
            final(self).index == old(self).index,
            final(self).assigned == old(self).assigned,
            final(self).completed == old(self).completed + 1,
            exists|hits: u32, prev: u32|
                hits <= TRIAL_SAMPLES && r == #[trigger] update_for(
                    old(self).index,
                    old(self).completed,
                    hits,
                    prev,
                ),
    {
        let trial = self.completed;
        let hits = packed_trial(&mut self.rng);
        let prev = best.fetch_max(hits, Ordering::SeqCst);
        self.completed = trial + 1;
        best_update(self.index, trial, hits, prev)
    }
}

} // verus!
