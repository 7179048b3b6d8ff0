//! Counters of a fuzzing run.

use crate::fuzz_type::{FuzzType, FUZZ_TYPE_NUM};
use crate::status::StatusType;
use vstd::prelude::*;

verus! {

/// A count.
#[derive(Clone, Copy, Debug, PartialEq, Eq, Structural)]
pub struct Counter(pub usize);

impl Default for Counter {
    fn default() -> (r: Self)
        ensures
            r.0 == 0,
    {
        Counter(0)
    }
}

impl Counter {
    /// Counts one more.
    pub fn count(&mut self)
        requires
            old(self).0 < usize::MAX,
        ensures
            final(self).0 == old(self).0 + 1,
    {
        self.0 = self.0 + 1;
    }

    /// Counts `num` more.
    pub fn inc(&mut self, num: usize)
        requires
            old(self).0 + num <= usize::MAX,
        ensures
            final(self).0 == old(self).0 + num,
    {
        self.0 = self.0 + num;
    }
}

/// What one worker counted in its current stage.
#[derive(Clone, Copy, Debug)]
pub struct LocalStats {
    pub fuzz_type: FuzzType,
    pub num_exec: Counter,
    pub num_inputs: Counter,
    pub num_hangs: Counter,
    pub num_crashes: Counter,
    pub num_edges: Counter,
    pub num_branches: Counter,
}

impl LocalStats {
    /// Nothing was counted yet in stage `fuzz_type`.
    pub open spec fn fresh(fuzz_type: FuzzType) -> LocalStats {
        LocalStats {
            fuzz_type,
            num_exec: Counter(0),
            num_inputs: Counter(0),
            num_hangs: Counter(0),
            num_crashes: Counter(0),
            num_edges: Counter(0),
            num_branches: Counter(0),
        }
    }

    /// Begins a stage.
    pub fn register(&mut self, fuzz_type: FuzzType)
        ensures
            *final(self) == LocalStats::fresh(fuzz_type),
    {
        *self = LocalStats {
            fuzz_type,
            num_exec: Counter(0),
            num_inputs: Counter(0),
            num_hangs: Counter(0),
            num_crashes: Counter(0),
            num_edges: Counter(0),
            num_branches: Counter(0),
        };
    }

    /// What is counted when an input of a kind is found.
    pub open spec fn found(self, status: StatusType) -> LocalStats {
        match status {
            StatusType::Normal => LocalStats {
                num_inputs: Counter((self.num_inputs.0 + 1) as usize),
                ..self
            },
            StatusType::Timeout => LocalStats {
                num_hangs: Counter((self.num_hangs.0 + 1) as usize),
                ..self
            },
            StatusType::Crash => LocalStats {
                num_crashes: Counter((self.num_crashes.0 + 1) as usize),
                ..self
            },
            _ => self,
        }
    }

    /// No count is near the limit.
    pub open spec fn has_room(&self, n: int) -> bool {
        &&& self.num_exec.0 + n <= usize::MAX
        &&& self.num_inputs.0 + n <= usize::MAX
        &&& self.num_hangs.0 + n <= usize::MAX
        &&& self.num_crashes.0 + n <= usize::MAX
        &&& self.num_edges.0 + n <= usize::MAX
        &&& self.num_branches.0 + n <= usize::MAX
    }

    /// Counts an input that was found.
    pub fn find_new(&mut self, status: &StatusType)
        requires
            old(self).has_room(1),
        ensures
            *final(self) == old(self).found(*status),
    {
        match status {
            StatusType::Normal => self.num_inputs.count(),
            StatusType::Timeout => self.num_hangs.count(),
            StatusType::Crash => self.num_crashes.count(),
            _ => {},
        }
    }
}

impl Default for LocalStats {
    fn default() -> (r: Self)
        ensures
            r == LocalStats::fresh(FuzzType::Default),
    {
        LocalStats {
            fuzz_type: FuzzType::Default,
            num_exec: Counter(0),
            num_inputs: Counter(0),
            num_hangs: Counter(0),
            num_crashes: Counter(0),
            num_edges: Counter(0),
            num_branches: Counter(0),
        }
    }
}

/// What was counted in one stage over all rounds.
#[derive(Clone, Copy, Debug, PartialEq, Eq, Structural)]
pub struct StrategyStats {
    pub num_exec: Counter,
    pub num_inputs: Counter,
    pub num_hangs: Counter,
    pub num_crashes: Counter,
    pub num_edges: Counter,
    pub num_branches: Counter,
}

impl StrategyStats {
    pub open spec fn spec_default() -> StrategyStats {
        StrategyStats {
            num_exec: Counter(0),
            num_inputs: Counter(0),
            num_hangs: Counter(0),
            num_crashes: Counter(0),
            num_edges: Counter(0),
            num_branches: Counter(0),
        }
    }

    /// The counts with those of a worker's stage added.
    pub open spec fn plus(self, local: LocalStats) -> StrategyStats {
        StrategyStats {
            num_exec: Counter((self.num_exec.0 + local.num_exec.0) as usize),
            num_inputs: Counter((self.num_inputs.0 + local.num_inputs.0) as usize),
            num_hangs: Counter((self.num_hangs.0 + local.num_hangs.0) as usize),
            num_crashes: Counter((self.num_crashes.0 + local.num_crashes.0) as usize),
            num_edges: Counter((self.num_edges.0 + local.num_edges.0) as usize),
            num_branches: Counter((self.num_branches.0 + local.num_branches.0) as usize),
        }
    }

    /// The sums stay below the limit.
    pub open spec fn has_room_for(self, local: LocalStats) -> bool {
        &&& self.num_exec.0 + local.num_exec.0 <= usize::MAX
        &&& self.num_inputs.0 + local.num_inputs.0 <= usize::MAX
        &&& self.num_hangs.0 + local.num_hangs.0 <= usize::MAX
        &&& self.num_crashes.0 + local.num_crashes.0 <= usize::MAX
        &&& self.num_edges.0 + local.num_edges.0 <= usize::MAX
        &&& self.num_branches.0 + local.num_branches.0 <= usize::MAX
    }

    /// Adds the counts of a worker's stage.
    pub fn add_local(&mut self, local: &LocalStats)
        requires
            old(self).has_room_for(*local),
        ensures
            *final(self) == old(self).plus(*local),
    {
        self.num_exec.inc(local.num_exec.0);
        self.num_inputs.inc(local.num_inputs.0);
        self.num_hangs.inc(local.num_hangs.0);
        self.num_crashes.inc(local.num_crashes.0);
        self.num_edges.inc(local.num_edges.0);
        self.num_branches.inc(local.num_branches.0);
    }
}

impl Default for StrategyStats {
    fn default() -> (r: Self)
        ensures
            r == StrategyStats::spec_default(),
    {
        StrategyStats {
            num_exec: Counter(0),
            num_inputs: Counter(0),
            num_hangs: Counter(0),
            num_crashes: Counter(0),
            num_edges: Counter(0),
            num_branches: Counter(0),
        }
    }
}

/// The counts of every stage.
#[derive(Clone, Copy, Debug)]
pub struct FuzzStats(pub [StrategyStats; FUZZ_TYPE_NUM]);

impl FuzzStats {
    /// The counts of the stage with index `i`.
    pub fn get_mut(&mut self, i: usize) -> (r: &mut StrategyStats)
        requires
            i < FUZZ_TYPE_NUM,
        ensures
            *r == old(self).0@[i as int],
            final(self).0@ == old(self).0@.update(i as int, *final(r)),
    {
        &mut self.0[i]
    }
}

impl Default for FuzzStats {
    fn default() -> (r: Self)
        ensures
            forall|i: int| 0 <= i < FUZZ_TYPE_NUM ==> r.0@[i] == StrategyStats::spec_default(),
    {
        FuzzStats([StrategyStats::default(); FUZZ_TYPE_NUM])
    }
}


/// An input is counted once, under its kind alone, and the sums of a stage are
/// those of its rounds.
pub proof fn counts_add_up(sum: StrategyStats, local: LocalStats, status: StatusType)
    requires
        local.has_room(1),
        sum.has_room_for(local),
    ensures
        ({
            let one = |k: StatusType|
                if status == k {
                    1int
                } else {
                    0
                };
            let after = local.found(status);
            &&& after.num_inputs.0 == local.num_inputs.0 + one(StatusType::Normal)
            &&& after.num_hangs.0 == local.num_hangs.0 + one(StatusType::Timeout)
            &&& after.num_crashes.0 == local.num_crashes.0 + one(StatusType::Crash)
            &&& after.num_exec == local.num_exec
            &&& after.num_edges == local.num_edges
            &&& after.num_branches == local.num_branches
            &&& after.fuzz_type == local.fuzz_type
        }),
        ({
            let after = sum.plus(local);
            &&& after.num_exec.0 - local.num_exec.0 == sum.num_exec.0
            &&& after.num_inputs.0 - local.num_inputs.0 == sum.num_inputs.0
            &&& after.num_hangs.0 - local.num_hangs.0 == sum.num_hangs.0
            &&& after.num_crashes.0 - local.num_crashes.0 == sum.num_crashes.0
            &&& after.num_edges.0 - local.num_edges.0 == sum.num_edges.0
            &&& after.num_branches.0 - local.num_branches.0 == sum.num_branches.0
        }),
{
}


/// A stage begins with all counts at zero.
pub proof fn stages_begin_at_zero(stage: FuzzType)
    ensures
        ({
            let s = LocalStats::fresh(stage);
            &&& s.fuzz_type == stage
            &&& s.num_exec.0 == 0 && s.num_inputs.0 == 0 && s.num_hangs.0 == 0
            &&& s.num_crashes.0 == 0 && s.num_edges.0 == 0 && s.num_branches.0 == 0
            &&& StrategyStats::spec_default().plus(s) == StrategyStats::spec_default()
            &&& StrategyStats::spec_default().num_exec.0 == 0
            &&& StrategyStats::spec_default().num_inputs.0 == 0
            &&& StrategyStats::spec_default().num_hangs.0 == 0
            &&& StrategyStats::spec_default().num_crashes.0 == 0
            &&& StrategyStats::spec_default().num_edges.0 == 0
            &&& StrategyStats::spec_default().num_branches.0 == 0
        }),
{
}

} // verus!
