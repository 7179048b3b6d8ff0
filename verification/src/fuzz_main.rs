//! The decisions between the start of the fuzzer and that of its workers.

use crate::binary64::{limits_are_a_fifth_longer, timeout_ms, timeout_of};
use crate::branches::MapSizeData;
use crate::command::CommandOpt;
use vstd::prelude::*;

verus! {

/// What an output directory holds already.
#[derive(Clone, Copy, Debug, PartialEq, Eq, Structural)]
pub struct OutputFacts {
    pub crashes_dir: bool,
    pub hangs_dir: bool,
    pub queue_dir: bool,
    pub chart_stat_file: bool,
    pub plot_data_file: bool,
}

/// What is left of an earlier run.
#[derive(Clone, Copy, Debug, PartialEq, Eq, Structural)]
pub enum Leftover {
    CrashesDir,
    HangsDir,
    QueueDir,
    ChartStatFile,
    PlotDataFile,
}

/// The first thing that is left of an earlier run.
pub open spec fn leftover(facts: OutputFacts) -> Option<Leftover> {
    if facts.crashes_dir {
        Some(Leftover::CrashesDir)
    } else if facts.hangs_dir {
        Some(Leftover::HangsDir)
    } else if facts.queue_dir {
        Some(Leftover::QueueDir)
    } else if facts.chart_stat_file {
        Some(Leftover::ChartStatFile)
    } else if facts.plot_data_file {
        Some(Leftover::PlotDataFile)
    } else {
        None
    }
}

/// Refuses an output directory in which something is left of an earlier run.
pub fn check_output(facts: OutputFacts) -> (r: Result<(), Leftover>)
    ensures
        match r {
            Ok(_) => leftover(facts) is None,
            Err(e) => leftover(facts) == Some(e),
        },
{
    if facts.crashes_dir {
        Err(Leftover::CrashesDir)
    } else if facts.hangs_dir {
        Err(Leftover::HangsDir)
    } else if facts.queue_dir {
        Err(Leftover::QueueDir)
    } else if facts.chart_stat_file {
        Err(Leftover::ChartStatFile)
    } else if facts.plot_data_file {
        Err(Leftover::PlotDataFile)
    } else {
        Ok(())
    }
}

/// Why the three targets do not belong together.
#[derive(Clone, Copy, Debug, PartialEq, Eq, Structural)]
pub enum TargetError {
    /// They take their inputs in different ways.
    InputMode,
    /// The fast and the full target differ in their branches.
    BranchMaps,
    /// The fast and the trace target differ in their edges.
    EdgeMaps,
}

/// What a target reported of itself.
#[derive(Clone, Copy, Debug)]
pub struct TargetFacts {
    pub map_size_data: MapSizeData,
    pub use_shmem_fuzz: bool,
}

/// Why the three targets do not belong together.
pub open spec fn target_error(
    fast: TargetFacts,
    full: TargetFacts,
    trace: TargetFacts,
) -> Option<TargetError> {
    if fast.use_shmem_fuzz != full.use_shmem_fuzz || fast.use_shmem_fuzz != trace.use_shmem_fuzz {
        Some(TargetError::InputMode)
    } else if fast.map_size_data.real_branch_map_size != full.map_size_data.real_branch_map_size {
        Some(TargetError::BranchMaps)
    } else if fast.map_size_data.real_map_size != trace.map_size_data.real_map_size {
        Some(TargetError::EdgeMaps)
    } else {
        None
    }
}

/// Checks that the three targets belong together.
pub fn check_targets(fast: &TargetFacts, full: &TargetFacts, trace: &TargetFacts) -> (r: Result<
    (),
    TargetError,
>)
    ensures
        match r {
            Ok(_) => target_error(*fast, *full, *trace) is None,
            Err(e) => target_error(*fast, *full, *trace) == Some(e),
        },
{
    if fast.use_shmem_fuzz != full.use_shmem_fuzz || fast.use_shmem_fuzz != trace.use_shmem_fuzz {
        return Err(TargetError::InputMode);
    }
    if fast.map_size_data.real_branch_map_size != full.map_size_data.real_branch_map_size {
        return Err(TargetError::BranchMaps);
    }
    if fast.map_size_data.real_map_size != trace.map_size_data.real_map_size {
        return Err(TargetError::EdgeMaps);
    }
    Ok(())
}

/// Takes over that inputs are handed over in shared memory, if they are.
pub fn set_input_mode(cmd: &mut CommandOpt, use_shmem_fuzz: bool)
    ensures
        *final(cmd) == if use_shmem_fuzz {
            CommandOpt { use_shmem_fuzz: true, is_stdin: false, ..*old(cmd) }
        } else {
            *old(cmd)
        },
{
    if use_shmem_fuzz {
        cmd.use_shmem_fuzz = true;
        cmd.is_stdin = false;
    }
}

/// The time limit for runs in milliseconds, by the slowest seed in
/// microseconds: a fifth more than that, but no less than five milliseconds
/// and no more than the user's limit.
pub open spec fn auto_limit(max_exec_us: nat, time_limit: nat) -> nat {
    let t = timeout_ms(max_exec_us);
    if t < 5 {
        5
    } else if t > time_limit {
        time_limit
    } else {
        t
    }
}

/// The time limit for runs, see [`auto_limit`].
pub fn auto_timeout(max_exec_us: usize, time_limit: u64) -> (r: u64)
    requires
        time_limit >= 5,
    ensures
        r == auto_limit(max_exec_us as nat, time_limit as nat),
        5 <= r <= time_limit,
{
    let t: u64 = timeout_of(max_exec_us);
    if t < 5 {
        5
    } else if t > time_limit {
        time_limit
    } else {
        t
    }
}

/// What the budgets are divided by, by the average run in microseconds: slow
/// targets get smaller ones.
pub open spec fn budget_divisor(avg_exec_us: nat) -> nat {
    if avg_exec_us > 50000 {
        10
    } else if avg_exec_us > 20000 {
        5
    } else if avg_exec_us > 10000 {
        2
    } else {
        1
    }
}

/// What the budgets are divided by.
pub fn havoc_divisor(avg_exec_us: usize) -> (r: usize)
    ensures
        r == budget_divisor(avg_exec_us as nat),
        r > 0,
{
    if avg_exec_us > 50000 {
        10
    } else if avg_exec_us > 20000 {
        5
    } else if avg_exec_us > 10000 {
        2
    } else {
        1
    }
}

/// What there is to begin with.
#[derive(Clone, Copy, Debug, PartialEq, Eq, Structural)]
pub enum Readiness {
    /// There are no seeds for edges.
    NoSeeds,
    /// No seed could be saved.
    Empty,
    /// There are seeds for edges only.
    EdgesOnly,
    Ready,
}

/// Decides whether fuzzing can begin.
pub fn check_seeds(branch_seeds: usize, edge_seeds: usize, is_empty: bool) -> (r: Readiness)
    ensures
        r == if edge_seeds == 0 {
            Readiness::NoSeeds
        } else if is_empty {
            Readiness::Empty
        } else if branch_seeds == 0 {
            Readiness::EdgesOnly
        } else {
            Readiness::Ready
        },
{
    if edge_seeds == 0 {
        Readiness::NoSeeds
    } else if is_empty {
        Readiness::Empty
    } else if branch_seeds == 0 {
        Readiness::EdgesOnly
    } else {
        Readiness::Ready
    }
}

/// The time limit follows the slowest seed: a fifth more than it took, to the
/// nearest millisecond, but at least five and at most what the user allows.
pub proof fn limits_follow_seeds(max_exec_us: nat, time_limit: nat)
    requires
        max_exec_us < 0x100_0000_0000,
        time_limit >= 5,
    ensures
        5 <= auto_limit(max_exec_us, time_limit) <= time_limit,
        6 * max_exec_us <= 22500 ==> auto_limit(max_exec_us, time_limit) == 5,
        6 * max_exec_us > 27500 && 6 * max_exec_us + 2500 < 5000 * time_limit ==> -2500 <= 6
            * max_exec_us - 5000 * auto_limit(max_exec_us, time_limit) <= 2500,
        6 * max_exec_us > 5000 * time_limit + 2500 ==> auto_limit(max_exec_us, time_limit)
            == time_limit,
{
    limits_are_a_fifth_longer(max_exec_us);
}

/// Targets are slow above ten milliseconds, slower above twenty, and slowest
/// above fifty: their budgets are divided by two, five and ten.
pub proof fn slow_targets_get_less(avg_exec_us: nat)
    ensures
        budget_divisor(avg_exec_us) == 1 <==> avg_exec_us <= 10000,
        budget_divisor(avg_exec_us) == 2 <==> 10000 < avg_exec_us <= 20000,
        budget_divisor(avg_exec_us) == 5 <==> 20000 < avg_exec_us <= 50000,
        budget_divisor(avg_exec_us) == 10 <==> avg_exec_us > 50000,
{
}


/// An output directory is refused if and only if something is left in it, and
/// what is named is there, while nothing that is looked for before it is.
pub proof fn leftovers_are_named(facts: OutputFacts)
    ensures
        leftover(facts) is None <==> !(facts.crashes_dir || facts.hangs_dir || facts.queue_dir
            || facts.chart_stat_file || facts.plot_data_file),
        leftover(facts) == Some(Leftover::CrashesDir) <==> facts.crashes_dir,
        leftover(facts) == Some(Leftover::HangsDir) ==> facts.hangs_dir && !facts.crashes_dir,
        leftover(facts) == Some(Leftover::QueueDir) ==> facts.queue_dir && !facts.hangs_dir,
        leftover(facts) == Some(Leftover::ChartStatFile) ==> facts.chart_stat_file
            && !facts.queue_dir && !facts.hangs_dir,
        leftover(facts) == Some(Leftover::PlotDataFile) ==> facts.plot_data_file
            && !facts.chart_stat_file && !facts.queue_dir && !facts.hangs_dir,
{
}

/// Three targets belong together if and only if all take inputs in the same
/// way, the fast one has the branches of the full one, and the edges of the
/// trace one.
pub proof fn targets_belong_together(fast: TargetFacts, full: TargetFacts, trace: TargetFacts)
    ensures
        ({
            let same_way = fast.use_shmem_fuzz == full.use_shmem_fuzz && full.use_shmem_fuzz
                == trace.use_shmem_fuzz;
            let same_branches = fast.map_size_data.real_branch_map_size
                == full.map_size_data.real_branch_map_size;
            let same_edges = fast.map_size_data.real_map_size == trace.map_size_data.real_map_size;
            let e = target_error(fast, full, trace);
            &&& e is None <==> same_way && same_branches && same_edges
            &&& e == Some(TargetError::InputMode) <==> !same_way
            &&& e == Some(TargetError::BranchMaps) <==> same_way && !same_branches
            &&& e == Some(TargetError::EdgeMaps) <==> same_way && same_branches && !same_edges
        }),
{
}

} // verus!
