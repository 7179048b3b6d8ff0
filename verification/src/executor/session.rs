//! What is done around the runs of an input.

use crate::config::{CAL_TIME, LONG_CAL_TIME, MAX_INPUT_LEN, TMOUT_SKIP};
use crate::defs::{
    ASAN_OPTIONS_CONTENT, ASAN_OPTIONS_VAR, FRONTIER_BRANCH_SHM_VAR, FRONTIER_CMP_TRACE_VAR,
    MAP_SIZE_ENV_VAR, MSAN_OPTIONS_CONTENT, MSAN_OPTIONS_VAR, SHM_FUZZ_ENV_VAR,
    TRACE_SHM_ENV_VAR,
};
use crate::status::StatusType;
use vstd::prelude::*;

verus! {

/// Consecutive timeouts.
#[derive(Clone, Copy, Debug, PartialEq, Eq, Structural)]
pub struct Timeouts {
    pub tmout_cnt: usize,
}

impl Timeouts {
    /// So many timeouts that the seed would have been skipped do not pile up.
    pub open spec fn wf(self) -> bool {
        self.tmout_cnt < TMOUT_SKIP
    }

    pub fn new() -> (r: Self)
        ensures
            r.wf(),
            r.tmout_cnt == 0,
    {
        Timeouts { tmout_cnt: 0 }
    }

    /// The count after a run, how the run is to be taken, and whether the fork
    /// servers have to be restarted.
    pub open spec fn after(self, status: StatusType) -> (Timeouts, StatusType, bool) {
        let is_timeout = status == StatusType::Error || status == StatusType::Timeout;
        let skips = is_timeout && self.tmout_cnt + 1 >= TMOUT_SKIP;
        let count = if is_timeout && !skips {
            (self.tmout_cnt + 1) as usize
        } else {
            0
        };
        let taken = if skips {
            StatusType::Skip
        } else if is_timeout {
            StatusType::Timeout
        } else {
            status
        };
        (Timeouts { tmout_cnt: count }, taken, status == StatusType::Error || skips)
    }

    /// Counts a run, and tells how it is to be taken and whether the fork
    /// servers have to be restarted. An error counts as a timeout; after too
    /// many in a row the seed is skipped. The fork servers are restarted then,
    /// and after every error.
    pub fn check_timeout(&mut self, status: StatusType) -> (r: (StatusType, bool))
        requires
            old(self).wf(),
        ensures
            final(self).wf(),
            (*final(self), r.0, r.1) == old(self).after(status),
            ({
                let is_timeout = status == StatusType::Error || status == StatusType::Timeout;
                let skips = is_timeout && old(self).tmout_cnt + 1 >= TMOUT_SKIP;
                &&& r.0 == if skips {
                    StatusType::Skip
                } else if is_timeout {
                    StatusType::Timeout
                } else {
                    status
                }
                &&& final(self).tmout_cnt == if is_timeout && !skips {
                    old(self).tmout_cnt + 1
                } else {
                    0
                }
                &&& r.1 == (status == StatusType::Error || skips)
            }),
    {
        let mut rebind = status == StatusType::Error;
        let mut taken = status;
        if rebind {
            taken = StatusType::Timeout;
        }
        if taken == StatusType::Timeout {
            self.tmout_cnt = self.tmout_cnt + 1;
            if self.tmout_cnt >= TMOUT_SKIP {
                taken = StatusType::Skip;
                self.tmout_cnt = 0;
                rebind = true;
            }
        } else {
            self.tmout_cnt = 0;
        }
        (taken, rebind)
    }
}

/// What is to be done next in a calibration.
#[derive(Clone, Copy, Debug, PartialEq, Eq, Structural)]
pub enum CalStep {
    /// Run the input once more.
    Run,
    /// The input was run often enough.
    Done,
    /// The input is given up: its runs end differently.
    Abort,
}

/// Running an input several times to see what varies.
#[derive(Clone, Copy, Debug, PartialEq, Eq, Structural)]
pub struct Calibration {
    pub cal_times: usize,
    pub cal_iter: usize,
}

impl Calibration {
    pub open spec fn wf(self) -> bool {
        &&& self.cal_times == CAL_TIME || self.cal_times == LONG_CAL_TIME
        &&& self.cal_iter <= self.cal_times
    }

    /// No run was made yet.
    pub open spec fn first() -> Calibration {
        Calibration { cal_times: CAL_TIME, cal_iter: 0 }
    }

    pub fn new() -> (r: Self)
        ensures
            r == Calibration::first(),
            r.wf(),
    {
        Calibration { cal_times: CAL_TIME, cal_iter: 0 }
    }

    /// The calibration after a run that ended as expected.
    pub open spec fn after(self, variable: bool) -> Calibration {
        Calibration {
            cal_times: if variable {
                LONG_CAL_TIME
            } else {
                self.cal_times
            },
            cal_iter: (self.cal_iter + 1) as usize,
        }
    }

    /// Notes a run: how it ended, how it should have, and whether something
    /// varied. If so, more runs are made.
    pub fn note_run(&mut self, now_status: StatusType, status: StatusType, variable: bool) -> (r:
        CalStep)
        requires
            old(self).wf(),
            old(self).cal_iter < old(self).cal_times,
        ensures
            final(self).wf(),
            now_status != status ==> r == CalStep::Abort && *final(self) == *old(self),
            now_status == status ==> {
                &&& *final(self) == old(self).after(variable)
                &&& r == if final(self).cal_iter < final(self).cal_times {
                    CalStep::Run
                } else {
                    CalStep::Done
                }
            },
    {
        if now_status != status {
            return CalStep::Abort;
        }
        if variable {
            self.cal_times = LONG_CAL_TIME;
        }
        self.cal_iter = self.cal_iter + 1;
        if self.cal_iter < self.cal_times {
            CalStep::Run
        } else {
            CalStep::Done
        }
    }
}

/// The calibration after the given runs, as long as one is due.
pub open spec fn calibrated(flags: Seq<bool>) -> Calibration
    decreases flags.len(),
{
    if flags.len() == 0 {
        Calibration { cal_times: CAL_TIME, cal_iter: 0 }
    } else {
        let before = calibrated(flags.drop_last());
        if before.cal_iter < before.cal_times {
            before.after(flags.last())
        } else {
            before
        }
    }
}

/// A calibration takes the short time if the first runs do not vary, and the
/// long time if one does.
pub proof fn calibrations_end(flags: Seq<bool>)
    requires
        flags.len() >= LONG_CAL_TIME,
    ensures
        ({
            let c = calibrated(flags);
            &&& c.cal_iter == c.cal_times
            &&& c.cal_times == if flags[0] || flags[1] || flags[2] {
                LONG_CAL_TIME
            } else {
                CAL_TIME
            }
        }),
    decreases flags.len(),
{
    if flags.len() == LONG_CAL_TIME {
        let f5 = flags.drop_last();
        let f4 = f5.drop_last();
        let f3 = f4.drop_last();
        let f2 = f3.drop_last();
        let f1 = f2.drop_last();
        let f0 = f1.drop_last();
        assert(f0.len() == 0);
        assert(calibrated(f0) == (Calibration { cal_times: CAL_TIME, cal_iter: 0 }));
        assert(calibrated(f1) == calibrated(f0).after(flags[0]));
        assert(calibrated(f2) == calibrated(f1).after(flags[1]));
        assert(calibrated(f3) == calibrated(f2).after(flags[2]));
        let c3 = calibrated(f3);
        assert(c3.cal_iter == 3);
        let c4 = calibrated(f4);
        assert(c4 == if c3.cal_iter < c3.cal_times {
            c3.after(flags[3])
        } else {
            c3
        });
        let c5 = calibrated(f5);
        assert(c5 == if c4.cal_iter < c4.cal_times {
            c4.after(flags[4])
        } else {
            c4
        });
    } else {
        calibrations_end(flags.drop_last());
    }
}

/// An input that may have shown something new is calibrated.
pub fn needs_calibration(write_flag: bool, status: StatusType) -> (r: bool)
    ensures
        r == (write_flag && status == StatusType::Normal),
{
    write_flag && status == StatusType::Normal
}

/// What is done with an input once its finds are known.
#[derive(Clone, Copy, Debug, PartialEq, Eq, Structural)]
pub struct FollowUp {
    /// It is made a seed, whatever it found.
    pub insert_seed: bool,
    /// Its edges count for the average.
    pub count_edges: bool,
    /// The target with full instrumentation is run on it.
    pub run_full: bool,
}

/// Decides what is done with an input once its finds are known. Initial seeds
/// are all kept if they run normally.
pub fn follow_up(status: StatusType, sync_flag: bool, has_new_edge: bool) -> (r: FollowUp)
    ensures
        r == (FollowUp {
            insert_seed: sync_flag && status == StatusType::Normal,
            count_edges: status == StatusType::Normal,
            run_full: has_new_edge && status == StatusType::Normal,
        }),
{
    let normal = status == StatusType::Normal;
    FollowUp {
        insert_seed: sync_flag && normal,
        count_edges: normal,
        run_full: has_new_edge && normal,
    }
}

/// How much of an input is put into shared memory.
pub fn shmem_len(len: usize) -> (r: u32)
    ensures
        r == if len > MAX_INPUT_LEN {
            MAX_INPUT_LEN
        } else {
            len
        },
{
    if len > MAX_INPUT_LEN {
        MAX_INPUT_LEN as u32
    } else {
        len as u32
    }
}

/// The duration of a run in microseconds.
pub fn run_us(secs: u64, subsec_nanos: u32) -> (r: u64)
    requires
        secs <= u64::MAX / 2_000_000,
    ensures
        r == secs * 1_000_000 + subsec_nanos / 1_000,
{
    secs * 1_000_000 + subsec_nanos as u64 / 1_000
}

/// An identifier as a text.
pub open spec fn id_text(id: Option<String>) -> Option<Seq<char>> {
    match id {
        Some(s) => Some(s@),
        None => None,
    }
}

/// The settings that all targets get, as names and values.
pub open spec fn base_settings(shmem_fuzz_id: Option<Seq<char>>) -> Seq<(Seq<char>, Seq<char>)> {
    let base = seq![
        (ASAN_OPTIONS_VAR@, ASAN_OPTIONS_CONTENT@),
        (MSAN_OPTIONS_VAR@, MSAN_OPTIONS_CONTENT@),
    ];
    match shmem_fuzz_id {
        Some(id) => base.push((SHM_FUZZ_ENV_VAR@, id)),
        None => base,
    }
}

/// Names and values as texts.
pub open spec fn texts(v: Seq<(String, String)>) -> Seq<(Seq<char>, Seq<char>)> {
    Seq::new(v.len(), |i: int| (v[i].0@, v[i].1@))
}

/// The settings that all targets get: the sanitizers' options and, if inputs
/// are handed over in shared memory, its identifier.
pub fn base_envs(shmem_fuzz_id: Option<String>) -> (r: Vec<(String, String)>)
    ensures
        texts(r@) == base_settings(
            id_text(shmem_fuzz_id),
        ),
{
    let mut envs: Vec<(String, String)> = Vec::new();
    envs.push((ASAN_OPTIONS_VAR.to_owned(), ASAN_OPTIONS_CONTENT.to_owned()));
    envs.push((MSAN_OPTIONS_VAR.to_owned(), MSAN_OPTIONS_CONTENT.to_owned()));
    if let Some(id) = shmem_fuzz_id {
        envs.push((SHM_FUZZ_ENV_VAR.to_owned(), id));
    }
    assert(texts(envs@) =~= base_settings(
        id_text(shmem_fuzz_id),
    ));
    envs
}

/// The three targets.
#[derive(Clone, Copy, Debug, PartialEq, Eq, Structural)]
pub enum Target {
    /// Run on every input.
    Fast,
    /// Run on inputs with new edges.
    Full,
    /// Run to record operands.
    Trace,
}

/// The settings of a target: where its map is and how large, and where it
/// reports on branches.
pub open spec fn target_settings(
    target: Target,
    shmem_fuzz_id: Option<Seq<char>>,
    map_id: Seq<char>,
    map_size: Seq<char>,
    branch_id: Seq<char>,
) -> Seq<(Seq<char>, Seq<char>)> {
    let base = base_settings(shmem_fuzz_id).push((TRACE_SHM_ENV_VAR@, map_id)).push(
        (MAP_SIZE_ENV_VAR@, map_size),
    );
    match target {
        Target::Fast => base.push((FRONTIER_BRANCH_SHM_VAR@, branch_id)),
        Target::Full => base,
        Target::Trace => base.push((FRONTIER_CMP_TRACE_VAR@, branch_id)),
    }
}

/// The settings of a target.
pub fn target_envs(
    target: Target,
    shmem_fuzz_id: Option<String>,
    map_id: String,
    map_size: String,
    branch_id: String,
) -> (r: Vec<(String, String)>)
    ensures
        texts(r@) == target_settings(
            target,
            id_text(shmem_fuzz_id),
            map_id@,
            map_size@,
            branch_id@,
        ),
{
    let ghost id = id_text(shmem_fuzz_id);
    let mut envs: Vec<(String, String)> = base_envs(shmem_fuzz_id);
    envs.push((TRACE_SHM_ENV_VAR.to_owned(), map_id));
    envs.push((MAP_SIZE_ENV_VAR.to_owned(), map_size));
    match target {
        Target::Fast => {
            envs.push((FRONTIER_BRANCH_SHM_VAR.to_owned(), branch_id));
        },
        Target::Full => {},
        Target::Trace => {
            envs.push((FRONTIER_CMP_TRACE_VAR.to_owned(), branch_id));
        },
    }
    assert(texts(envs@) =~= target_settings(target, id, map_id@, map_size@, branch_id@)) by {
        assert(base_settings(id).len() <= 3);
    }
    envs
}

/// When a fork server is started.
#[derive(Clone, Copy, Debug, PartialEq, Eq, Structural)]
pub enum Occasion {
    /// To learn about the target.
    Inspection,
    /// For a worker.
    Start,
    /// Again, after an error.
    Restart,
}

/// How much longer than the time limit a target may run: those with more
/// instrumentation get more.
pub open spec fn time_factor(target: Target, occasion: Occasion) -> int {
    match (target, occasion) {
        (Target::Fast, _) => 1,
        (_, Occasion::Inspection) => 1,
        (Target::Trace, Occasion::Restart) => 20,
        _ => 10,
    }
}

/// The trace target needs more memory, so it has no limit but for a restart.
pub open spec fn memory_limit(target: Target, occasion: Occasion, mem_limit: u64) -> u64 {
    if target == Target::Trace && occasion != Occasion::Restart {
        0
    } else {
        mem_limit
    }
}

/// The time limit and the memory limit of a target.
pub fn launch_limits(target: Target, occasion: Occasion, time_limit: u64, mem_limit: u64) -> (r: (
    u64,
    u64,
))
    requires
        time_limit <= u64::MAX / 20,
    ensures
        r.0 == time_limit * time_factor(target, occasion),
        r.1 == memory_limit(target, occasion, mem_limit),
{
    let time: u64 = match (target, occasion) {
        (Target::Fast, _) => time_limit,
        (_, Occasion::Inspection) => time_limit,
        (Target::Trace, Occasion::Restart) => time_limit * 20,
        _ => time_limit * 10,
    };
    let mem: u64 = if target == Target::Trace && occasion != Occasion::Restart {
        0
    } else {
        mem_limit
    };
    (time, mem)
}

/// The time limit of a run: initial seeds and calibrations get ten times as
/// much.
pub fn run_timeout(time_limit: u64, sync_flag: bool) -> (r: u64)
    requires
        time_limit <= u64::MAX / 10,
    ensures
        r == if sync_flag {
            time_limit * 10
        } else {
            time_limit as int
        },
{
    if sync_flag {
        time_limit * 10
    } else {
        time_limit
    }
}


/// What each target is told: how the sanitizers end it, where inputs are, if
/// they are in shared memory, where its map is and how large; the fast one
/// where to report on branches, and the trace one where to record operands; and
/// nothing else.
pub proof fn targets_are_told(
    target: Target,
    shm: Option<Seq<char>>,
    map_id: Seq<char>,
    map_size: Seq<char>,
    branch_id: Seq<char>,
    name: Seq<char>,
    value: Seq<char>,
)
    ensures
        target_settings(target, shm, map_id, map_size, branch_id).contains((name, value)) <==> {
            ||| name == "__AFL_SHM_ID"@ && value == map_id
            ||| name == "AFL_MAP_SIZE"@ && value == map_size
            ||| target == Target::Fast && name == "FRONTIER_SHM_ID"@ && value == branch_id
            ||| target == Target::Trace && name == "FRONTIER_CMP_TRACE_SHM_ID"@ && value
                == branch_id
            ||| name == "__AFL_SHM_FUZZ_ID"@ && shm == Some(value)
            ||| name == "ASAN_OPTIONS"@ && value
                == "abort_on_error=1:detect_leaks=0:symbolize=0:allocator_may_return_null=1"@
            ||| name == "MSAN_OPTIONS"@ && value
                == "exit_code=86:symbolize=0:abort_on_error=1:allocator_may_return_null=1:msan_track_origins=0"@
        },
{
    let s = target_settings(target, shm, map_id, map_size, branch_id);
    let base = base_settings(shm);
    assert(base.len() == if shm is Some {
        3int
    } else {
        2
    });
    assert(base[0] == (ASAN_OPTIONS_VAR@, ASAN_OPTIONS_CONTENT@));
    assert(base[1] == (MSAN_OPTIONS_VAR@, MSAN_OPTIONS_CONTENT@));
    let n = base.len() as int;
    assert(s[0] == base[0] && s[1] == base[1]);
    assert(shm is Some ==> s[2] == (SHM_FUZZ_ENV_VAR@, shm->0));
    assert(s[n] == (TRACE_SHM_ENV_VAR@, map_id));
    assert(s[n + 1] == (MAP_SIZE_ENV_VAR@, map_size));
    assert(target == Target::Fast ==> s[n + 2] == (FRONTIER_BRANCH_SHM_VAR@, branch_id));
    assert(target == Target::Trace ==> s[n + 2] == (FRONTIER_CMP_TRACE_VAR@, branch_id));
    assert(s.len() == n + if target == Target::Full {
        2int
    } else {
        3
    });
    if s.contains((name, value)) {
        let i = choose|i: int| 0 <= i < s.len() && s[i] == (name, value);
        assert(0 <= i <= 5);
    }
}

/// Inspections and the fast target keep to the user's limit; the others have
/// ten times as long, and the trace target twice that after an error. Only the
/// trace target runs without a memory limit, and not after an error.
pub proof fn slower_targets_have_longer(
    target: Target,
    occasion: Occasion,
    mem_limit: u64,
    other: u64,
)
    ensures
        time_factor(target, occasion) == 1 <==> target == Target::Fast || occasion
            == Occasion::Inspection,
        target == Target::Full && occasion != Occasion::Inspection ==> time_factor(target, occasion)
            == 10,
        target == Target::Trace ==> time_factor(target, Occasion::Start) == 10 && time_factor(
            target,
            Occasion::Restart,
        ) == 2 * time_factor(target, Occasion::Start),
        target != Target::Trace || occasion == Occasion::Restart ==> memory_limit(
            target,
            occasion,
            mem_limit,
        ) == mem_limit,
        target == Target::Trace && occasion != Occasion::Restart ==> memory_limit(
            target,
            occasion,
            mem_limit,
        ) == 0,
{
}


/// The count after some runs, one after the other.
pub open spec fn counted(runs: Seq<StatusType>) -> Timeouts
    decreases runs.len(),
{
    if runs.len() == 0 {
        Timeouts { tmout_cnt: 0 }
    } else {
        counted(runs.drop_last()).after(runs.last()).0
    }
}

/// A run that does not come back in time, or not at all.
pub open spec fn runs_out(status: StatusType) -> bool {
    status == StatusType::Timeout || status == StatusType::Error
}

/// The third run in a row that runs out has the seed skipped and the fork
/// servers restarted, and then the count begins again. Any other run is taken
/// for what it is, an error for a timeout; the fork servers are restarted after
/// an error; and a run that does not run out ends the row.
pub proof fn third_timeouts_skip_the_seed(
    runs: Seq<StatusType>,
    a: StatusType,
    b: StatusType,
    c: StatusType,
    other: StatusType,
)
    requires
        runs_out(a) && runs_out(b) && runs_out(c),
        !runs_out(other),
        runs.len() > 0 ==> !runs_out(runs.last()),
    ensures
        counted(runs).tmout_cnt == 0,
        counted(runs.push(a)).tmout_cnt == 1,
        counted(runs.push(a).push(b)).tmout_cnt == 2,
        counted(runs.push(a).push(b).push(c)).tmout_cnt == 0,
        counted(runs.push(a).push(other)).tmout_cnt == 0,
        counted(runs).after(a).1 == StatusType::Timeout,
        counted(runs.push(a)).after(b).1 == StatusType::Timeout,
        counted(runs.push(a).push(b)).after(c).1 == StatusType::Skip,
        counted(runs.push(a).push(b)).after(c).2,
        counted(runs).after(a).2 <==> a == StatusType::Error,
        counted(runs.push(a)).after(b).2 <==> b == StatusType::Error,
        counted(runs.push(a)).after(other).1 == other,
        !counted(runs.push(a)).after(other).2,
{
    assert(runs.push(a).drop_last() =~= runs);
    assert(runs.push(a).push(b).drop_last() =~= runs.push(a));
    assert(runs.push(a).push(b).push(c).drop_last() =~= runs.push(a).push(b));
    assert(runs.push(a).push(other).drop_last() =~= runs.push(a));
}


/// A calibration takes three runs, or six if one of the first three varies.
pub proof fn calibrations_take_three_or_six_runs(flags: Seq<bool>)
    requires
        flags.len() >= 6,
    ensures
        ({
            let c = calibrated(flags);
            &&& flags[0] || flags[1] || flags[2] ==> c.cal_iter == 6
            &&& !flags[0] && !flags[1] && !flags[2] ==> c.cal_iter == 3
        }),
{
    calibrations_end(flags);
}

} // verus!
