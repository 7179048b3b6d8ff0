//! Tuning constants of the fuzzer.

use vstd::prelude::*;

verus! {

/// The maximum length of inputs.
pub const MAX_INPUT_LEN: usize = 1048576;

/// The maximum number of different contexts for branches and edges.
pub const BRANCH_CONTEXT_CNT: usize = 8;

/// How many operand pairs the trace target records per branch.
pub const UNIT_MAX_TRACE_CNT: usize = 32;

/// Map size used before a target has reported its own.
pub const TMP_MAP_SIZE: usize = 16777216;

/// Calibration runs of an input with new edges.
pub const CAL_TIME: usize = 3;

/// Calibration runs once an input was seen to vary.
pub const LONG_CAL_TIME: usize = 6;

/// Consecutive timeouts after which a seed is skipped.
pub const TMOUT_SKIP: usize = 3;

/// Default time limit, in milliseconds.
pub const TIME_LIMIT: u64 = 1000;

/// Default memory limit, in megabytes.
pub const MEM_LIMIT: u64 = 200;

pub const TRIM_MIN_BYTES: usize = 4;

pub const TRIM_START_STEPS: usize = 16;

pub const TRIM_END_STEPS: usize = 1024;

/// The number of position ranges used for scheduling.
pub const POSITION_NUM: usize = 10;

pub const HAVOC_STACK_POW2: usize = 4;

pub const HAVOC_MAX_MULT: usize = 64;

/// Budget base of the havoc stage.
pub const MAX_HAVOC_TIMES: usize = 256;

/// Budget base of one splice cycle.
pub const MAX_SPLICE_TIMES: usize = 32;

pub const MAX_SPLICE_CYCLES: usize = 8;

pub const ARITH_MAX: u32 = 35;

pub const HAVOC_BLK_SMALL: u32 = 32;

pub const HAVOC_BLK_MEDIUM: u32 = 128;

pub const HAVOC_BLK_LARGE: u32 = 1500;

pub const HAVOC_BLK_XL: u32 = 32768;

/// Budget base of the direct copy stage.
pub const MAX_DIRECT_COPY_TIMES: usize = 128;

/// Generation attempts per branch before the agent is no longer asked.
pub const MAX_RETRY_COUNT: usize = 2;

/// Seconds a branch must resist before the agent is asked.
pub const TIME_INTERVAL: usize = 21600;

/// Seconds between two rounds of agent requests.
pub const CHECK_INTERVAL: usize = 3600;

} // verus!
