//! Names that the fuzzer shares with its targets.

use vstd::prelude::*;

verus! {

pub const DISABLE_CPU_BINDING_VAR: &'static str = "BULBASAUR_DISABLE_CPU_BINDING";

pub const PERSIST_ENV_VAR: &'static str = "__AFL_PERSISTENT";

pub const DEFER_ENV_VAR: &'static str = "__AFL_DEFER_FORKSRV";

pub const PERSIST_SIG: &'static str = "##SIG_AFL_PERSISTENT##";

pub const DEFER_SIG: &'static str = "##SIG_AFL_DEFER_FORKSRV##";

pub const TRACE_SHM_ENV_VAR: &'static str = "__AFL_SHM_ID";

pub const FRONTIER_BRANCH_SHM_VAR: &'static str = "FRONTIER_SHM_ID";

pub const MAP_SIZE_ENV_VAR: &'static str = "AFL_MAP_SIZE";

pub const FRONTIER_CMP_TRACE_VAR: &'static str = "FRONTIER_CMP_TRACE_SHM_ID";

pub const SHM_FUZZ_ENV_VAR: &'static str = "__AFL_SHM_FUZZ_ID";

pub const ASAN_OPTIONS_VAR: &'static str = "ASAN_OPTIONS";

pub const MSAN_OPTIONS_VAR: &'static str = "MSAN_OPTIONS";

pub const ASAN_OPTIONS_CONTENT: &'static str =
    "abort_on_error=1:detect_leaks=0:symbolize=0:allocator_may_return_null=1";

pub const MSAN_OPTIONS_CONTENT: &'static str =
    "exit_code=86:symbolize=0:abort_on_error=1:allocator_may_return_null=1:msan_track_origins=0";

/// The exit code of a target in which a sanitizer found an error.
pub const MSAN_ERROR_CODE: i32 = 86;

pub const PARAFUZZ_FORKSRV_FD_VAR: &'static str = "PARAFUZZ_FORKSRV_FD";

pub const READ_ELF_SECTION_DATA_VAR: &'static str = "READ_ELF_SECTION_DATA";

pub const CRASHES_DIR: &'static str = "crashes";

pub const HANGS_DIR: &'static str = "hangs";

pub const INPUTS_DIR: &'static str = "queue";

pub const BULBASAUR_LOG_FILE: &'static str = "plot_data";

pub const CHART_STAT_FILE: &'static str = "chart_stat.json";

} // verus!
