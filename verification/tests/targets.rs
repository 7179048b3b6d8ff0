use bulbasaur::bind_cpu::{
    can_compare, find_free_cpus, plan_binding, read_cpu_line, Binding, CpuLine, CpuStat,
};
use bulbasaur::branches::{BranchType, MapSizeData};
use bulbasaur::chart::{percent_string, write_branch_coverage, ChartStats, CovData};
use bulbasaur::check_dep::{check_binary, check_dep, contains_string, BinaryError, DirError, DirFacts};
use bulbasaur::command::CommandOpt;
use bulbasaur::depot::Depot;
use bulbasaur::executor::exam::{Exam, ExamAction};
use bulbasaur::executor::forksrv::{
    check_child, classify_run, fs_error, ChildError, FsError, Handshake, HandshakeError,
    HandshakeStep,
};
use bulbasaur::executor::session::{
    base_envs, follow_up, launch_limits, run_timeout, run_us, shmem_len, target_envs, CalStep,
    Calibration, Occasion, Target, Timeouts,
};
use bulbasaur::extras::{
    dedup_extras, deunicode_extras, load_extras, parse_dict_line, sort_extras, split_level,
    DictLine, DictSource, ExtraData,
};
use bulbasaur::fuzz_main::{
    auto_timeout, check_output, check_seeds, check_targets, havoc_divisor, set_input_mode, Leftover,
    OutputFacts, Readiness, TargetError, TargetFacts,
};
use bulbasaur::fuzz_type::{get_fuzz_type_name, FuzzType};
use bulbasaur::hash::hash_slice;
use bulbasaur::parse_raw_section::{
    check_section, check_type_section, parse_branch_type, parse_edge_to_pred_branch,
};
use bulbasaur::rng::{any_byte, below, below_u32};
use bulbasaur::stats::{FuzzStats, LocalStats};
use bulbasaur::status::StatusType;
use bulbasaur::text::{chars_of, find_chars, parse_unsigned, split_words, trimmed, Class};
use bulbasaur::utils::{choose_start_point, next_p2};
use std::collections::HashMap;

fn elf(parts: &[&str]) -> Vec<u8> {
    let mut v = b"\x7fELF....".to_vec();
    for p in parts {
        v.extend_from_slice(p.as_bytes());
        v.push(0);
    }
    v
}

#[test]
fn binaries_are_checked() {
    assert_eq!(check_binary(b"\x7fEL"), Err(BinaryError::TooSmall));
    assert_eq!(check_binary(b"\x7fELG"), Err(BinaryError::NotElf));
    assert_eq!(check_binary(&elf(&[])), Err(BinaryError::NotInstrumented));
    let plain = check_binary(&elf(&["__AFL_SHM_ID"])).unwrap();
    assert!(!plain.uses_asan && !plain.persistent_mode && !plain.deferred_mode);
    let full = check_binary(&elf(&[
        "__AFL_SHM_ID",
        "__msan_init",
        "##SIG_AFL_PERSISTENT##",
        "##SIG_AFL_DEFER_FORKSRV##",
    ]))
    .unwrap();
    assert!(full.uses_asan && full.persistent_mode && full.deferred_mode);
    assert!(contains_string(b"abc", "bc"));
    assert!(!contains_string(b"abc", "cb"));
}

#[test]
fn directories_are_checked() {
    let facts = DirFacts { in_dir_exists: true, in_dir_is_dir: true, out_dir_exists: false };
    assert_eq!(check_dep("in", facts, "core"), Ok(false));
    assert_eq!(check_dep("in", facts, "|/usr/bin/x"), Ok(true));
    assert_eq!(check_dep("-", facts, "core"), Err(DirError::NothingToResume));
    let facts = DirFacts { in_dir_is_dir: false, out_dir_exists: true, ..facts };
    assert_eq!(check_dep("in", facts, "core"), Err(DirError::NoInputDir));
    assert_eq!(check_dep("-", facts, ""), Ok(false));
}

fn command() -> CommandOpt {
    let pargs = ["t", "-f", "@@"].iter().map(|s| s.to_string()).collect();
    let kind = check_binary(&elf(&["__AFL_SHM_ID", "__asan_init"])).unwrap();
    CommandOpt::new(pargs, "full", "trace", "out", 200, 1000, false, true, kind)
}

#[test]
fn workers_get_their_settings() {
    let cmd = command();
    assert_eq!(cmd.mem_limit, 0);
    assert!(!cmd.is_stdin && cmd.is_raw);
    assert_eq!(cmd.out_file, "out/tmp/cur_input");
    assert!(cmd.can_specify());
    let w = cmd.specify(3);
    assert_eq!(w.main, ("t".to_string(), vec!["-f".to_string(), "out/tmp/cur_input_3".to_string()]));
    assert_eq!(w.full.1, w.main.1);
    assert_eq!(w.trace.0, "trace");
    assert_eq!((w.forksrv_fd, w.full_forksrv_fd, w.trace_forksrv_fd), (238, 240, 242));
    assert!(!w.is_raw);
    assert_eq!(cmd.specify(214748343).trace_forksrv_fd, 2147483642);
    let mut tables = command();
    assert!(tables.edge_to_pred_branch_dict.is_empty() && tables.branch_boundary.is_empty());
    tables.edge_to_pred_branch_dict.insert(10, 1);
    tables.branch_boundary.insert(1, 2);
    let w = tables.specify(1);
    assert_eq!(w.edge_to_pred_branch_dict, tables.edge_to_pred_branch_dict);
    assert_eq!(w.branch_boundary, tables.branch_boundary);
    let mut shm = command();
    set_input_mode(&mut shm, true);
    assert!(shm.use_shmem_fuzz && !shm.is_stdin);
    assert!(!shm.can_specify());
}

#[test]
fn handshakes_run_their_course() {
    let mut h = Handshake::new();
    assert_eq!(h.feed(0x41464c01), HandshakeStep::Reply { word: !0x41464c01 });
    assert_eq!(h.feed(3), HandshakeStep::Read);
    assert_eq!(h.feed(65), HandshakeStep::Read);
    assert_eq!(h.feed(0), HandshakeStep::Read);
    assert_eq!(h.feed(0x41464c01), HandshakeStep::Ready);
    assert!(h.use_shmem_fuzz);
    let d = h.get_map_size_data();
    assert_eq!((d.real_map_size, d.used_map_size), (65, 128));
    assert_eq!((d.real_branch_map_size, d.used_branch_map_size), (1, 64));
}

#[test]
fn handshakes_fail() {
    let mut h = Handshake::new();
    assert_eq!(
        h.feed(0xeffe0004),
        HandshakeStep::Failed { error: HandshakeError::Reported { error: FsError::ShmOpen } }
    );
    let mut h = Handshake::new();
    h.feed(1);
    assert_eq!(h.feed(2), HandshakeStep::Failed { error: HandshakeError::BadOptions });
    assert_eq!(h.feed(0x801), HandshakeStep::Failed { error: HandshakeError::BadOptions });
    h.feed(1);
    assert_eq!(h.feed(u32::MAX), HandshakeStep::Failed { error: HandshakeError::TooLarge });
    h.feed(64);
    h.feed(64);
    assert_eq!(
        h.feed(2),
        HandshakeStep::Failed { error: HandshakeError::Mismatch { first: 1, last: 2 } }
    );
    assert_eq!(fs_error(1), FsError::MapSize);
    assert_eq!(fs_error(2), FsError::MapAddr);
    assert_eq!(fs_error(8), FsError::Shmat);
    assert_eq!(fs_error(16), FsError::Mmap);
    assert_eq!(fs_error(3), FsError::Unknown { code: 3 });
}

#[test]
fn runs_are_classified() {
    assert_eq!(classify_run(true, 0, false), StatusType::Timeout);
    assert_eq!(classify_run(false, 11, false), StatusType::Crash);
    assert_eq!(classify_run(false, 86 << 8, true), StatusType::Crash);
    assert_eq!(classify_run(false, 86 << 8, false), StatusType::Normal);
    assert_eq!(classify_run(false, 1 << 8, true), StatusType::Normal);
    assert_eq!(classify_run(false, 0x7f, false), StatusType::Normal);
    assert_eq!(check_child(77), Ok(()));
    assert_eq!(check_child(0), Err(ChildError::Misbehaving));
    assert_eq!(check_child(0xf800048fu32 as i32), Err(ChildError::SharedMemory));
    assert_eq!(check_child(0xf800018fu32 as i32), Err(ChildError::Misbehaving));
}

#[test]
fn timeouts_pile_up() {
    let mut t = Timeouts::new();
    assert_eq!(t.check_timeout(StatusType::Timeout), (StatusType::Timeout, false));
    assert_eq!(t.check_timeout(StatusType::Error), (StatusType::Timeout, true));
    assert_eq!(t.check_timeout(StatusType::Timeout), (StatusType::Skip, true));
    assert_eq!(t.tmout_cnt, 0);
    t.check_timeout(StatusType::Timeout);
    assert_eq!(t.check_timeout(StatusType::Crash), (StatusType::Crash, false));
    assert_eq!(t.tmout_cnt, 0);
}

#[test]
fn calibrations_take_their_time() {
    let mut c = Calibration::new();
    assert_eq!(c.note_run(StatusType::Crash, StatusType::Normal, false), CalStep::Abort);
    assert_eq!(c.note_run(StatusType::Normal, StatusType::Normal, false), CalStep::Run);
    assert_eq!(c.note_run(StatusType::Normal, StatusType::Normal, false), CalStep::Run);
    assert_eq!(c.note_run(StatusType::Normal, StatusType::Normal, true), CalStep::Run);
    assert_eq!(c.note_run(StatusType::Normal, StatusType::Normal, false), CalStep::Run);
    assert_eq!(c.note_run(StatusType::Normal, StatusType::Normal, false), CalStep::Run);
    assert_eq!(c.note_run(StatusType::Normal, StatusType::Normal, false), CalStep::Done);
    assert!(follow_up(StatusType::Normal, true, true).insert_seed);
    assert!(!follow_up(StatusType::Crash, true, true).run_full);
}

#[test]
fn examinations_have_their_order() {
    let mut e = Exam::new(StatusType::Normal, true, true);
    for _ in 0..3 {
        assert_eq!(e.action(), ExamAction::RunFast);
        e.note_run(StatusType::Normal, false);
    }
    assert_eq!(e.action(), ExamAction::Update);
    assert!(e.note_update(true));
    for _ in 0..4 {
        assert_eq!(e.action(), ExamAction::RunFull);
        e.note_run(StatusType::Normal, false);
    }
    assert_eq!(e.action(), ExamAction::UpdateBoundary);
    e.note_boundary();
    assert_eq!(e.action(), ExamAction::Done);
    let mut e = Exam::new(StatusType::Crash, true, false);
    assert_eq!(e.action(), ExamAction::Update);
    assert!(!e.note_update(true));
    assert_eq!(e.action(), ExamAction::Done);
    let mut e = Exam::new(StatusType::Normal, true, false);
    e.note_run(StatusType::Timeout, false);
    assert_eq!(e.action(), ExamAction::Done);
}

#[test]
fn targets_get_their_environment() {
    let envs = base_envs(None);
    assert_eq!(envs.len(), 2);
    assert_eq!(envs[0].0, "ASAN_OPTIONS");
    let s = |t: &str| t.to_string();
    let fast = target_envs(Target::Fast, Some(s("9")), s("1"), s("64"), s("2"));
    assert!(fast.contains(&(s("__AFL_SHM_FUZZ_ID"), s("9"))));
    assert!(fast.contains(&(s("__AFL_SHM_ID"), s("1"))));
    assert!(fast.contains(&(s("AFL_MAP_SIZE"), s("64"))));
    assert!(fast.contains(&(s("FRONTIER_SHM_ID"), s("2"))));
    assert_eq!(target_envs(Target::Full, None, s("1"), s("64"), s("2")).len(), 4);
    let trace = target_envs(Target::Trace, None, s("1"), s("64"), s("2"));
    assert!(trace.contains(&(s("FRONTIER_CMP_TRACE_SHM_ID"), s("2"))));
    assert_eq!(launch_limits(Target::Fast, Occasion::Start, 50, 200), (50, 200));
    assert_eq!(launch_limits(Target::Full, Occasion::Start, 50, 200), (500, 200));
    assert_eq!(launch_limits(Target::Trace, Occasion::Start, 50, 200), (500, 0));
    assert_eq!(launch_limits(Target::Trace, Occasion::Restart, 50, 200), (1000, 200));
    assert_eq!(launch_limits(Target::Full, Occasion::Inspection, 50, 200), (50, 200));
    assert_eq!(run_timeout(50, true), 500);
    assert_eq!(run_timeout(50, false), 50);
    assert_eq!(run_us(2, 1999), 2000001);
    assert_eq!(shmem_len(1048577), 1048576);
    assert_eq!(shmem_len(5), 5);
}

#[test]
fn free_processors_are_found() {
    assert_eq!(
        read_cpu_line("cpu0 1 2 3 4 5"),
        CpuLine::Stat { stat: CpuStat { idle: 4, total: 15 } }
    );
    assert_eq!(
        read_cpu_line("cpu12 1 2 3 x 5"),
        CpuLine::Stat { stat: CpuStat { idle: 0, total: 6 } }
    );
    assert_eq!(read_cpu_line("cpu  1 2 3 4 5"), CpuLine::Other);
    assert_eq!(read_cpu_line("cpu0 1 2 3"), CpuLine::Other);
    assert_eq!(read_cpu_line("intr 5"), CpuLine::Other);
    assert_eq!(read_cpu_line("cpu0 1 18446744073709551615 3 4"), CpuLine::Overflow);
    let z = CpuStat { idle: 0, total: 0 };
    let at = |idle, total| CpuStat { idle, total };
    let before = vec![z; 5];
    let after = vec![at(96, 100), at(95, 100), at(10, 100), z, at(100, 100)];
    assert!(can_compare(&before, &after));
    assert!(!can_compare(&after, &before));
    let expected: Vec<usize> = after
        .iter()
        .enumerate()
        .filter(|(_, s)| {
            let u = if s.total == 0 { 0.0 } else { 1.0 - s.idle as f64 / s.total as f64 };
            u < 0.05
        })
        .map(|(i, _)| i)
        .collect();
    assert_eq!(find_free_cpus(false, &before, &after, 9), expected);
    assert_eq!(find_free_cpus(false, &before, &after, 2), expected[..2].to_vec());
    assert!(find_free_cpus(true, &before, &after, 9).is_empty());
    assert!(matches!(plan_binding(vec![1, 2], 2, false), Binding::Bound { .. }));
    assert!(matches!(plan_binding(vec![1, 2, 3], 2, true), Binding::Unbound));
    assert!(matches!(plan_binding(vec![1], 2, false), Binding::Unbound));
    assert!(matches!(plan_binding(vec![], 2, true), Binding::Unbound));
}

#[test]
fn free_shares_match_doubles() {
    for total in 1u64..120 {
        for idle in 0..=total {
            let before = vec![CpuStat { idle: 0, total: 0 }];
            let after = vec![CpuStat { idle, total }];
            let free = 1.0 - idle as f64 / (total as f64) < 0.05;
            assert_eq!(!find_free_cpus(false, &before, &after, 1).is_empty(), free);
        }
    }
}

#[test]
fn starts_are_decided() {
    let none = OutputFacts {
        crashes_dir: false,
        hangs_dir: false,
        queue_dir: false,
        chart_stat_file: false,
        plot_data_file: false,
    };
    assert_eq!(check_output(none), Ok(()));
    let all = OutputFacts { crashes_dir: true, hangs_dir: true, ..none };
    assert_eq!(check_output(all), Err(Leftover::CrashesDir));
    assert_eq!(check_output(OutputFacts { hangs_dir: true, ..none }), Err(Leftover::HangsDir));
    assert_eq!(check_output(OutputFacts { queue_dir: true, ..none }), Err(Leftover::QueueDir));
    assert_eq!(
        check_output(OutputFacts { chart_stat_file: true, ..none }),
        Err(Leftover::ChartStatFile)
    );
    assert_eq!(
        check_output(OutputFacts { plot_data_file: true, ..none }),
        Err(Leftover::PlotDataFile)
    );
    let fast = TargetFacts {
        map_size_data: MapSizeData::new(50, 64, 3, 64),
        use_shmem_fuzz: false,
    };
    assert_eq!(check_targets(&fast, &fast, &fast), Ok(()));
    let shm = TargetFacts { use_shmem_fuzz: true, ..fast };
    assert_eq!(check_targets(&fast, &shm, &fast), Err(TargetError::InputMode));
    let other = TargetFacts { map_size_data: MapSizeData::new(51, 64, 4, 64), ..fast };
    assert_eq!(check_targets(&fast, &other, &fast), Err(TargetError::BranchMaps));
    assert_eq!(check_targets(&fast, &fast, &other), Err(TargetError::EdgeMaps));
    assert_eq!(auto_timeout(0, 1000), 5);
    assert_eq!(auto_timeout(10_000, 1000), 12);
    assert_eq!(auto_timeout(10_000_000, 1000), 1000);
    assert_eq!(havoc_divisor(50001), 10);
    assert_eq!(havoc_divisor(50000), 5);
    assert_eq!(havoc_divisor(20000), 2);
    assert_eq!(havoc_divisor(10000), 1);
    assert_eq!(check_seeds(0, 0, false), Readiness::NoSeeds);
    assert_eq!(check_seeds(0, 1, true), Readiness::Empty);
    assert_eq!(check_seeds(0, 1, false), Readiness::EdgesOnly);
    assert_eq!(check_seeds(1, 1, false), Readiness::Ready);
}

#[test]
fn totals_are_sums_of_stages() {
    let mut chart = ChartStats::new();
    let mut local = LocalStats::default();
    local.register(FuzzType::AFLFuzz);
    local.num_exec.inc(10);
    local.find_new(&StatusType::Normal);
    local.find_new(&StatusType::Crash);
    chart.sync_from_local(&local);
    local.register(FuzzType::Sync);
    local.num_exec.inc(5);
    local.find_new(&StatusType::Timeout);
    chart.sync_from_local(&local);
    assert_eq!(chart.num_exec.0, 15);
    assert_eq!(chart.num_rounds.0, 2);
    let mut fuzz: FuzzStats = chart.fuzz;
    assert_eq!(fuzz.get_mut(FuzzType::AFLFuzz.index()).num_exec.0, 10);
    chart.edge_data = CovData(3, 50, 600);
    chart.branch_data = CovData(1, 7, 1428);
    let (head, line) = chart.mini_log(42);
    assert!(head.starts_with("time_sec, edges_cur"));
    assert_eq!(line, "42, 3, 6, 1, 14.28, 1, 1, 1, 15");
    for n in 0..=10000usize {
        assert_eq!(percent_string(n), format!("{}", n as f32 / 100.0));
    }
    assert_eq!(
        write_branch_coverage(9, 5, 12, 4166),
        "Reached branches: 9\nCovered branches: 5\nTotal branches: 12\nCoverage percent: 41.66%\n"
    );
    assert!(write_branch_coverage(0, 0, 1, 5).ends_with("0.05%\n"));
}

#[test]
fn charts_follow_the_run() {
    let fast = MapSizeData::new(50, 64, 1, 64);
    let none = HashMap::new();
    let mut g = bulbasaur::branches::GlobalBranches::new(
        1,
        fast,
        fast,
        fast,
        HashMap::new(),
        none.clone(),
        none,
    );
    g.cov_edges = 25;
    let d = Depot::new("in".to_string(), "out", Vec::new());
    let mut chart = ChartStats::new();
    chart.sync_from_global(&d, &g);
    assert_eq!(chart.edge_data, CovData(25, 50, 5000));
    assert_eq!(chart.bit_favor_seeds.0, 0);
}

#[test]
fn stages_have_names() {
    let names: Vec<String> = (0..7).map(get_fuzz_type_name).collect();
    assert_eq!(names, ["AFL", "Len", "Direct", "Taint", "Trim", "Exploit", "Sync"]);
    assert_eq!(FuzzType::Default.index(), 7);
}

#[test]
fn dictionary_lines_are_read() {
    let token = |line: &str, level| match parse_dict_line(line, level) {
        DictLine::Token(t) => t,
        other => panic!("{:?}", other),
    };
    assert_eq!(token(" name=\"a\\x41\\\\b\\\"\" ", 0), b"aA\\b\"");
    assert_eq!(token("\"plain\"", 0), b"plain");
    assert_eq!(token("kw@2=\"x\"", 2), b"x");
    assert!(matches!(parse_dict_line("kw@2=\"x\"", 1), DictLine::Skipped));
    assert!(matches!(parse_dict_line("# note", 0), DictLine::Skipped));
    assert!(matches!(parse_dict_line("kw=x", 0), DictLine::Malformed));
    assert!(matches!(parse_dict_line("kw=\"\"", 0), DictLine::Empty));
    assert!(matches!(parse_dict_line("\u{e9}t\u{e9}=\"x\"", 0), DictLine::Token(_)));
    let long = format!("\"{}\"", "a".repeat(129));
    assert!(matches!(parse_dict_line(&long, 0), DictLine::TooBig(129)));
    assert_eq!(split_level("dict@3"), ("dict".to_string(), 3));
    assert_eq!(split_level("dict"), ("dict".to_string(), 0));
}

#[test]
fn dictionaries_are_prepared() {
    let lines = ["a=\"longer\"", "b=\"xy\"", "c=\"xy\"", "bad"].iter().map(|s| s.to_string()).collect();
    let extras = load_extras(vec![
        DictSource::Lines(lines, 0),
        DictSource::Files(vec![b"one".to_vec(), Vec::new(), vec![1; 129]]),
    ]);
    let tokens: Vec<&[u8]> = extras.iter().map(|e| e.data.as_slice()).collect();
    assert_eq!(tokens, [&b"xy"[..], b"one", b"longer"]);
    assert!(load_extras(Vec::new()).is_empty());
}

#[test]
fn wide_tokens_are_narrowed() {
    let mut extras = vec![ExtraData::new(b"a\0b\0c\0d\0".to_vec())];
    deunicode_extras(&mut extras);
    assert!(extras.iter().any(|e| e.data == b"abcd"));
    extras.push(ExtraData::new(b"abcd".to_vec()));
    sort_extras(&mut extras);
    let n = extras.len();
    dedup_extras(&mut extras);
    assert_eq!(extras.len(), n - 1);
}

#[test]
fn sections_are_read() {
    let mut raw = Vec::new();
    for (k, v) in [(10u64, 1u64), (11, 1), (12, 2)] {
        raw.extend_from_slice(&k.to_le_bytes());
        raw.extend_from_slice(&v.to_le_bytes());
    }
    assert!(check_section(&raw));
    assert!(check_type_section(&raw));
    let (edges, counts) = parse_edge_to_pred_branch(raw.clone());
    assert_eq!(edges.len(), 3);
    assert_eq!(edges[&11], 1);
    assert_eq!(counts[&1], 2);
    let types = parse_branch_type(raw.clone());
    assert_eq!(types[&12], BranchType::ConstCmp);
    assert!(!check_section(&raw[1..].to_vec()));
    let again = raw[..16].to_vec();
    raw.extend_from_slice(&again);
    assert!(!check_section(&raw));
}

#[test]
fn hashes_tell_maps_apart() {
    assert_eq!(hash_slice(&[1, 2, 3]), hash_slice(&[1, 2, 3]));
    assert_ne!(hash_slice(&[1, 2, 3]), hash_slice(&[1, 2, 4]));
}

#[test]
fn texts_are_scanned() {
    let s = chars_of("  ab\tc ");
    assert_eq!(split_words(&s), vec![(2, 4), (5, 6)]);
    assert_eq!(trimmed(&s), vec!['a', 'b', '\t', 'c']);
    assert_eq!(find_chars(&chars_of("xabab"), &chars_of("ab"), 2), Some(3));
    assert_eq!(find_chars(&chars_of("xabab"), &chars_of("ba"), 3), None);
    assert_eq!(parse_unsigned(&chars_of("+12"), 255), Some(12));
    assert_eq!(parse_unsigned(&chars_of("256"), 255), None);
    assert_eq!(parse_unsigned(&chars_of("+"), 255), None);
}

#[test]
fn white_space_is_known() {
    let spaces: Vec<u32> = (0..0x11_0000u32)
        .filter_map(char::from_u32)
        .filter(|&c| Class::Space.has(c))
        .map(|c| c as u32)
        .collect();
    let mut expected = vec![9, 10, 11, 12, 13, 0x20, 0x85, 0xa0, 0x1680];
    expected.extend(0x2000..=0x200a);
    expected.extend([0x2028, 0x2029, 0x202f, 0x205f, 0x3000]);
    assert_eq!(spaces, expected);
}

#[test]
fn draws_keep_to_their_range() {
    let mut rng = rand::thread_rng();
    let mut seen = [false; 4];
    for _ in 0..400 {
        seen[below(&mut rng, 4)] = true;
        assert!(below_u32(&mut rng, 9) < 9);
    }
    assert_eq!(seen, [true; 4]);
    let first = any_byte(&mut rng);
    assert!((0..200).any(|_| any_byte(&mut rng) != first));
    for position in 0..10 {
        let p = choose_start_point(105, position, &mut rng);
        let hi = if position == 9 { 105 } else { (position + 1) * 10 };
        assert!(position * 10 <= p && p < hi);
    }
    assert_eq!(next_p2(0), 1);
    assert_eq!(next_p2(64), 64);
    assert_eq!(next_p2(65), 128);
}
