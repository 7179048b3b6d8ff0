use bulbasaur::branches::{BranchType, GlobalBranches, MapSizeData};
use bulbasaur::depot::SeedInfo;
use bulbasaur::fuzz_type::FuzzType;
use bulbasaur::search::handler::{compare, score_of};
use bulbasaur::search::operands::check_trace;
use bulbasaur::search::taint::{
    exit_status_for, frame_payload, match_and_replace_input, replace_operand_at, resize_input,
    unframe_payload, worker_result, TaintStep,
};
use bulbasaur::search::trim::{Trim, TrimPhase};
use bulbasaur::search::{
    Comparisons, Found, MutationError, SearchHandler, SearchServer, TaintFuzz,
};
use bulbasaur::status::StatusType;
use std::collections::HashMap;

fn handler(buf: &[u8]) -> SearchHandler {
    SearchHandler::new(SeedInfo::new(1, 0), buf.to_vec())
}

fn global() -> GlobalBranches {
    let fast = MapSizeData::new(50, 64, 3, 64);
    let mut dict = HashMap::new();
    dict.insert(10, 1);
    dict.insert(11, 1);
    dict.insert(12, 2);
    let mut types = HashMap::new();
    types.insert(1, BranchType::ConstCmp);
    types.insert(2, BranchType::Strcmp);
    let trace = types.clone();
    GlobalBranches::new(2, fast, fast, fast, dict, types, trace)
}

fn no_finds() -> Found {
    Found { has_new_path: false, has_new_edge: false, has_higher_match: false }
}

#[test]
fn queues_are_rewarded() {
    let mut h = handler(b"x");
    h.update_queue_rewards(no_finds());
    assert_eq!(h.queue_rewards, (0, 1));
    h.update_queue_rewards(Found { has_new_path: true, has_new_edge: true, has_higher_match: true });
    assert_eq!(h.queue_rewards, (3, 1));
}

#[test]
fn budgets_grow_with_finds() {
    let mut h = handler(b"x");
    h.initial_max_execs = 100;
    h.final_max_execs = 1000;
    h.process_status(
        StatusType::Normal,
        Found { has_new_path: true, has_new_edge: true, has_higher_match: true },
    );
    assert_eq!(h.initial_max_execs, 288);
    assert!(!h.skip);
    h.initial_max_execs = 1000;
    h.process_status(
        StatusType::Normal,
        Found { has_new_path: true, has_new_edge: false, has_higher_match: false },
    );
    assert_eq!(h.initial_max_execs, 1000);
    h.exec_count = 1001;
    h.process_status(StatusType::Crash, no_finds());
    assert!(h.skip);
    let mut h = handler(b"x");
    h.process_status(StatusType::Skip, no_finds());
    assert!(h.is_stopped_or_skip(true));
    assert!(handler(b"x").is_stopped_or_skip(false));
    assert!(!handler(b"x").is_stopped_or_skip(true));
}

#[test]
fn rounds_end_whatever_is_found() {
    let mut h = handler(b"x");
    h.initial_max_execs = 10;
    h.final_max_execs = 20;
    let all = Found { has_new_path: true, has_new_edge: true, has_higher_match: true };
    while !h.skip {
        h.exec_count += 1;
        h.process_status(StatusType::Normal, all);
        assert!(h.initial_max_execs <= 40);
    }
    assert_eq!(h.initial_max_execs, 24);
    assert_eq!(h.exec_count, 25);
}

#[test]
fn fast_seeds_score_high() {
    let even = Comparisons {
        tenth_time_above: false,
        quarter_time_above: false,
        half_time_above: false,
        three_quarter_time_above: false,
        four_times_time_below: false,
        three_times_time_below: false,
        twice_time_below: false,
        three_tenth_edges_above: false,
        half_edges_above: false,
        three_quarter_edges_above: false,
        three_times_edges_below: false,
        twice_edges_below: false,
        three_half_edges_below: false,
    };
    assert_eq!(score_of(&even), 100);
    let c = Comparisons { four_times_time_below: true, three_tenth_edges_above: true, ..even };
    assert_eq!(score_of(&c), 300);
    let c = Comparisons { tenth_time_above: true, three_times_edges_below: true, ..even };
    assert_eq!(score_of(&c), 10);
    let c = Comparisons { twice_time_below: true, three_half_edges_below: true, ..even };
    assert_eq!(score_of(&c), 112);

    let score = |time: usize, edges: usize, avg_time: f32, avg_edges: f32| {
        let info = SeedInfo { exec_time_us: time, ..SeedInfo::new(1, edges) };
        let h = SearchHandler::new(info, b"x".to_vec());
        h.calculate_score(avg_time.to_bits(), avg_edges.to_bits())
    };
    assert_eq!(score(100, 50, 100.0, 50.0), 100);
    assert_eq!(score(24, 200, 100.0, 50.0), 300);
    assert_eq!(score(1001, 10, 100.0, 50.0), 10);
    assert_eq!(score(40, 30, 100.0, 50.0), 112);
    assert_eq!(score(1000, 50, 100.0, 50.0), 25);
    assert_eq!(score(100, 50, f32::NAN, f32::NAN), 100);
    assert_eq!(score(100, 50, f32::INFINITY, 50.0), 300);
    assert_eq!(score(0, 0, 0.0, 0.0), 100);
    assert_eq!(score(0, 0, -1.0, 0.0), 10);
}

#[test]
fn seeds_compare_as_in_double_precision() {
    let averages = [
        0.0f32, -0.0, 1.0e-45, 1.0e-38, 0.1, 0.3, 1.0, 99.99, 100.0, 1.0e6, 16777217.0, 3.0e19,
        f32::MAX, f32::INFINITY, f32::NEG_INFINITY, f32::NAN, -2.5,
    ];
    let values = [
        0usize, 1, 2, 3, 9, 10, 11, 100, 133, 134, 200, 333, 334, 399, 400, 401, 1000, 1001,
        9_999_999, 10_000_000, 10_000_001, (1 << 53) + 1, usize::MAX / 3, usize::MAX,
    ];
    for &avg in &averages {
        for &value in &values {
            let info = SeedInfo { exec_time_us: value, ..SeedInfo::new(1, value) };
            let c = compare(&info, avg.to_bits(), avg.to_bits());
            let (x, a) = (value as f64, avg as f64);
            assert_eq!(c.tenth_time_above, x * 0.1 > a, "{} {}", value, avg);
            assert_eq!(c.quarter_time_above, x * 0.25 > a);
            assert_eq!(c.half_time_above, x * 0.5 > a);
            assert_eq!(c.three_quarter_time_above, x * 0.75 > a);
            assert_eq!(c.four_times_time_below, x * 4.0 < a);
            assert_eq!(c.three_times_time_below, x * 3.0 < a);
            assert_eq!(c.twice_time_below, x * 2.0 < a);
            assert_eq!(c.three_tenth_edges_above, x * 0.3 > a, "{} {}", value, avg);
            assert_eq!(c.half_edges_above, x * 0.5 > a);
            assert_eq!(c.three_quarter_edges_above, x * 0.75 > a);
            assert_eq!(c.three_times_edges_below, x * 3.0 < a);
            assert_eq!(c.twice_edges_below, x * 2.0 < a);
            assert_eq!(c.three_half_edges_below, x * 1.5 < a);
        }
    }
}

const RECORD: usize = 2242;

fn unit(raw: &mut [u8], branch: usize, i: usize) -> &mut [u8] {
    let o = branch * RECORD + 2 + i * 70;
    &mut raw[o..o + 70]
}

#[test]
fn traces_are_read() {
    let g = global();
    let mut raw = vec![0u8; 64 * RECORD];
    {
        let u = unit(&mut raw, 1, 0);
        u[0] = 4;
        u[4] = 1;
        u[6..10].copy_from_slice(&[0x44, 0x43, 0x42, 0x41]);
        u[14] = 9;
    }
    {
        let u = unit(&mut raw, 1, 1);
        u[0] = 4;
        u[4] = 1;
        u[6] = 8;
        u[14] = 5;
    }
    {
        let u = unit(&mut raw, 2, 0);
        u[0] = 3;
        u[1] = 2;
        u[2] = 32;
        u[4] = 1;
        u[6..9].copy_from_slice(b"abc");
        u[38..40].copy_from_slice(b"xy");
    }
    assert!(check_trace(&raw, &g));
    let mut h = handler(b"01234567");
    h.execute_trace_and_load(StatusType::Normal, &raw, &g);
    assert_eq!(h.operands.len_vec, vec![5]);
    assert_eq!(h.operands.const_numbers, vec![(0x41424344, 4)]);
    assert_eq!(
        h.operands.direct_copy_pairs,
        vec![(b"DCBA".to_vec(), vec![9, 0, 0, 0]), (b"abc".to_vec(), b"xy".to_vec())]
    );
    assert_eq!(h.operands.index_to_branch_dict, vec![1, 2]);
    let strings: Vec<Vec<u8>> = h.operands.const_strings.iter().map(|e| e.data.clone()).collect();
    assert_eq!(strings, vec![b"xy".to_vec(), b"abc".to_vec()]);
    let mut h = handler(b"01234567");
    h.execute_trace_and_load(StatusType::Timeout, &raw, &g);
    assert!(h.operands.direct_copy_pairs.is_empty());
}

#[test]
fn unsound_traces_are_refused() {
    let g = global();
    let mut raw = vec![0u8; 64 * RECORD];
    assert!(check_trace(&raw, &g));
    assert!(!check_trace(&raw[1..], &g));
    unit(&mut raw, 2, 0)[0] = 33;
    unit(&mut raw, 2, 0)[4] = 1;
    assert!(!check_trace(&raw, &g));
}

#[test]
fn payloads_cross_shared_memory() {
    let mut shm = frame_payload(b"hello", 100).unwrap();
    assert_eq!(shm, b"\x05\0\0\0hello");
    shm.extend_from_slice(&[7; 20]);
    assert_eq!(unframe_payload(&shm), b"hello");
    assert_eq!(frame_payload(b"hello", 4), Err(MutationError::WorkerCrashed));
    assert_eq!(unframe_payload(&[255, 255, 255, 255, 1, 2]), vec![1, 2]);
}

#[test]
fn mutation_functions_report_their_end() {
    for code in [-1, 0, 1] {
        assert_eq!(worker_result(exit_status_for(code) << 8), Ok(code));
    }
    assert_eq!(exit_status_for(77), 2);
    assert_eq!(worker_result(9), Err(MutationError::WorkerCrashed));
    assert_eq!(worker_result(11), Err(MutationError::WorkerCrashed));
    assert_eq!(worker_result(3 << 8), Ok(-1));
}

#[test]
fn inputs_are_resized() {
    let mut rng = rand::thread_rng();
    let buf = b"abcdef".to_vec();
    assert_eq!(resize_input(&buf, 0, &mut rng), None);
    assert_eq!(resize_input(&buf, 6, &mut rng), None);
    assert_eq!(resize_input(&buf, 2, &mut rng), Some(b"ab".to_vec()));
    let mut tails = Vec::new();
    for _ in 0..4 {
        let longer = resize_input(&buf, 22, &mut rng).unwrap();
        assert_eq!(longer.len(), 22);
        assert_eq!(&longer[..6], b"abcdef");
        tails.push(longer[6..].to_vec());
    }
    assert!(tails.iter().any(|t| *t != vec![0; 16]));
}

#[test]
fn operands_are_tried_as_they_are_first() {
    let mut buf = b"..ab..".to_vec();
    assert!(replace_operand_at(&mut buf, 0, &b"ab".to_vec(), &b"XYZ".to_vec()));
    assert_eq!(buf, b"..XYZ..");
    let mut buf = b"..ba..".to_vec();
    assert!(replace_operand_at(&mut buf, 0, &b"ab".to_vec(), &b"XYZ".to_vec()));
    assert_eq!(buf, b"..ZYX..");
    let mut rng = rand::thread_rng();
    let mut buf = b"ab".to_vec();
    assert!(!match_and_replace_input(&mut buf, &b"a".to_vec(), &b"XYZ".to_vec(), &mut rng));
    assert!(match_and_replace_input(&mut buf, &b"ab".to_vec(), &b"XY".to_vec(), &mut rng));
    assert_eq!(buf, b"XY");
}

#[test]
fn direct_copy_stage_has_its_order() {
    let mut rng = rand::thread_rng();
    let mut g = global();
    let mut h = handler(b"ab");
    let mut t = TaintFuzz::new(1, false);
    t.begin(300, &h.operands);
    assert_eq!(t.rounds_left, 0);
    assert_eq!(t.next_step(&h, &g, &mut rng), TaintStep::Done);
    h.operands.direct_copy_pairs.push((b"ab".to_vec(), b"XY".to_vec()));
    h.operands.index_to_branch_dict.push(1);
    t.begin(16, &h.operands);
    assert_eq!(t.rounds_left, 8);
    assert_eq!(t.next_step(&h, &g, &mut rng), TaintStep::Again);
    let n = t.stack_left;
    assert!(n == 2 || n == 4 || n == 8 || n == 16);
    for _ in 0..n {
        assert_eq!(t.next_step(&h, &g, &mut rng), TaintStep::Again);
    }
    assert!(t.mutated);
    assert_eq!(t.work, b"ab");
    assert_eq!(t.next_step(&h, &g, &mut rng), TaintStep::Run);
    assert_eq!(t.rounds_left, 7);

    let mut info = g.get_info(1);
    info.mutate_func = Some(42);
    g.set_info(1, info);
    let mut t = TaintFuzz::new(1, true);
    t.begin(300, &h.operands);
    let mut called = false;
    for _ in 0..200 {
        if let TaintStep::Call { func, index } = t.next_step(&h, &g, &mut rng) {
            assert_eq!((func, index), (42, 0));
            called = true;
            break;
        }
    }
    assert!(called);
    let new = Ok((1, b"new".to_vec()));
    assert!(t.function_done(new, &h.operands, 0, &mut g, &mut rng));
    assert_eq!(t.work, b"new");
    assert!(t.mutated);
    t.mutated = false;
    assert!(!t.function_done(Ok((0, b"other".to_vec())), &h.operands, 0, &mut g, &mut rng));
    assert_eq!(t.work, b"new");
    assert!(!t.mutated);
    assert_eq!(g.get_info(1).mutate_func, Some(42));

    // After a failure the operands are exchanged, and the function is dropped.
    let failures = [
        Ok((-1, b"other".to_vec())),
        Ok((7, b"other".to_vec())),
        Err(MutationError::Timeout),
        Err(MutationError::WorkerCrashed),
    ];
    for failure in failures {
        g.set_info(1, info);
        t.work = b"ab".to_vec();
        t.mutated = false;
        assert!(t.function_done(failure.clone(), &h.operands, 0, &mut g, &mut rng));
        assert_eq!(t.work, b"XY");
        assert!(t.mutated);
        assert_eq!(g.get_info(1).mutate_func, None);

        t.work = b"cd".to_vec();
        t.mutated = false;
        assert!(!t.function_done(failure, &h.operands, 0, &mut g, &mut rng));
        assert_eq!(t.work, b"cd");
        assert!(!t.mutated);
    }
    g.set_info(1, info);
    g.disable_function(1);
    assert_eq!(g.get_info(1).mutate_func, None);
}

#[test]
fn draws_decide_on_changes() {
    let mut g = global();
    let mut h = handler(b"..ab..ab");
    h.operands.direct_copy_pairs.push((b"zz".to_vec(), b"yy".to_vec()));
    h.operands.index_to_branch_dict.push(2);
    h.operands.direct_copy_pairs.push((b"ab".to_vec(), b"XY".to_vec()));
    h.operands.index_to_branch_dict.push(1);
    let mut t = TaintFuzz::new(1, true);
    for (power, depth) in [(0, 2), (1, 4), (2, 8), (3, 16)] {
        t.rounds_left = 3;
        t.mutated = true;
        t.begin_input(&h.buf, power);
        assert_eq!((t.rounds_left, t.stack_left, t.mutated), (2, depth, false));
        assert_eq!(t.work, h.buf);
    }
    // No function is known yet.
    assert_eq!(t.change_by(&h.operands, &g, 1, true, 3), TaintStep::Again);
    assert_eq!(t.work, b"..ab..XY");
    assert!(t.mutated);
    let mut info = g.get_info(1);
    info.mutate_func = Some(7);
    g.set_info(1, info);
    // A function that is known is asked for whenever it is wanted.
    assert_eq!(t.change_by(&h.operands, &g, 1, true, 0), TaintStep::Call { func: 7, index: 1 });
    assert_eq!(t.work, b"..ab..XY");
    assert_eq!(t.change_by(&h.operands, &g, 1, false, 0), TaintStep::Again);
    assert_eq!(t.work, b"..XY..XY");
    t.mutated = false;
    assert_eq!(t.change_by(&h.operands, &g, 0, true, 0), TaintStep::Again);
    assert_eq!(t.work, b"..XY..XY");
    assert!(!t.mutated);
    assert_eq!(t.stack_left, 12);
    t.work = vec![0; 1048577];
    assert_eq!(t.change_by(&h.operands, &g, 1, true, 0), TaintStep::Again);
    t.work = vec![0; 1048576];
    assert_eq!(t.change_by(&h.operands, &g, 1, true, 0), TaintStep::Call { func: 7, index: 1 });
    t.use_llm = false;
    assert_eq!(t.change_by(&h.operands, &g, 1, true, 0), TaintStep::Again);
}

#[test]
fn trims_keep_what_matters() {
    // The bytes from the 32nd on do not matter.
    let seed: Vec<u8> = (0..100).collect();
    let hash = |buf: &[u8]| if buf.len() >= 32 && buf[..32] == seed[..32] { 1u64 } else { 2 };
    let mut trim = Trim::with_hash(seed.clone(), 1);
    assert_eq!(trim.len_p2, 128);
    assert_eq!(trim.phase, TrimPhase::Suffix { open: 100 });
    let mut runs = 0;
    while let Some(input) = trim.next_input() {
        let h = hash(&input);
        trim.judge_hash(input, h);
        runs += 1;
        assert!(runs < 1000);
    }
    assert!(trim.need_write);
    assert_eq!(trim.buf, seed[..32].to_vec());
    assert_eq!(trim.len_p2, 32);

    // Only the last ten bytes matter.
    let mut trim = Trim::with_hash(seed.clone(), 1);
    while let Some(input) = trim.next_input() {
        let h = if input.ends_with(&seed[90..]) { 1 } else { 2 };
        trim.judge_hash(input, h);
    }
    assert!(trim.need_write);
    assert_eq!(trim.buf, seed[90..].to_vec());

    // The first ten and the last ten bytes matter.
    let mut trim = Trim::with_hash(seed.clone(), 1);
    while let Some(input) = trim.next_input() {
        let ends = input.starts_with(&seed[..10]) && input.ends_with(&seed[90..]);
        trim.judge_hash(input, if ends { 1 } else { 2 });
    }
    assert_eq!(trim.buf, [&seed[..12], &seed[88..]].concat());

    let mut trim = Trim::with_hash(seed.clone(), 1);
    while let Some(input) = trim.next_input() {
        trim.judge_hash(input, 2);
    }
    assert!(!trim.need_write);
    assert_eq!(trim.buf, seed);
}

#[test]
fn trims_go_by_the_map() {
    let map = vec![1u8; 64];
    let other = vec![2u8; 64];
    let mut trim = Trim::new(vec![0; 40], &map);
    let input = trim.next_input().unwrap();
    assert_eq!(input.len(), 20);
    trim.judge(input, &map);
    assert_eq!(trim.buf.len(), 20);
    assert_eq!(trim.phase, TrimPhase::Suffix { open: 20 });
    assert!(trim.need_write);
    let input = trim.next_input().unwrap();
    assert_eq!(input.len(), 10);
    trim.judge(input, &other);
    assert_eq!(trim.buf.len(), 20);
    assert_eq!(trim.phase, TrimPhase::Suffix { open: 10 });
    assert!(trim.need_write);
}

#[test]
fn stages_run_in_order() {
    let s = SearchServer::new(false, 1, true);
    assert!(s.taint.use_llm);
    let h = handler(b"x");
    let mut stage = None;
    let mut seen = Vec::new();
    while let Some(next) = s.mutate(&h, stage) {
        seen.push(next);
        stage = Some(next);
    }
    assert_eq!(
        seen,
        vec![
            FuzzType::ExploitFuzz,
            FuzzType::TaintFuzz,
            FuzzType::LenFuzz,
            FuzzType::DirectCopyFuzz,
            FuzzType::AFLFuzz
        ]
    );
    assert_eq!(s.mutate(&handler(b""), None), None);
}
