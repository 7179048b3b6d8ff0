use bulbasaur::binary64::{scaled_by, timeout_of, Binary64, SIX_FIFTHS};
use bulbasaur::branches::global::check_tables;
use bulbasaur::branches::lookup::{branch_lookup, bucket_context, edge_lookup};
use bulbasaur::branches::paths::{get_path, get_raw_full_path, unseen_edges};
use bulbasaur::branches::tracker::check_report;
use bulbasaur::branches::{BranchType, Branches, GlobalBranches, MapSizeData};
use bulbasaur::chunks::{
    chunk_of, chunk_order_from, coprime_steps, create_chunks, find_chunk_and_local_idx,
    random_chunk_order,
};
use bulbasaur::depot::{Depot, SeedInfo};
use bulbasaur::stats::LocalStats;
use bulbasaur::status::StatusType;
use std::collections::HashMap;

fn global() -> GlobalBranches {
    let fast = MapSizeData::new(50, 64, 4, 64);
    let mut dict = HashMap::new();
    dict.insert(10, 1);
    dict.insert(11, 1);
    dict.insert(12, 2);
    let mut types = HashMap::new();
    types.insert(3, BranchType::StrcmpNonTerm);
    assert!(check_tables(&fast, &fast, &dict, &types, &HashMap::new()));
    GlobalBranches::new(3, fast, fast, fast, dict, types, HashMap::new())
}

fn depot() -> Depot {
    Depot::new("seeds".to_string(), "out", Vec::new())
}

struct Run {
    found: (bool, bool, usize, bool),
}

fn run(
    b: &mut Branches,
    g: &mut GlobalBranches,
    d: &mut Depot,
    stats: &mut LocalStats,
    trace: &[u8],
    frontier: &[u16],
    len: usize,
) -> Run {
    let mut rng = rand::thread_rng();
    let mut seed = SeedInfo::default();
    seed.len = len;
    seed.exec_time_us = 10;
    let (flag, path, writes) = b.has_new_edge(g, trace, StatusType::Normal, seed, &mut rng);
    let found = b.update_edges_and_branches(
        g,
        d,
        frontier,
        StatusType::Normal,
        stats,
        flag,
        &path,
        &writes,
        false,
        &mut rng,
        7,
    );
    Run { found }
}

#[test]
fn hit_counts_have_buckets() {
    let expected = [(0, 0), (1, 1), (2, 2), (3, 4), (4, 8), (7, 8), (8, 16), (15, 16), (16, 32)];
    for (v, b) in expected {
        assert_eq!(edge_lookup(v), b);
    }
    assert_eq!(edge_lookup(31), 32);
    assert_eq!(edge_lookup(32), 64);
    assert_eq!(edge_lookup(127), 64);
    assert_eq!(edge_lookup(128), 128);
    assert_eq!(edge_lookup(255), 128);
    for (v, c) in [(1, 1), (3, 3), (4, 4), (6, 4), (7, 5), (12, 5), (13, 6), (20, 6), (21, 7)] {
        assert_eq!(branch_lookup(v), c);
    }
    assert_eq!(branch_lookup(35), 7);
    assert_eq!(branch_lookup(36), 8);
    assert_eq!(branch_lookup(63), 8);
    for i in 0..8 {
        assert_eq!(bucket_context(1 << i), i);
    }
}

#[test]
fn paths_show_what_was_hit() {
    let mut trace = vec![0u8; 10];
    trace[1] = 1;
    trace[7] = 5;
    let path = get_path(&trace, &vec![0, 4, 7], &vec![4, 7, 10]);
    assert_eq!(path, vec![vec![(1, 1)], vec![], vec![(0, 8)]]);
    assert_eq!(get_raw_full_path(&trace), vec![(1, 1), (7, 5)]);
    let seen = vec![255u8, 254, 255, 255];
    assert_eq!(unseen_edges(&vec![(1, 1), (2, 1)], &seen), vec![(2, 1)]);
}

#[test]
fn chunks_tile_the_map() {
    let (chunks, start, end) = create_chunks(7u8, 10, 3);
    assert_eq!(start, vec![0, 4, 7]);
    assert_eq!(end, vec![4, 7, 10]);
    assert_eq!(chunks, vec![vec![7; 4], vec![7; 3], vec![7; 3]]);
    assert_eq!(chunk_of(&start, 6), 1);
    assert_eq!(find_chunk_and_local_idx(6, &start, &end, 3), Some((1, 2)));
    assert_eq!(find_chunk_and_local_idx(10, &start, &end, 3), None);
}

#[test]
fn walks_visit_every_chunk() {
    assert_eq!(coprime_steps(1), vec![1]);
    assert_eq!(coprime_steps(6), vec![1, 5]);
    assert_eq!(chunk_order_from(5, 3, 2), vec![3, 0, 2, 4, 1]);
    let mut rng = rand::thread_rng();
    for n in 1..20 {
        let mut order = random_chunk_order(&mut rng, n, &coprime_steps(n));
        order.sort();
        assert_eq!(order, (0..n).collect::<Vec<usize>>());
    }
}

#[test]
fn tables_are_checked() {
    let fast = MapSizeData::new(50, 64, 3, 64);
    let none = HashMap::new();
    assert!(!check_tables(&fast, &fast, &HashMap::new(), &none, &none));
    let mut dict = HashMap::new();
    dict.insert(1, 1);
    dict.insert(2, 2);
    assert!(check_tables(&fast, &fast, &dict, &none, &none));
    dict.insert(3, 64);
    assert!(!check_tables(&fast, &fast, &dict, &none, &none));
}

#[test]
fn new_edges_are_found_once() {
    let mut g = global();
    let mut d = depot();
    let mut b = Branches::new(&g);
    let mut stats = LocalStats::default();
    let mut trace = vec![0u8; 64];
    trace[3] = 1;
    trace[60] = 2;
    let frontier = vec![0u16; 64];
    let first = run(&mut b, &mut g, &mut d, &mut stats, &trace, &frontier, 10);
    assert_eq!(first.found, (true, true, 2, false));
    assert_eq!(g.cov_edges, 2);
    assert_eq!(d.num_inputs, 1);
    assert_eq!(stats.num_inputs.0, 1);
    assert_eq!(d.get_bit_priority_num(), 1);
    let again = run(&mut b, &mut g, &mut d, &mut stats, &trace, &frontier, 10);
    assert_eq!(again.found, (false, false, 2, false));
    assert_eq!(d.num_inputs, 1);
    trace[3] = 9;
    let bucket = run(&mut b, &mut g, &mut d, &mut stats, &trace, &frontier, 10);
    assert_eq!(bucket.found, (true, false, 2, false));
    assert_eq!(g.cov_edges, 2);
    assert_eq!(g.get_edge_stats(), (2, 50, 400));
}

#[test]
fn closer_runs_are_kept() {
    let mut g = global();
    let mut d = depot();
    let mut b = Branches::new(&g);
    let mut stats = LocalStats::default();
    let trace = vec![0u8; 64];
    let mut frontier = vec![0u16; 64];
    frontier[1] = (1 << 10) | 100;
    let first = run(&mut b, &mut g, &mut d, &mut stats, &trace, &frontier, 10);
    assert!(first.found.3);
    assert_eq!(g.get_reached_branches(), 1);
    assert_eq!(d.get_branch_priority_num(), 1);
    assert_eq!(g.get_info(1).reach_time, 7);
    let again = run(&mut b, &mut g, &mut d, &mut stats, &trace, &frontier, 10);
    assert!(!again.found.3);
    frontier[1] = (1 << 10) | 101;
    let closer = run(&mut b, &mut g, &mut d, &mut stats, &trace, &frontier, 10);
    assert!(closer.found.3);
    assert_eq!(d.get_branch_priority_num(), 1);
    assert_eq!(d.num_inputs, 2);
}

#[test]
fn sizes_and_types_are_told() {
    let fast = MapSizeData::new(50, 64, 2, 64);
    let full = MapSizeData::new(90, 128, 2, 64);
    let trace = MapSizeData::new(50, 64, 3, 8);
    let mut dict = HashMap::new();
    dict.insert(10, 1);
    let mut types = HashMap::new();
    types.insert(2, BranchType::Switch);
    let g = GlobalBranches::new(2, fast, full, trace, dict, HashMap::new(), types);
    let b = Branches::new(&g);
    assert_eq!(b.get_map_size(&g), 64);
    assert_eq!(b.get_full_map_size(&g), 128);
    assert_eq!(b.get_branch_size(&g), 64);
    assert_eq!(b.get_trace_branch_type(&g, 2), BranchType::Switch);
    assert_eq!(b.get_trace_branch_type(&g, 3), BranchType::Cmp);
    assert_eq!(b.get_branch_data(&g), (0, 0, 2, 0));
}

#[test]
fn reports_are_checked() {
    let g = global();
    let mut frontier = vec![0u16; 64];
    assert!(check_report(&g, &frontier));
    assert!(!check_report(&g, &frontier[..63]));
    frontier[1] = (1 << 10) | 5;
    assert!(check_report(&g, &frontier));
    frontier[1] = 5;
    assert!(!check_report(&g, &frontier));
    frontier[1] = 1 << 10;
    assert!(!check_report(&g, &frontier));
    frontier[1] = (1 << 10) | 1023;
    assert!(!check_report(&g, &frontier));
    frontier[1] = 0;
    frontier[3] = (1 << 10) | 1023;
    assert!(check_report(&g, &frontier));
}

#[test]
fn best_matches_cover_branches() {
    let mut g = global();
    let mut d = depot();
    let mut b = Branches::new(&g);
    let mut stats = LocalStats::default();
    let mut frontier = vec![0u16; 64];
    frontier[3] = (1 << 10) | 1023;
    run(&mut b, &mut g, &mut d, &mut stats, &[0u8; 64], &frontier, 10);
    assert_eq!(g.get_branch_stats(), (1, 4, 2500));
    assert!(g.branch_boundary[3].is_empty());
}

#[test]
fn full_runs_cover_branches() {
    let mut rng = rand::thread_rng();
    let mut g = global();
    let mut b = Branches::new(&g);
    let mut full = vec![0u8; 64];
    full[10] = 1;
    full[12] = 1;
    let (flag, mut path, mut writes) = b.has_new_full_edge(&g, &full, &mut rng);
    assert!(flag);
    assert!(!b.calibrate_edge(&g, &full, &mut path, &mut writes, true));
    assert_eq!(b.update_branch_boundary(&mut g, flag, &writes, &mut rng), 1);
    assert_eq!(g.branch_boundary[1], vec![11]);
    assert!(g.branch_boundary[2].is_empty());
    assert!(g.get_info(2).is_covered && !g.get_info(1).is_covered);
    let (flag, _, _) = b.has_new_full_edge(&g, &full, &mut rng);
    assert!(!flag);
}

#[test]
fn varying_edges_are_left_out() {
    let mut rng = rand::thread_rng();
    let g = global();
    let mut b = Branches::new(&g);
    let mut trace = vec![0u8; 64];
    trace[3] = 1;
    trace[5] = 1;
    let (flag, mut path, mut writes) =
        b.has_new_edge(&g, &trace, StatusType::Normal, SeedInfo::default(), &mut rng);
    assert!(flag);
    trace[5] = 0;
    assert!(b.calibrate_edge(&g, &trace, &mut path, &mut writes, false));
    assert_eq!(path[0], vec![(3, 1), (5, 255)]);
    assert_eq!(writes[0], vec![(3, 1), (5, 255)]);
}

#[test]
fn doubles_are_computed_exactly() {
    for (x, c) in [(100usize, 120usize), (5, 6), (7, 8), (1000003, 1200003)] {
        assert_eq!(scaled_by(x, SIX_FIFTHS, 52), (x as f64 * 1.2) as usize);
        assert_eq!(scaled_by(x, SIX_FIFTHS, 52), c);
    }
    for us in [0usize, 1, 416, 417, 12345, 999999, 123456789] {
        assert_eq!(timeout_of(us), (us as f64 * 1.2 / 1000.0).round() as u64);
    }
    let third = Binary64::quotient_of(1, 3);
    let half = Binary64::quotient_of(1, 2);
    assert!(third.less(&half));
    assert!(!half.less(&half));
}
