use bulbasaur::depot::depot_dir::join;
use bulbasaur::depot::{clip_seed, sync_depot, BranchPriority, Depot, DepotDir, FavorQueue, SeedInfo};
use bulbasaur::status::StatusType;

fn depot() -> Depot {
    Depot::new("seeds".to_string(), "out", Vec::new())
}

#[test]
fn ranks_count_picks_first() {
    let p = BranchPriority::new(5);
    let q = p.branch_inc();
    assert_eq!(q.key().0, p.key().0 - 1);
    assert_eq!(BranchPriority::from_key(q.key()), q);
}

#[test]
fn seeds_leave_with_their_last_item() {
    let mut q = FavorQueue::new();
    let a = SeedInfo::new(1, 0);
    let b = SeedInfo::new(2, 0);
    q.insert(a, 10, 1);
    q.insert(a, 11, 2);
    q.insert(b, 12, 3);
    assert_eq!(q.len(), 2);
    q.replace(a, b, 10, 4);
    assert_eq!(q.len(), 2);
    q.replace(a, b, 11, 5);
    assert_eq!(q.len(), 1);
    q.remove_item(&[b], 10);
    q.remove_item(&[b], 11);
    assert_eq!(q.len(), 1);
    q.remove_item(&[b], 12);
    assert_eq!(q.len(), 0);
}

#[test]
fn seeds_take_turns() {
    let mut q = FavorQueue::new();
    q.insert(SeedInfo::new(1, 0), 10, 1);
    q.insert(SeedInfo::new(2, 0), 11, 2);
    q.insert(SeedInfo::new(3, 0), 12, 3);
    let order: Vec<usize> = (0..6).map(|_| q.peek_top().seed_id).collect();
    assert_eq!(order[..3], [1, 2, 3]);
    assert_eq!(order[3..], [1, 2, 3]);
}

#[test]
fn inputs_are_numbered_by_kind() {
    let mut d = depot();
    assert!(d.empty());
    assert_eq!(d.save(StatusType::Normal), 1);
    assert_eq!(d.save(StatusType::Normal), 2);
    assert_eq!(d.save(StatusType::Timeout), 1);
    assert_eq!(d.save(StatusType::Crash), 1);
    assert_eq!(d.save(StatusType::Skip), 0);
    assert_eq!((d.num_inputs, d.num_hangs, d.num_crashes), (2, 1, 1));
    assert_eq!([d.input_at(0), d.input_at(1), d.input_at(2), d.input_at(7)], [1, 2, 1, 2]);
    assert_eq!([d.input_except_at(4, 1), d.input_except_at(4, 2)], [2, 1]);
    assert_eq!([d.input_except_at(4, 9), d.input_except_at(5, 0)], [1, 2]);
    for _ in 0..50 {
        assert!((1..=2).contains(&d.next_random()));
        assert_eq!(d.next_random_except(1), 2);
        assert_eq!(d.next_random_except(2), 1);
        assert!((1..=2).contains(&d.next_random_except(9)));
    }
    d.save(StatusType::Normal);
    d.save(StatusType::Normal);
    let others: Vec<usize> = (0..4).map(|draw| d.input_except_at(draw, 2)).collect();
    assert_eq!(others, vec![1, 3, 4, 1]);
}

#[test]
fn an_empty_queue_is_passed_over() {
    let mut d = depot();
    d.save(StatusType::Normal);
    d.edge_insert_favor_seed(SeedInfo::new(1, 0), 4, 0, 1);
    assert_eq!(d.get_top_seed(0).0, 1);
    d.branch_insert_favor_seed(SeedInfo::new(1, 0), 4, 0, 1);
    assert_eq!(d.get_top_seed(0).0, 0);
    assert_eq!(d.get_top_seed(1).0, 1);
    d.branch_covered(&[SeedInfo::new(1, 0)], 4);
    assert_eq!(d.get_branch_priority_num(), 0);
    assert_eq!(d.get_top_seed(0).0, 1);
}

#[test]
fn rewards_fade() {
    let mut d = depot();
    let before = d.queue_rewards.clone();
    d.update_beta_values_in_depot(0, (1000, 50));
    assert_eq!(d.queue_rewards[0], (before[0].0 + 1000, before[0].1 + 50));
    let (a, b) = d.queue_rewards[0];
    d.update_beta_values_in_depot(1, (0, 0));
    assert_eq!(d.queue_rewards[0].0, (a as f64 * 0.99) as usize);
    assert_eq!(d.queue_rewards[0].1, (b as f64 * 0.99) as usize);
}

#[test]
fn directories_are_laid_out() {
    let dirs = DepotDir::new("in".to_string(), "out/");
    assert_eq!(dirs.inputs_dir, "out/queue");
    assert_eq!(dirs.hangs_dir, "out/hangs");
    assert_eq!(dirs.crashes_dir, "out/crashes");
    assert_eq!(dirs.seeds_dir, "in");
    assert_eq!(join("a", "b"), "a/b");
}

#[test]
fn initial_seeds_are_timed() {
    assert_eq!(sync_depot(&vec![(true, 10), (false, 99), (true, 31)]), (31, 20));
    assert_eq!(sync_depot(&vec![(false, 99)]), (0, 0));
    let mut long = vec![1u8; 1048577];
    assert!(clip_seed(&mut long));
    assert_eq!(long.len(), 1048576);
    assert!(!clip_seed(&mut long));
}
