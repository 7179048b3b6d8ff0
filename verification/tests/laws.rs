use bulbasaur::binary64::{scaled_by, SIX_FIFTHS};
use bulbasaur::branches::frontier::sum_matches;
use bulbasaur::branches::paths::{get_path, unseen_edges};
use bulbasaur::config::MAX_RETRY_COUNT;
use bulbasaur::depot::{FavorQueue, SeedInfo};
use bulbasaur::executor::exam::{Exam, ExamAction};
use bulbasaur::llm_loop::{is_due, read_list_line, write_impossible_branch, ListLine};
use bulbasaur::mutate_func::BranchMutateInfo;
use bulbasaur::search::SearchHandler;
use bulbasaur::search::handler::TWO;
use bulbasaur::search::trim::{Trim, TrimPhase};
use bulbasaur::status::StatusType;
use bulbasaur::text::{chars_of, decimal_string, parse_unsigned, Class};

#[test]
fn scaling_keeps_the_order() {
    let mut last = 0;
    for x in [0usize, 1, 2, 9, 10, 11, 1000, (1 << 53) - 1, 1 << 53, (1 << 53) + 1, 1 << 60] {
        let now = scaled_by(x, SIX_FIFTHS, 52);
        assert!(last <= now);
        last = now;
    }
    for x in [0usize, 1, 7, 1 << 40, (1 << 53) - 1] {
        assert_eq!(scaled_by(x, TWO, 52), 2 * x);
    }
}

#[test]
fn trimming_comes_to_an_end() {
    for accepts in [true, false] {
        let mut trim = Trim::with_hash(vec![7; 1000], 1);
        let mut rounds = 0;
        while let Some(input) = trim.next_input() {
            trim.judge_hash(input, if accepts { 1 } else { 2 });
            rounds += 1;
            assert!(rounds < 1000);
        }
        assert_eq!(trim.need_write, accepts);
        assert_eq!(trim.buf.len(), if accepts { 1 } else { 1000 });
    }
}

#[test]
fn bisections_remove_the_most() {
    for most in 0..100usize {
        // Up to `most` bytes at the end do not matter.
        let mut trim = Trim::with_hash(vec![7; 100], 1);
        while matches!(trim.phase, TrimPhase::Suffix { .. }) {
            let input = trim.next_input().unwrap_or_default();
            if !matches!(trim.phase, TrimPhase::Suffix { .. }) {
                break;
            }
            let same = input.len() >= 100 - most;
            trim.judge_hash(input, if same { 1 } else { 2 });
        }
        assert_eq!(trim.buf.len(), 100 - most);
    }
}

#[test]
fn matches_add_up_to_no_more_than_the_best() {
    let map = vec![(1u16 << 10) | 1023; 8];
    assert_eq!(sum_matches(&map, 1), 1 + 8 * 1023);
    assert_eq!(sum_matches(&map[..7], 0), 4 * 1023);
}

#[test]
fn unseen_edges_lie_on_the_path() {
    let path = get_path(&[1, 0, 3, 0, 0, 9, 1, 1], &vec![0], &vec![8]);
    let unseen = unseen_edges(&path[0], &vec![255, 255, 0, 255, 255, 1, 255, 255]);
    assert_eq!(unseen, vec![(0, 1), (6, 1), (7, 1)]);
    assert!(unseen.iter().all(|e| path[0].contains(e)));
}

#[test]
fn written_numbers_are_read_back() {
    for n in [0u64, 9, 10, 378, u64::MAX] {
        let text = decimal_string(n);
        let chars = chars_of(&text);
        assert!(chars.iter().all(|c| Class::Digit.has(*c) && Class::Solid.has(*c)));
        assert_eq!(parse_unsigned(&chars, u64::MAX), Some(n));
    }
}

#[test]
fn listed_branches_are_read_back_once() {
    let line = write_impossible_branch(&Vec::new(), 41).unwrap();
    assert_eq!(read_list_line(&line, 42), ListLine::Branch { id: 41 });
    assert_eq!(write_impossible_branch(&vec![line], 41), None);
    let last = write_impossible_branch(&Vec::new(), usize::MAX).unwrap();
    assert_eq!(last, usize::MAX.to_string());
    let lines = vec!["x".to_string(), last, String::new()];
    assert_eq!(write_impossible_branch(&lines, usize::MAX), None);
    assert_eq!(write_impossible_branch(&lines, usize::MAX - 1), Some((usize::MAX - 1).to_string()));
}

#[test]
fn spent_branches_are_left_alone() {
    let info = BranchMutateInfo {
        mutate_func: None,
        is_covered: false,
        reach_time: 1,
        retry_count: MAX_RETRY_COUNT - 1,
    };
    assert!(is_due(&info, 100_000));
    let spent = BranchMutateInfo { retry_count: MAX_RETRY_COUNT, ..info };
    assert!(!is_due(&spent, usize::MAX));
}

#[test]
fn examinations_come_to_an_end() {
    let mut exam = Exam::new(StatusType::Normal, true, true);
    let mut steps = 0;
    loop {
        match exam.action() {
            ExamAction::RunFast => exam.note_run(StatusType::Normal, true),
            ExamAction::Update => assert!(exam.note_update(true)),
            ExamAction::RunFull => exam.note_run(StatusType::Normal, true),
            ExamAction::UpdateBoundary => exam.note_boundary(),
            ExamAction::Done => break,
        }
        steps += 1;
        assert!(steps < 30);
    }
    assert_eq!(steps, 6 + 1 + 1 + 6 + 1);
}

#[test]
fn better_seeds_never_score_less() {
    let values = [0usize, 1, 10, 24, 25, 34, 49, 51, 100, 134, 201, 401, 1001];
    let score = |time: usize, edges: usize| {
        let info = SeedInfo { exec_time_us: time, ..SeedInfo::new(1, edges) };
        let h = SearchHandler::new(info, b"x".to_vec());
        let r = h.calculate_score(100.0f32.to_bits(), 100.0f32.to_bits());
        assert!(10 <= r && r <= 300);
        r
    };
    for &other in &values {
        for pair in values.windows(2) {
            assert!(score(pair[0], other) >= score(pair[1], other));
            assert!(score(other, pair[0]) <= score(other, pair[1]));
        }
    }
    assert_eq!(score(10, 1001), 300);
    assert_eq!(score(1001, 10), 10);
}

#[test]
fn fresh_seeds_take_turns() {
    let mut q = FavorQueue::new();
    for (seed, now) in [(5, 30), (2, 10), (9, 20)] {
        q.insert(SeedInfo::new(seed, 1), seed, now);
    }
    for _ in 0..2 {
        let order: Vec<usize> = (0..3).map(|_| q.peek_top().seed_id).collect();
        assert_eq!(order, vec![2, 9, 5]);
        assert_eq!(q.len(), 3);
    }
}
