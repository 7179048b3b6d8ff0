use bulbasaur::branches::{GlobalBranches, MapSizeData};
use bulbasaur::llm_loop::{
    branch_of_library, choose_requests, collect_requests, default_so_path, find_latest, func_name,
    is_due, load_impossible_branches, note_loaded, parse_response, preload_of, read_list_line,
    request_bytes, so_path_in, take_loaded, take_reply, test_load_mutation_function_from_path,
    wait_for_library, write_impossible_branch, ListLine, Preload, Reply, ReplyAction, Request,
    Response, WaitStep,
};
use bulbasaur::text::Class;
use std::collections::HashMap;

const SIX_HOURS: usize = 21600;

fn global() -> GlobalBranches {
    let fast = MapSizeData::new(50, 64, 4, 64);
    let mut dict = HashMap::new();
    dict.insert(10, 1);
    dict.insert(11, 2);
    dict.insert(12, 2);
    dict.insert(13, 3);
    let none = HashMap::new();
    GlobalBranches::new(2, fast, fast, fast, dict, none.clone(), none)
}

fn reach(g: &mut GlobalBranches, b: usize, time: usize) {
    let mut info = g.get_info(b);
    info.reach_time = time;
    g.set_info(b, info);
}

#[test]
fn test_load_function_wrapper() {
    assert_eq!(test_load_mutation_function_from_path("libmut_branch_378.so"), Ok(378));
}

#[test]
fn branches_fall_due() {
    let mut g = global();
    reach(&mut g, 1, 100);
    let info = g.get_info(1);
    assert!(!is_due(&info, 100 + SIX_HOURS));
    assert!(is_due(&info, 101 + SIX_HOURS));
    assert!(!is_due(&g.get_info(2), usize::MAX));
    let mut covered = info;
    covered.is_covered = true;
    assert!(!is_due(&covered, usize::MAX));
    let mut tried = info;
    tried.retry_count = 2;
    assert!(!is_due(&tried, usize::MAX));
}

#[test]
fn open_branches_are_requested() {
    let mut g = global();
    reach(&mut g, 1, 1);
    reach(&mut g, 2, 1);
    reach(&mut g, 3, 1);
    let now = 10 + SIX_HOURS;
    // Branch 2 still has two edges to be seen.
    let requests = collect_requests(&g, &vec![1, 0], now);
    let ids: Vec<(usize, usize)> = requests.iter().map(|r| (r.branch_id, r.edge_id)).collect();
    assert_eq!(ids, vec![(1, 10), (3, 13)]);
    assert_eq!(request_bytes(&requests[0]), b"1 1 10\n");
    let mut rng = rand::thread_rng();
    assert_eq!(choose_requests(&g, &mut rng, now).len(), 2);
    assert!(choose_requests(&g, &mut rng, 5).is_empty());
}

#[test]
fn requests_are_written() {
    let r = Request { chunk_idx: 0, local_idx: 0, branch_id: 378, edge_id: 9001 };
    assert_eq!(request_bytes(&r), b"1 378 9001\n");
}

#[test]
fn answers_are_understood() {
    assert!(matches!(parse_response(" 0 7 /tmp/x.so \n", 7), Response::Load { path } if path == "/tmp/x.so"));
    assert!(matches!(parse_response("0 7", 7), Response::LoadDefault));
    assert!(matches!(parse_response("0 8", 7), Response::Failed));
    assert!(matches!(parse_response("0 x", 7), Response::Failed));
    assert!(matches!(parse_response("0 7 a b", 7), Response::Failed));
    assert!(matches!(parse_response("1 0", 7), Response::Impossible));
    assert!(matches!(parse_response("1 1", 7), Response::Failed));
    assert!(matches!(parse_response("", 7), Response::Failed));
    assert!(matches!(parse_response("\u{2003}0\u{2003}7", 7), Response::LoadDefault));
}

#[test]
fn replies_change_what_is_known() {
    let mut g = global();
    assert!(matches!(take_reply(&mut g, 1, Reply::NotSent), ReplyAction::Next));
    assert!(matches!(take_reply(&mut g, 1, Reply::Closed), ReplyAction::Stop));
    assert_eq!(g.get_info(1).retry_count, 0);
    assert!(matches!(take_reply(&mut g, 1, Reply::NotRead), ReplyAction::Next));
    assert_eq!(g.get_info(1).retry_count, 1);
    assert!(matches!(take_reply(&mut g, 1, Reply::Text { text: "0 1" }), ReplyAction::LoadDefault));
    assert!(matches!(take_reply(&mut g, 1, Reply::Text { text: "0 1 p" }), ReplyAction::Load { path } if path == "p"));
    assert_eq!(g.get_info(1).retry_count, 1);
    assert!(matches!(take_reply(&mut g, 3, Reply::Text { text: "1 0" }), ReplyAction::Record));
    assert_eq!(g.get_info(3).retry_count, 2);
    assert!(matches!(take_reply(&mut g, 1, Reply::Text { text: "what" }), ReplyAction::Next));
    assert_eq!(g.get_info(1).retry_count, 2);
}

#[test]
fn loaded_functions_are_noted() {
    let mut g = global();
    note_loaded(&mut g, 2, 5, true, 99);
    assert_eq!(g.get_info(2).mutate_func, Some(5));
    assert_eq!(g.get_info(2).reach_time, 0);
    take_loaded(&mut g, 2, Some(6), false, 99);
    assert_eq!(g.get_info(2).mutate_func, Some(6));
    assert_eq!(g.get_info(2).reach_time, 99);
    assert_eq!(g.get_info(2).retry_count, 2);
    take_loaded(&mut g, 1, None, true, 99);
    assert_eq!(g.get_info(1).retry_count, 0);
    take_loaded(&mut g, 1, None, false, 99);
    assert_eq!(g.get_info(1).retry_count, 1);
}

#[test]
fn lists_of_given_up_branches_are_read() {
    assert_eq!(read_list_line("  3 ", 64), ListLine::Branch { id: 3 });
    assert_eq!(read_list_line(" ", 64), ListLine::Blank);
    assert_eq!(read_list_line("64", 64), ListLine::Invalid);
    assert_eq!(read_list_line("x", 64), ListLine::Invalid);
    let mut g = global();
    let lines: Vec<String> = ["3", "", "x", "3", "64"].iter().map(|s| s.to_string()).collect();
    assert_eq!(load_impossible_branches(&mut g, &lines), (2, 2));
    assert_eq!(g.get_info(3).retry_count, 2);
    assert_eq!(g.get_info(1).retry_count, 0);
    assert_eq!(write_impossible_branch(&lines, 3), None);
    assert_eq!(write_impossible_branch(&lines, 41), Some("41".to_string()));
}

#[test]
fn libraries_are_named() {
    assert_eq!(so_path_in("d", 12), "d/target/release/libmut_branch_12.so");
    assert_eq!(default_so_path("m", 12), "m/12/target/release/libmut_branch_12.so");
    assert_eq!(func_name(12), "mutate_branch_12");
    assert_eq!(branch_of_library("libmut_branch_12.so"), Some(12));
    assert_eq!(branch_of_library("xlibmut_branch_12.so.so"), Some(12));
    assert_eq!(branch_of_library("libmut_branch_.so"), None);
    assert_eq!(branch_of_library("libmut_branch_12"), None);
    let err = test_load_mutation_function_from_path("other.so").unwrap_err();
    assert!(err.contains("other.so"));
    assert_eq!(find_latest(&vec![3, 9, 9, 1]), Some(1));
    assert_eq!(find_latest(&vec![]), None);
}

#[test]
fn directories_are_preloaded() {
    let mut g = global();
    assert_eq!(preload_of(&g, "target"), Preload::Ignore);
    assert_eq!(preload_of(&g, "64"), Preload::Skip);
    assert_eq!(preload_of(&g, "2"), Preload::Load { branch_id: 2 });
    note_loaded(&mut g, 2, 5, true, 0);
    assert_eq!(preload_of(&g, "2"), Preload::Skip);
}

#[test]
fn libraries_are_waited_for() {
    assert_eq!(wait_for_library(true, 999999, false), WaitStep::Load);
    assert_eq!(wait_for_library(false, 300001, true), WaitStep::Timeout);
    assert_eq!(wait_for_library(false, 300000, false), WaitStep::Stopped);
    assert_eq!(wait_for_library(false, 300000, true), WaitStep::Sleep);
}

#[test]
fn characters_have_their_classes() {
    for code in 0u32..128 {
        let c = char::from_u32(code).unwrap();
        assert_eq!(Class::Space.has(c), c == ' ' || ('\t'..='\r').contains(&c));
        assert_eq!(Class::Word.has(c), c.is_ascii_alphanumeric() || c == '_');
        assert_eq!(Class::Solid.has(c), !Class::Space.has(c));
        assert_eq!(Class::Digit.has(c), c.is_ascii_digit());
    }
    assert!(Class::Space.has('\u{a0}'));
    assert!(!Class::Space.has('\u{e9}'));
    assert!(Class::Word.has('\u{e9}'));
    assert!(!Class::Word.has('\u{a0}'));
    assert!(Class::Assign.has('='));
    assert!(Class::Except('x').has('y'));
    assert!(!Class::Except('x').has('x'));
}

#[test]
fn library_names_tell_their_branch() {
    for id in [0usize, 7, 378, usize::MAX] {
        let path = so_path_in("dir", id);
        let name = path.rsplit('/').next().unwrap();
        assert_eq!(branch_of_library(name), Some(id));
        assert_eq!(test_load_mutation_function_from_path(name), Ok(id));
    }
}
