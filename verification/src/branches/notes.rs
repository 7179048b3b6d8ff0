//! What noting a run comes to, told cell by cell.

use super::calibrate::bucket_at;
use super::favor::{beats, lemma_entry};
use super::frontier::{
    all_ids, any_win, context_by_hits, context_of, is_frontier, match_total, whole_quads,
};
use super::global::{is_covered, GlobalBranches};
use super::lookup::{buckets_begin_at_bounds, lowest_bit};
use super::paths::{
    are_paths, chunk_has_news, in_chunk, is_news, noting_takes_out_what_was_hit,
};
use super::tracker::{frontier_of, has_map, map_for, Branches};
use super::update::{edges_view, edges_won, maps_after, RunView};
use crate::chunks::{is_chunked, is_table, owner, owner_exists, owner_is, table_shape};
use crate::depot::{Depot, SeedInfo};
use crate::stats::LocalStats;
use crate::status::StatusType;
use vstd::prelude::*;

verus! {

/// Write `i` in chunk `c` has a bit that is still set in its cell.
pub open spec fn has_bits_left(
    map: Seq<Vec<u8>>,
    writes: Seq<Vec<(usize, u8)>>,
    c: int,
    i: int,
) -> bool {
    &&& 0 <= c < map.len()
    &&& 0 <= i < writes[c]@.len()
    &&& writes[c]@[i].1 & map[c]@[writes[c]@[i].0 as int] != 0
}

/// Normal runs, timeouts and crashes have a map of their own each. A run shows
/// something new if it is to be written and one of its edges has a bit left in
/// the map for runs of its kind.
pub proof fn news_are_bits_that_are_left(run: RunView, g: &GlobalBranches)
    ensures
        run.status == StatusType::Normal ==> (run.has_news(g) <==> run.write_flag && exists|
            c: int,
            i: int,
        | #[trigger] has_bits_left(g.virgin_branches@, run.writes, c, i)),
        run.status == StatusType::Timeout ==> (run.has_news(g) <==> run.write_flag && exists|
            c: int,
            i: int,
        | #[trigger] has_bits_left(g.tmouts_branches@, run.writes, c, i)),
        run.status == StatusType::Crash ==> (run.has_news(g) <==> run.write_flag && exists|
            c: int,
            i: int,
        | #[trigger] has_bits_left(g.crashes_branches@, run.writes, c, i)),
{
    let map = map_for(g, run.status);
    let news = exists|c: int| #[trigger] chunk_has_news(map, run.writes, c);
    let bits = exists|c: int, i: int| #[trigger] has_bits_left(map, run.writes, c, i);
    if news {
        let c = choose|c: int| #[trigger] chunk_has_news(map, run.writes, c);
        let i = choose|i: int| #[trigger] is_news(map[c]@, run.writes[c]@, i);
        assert(has_bits_left(map, run.writes, c, i));
    }
    if bits {
        let (c, i) = choose|c: int, i: int| #[trigger] has_bits_left(map, run.writes, c, i);
        assert(is_news(map[c]@, run.writes[c]@, i));
        assert(chunk_has_news(map, run.writes, c));
    }
}

/// An edge is seen for the first time if all bits of its cell are still set,
/// and one of the writes hits it.
pub proof fn first_hits_are_told_by_cells(run: RunView, g: &GlobalBranches, c: int, l: int)
    requires
        0 < g.start_pos@.len(),
        is_table(
            g.start_pos@,
            g.end_pos@,
            g.fast_map_size_data.used_map_size as nat,
            g.start_pos@.len(),
        ),
        is_chunked(map_for(g, run.status), g.start_pos@, g.end_pos@),
        0 <= c < g.start_pos@.len(),
        0 <= l < g.end_pos@[c] - g.start_pos@[c],
    ensures
        run.firsts(g).contains((g.start_pos@[c] + l) as usize) <==> run.write_flag && map_for(
            g,
            run.status,
        )[c]@[l] == 255 && exists|i: int|
            0 <= i < run.writes[c]@.len() && (#[trigger] run.writes[c]@[i]).0 == l
                && run.writes[c]@[i].1 != 0,
{
    let total = g.fast_map_size_data.used_map_size as nat;
    table_shape(g.start_pos@, g.end_pos@, total, g.start_pos@.len());
    owner_is(g.start_pos@, g.end_pos@, total, g.start_pos@.len(), c, g.start_pos@[c] + l);
    let map = map_for(g, run.status);
    assert(map[c]@.len() == g.end_pos@[c] - g.start_pos@[c]);
}

/// The report tells that the run came closer to a branch than any seed before
/// it in the same context.
pub open spec fn comes_closer(g: &GlobalBranches, report: Seq<u16>, c: int, l: int) -> bool {
    let id = g.branch_start_pos@[c] + l;
    let v = report[id] as int;
    &&& 0 <= c < g.branch_start_pos@.len()
    &&& 0 <= l < g.branch_end_pos@[c] - g.branch_start_pos@[c]
    &&& id < report.len() - report.len() % 4
    &&& v > 0
    &&& g.branch_favor_map@[c]@[l]@[context_by_hits(v / 1024)].match_value < v % 1024
}

proof fn lemma_wins(g: &GlobalBranches, report: Seq<u16>, c: int, l: int)
    requires
        0 < g.branch_start_pos@.len(),
        is_table(g.branch_start_pos@, g.branch_end_pos@, report.len(), g.branch_start_pos@.len()),
        is_frontier(report),
        0 <= c < g.branch_start_pos@.len(),
        0 <= l < g.branch_end_pos@[c] - g.branch_start_pos@[c],
    ensures
        frontier_of(g, report).wins(g.branch_start_pos@[c] + l) == comes_closer(g, report, c, l),
        g.branch_start_pos@[c] + l < report.len(),
        forall|x: int|
            (#[trigger] frontier_of(g, report).cell(g.branch_start_pos@[c] + l, x))
                == g.branch_favor_map@[c]@[l]@[x],
        comes_closer(g, report, c, l) ==> context_of(report[g.branch_start_pos@[c] + l])
            == context_by_hits(report[g.branch_start_pos@[c] + l] as int / 1024),
{
    let (start, end) = (g.branch_start_pos@, g.branch_end_pos@);
    let id = start[c] + l;
    table_shape(start, end, report.len(), start.len());
    owner_is(start, end, report.len(), start.len(), c, id);
    let v = report[id];
    buckets_begin_at_bounds(1, (v / 1024) as u16);
    assert(whole_quads(report.len() as int) == report.len() - report.len() % 4);
    if id < report.len() - report.len() % 4 && v > 0 {
        assert(v / 1024 > 0);
        assert(context_of(v) == context_by_hits(v as int / 1024));
    }
}

/// A normal run comes closer if it does to any branch, and branches whose
/// operands match best are covered by that; a branch that a seed comes close to
/// for the first time is reached at that time.
pub proof fn closer_runs_are_told_by_reports(
    run: RunView,
    g: &GlobalBranches,
    c: int,
    l: int,
    now: u64,
)
    requires
        0 < g.branch_start_pos@.len(),
        is_table(
            g.branch_start_pos@,
            g.branch_end_pos@,
            run.frontier.len(),
            g.branch_start_pos@.len(),
        ),
        run.frontier.len() <= usize::MAX,
        is_frontier(run.frontier),
        0 <= c < g.branch_start_pos@.len(),
        0 <= l < g.branch_end_pos@[c] - g.branch_start_pos@[c],
    ensures
        run.is_closer(g) <==> run.status == StatusType::Normal && exists|x: int, y: int| #[trigger]
            comes_closer(g, run.frontier, x, y),
        ({
            let id = (g.branch_start_pos@[c] + l) as usize;
            let before = g.branch_mutate_funcs@[c]@[l];
            let after = frontier_of(g, run.frontier).func_after(
                g.branch_mutate_funcs@,
                now,
                all_ids(run.frontier.len() as int),
                c,
                l,
            );
            &&& run.newly(g).contains(id) <==> run.status == StatusType::Normal && comes_closer(
                g,
                run.frontier,
                c,
                l,
            ) && run.frontier[id as int] as int % 1024 == 1023 && !is_covered(
                g.global_branch_cov_map@,
                id as int,
            )
            &&& after.reach_time == if comes_closer(g, run.frontier, c, l) && before.reach_time
                == 0 {
                now as usize
            } else {
                before.reach_time
            }
            &&& after.mutate_func == before.mutate_func
            &&& after.is_covered == before.is_covered
            &&& after.retry_count == before.retry_count
        }),
{
    let (start, end) = (g.branch_start_pos@, g.branch_end_pos@);
    let f = frontier_of(g, run.frontier);
    lemma_wins(g, run.frontier, c, l);
    if any_win(f) {
        let id = choose|id: int| #[trigger] f.wins(id);
        owner_exists(start, end, run.frontier.len(), start.len(), id);
        let x = owner(start, end, id);
        lemma_wins(g, run.frontier, x, id - start[x]);
        assert(comes_closer(g, run.frontier, x, id - start[x]));
    }
    if exists|x: int, y: int| #[trigger] comes_closer(g, run.frontier, x, y) {
        let (x, y) = choose|x: int, y: int| #[trigger] comes_closer(g, run.frontier, x, y);
        lemma_wins(g, run.frontier, x, y);
        assert(f.wins(start[x] + y));
    }
    let id = (start[c] + l) as usize;
    assert(all_ids(run.frontier.len() as int).contains(id));
}

/// Entry `i` of the path through chunk `c` is covered better by the seed than
/// by any before it in the same context.
pub open spec fn covers_better_at(
    g: &GlobalBranches,
    path: Seq<Vec<(usize, u8)>>,
    seed: SeedInfo,
    c: int,
    i: int,
) -> bool {
    let (l, b) = path[c]@[i];
    let best = g.edge_favor_map@[c]@[l as int]@[lowest_bit(b)];
    &&& 0 <= c < path.len()
    &&& 0 <= i < path[c]@.len()
    &&& best.seed_id == 0 || beats(seed, best)
}

/// A normal run is better if it covers an edge of its path better; and an input
/// is kept if its run shows something new, comes closer or is better, and for
/// nothing else.
pub proof fn inputs_are_kept_for_a_reason(run: RunView, b: &Branches, g: &GlobalBranches)
    requires
        0 < g.start_pos@.len(),
        is_table(
            g.start_pos@,
            g.end_pos@,
            g.fast_map_size_data.used_map_size as nat,
            g.start_pos@.len(),
        ),
        run.status == StatusType::Normal ==> are_paths(run.path, g.start_pos@, g.end_pos@),
    ensures
        run.is_better(b, g) <==> run.status == StatusType::Normal && exists|c: int, i: int| #[trigger]
            covers_better_at(g, run.path, run.counted(b), c, i),
        run.is_kept(b, g) <==> run.has_news(g) || run.is_closer(g) || run.is_better(b, g),
{
    let total = g.fast_map_size_data.used_map_size as nat;
    let (start, end) = (g.start_pos@, g.end_pos@);
    let e = edges_view(g, run.path);
    let seed = run.counted(b);
    if run.status == StatusType::Normal {
        table_shape(start, end, total, start.len());
        if run.is_better(b, g) {
            let id = choose|id: int| 0 <= id < total && #[trigger] e.wins(seed, id);
            owner_exists(start, end, total, start.len(), id);
            let c = owner(start, end, id);
            let l = (id - start[c]) as usize;
            let i = lemma_entry_of(run.path[c]@, l);
            assert(run.path[c]@[i] == (l, e.bucket(id)));
            assert(covers_better_at(g, run.path, seed, c, i));
        }
        if exists|c: int, i: int| #[trigger] covers_better_at(g, run.path, seed, c, i) {
            let (c, i) = choose|c: int, i: int| #[trigger]
                covers_better_at(g, run.path, seed, c, i);
            lemma_entry(e, total, c, i);
            assert(e.wins(seed, start[c] + run.path[c]@[i].0));
        }
    }
}

proof fn lemma_entry_of(path: Seq<(usize, u8)>, l: usize) -> (i: int)
    requires
        bucket_at(path, l) != 0,
    ensures
        0 <= i < path.len(),
        path[i] == (l, bucket_at(path, l)),
    decreases path.len(),
{
    if path.last().0 == l {
        path.len() - 1
    } else {
        lemma_entry_of(path.drop_last(), l)
    }
}

/// An input that is kept for the first time is numbered behind those of its
/// kind; the matches of a normal run are added to those counted before; and
/// nothing else of it changes.
pub proof fn kept_inputs_are_numbered(
    run: RunView,
    b: &Branches,
    g: &GlobalBranches,
    d: &Depot,
    kind: StatusType,
)
    requires
        d.num_inputs < usize::MAX,
        d.num_hangs < usize::MAX,
        d.num_crashes < usize::MAX,
        b.seed_info.match_value_sum + match_total(
            run.frontier,
            whole_quads(run.frontier.len() as int),
        ) <= usize::MAX,
    ensures
        ({
            let seed = run.seed(b, g, d);
            let is_new = run.is_kept(b, g) && !b.insert_seed_flag;
            let count = |k: StatusType|
                if k == StatusType::Normal {
                    d.num_inputs as int
                } else if k == StatusType::Timeout {
                    d.num_hangs as int
                } else if k == StatusType::Crash {
                    d.num_crashes as int
                } else {
                    0
                };
            &&& seed.seed_id == if is_new {
                count(run.status) + 1
            } else {
                b.seed_info.seed_id as int
            }
            &&& run.saved_after(b, g, d, kind) == count(kind) + if is_new && run.status == kind {
                1int
            } else {
                0
            }
            &&& seed.len == b.seed_info.len
            &&& seed.exec_time_us == b.seed_info.exec_time_us
            &&& seed.edge_num == b.seed_info.edge_num
            &&& seed.match_value_sum == b.seed_info.match_value_sum + if run.status
                == StatusType::Normal {
                match_total(run.frontier, run.frontier.len() - run.frontier.len() % 4) as int
            } else {
                0
            }
        }),
{
    assert(whole_quads(run.frontier.len() as int) == run.frontier.len() - run.frontier.len() % 4);
}

/// What a worker counts for a run: the input by its kind and the edges that are
/// seen for the first time, if it is kept or an initial seed; and the branches
/// that are covered, if it came closer.
pub proof fn finds_are_counted(
    run: RunView,
    b: &Branches,
    g: &GlobalBranches,
    stats: LocalStats,
    sync_flag: bool,
)
    requires
        stats.has_room(1 + run.firsts(g).len() as int + run.newly(g).len() as int),
    ensures
        ({
            let after = run.stats_after(b, g, stats, sync_flag);
            let counts = b.insert_seed_flag || run.is_kept(b, g) || sync_flag;
            let one = |k: StatusType|
                if counts && run.status == k {
                    1int
                } else {
                    0
                };
            &&& after.num_inputs.0 == stats.num_inputs.0 + one(StatusType::Normal)
            &&& after.num_hangs.0 == stats.num_hangs.0 + one(StatusType::Timeout)
            &&& after.num_crashes.0 == stats.num_crashes.0 + one(StatusType::Crash)
            &&& after.num_edges.0 == stats.num_edges.0 + if counts {
                run.firsts(g).len() as int
            } else {
                0
            }
            &&& after.num_branches.0 == stats.num_branches.0 + if run.is_closer(g) {
                run.newly(g).len() as int
            } else {
                0
            }
            &&& after.num_exec == stats.num_exec
            &&& after.fuzz_type == stats.fuzz_type
        }),
{
}


/// A run wins the branches that it comes closer to, each from the seed that was
/// closest in the same context. One that no seed came close to in any context
/// is reached by it, and one whose operands match best is matched.
pub proof fn closer_runs_win_branches(g: &GlobalBranches, report: Seq<u16>, c: int, l: int)
    requires
        0 < g.branch_start_pos@.len(),
        is_table(g.branch_start_pos@, g.branch_end_pos@, report.len(), g.branch_start_pos@.len()),
        report.len() <= usize::MAX,
        is_frontier(report),
        0 <= c < g.branch_start_pos@.len(),
        0 <= l < g.branch_end_pos@[c] - g.branch_start_pos@[c],
    ensures
        ({
            let id = (g.branch_start_pos@[c] + l) as usize;
            let all = all_ids(report.len() as int);
            let f = frontier_of(g, report);
            let v = report[id as int] as int;
            let closer = comes_closer(g, report, c, l);
            let seeds = g.branch_favor_map@[c]@[l]@;
            &&& f.won(all).contains_key(id) <==> closer
            &&& closer ==> f.won(all)[id] == seeds[context_by_hits(v / 1024)].seed_id
            &&& f.reached(all).contains(id) <==> closer && forall|x: int|
                0 <= x < 8 ==> (#[trigger] seeds[x]).seed_id == 0
            &&& f.matched(all).contains(id) <==> closer && v % 1024 == 1023
        }),
{
    lemma_wins(g, report, c, l);
    let id = g.branch_start_pos@[c] + l;
    let f = frontier_of(g, report);
    let seeds = g.branch_favor_map@[c]@[l]@;
    if f.is_new(id) {
        assert forall|x: int| 0 <= x < 8 implies (#[trigger] seeds[x]).seed_id == 0 by {
            assert(f.cell(id, x).seed_id == 0);
        }
    }
    assert(all_ids(report.len() as int).contains(id as usize));
}

/// A run wins the edges of its path that it covers better, each from the seed
/// that was best in the same context.
pub proof fn better_runs_win_edges(
    g: &GlobalBranches,
    path: Seq<Vec<(usize, u8)>>,
    seed: SeedInfo,
    c: int,
    i: int,
)
    requires
        0 < g.start_pos@.len(),
        is_table(
            g.start_pos@,
            g.end_pos@,
            g.fast_map_size_data.used_map_size as nat,
            g.start_pos@.len(),
        ),
        are_paths(path, g.start_pos@, g.end_pos@),
        0 <= c < path.len(),
        0 <= i < path[c]@.len(),
    ensures
        ({
            let (l, b) = path[c]@[i];
            let id = (g.start_pos@[c] + l) as usize;
            let won = edges_won(g, path, seed);
            &&& won.contains_key(id) <==> covers_better_at(g, path, seed, c, i)
            &&& won.contains_key(id) ==> won[id]
                == g.edge_favor_map@[c]@[l as int]@[lowest_bit(b)].seed_id
        }),
{
    let total = g.fast_map_size_data.used_map_size as nat;
    table_shape(g.start_pos@, g.end_pos@, total, g.start_pos@.len());
    lemma_entry(edges_view(g, path), total, c, i);
    let l = path[c]@[i].0;
    assert(all_ids(total as int).contains((g.start_pos@[c] + l) as usize));
}

/// A run is noted in the map for runs of its kind alone: there, a cell loses
/// the bits of what is written to it and no others. Without anything to write
/// nothing changes.
pub proof fn runs_are_noted_in_their_own_map(
    g0: &GlobalBranches,
    g1: &GlobalBranches,
    run: RunView,
    c: int,
    l: int,
    mask: u8,
)
    requires
        maps_after(g0, g1, run),
        0 <= c < g0.n(),
        in_chunk(run.writes[c]@, map_for(g0, run.status)[c]@.len() as int),
        0 <= l < map_for(g0, run.status)[c]@.len(),
    ensures
        run.status == StatusType::Normal ==> g1.tmouts_branches@ == g0.tmouts_branches@
            && g1.crashes_branches@ == g0.crashes_branches@,
        run.status == StatusType::Timeout ==> g1.virgin_branches@ == g0.virgin_branches@
            && g1.crashes_branches@ == g0.crashes_branches@,
        run.status == StatusType::Crash ==> g1.virgin_branches@ == g0.virgin_branches@
            && g1.tmouts_branches@ == g0.tmouts_branches@,
        ({
            let before = map_for(g0, run.status)[c]@[l];
            let after = map_for(g1, run.status)[c]@[l];
            let w = run.writes[c]@;
            &&& !run.write_flag ==> after == before
            &&& (forall|i: int|
                0 <= i < w.len() && (#[trigger] w[i]).0 == l ==> w[i].1 & mask == 0) ==> after
                & mask == before & mask
            &&& run.write_flag && (exists|i: int|
                0 <= i < w.len() && (#[trigger] w[i]).0 == l && w[i].1 & mask == mask) ==> after
                & mask == 0
        }),
{
    noting_takes_out_what_was_hit(map_for(g0, run.status)[c]@, run.writes[c]@, l, mask);
    assert(map_for(g1, run.status)[c]@.len() >= 0);
    assert(has_map(StatusType::Normal) && has_map(StatusType::Timeout) && has_map(
        StatusType::Crash,
    ));
    assert(run.status != StatusType::Normal ==> map_for(g1, StatusType::Normal) == map_for(
        g0,
        StatusType::Normal,
    ));
    assert(run.status != StatusType::Timeout ==> map_for(g1, StatusType::Timeout) == map_for(
        g0,
        StatusType::Timeout,
    ));
    assert(run.status != StatusType::Crash ==> map_for(g1, StatusType::Crash) == map_for(
        g0,
        StatusType::Crash,
    ));
}

} // verus!
