//! Which seed covers an edge best: the one with the lowest
//! `length * execution time / match values`.

use super::calibrate::{bucket_at, cut_at, lemma_at, lemma_head};
use super::frontier::{all_ids, is_linked};
use super::lookup::{bucket_context, lowest_bit};
use super::paths::{are_paths, is_path};
use crate::binary64::{
    conversions_err_little, quotient, quotients_tell_ratios, scale, Binary64,
};
use crate::chunks::{
    is_chunked, is_order, is_table, order_meets_all, owner, owner_exists, owner_is, table_shape,
};
use crate::config::BRANCH_CONTEXT_CNT;
use crate::depot::favor_queue::{winning_nothing, winning_one_more};
use crate::depot::{Depot, SeedInfo};
use vstd::prelude::*;

verus! {

/// The cost of a seed can be computed.
pub open spec fn has_cost(s: SeedInfo) -> bool {
    s.len * s.exec_time_us <= usize::MAX
}

/// Seed `s` costs less than seed `t`, as binary64 numbers compare. Without
/// match values a cost is infinite, or no number if nothing was spent either.
pub open spec fn beats(s: SeedInfo, t: SeedInfo) -> bool {
    let a = (s.len * s.exec_time_us) as nat;
    let b = (t.len * t.exec_time_us) as nat;
    if s.match_value_sum == 0 {
        false
    } else if t.match_value_sum == 0 {
        b > 0
    } else {
        quotient(a, s.match_value_sum as nat) < quotient(b, t.match_value_sum as nat)
    }
}

/// Compares the costs of two seeds.
pub fn costs_less(s: &SeedInfo, t: &SeedInfo) -> (r: bool)
    requires
        has_cost(*s),
        has_cost(*t),
    ensures
        r == beats(*s, *t),
{
    if s.match_value_sum == 0 {
        return false;
    }
    let b: usize = t.len * t.exec_time_us;
    if t.match_value_sum == 0 {
        return b > 0;
    }
    let a: usize = s.len * s.exec_time_us;
    let x = Binary64::quotient_of(a as u64, s.match_value_sum as u64);
    let y = Binary64::quotient_of(b as u64, t.match_value_sum as u64);
    x.less(&y)
}

/// No seed costs less than itself, and of two seeds only one can cost less.
pub proof fn cost_is_strict(s: SeedInfo, t: SeedInfo)
    ensures
        !beats(s, s),
        !(beats(s, t) && beats(t, s)),
{
}

/// The seed whose `length * execution time / match values` is lower costs
/// less. Costs are computed with an error, so two of them are told apart for
/// sure where they differ by more than eight parts in 2^53; where all numbers
/// are short, a seed is never taken for the cheaper one if it is not.
pub proof fn cheaper_seeds_cost_less(s: SeedInfo, t: SeedInfo)
    requires
        s.match_value_sum > 0,
        t.match_value_sum > 0,
    ensures
        ({
            let p = s.len * s.exec_time_us * t.match_value_sum;
            let q = t.len * t.exec_time_us * s.match_value_sum;
            &&& 0x4_0000_0000_0000 * (q - p) > q ==> beats(s, t) && !beats(t, s)
            &&& s.len * s.exec_time_us < 0x20_0000_0000_0000 && t.len * t.exec_time_us
                < 0x20_0000_0000_0000 && s.match_value_sum < 0x20_0000_0000_0000
                && t.match_value_sum < 0x20_0000_0000_0000 && beats(s, t) ==> p < q
        }),
{
    let a = (s.len * s.exec_time_us) as nat;
    let b = s.match_value_sum as nat;
    let c = (t.len * t.exec_time_us) as nat;
    let d = t.match_value_sum as nat;
    assert(s.len * s.exec_time_us >= 0 && t.len * t.exec_time_us >= 0) by (nonlinear_arith)
        requires
            s.len >= 0,
            s.exec_time_us >= 0,
            t.len >= 0,
            t.exec_time_us >= 0,
    ;
    quotients_tell_ratios(a, b, c, d);
    let p = a * d;
    let q = c * b;
    assert(0x4_0000_0000_0000 * (q - p) > q ==> 0x20_0000_0000_0000 * (q - p) > 8 * q);
}

/// A seed that is no longer, no slower and matches no worse than a cheaper one
/// costs less, too; and one that costs less than another costs less than any
/// that is longer or slower or matches worse. Without match values a seed
/// never costs less, and it is beaten by any that has them unless it was
/// free.
pub proof fn better_seeds_cost_no_more(s: SeedInfo, t: SeedInfo, better: SeedInfo, worse: SeedInfo)
    requires
        better.len <= s.len,
        better.exec_time_us <= s.exec_time_us,
        better.match_value_sum >= s.match_value_sum,
        worse.len >= t.len,
        worse.exec_time_us >= t.exec_time_us,
        worse.match_value_sum <= t.match_value_sum,
    ensures
        beats(s, t) ==> beats(better, worse),
        beats(s, t) ==> !beats(t, better),
        s.match_value_sum == 0 ==> !beats(s, t),
        s.match_value_sum > 0 && t.match_value_sum == 0 ==> beats(s, t) == (t.len > 0
            && t.exec_time_us > 0),
{
    let cost = |x: SeedInfo| (x.len * x.exec_time_us) as nat;
    assert(better.len * better.exec_time_us <= s.len * s.exec_time_us && worse.len
        * worse.exec_time_us >= t.len * t.exec_time_us) by (nonlinear_arith)
        requires
            0 <= better.len <= s.len,
            0 <= better.exec_time_us <= s.exec_time_us,
            0 <= t.len <= worse.len,
            0 <= t.exec_time_us <= worse.exec_time_us,
    ;
    assert(better.len * better.exec_time_us >= 0) by (nonlinear_arith)
        requires
            better.len >= 0,
            better.exec_time_us >= 0,
    ;
    assert((t.len * t.exec_time_us > 0) == (t.len > 0 && t.exec_time_us > 0) && t.len
        * t.exec_time_us >= 0) by (nonlinear_arith)
        requires
            t.len >= 0,
            t.exec_time_us >= 0,
    ;
    if s.match_value_sum > 0 {
        quotients_tell_ratios(
            cost(better),
            better.match_value_sum as nat,
            cost(s),
            s.match_value_sum as nat,
        );
    }
    if worse.match_value_sum > 0 {
        quotients_tell_ratios(
            cost(t),
            t.match_value_sum as nat,
            cost(worse),
            worse.match_value_sum as nat,
        );
    } else if t.match_value_sum > 0 && s.match_value_sum > 0 && beats(s, t) {
        // What costs more than something was not free.
        if cost(t) == 0 {
            assert(0 * scale() == 0);
            assert(quotient(0, t.match_value_sum as nat) == 0) by {
                conversions_err_little(t.match_value_sum as nat);
            }
        }
    }
}

/// A run's paths together with the favor map they are compared with.
pub ghost struct EdgeView {
    pub cells: Seq<Vec<[SeedInfo; BRANCH_CONTEXT_CNT]>>,
    pub start: Seq<usize>,
    pub end: Seq<usize>,
    pub paths: Seq<Vec<(usize, u8)>>,
}

impl EdgeView {
    /// The hit count bucket of edge `id`; zero if the run does not show it.
    pub open spec fn bucket(self, id: int) -> u8 {
        let c = owner(self.start, self.end, id);
        bucket_at(self.paths[c]@, (id - self.start[c]) as usize)
    }

    /// The seed that covers edge `id` best in context `x`.
    pub open spec fn cell(self, id: int, x: int) -> SeedInfo {
        let c = owner(self.start, self.end, id);
        self.cells[c]@[id - self.start[c]]@[x]
    }

    /// The run shows edge `id`, and no seed covers it better in the same
    /// context.
    pub open spec fn wins(self, seed: SeedInfo, id: int) -> bool {
        let t = self.cell(id, lowest_bit(self.bucket(id)));
        self.bucket(id) != 0 && (t.seed_id == 0 || beats(seed, t))
    }

    /// The seed that loses edge `id`; zero if there is none.
    pub open spec fn loser(self, id: int) -> usize {
        self.cell(id, lowest_bit(self.bucket(id))).seed_id
    }

    /// The edges of `done` that the run wins, with the seeds that lose them.
    pub open spec fn won(self, seed: SeedInfo, done: Set<usize>) -> Map<usize, usize> {
        Map::new(
            |id: usize| done.contains(id) && self.wins(seed, id as int),
            |id: usize| self.loser(id as int),
        )
    }

    /// The favor map's entry after the run, if `done` was looked at.
    pub open spec fn cell_after(
        self,
        seed: SeedInfo,
        done: Set<usize>,
        c: int,
        l: int,
        x: int,
    ) -> SeedInfo {
        let id = self.start[c] + l;
        if done.contains(id as usize) && self.wins(seed, id) && x == lowest_bit(self.bucket(id)) {
            seed
        } else {
            self.cells[c]@[l]@[x]
        }
    }
}

/// The run wins some edge of the map.
pub open spec fn any_edge_won(e: EdgeView, seed: SeedInfo, total: int) -> bool {
    exists|id: int| 0 <= id < total && #[trigger] e.wins(seed, id)
}

/// The costs of all seeds in the favor map can be computed.
pub open spec fn have_costs(cells: Seq<Vec<[SeedInfo; BRANCH_CONTEXT_CNT]>>) -> bool {
    forall|c: int, l: int, x: int|
        0 <= c < cells.len() && 0 <= l < cells[c]@.len() && 0 <= x < 8 ==> has_cost(
            #[trigger] cells[c]@[l]@[x],
        )
}

/// Entry `i` of a chunk's path stands for the edge `start + path[i].0`.
pub(crate) proof fn lemma_entry(e: EdgeView, total: nat, c: int, i: int)
    requires
        0 < e.start.len(),
        is_table(e.start, e.end, total, e.start.len()),
        are_paths(e.paths, e.start, e.end),
        0 <= c < e.start.len(),
        0 <= i < e.paths[c]@.len(),
    ensures
        e.start[c] <= e.start[c] + e.paths[c]@[i].0 < e.end[c] <= total,
        owner(e.start, e.end, e.start[c] + e.paths[c]@[i].0) == c,
        e.bucket(e.start[c] + e.paths[c]@[i].0) == e.paths[c]@[i].1,
        e.paths[c]@[i].1 != 0,
{
    table_shape(e.start, e.end, total, e.start.len());
    assert(is_path(e.paths[c]@, e.end[c] - e.start[c]));
    assert(e.paths[c]@[i].0 < e.end[c] - e.start[c]);
    owner_is(e.start, e.end, total, e.start.len(), c, e.start[c] + e.paths[c]@[i].0);
    lemma_at(e.paths[c]@, e.end[c] - e.start[c], i);
}

/// Tells whether the run covers any edge better than the seeds so far. The
/// chunks are visited in the given order, which makes no difference to the
/// outcome.
pub fn covers_better(
    cells: &Vec<Vec<[SeedInfo; BRANCH_CONTEXT_CNT]>>,
    path: &Vec<Vec<(usize, u8)>>,
    start: &Vec<usize>,
    end: &Vec<usize>,
    total: usize,
    order: &Vec<usize>,
    seed: &SeedInfo,
) -> (r: bool)
    requires
        0 < start@.len(),
        is_table(start@, end@, total as nat, start@.len()),
        is_chunked(cells@, start@, end@),
        are_paths(path@, start@, end@),
        is_order(order@, start@.len() as int),
        have_costs(cells@),
        has_cost(*seed),
    ensures
        r == any_edge_won(
            EdgeView { cells: cells@, start: start@, end: end@, paths: path@ },
            *seed,
            total as int,
        ),
{
    let ghost e = EdgeView { cells: cells@, start: start@, end: end@, paths: path@ };
    let ghost n = start@.len() as int;
    let mut k: usize = 0;
    while k < order.len()
        invariant
            0 < n,
            k <= order@.len() == n == start@.len(),
            is_table(start@, end@, total as nat, start@.len()),
            is_chunked(cells@, start@, end@),
            are_paths(path@, start@, end@),
            is_order(order@, n),
            have_costs(cells@),
            has_cost(*seed),
            e == (EdgeView { cells: cells@, start: start@, end: end@, paths: path@ }),
            forall|id: int|
                0 <= id < total && order@.take(k as int).contains(
                    owner(start@, end@, id) as usize,
                ) ==> !#[trigger] e.wins(*seed, id),
        decreases order@.len() - k,
    {
        let ci: usize = order[k];
        let ghost c = ci as int;
        let ghost visited = order@.take(k as int);
        let ghost more = order@.take(k + 1);
        proof {
            assert(0 <= order@[k as int] < n);
            assert(more =~= visited.push(ci));
            assert(cells@[c]@.len() == end@[c] - start@[c]);
            assert(is_path(path@[c]@, end@[c] - start@[c]));
        }
        let mut i: usize = 0;
        while i < path[ci].len()
            invariant
                i <= path@[c]@.len(),
                c == ci,
                0 <= c < n == start@.len(),
                is_table(start@, end@, total as nat, start@.len()),
                is_chunked(cells@, start@, end@),
                are_paths(path@, start@, end@),
                have_costs(cells@),
                has_cost(*seed),
                cells@[c]@.len() == end@[c] - start@[c],
                e == (EdgeView { cells: cells@, start: start@, end: end@, paths: path@ }),
                forall|j: int|
                    0 <= j < i ==> !e.wins(*seed, start@[c] + (#[trigger] path@[c]@[j]).0),
            decreases path@[c]@.len() - i,
        {
            let (edge, bucket) = path[ci][i];
            let ctx: usize = bucket_context(bucket);
            proof {
                lemma_entry(e, total as nat, c, i as int);
            }
            let t: SeedInfo = cells[ci][edge][ctx];
            proof {
                assert(has_cost(cells@[c]@[edge as int]@[ctx as int]));
            }
            if t.seed_id == 0 || costs_less(seed, &t) {
                assert(e.wins(*seed, start@[c] + edge));
                return true;
            }
            i = i + 1;
        }
        proof {
            assert forall|x: int|
                0 <= x < total && more.contains(owner(start@, end@, x) as usize) implies
                !#[trigger] e.wins(*seed, x) by {
                owner_exists(start@, end@, total as nat, start@.len(), x);
                let o = owner(start@, end@, x);
                if o != c {
                    let j = choose|j: int| 0 <= j < more.len() && more[j] == o as usize;
                    assert(visited[j] == o as usize);
                    assert(visited.contains(o as usize));
                } else if e.bucket(x) != 0 {
                    let j = lemma_find(path@[c]@, (x - start@[c]) as usize);
                    assert(path@[c]@[j].0 == x - start@[c]);
                }
            }
        }
        k = k + 1;
    }
    proof {
        assert(order@.take(k as int) =~= order@);
        assert forall|id: int| 0 <= id < total implies !#[trigger] e.wins(*seed, id) by {
            owner_exists(start@, end@, total as nat, start@.len(), id);
            order_meets_all(order@, n, owner(start@, end@, id));
        }
    }
    false
}

/// An edge with a bucket stands on the path.
proof fn lemma_find(path: Seq<(usize, u8)>, l: usize) -> (i: int)
    requires
        bucket_at(path, l) != 0,
    ensures
        0 <= i < path.len(),
        path[i].0 == l,
    decreases path.len(),
{
    if path.last().0 == l {
        path.len() - 1
    } else {
        lemma_find(path.drop_last(), l)
    }
}

/// Looks at one edge that the run shows.
fn commit_edge(
    row: &mut [SeedInfo; BRANCH_CONTEXT_CNT],
    depot: &mut Depot,
    bucket: u8,
    id: usize,
    seed: SeedInfo,
    now: u64,
)
    requires
        bucket != 0,
        old(depot).wf(),
        1 <= seed.seed_id <= old(depot).num_inputs,
        has_cost(seed),
        has_cost(old(row)@[lowest_bit(bucket)]),
        old(row)@[lowest_bit(bucket)].seed_id != 0 ==> old(depot).edges().items(
            old(row)@[lowest_bit(bucket)].seed_id,
        ).contains(id),
    ensures
        0 <= lowest_bit(bucket) < 8,
        final(depot).wf(),
        final(depot).same_store(old(depot)),
        final(depot).branches() == old(depot).branches(),
        ({
            let t = old(row)@[lowest_bit(bucket)];
            if t.seed_id == 0 || beats(seed, t) {
                &&& final(row)@ == old(row)@.update(lowest_bit(bucket), seed)
                &&& final(depot).edges() == old(depot).edges().one_won(seed, now, id, t.seed_id)
            } else {
                &&& *final(row) == *old(row)
                &&& final(depot).edges() == old(depot).edges()
            }
        }),
{
    let ctx: usize = bucket_context(bucket);
    let prev: SeedInfo = row[ctx];
    if prev.seed_id == 0 {
        depot.edge_insert_favor_seed(seed, id, ctx, now);
        row[ctx] = seed;
    } else if costs_less(&seed, &prev) {
        depot.edge_replace_favor_seed(prev, seed, id, ctx, now);
        row[ctx] = seed;
    }
}

/// Notes the run in the favor map and in the depot, for every edge that it
/// covers better than the seeds so far. The chunks are visited in the given
/// order, which makes no difference to the outcome.
#[verifier::rlimit(60)]
pub fn commit_edges(
    cells: &mut Vec<Vec<[SeedInfo; BRANCH_CONTEXT_CNT]>>,
    depot: &mut Depot,
    path: &Vec<Vec<(usize, u8)>>,
    start: &Vec<usize>,
    end: &Vec<usize>,
    total: usize,
    order: &Vec<usize>,
    seed: SeedInfo,
    now: u64,
)
    requires
        0 < start@.len(),
        is_table(start@, end@, total as nat, start@.len()),
        is_chunked(old(cells)@, start@, end@),
        are_paths(path@, start@, end@),
        is_order(order@, start@.len() as int),
        old(depot).wf(),
        is_linked(old(cells)@, start@, old(depot).edges()),
        have_costs(old(cells)@),
        has_cost(seed),
        1 <= seed.seed_id <= old(depot).num_inputs,
        !old(depot).edges().favor.contains_key(seed.seed_id),
    ensures
        ({
            let e = EdgeView {
                cells: old(cells)@,
                start: start@,
                end: end@,
                paths: path@,
            };
            let all = all_ids(total as int);
            &&& is_chunked(final(cells)@, start@, end@)
            &&& forall|c: int, l: int, x: int|
                0 <= c < start@.len() && 0 <= l < end@[c] - start@[c] && 0 <= x < 8 ==> #[trigger]
                    final(cells)@[c]@[l]@[x] == e.cell_after(seed, all, c, l, x)
            &&& final(depot).edges() == old(depot).edges().won(seed, now, e.won(seed, all))
        }),
        final(depot).wf(),
        final(depot).same_store(old(depot)),
        final(depot).branches() == old(depot).branches(),
{
    let ghost e = EdgeView { cells: cells@, start: start@, end: end@, paths: path@ };
    let ghost v0 = depot.edges();
    let ghost n = start@.len() as int;
    let ghost depot0 = *depot;
    let ghost mut done: Set<usize> = Set::empty();
    proof {
        winning_nothing(v0, seed, now);
        assert(e.won(seed, done) =~= Map::empty());
    }
    let mut k: usize = 0;
    while k < order.len()
        invariant
            0 < n,
            k <= order@.len() == n == start@.len(),
            is_table(start@, end@, total as nat, start@.len()),
            is_chunked(e.cells, start@, end@),
            is_chunked(cells@, start@, end@),
            are_paths(path@, start@, end@),
            is_order(order@, n),
            e.start == start@,
            e.end == end@,
            e.paths == path@,
            v0.wf(),
            !v0.favor.contains_key(0),
            is_linked(e.cells, start@, v0),
            have_costs(e.cells),
            has_cost(seed),
            1 <= seed.seed_id <= depot.num_inputs,
            !v0.favor.contains_key(seed.seed_id),
            depot.wf(),
            depot.same_store(&depot0),
            depot.branches() == depot0.branches(),
            depot.edges() == v0.won(seed, now, e.won(seed, done)),
            forall|x: usize|
                done.contains(x) <==> x < total && e.bucket(x as int) != 0 && order@.take(
                    k as int,
                ).contains(owner(start@, end@, x as int) as usize),
            forall|c: int, l: int, x: int|
                0 <= c < n && 0 <= l < end@[c] - start@[c] && 0 <= x < 8 ==> #[trigger]
                    cells@[c]@[l]@[x] == e.cell_after(seed, done, c, l, x),
        decreases order@.len() - k,
    {
        let ci: usize = order[k];
        let ghost c = ci as int;
        let ghost visited = order@.take(k as int);
        let ghost more = order@.take(k + 1);
        proof {
            assert(0 <= order@[k as int] < n);
            assert(more =~= visited.push(ci));
            if visited.contains(ci) {
                let j = choose|j: int| 0 <= j < visited.len() && visited[j] == ci;
                assert(order@[j] == order@[k as int]);
            }
            table_shape(start@, end@, total as nat, start@.len());
            assert(start@[c] <= end@[c]);
            assert(end@[c] <= total);
            assert(is_path(path@[c]@, end@[c] - start@[c]));
        }
        let base: usize = start[ci];
        let ghost mut bound: int = 0;
        proof {
            assert forall|x: usize|
                done.contains(x) <==> x < total && e.bucket(x as int) != 0 && (visited.contains(
                    owner(start@, end@, x as int) as usize,
                ) || (owner(start@, end@, x as int) == c && x < base + bound)) by {
                if x < total {
                    owner_exists(start@, end@, total as nat, start@.len(), x as int);
                }
            }
        }
        let mut i: usize = 0;
        while i < path[ci].len()
            invariant
                0 < n,
                i <= path@[c]@.len(),
                base == start@[c],
                c == ci,
                0 <= c < n == start@.len(),
                !visited.contains(ci),
                is_table(start@, end@, total as nat, start@.len()),
                is_chunked(e.cells, start@, end@),
                is_chunked(cells@, start@, end@),
                are_paths(path@, start@, end@),
                is_path(path@[c]@, end@[c] - start@[c]),
                e.start == start@,
                e.end == end@,
                e.paths == path@,
                v0.wf(),
                !v0.favor.contains_key(0),
                is_linked(e.cells, start@, v0),
                have_costs(e.cells),
                has_cost(seed),
                1 <= seed.seed_id <= depot.num_inputs,
                !v0.favor.contains_key(seed.seed_id),
                depot.wf(),
                depot.same_store(&depot0),
                depot.branches() == depot0.branches(),
                depot.edges() == v0.won(seed, now, e.won(seed, done)),
                0 <= bound,
                cut_at(path@[c]@, i as int, bound),
                forall|x: usize|
                    done.contains(x) <==> x < total && e.bucket(x as int) != 0 && (
                    visited.contains(owner(start@, end@, x as int) as usize) || (owner(
                        start@,
                        end@,
                        x as int,
                    ) == c && x < base + bound)),
                forall|d: int, l: int, x: int|
                    0 <= d < n && 0 <= l < end@[d] - start@[d] && 0 <= x < 8 ==> #[trigger]
                        cells@[d]@[l]@[x] == e.cell_after(seed, done, d, l, x),
            decreases path@[c]@.len() - i,
        {
            let (edge, bucket) = path[ci][i];
            let ghost l = edge as int;
            proof {
                lemma_entry(e, total as nat, c, i as int);
            }
            let id: usize = base + edge;
            let ghost next = done.insert(id);
            let ghost cells1 = cells@;
            let ghost row0 = e.cells[c]@[l]@;
            let ghost x0 = lowest_bit(bucket);
            proof {
                let p = path@[c]@;
                lemma_head(p, end@[c] - start@[c], i as int, bound, edge);
                assert(p[i as int].0 >= bound);
                assert(!done.contains(id));
                assert(cells@[c]@.len() == end@[c] - start@[c]);
                assert(e.cells[c]@.len() == end@[c] - start@[c]);
                assert forall|x: int| 0 <= x < 8 implies cells@[c]@[l]@[x]
                    == #[trigger] e.cells[c]@[l]@[x] by {
                    assert(cells@[c]@[l]@[x] == e.cell_after(seed, done, c, l, x));
                }
                assert(cells@[c]@[l]@ =~= row0);
                super::lookup::lowest_bit_found(bucket);
                let pre = row0[x0].seed_id;
                assert(e.cell(id as int, x0) == e.cells[c]@[l]@[x0]);
                assert(pre == e.loser(id as int));
                assert(has_cost(e.cells[c]@[l]@[x0]));
                if pre != 0 {
                    assert(v0.items(pre).contains(id));
                    assert(v0.favor.contains_key(pre));
                }
                winning_one_more(v0, seed, now, e.won(seed, done), id, pre);
            }
            commit_edge(&mut cells[ci][edge], depot, bucket, id, seed, now);
            proof {
                if e.wins(seed, id as int) {
                    assert(e.won(seed, next) =~= e.won(seed, done).insert(
                        id,
                        e.loser(id as int),
                    ));
                } else {
                    assert(e.won(seed, next) =~= e.won(seed, done));
                }
                assert forall|d: int, m: int|
                    0 <= d < n && 0 <= m < end@[d] - start@[d] && !(d == c && m == l) implies
                    #[trigger] (start@[d] + m) != id by {
                    if start@[d] + m == id {
                        owner_is(start@, end@, total as nat, start@.len(), d, id as int);
                    }
                }
                assert forall|d: int, m: int, x: int|
                    0 <= d < n && 0 <= m < end@[d] - start@[d] && 0 <= x < 8 implies #[trigger]
                    cells@[d]@[m]@[x] == e.cell_after(seed, next, d, m, x) by {
                    assert(cells1[d]@[m]@[x] == e.cell_after(seed, done, d, m, x));
                    if d == c && m == l {
                    } else {
                        assert((start@[d] + m) != id);
                        assert(cells@[d]@[m] == cells1[d]@[m]);
                    }
                }
                assert forall|x: usize|
                    next.contains(x) <==> x < total && e.bucket(x as int) != 0 && (
                    visited.contains(owner(start@, end@, x as int) as usize) || (owner(
                        start@,
                        end@,
                        x as int,
                    ) == c && x < base + edge + 1)) by {
                    if x < total && owner(start@, end@, x as int) == c && base + bound <= x < id {
                        assert(bucket_at(path@[c]@, (x - base) as usize) == 0);
                    }
                }
                done = next;
                bound = edge + 1;
            }
            i = i + 1;
        }
        proof {
            assert forall|x: usize|
                done.contains(x) <==> x < total && e.bucket(x as int) != 0 && more.contains(
                    owner(start@, end@, x as int) as usize,
                ) by {
                if x < total {
                    owner_exists(start@, end@, total as nat, start@.len(), x as int);
                    let o = owner(start@, end@, x as int);
                    assert(more.contains(o as usize) <==> visited.contains(o as usize) || o == c)
                        by {
                        if visited.contains(o as usize) {
                            let j = choose|j: int|
                                0 <= j < visited.len() && visited[j] == o as usize;
                            assert(more[j] == o as usize);
                        }
                        assert(more[k as int] == ci);
                    }
                    if o == c && e.bucket(x as int) != 0 {
                        let j = lemma_find(path@[c]@, (x - base) as usize);
                        assert(path@[c]@[j].0 < bound);
                    }
                }
            }
        }
        k = k + 1;
    }
    proof {
        assert(order@.take(k as int) =~= order@);
        let all = all_ids(total as int);
        assert forall|id: usize| id < total && e.bucket(id as int) != 0 implies done.contains(
            id,
        ) by {
            owner_exists(start@, end@, total as nat, start@.len(), id as int);
            order_meets_all(order@, n, owner(start@, end@, id as int));
        }
        assert(e.won(seed, done) =~= e.won(seed, all));
        assert forall|c: int, l: int, x: int|
            0 <= c < n && 0 <= l < end@[c] - start@[c] && 0 <= x < 8 implies #[trigger]
            cells@[c]@[l]@[x] == e.cell_after(seed, all, c, l, x) by {
            assert(cells@[c]@[l]@[x] == e.cell_after(seed, done, c, l, x));
            table_shape(start@, end@, total as nat, start@.len());
            assert(end@[c] <= total);
        }
    }
}

/// For every edge that a run shows, the seed that costs least is kept, in the
/// context of the hit count: the run takes over where there was no seed or it
/// costs less, see [`cheaper_seeds_cost_less`]. Everything else stays.
pub proof fn cheapest_seeds_are_kept(
    e: EdgeView,
    seed: SeedInfo,
    total: nat,
    c: int,
    l: int,
    x: int,
)
    requires
        0 < e.start.len(),
        is_table(e.start, e.end, total, e.start.len()),
        total <= usize::MAX,
        are_paths(e.paths, e.start, e.end),
        0 <= c < e.start.len(),
        0 <= l < e.end[c] - e.start[c],
        0 <= x < 8,
    ensures
        ({
            let old_seed = e.cells[c]@[l]@[x];
            let new_seed = e.cell_after(seed, all_ids(total as int), c, l, x);
            &&& forall|i: int|
                #![trigger e.paths[c]@[i]]
                0 <= i < e.paths[c]@.len() && e.paths[c]@[i].0 == l && lowest_bit(
                    e.paths[c]@[i].1,
                ) == x ==> new_seed == if old_seed.seed_id == 0 || beats(seed, old_seed) {
                    seed
                } else {
                    old_seed
                }
            &&& (forall|i: int|
                #![trigger e.paths[c]@[i]]
                0 <= i < e.paths[c]@.len() && e.paths[c]@[i].0 == l ==> lowest_bit(
                    e.paths[c]@[i].1,
                ) != x) ==> new_seed == old_seed
        }),
{
    let id = e.start[c] + l;
    let old_seed = e.cells[c]@[l]@[x];
    let new_seed = e.cell_after(seed, all_ids(total as int), c, l, x);
    table_shape(e.start, e.end, total, e.start.len());
    owner_is(e.start, e.end, total, e.start.len(), c, id);
    assert(all_ids(total as int).contains(id as usize));
    assert forall|i: int|
        #![trigger e.paths[c]@[i]]
        0 <= i < e.paths[c]@.len() && e.paths[c]@[i].0 == l && lowest_bit(e.paths[c]@[i].1)
            == x implies new_seed == if old_seed.seed_id == 0 || beats(seed, old_seed) {
        seed
    } else {
        old_seed
    } by {
        lemma_entry(e, total, c, i);
    }
    if forall|i: int|
        #![trigger e.paths[c]@[i]]
        0 <= i < e.paths[c]@.len() && e.paths[c]@[i].0 == l ==> lowest_bit(e.paths[c]@[i].1) != x {
        if e.bucket(id) != 0 {
            lemma_bucket_is_of_entry(e.paths[c]@, l as usize);
        }
    }
}

proof fn lemma_bucket_is_of_entry(path: Seq<(usize, u8)>, l: usize)
    ensures
        bucket_at(path, l) != 0 ==> exists|i: int|
            0 <= i < path.len() && #[trigger] path[i] == (l, bucket_at(path, l)),
    decreases path.len(),
{
    if path.len() > 0 {
        let rest = path.drop_last();
        if path.last().0 == l {
            assert(path[path.len() - 1] == (l, bucket_at(path, l)));
        } else {
            lemma_bucket_is_of_entry(rest, l);
            if bucket_at(path, l) != 0 {
                let i = choose|i: int|
                    0 <= i < rest.len() && #[trigger] rest[i] == (l, bucket_at(rest, l));
                assert(path[i] == rest[i]);
            }
        }
    }
}

} // verus!
