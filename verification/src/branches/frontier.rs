//! How close runs come to the branches.
//!
//! The target reports for each branch how often it was met, in the upper six
//! bits, and how well its operands matched, from 1 to 1023 in the lower ten.

use super::lookup::{
    branch_bucket, branch_lookup, buckets_are_ordered, buckets_begin_at_bounds, reached,
};
use crate::chunks::{
    is_chunked, is_order, is_table, order_meets_all, owner, owner_exists, owner_is, table_shape,
};
use crate::config::BRANCH_CONTEXT_CNT;
use crate::depot::favor_queue::{winning_nothing, winning_one_more, FavorView};
use crate::depot::{Depot, SeedInfo};
use crate::mutate_func::BranchMutateInfo;
use vstd::prelude::*;

verus! {

/// The best match.
pub const BEST_MATCH: u16 = 1023;

/// How well the operands matched.
pub open spec fn match_of(v: u16) -> u16 {
    v % 1024
}

/// The context: which bucket the hit count falls in.
pub open spec fn context_of(v: u16) -> int {
    branch_bucket(v / 1024) - 1
}

/// The map is read in words of four entries: what is behind the last whole
/// word is not looked at.
pub open spec fn whole_quads(len: int) -> int {
    len / 4 * 4
}

/// Every entry that is reported has a match and a hit count.
pub open spec fn is_frontier(map: Seq<u16>) -> bool {
    forall|i: int|
        0 <= i < whole_quads(map.len() as int) && #[trigger] map[i] > 0 ==> match_of(map[i]) > 0
            && map[i] / 1024 > 0
}

/// The matches of the entries before `hi`, added up.
pub open spec fn match_total(map: Seq<u16>, hi: int) -> nat
    decreases hi,
{
    if hi <= 0 {
        0
    } else {
        match_total(map, hi - 1) + match_of(map[hi - 1]) as nat
    }
}

/// No match adds more than the best one.
pub proof fn matches_are_bounded(map: Seq<u16>, hi: int)
    requires
        0 <= hi,
    ensures
        match_total(map, hi) <= BEST_MATCH * hi,
    decreases hi,
{
    if hi > 0 {
        matches_are_bounded(map, hi - 1);
    }
}

/// Adds up the matches of a report.
pub fn sum_matches(map: &[u16], first: usize) -> (r: usize)
    requires
        first + match_total(map@, whole_quads(map@.len() as int)) <= usize::MAX,
    ensures
        r == first + match_total(map@, whole_quads(map@.len() as int)),
{
    let limit: usize = map.len() / 4 * 4;
    let mut r: usize = first;
    let mut i: usize = 0;
    while i < limit
        invariant
            i <= limit <= map@.len(),
            limit == whole_quads(map@.len() as int),
            first + match_total(map@, limit as int) <= usize::MAX,
            r == first + match_total(map@, i as int),
        decreases limit - i,
    {
        proof {
            lemma_total_grows(map@, i + 1, limit as int);
        }
        r = r + (map[i] % 1024) as usize;
        i = i + 1;
    }
    r
}

proof fn lemma_total_grows(map: Seq<u16>, i: int, j: int)
    requires
        i <= j,
    ensures
        match_total(map, i) <= match_total(map, j),
    decreases j - i,
{
    if i < j {
        lemma_total_grows(map, i, j - 1);
    }
}

/// A report together with the favor map it is compared with.
pub ghost struct FrontierView {
    pub cells: Seq<Vec<[SeedInfo; BRANCH_CONTEXT_CNT]>>,
    pub start: Seq<usize>,
    pub end: Seq<usize>,
    pub map: Seq<u16>,
}

impl FrontierView {
    /// The seed that came closest to branch `id` in context `x`.
    pub open spec fn cell(self, id: int, x: int) -> SeedInfo {
        let c = owner(self.start, self.end, id);
        self.cells[c]@[id - self.start[c]]@[x]
    }

    /// The run came closer to branch `id` than any seed before it in the same
    /// context.
    pub open spec fn wins(self, id: int) -> bool {
        &&& 0 <= id < whole_quads(self.map.len() as int)
        &&& self.map[id] > 0
        &&& self.cell(id, context_of(self.map[id])).match_value < match_of(self.map[id])
    }

    /// The seed that loses branch `id`; zero if there is none.
    pub open spec fn loser(self, id: int) -> usize {
        self.cell(id, context_of(self.map[id])).seed_id
    }

    /// No seed came close to branch `id` yet.
    pub open spec fn is_new(self, id: int) -> bool {
        forall|x: int| 0 <= x < 8 ==> (#[trigger] self.cell(id, x)).seed_id == 0
    }

    /// The branches of `done` that the run wins, with the seeds that lose
    /// them.
    pub open spec fn won(self, done: Set<usize>) -> Map<usize, usize> {
        Map::new(
            |id: usize| done.contains(id) && self.wins(id as int),
            |id: usize| self.loser(id as int),
        )
    }

    /// The branches of `done` that a seed comes close to for the first time.
    pub open spec fn reached(self, done: Set<usize>) -> Set<usize> {
        Set::new(
            |id: usize| done.contains(id) && self.wins(id as int) && self.is_new(id as int),
        )
    }

    /// The branches of `done` that the run matches best.
    pub open spec fn matched(self, done: Set<usize>) -> Set<usize> {
        Set::new(
            |id: usize|
                done.contains(id) && self.wins(id as int) && match_of(self.map[id as int])
                    == BEST_MATCH,
        )
    }

    /// The favor map's entry after the run, if `done` was looked at.
    pub open spec fn cell_after(
        self,
        seed: SeedInfo,
        done: Set<usize>,
        c: int,
        l: int,
        x: int,
    ) -> SeedInfo {
        let id = self.start[c] + l;
        if done.contains(id as usize) && self.wins(id) && x == context_of(self.map[id]) {
            SeedInfo { match_value: match_of(self.map[id]), ..seed }
        } else {
            self.cells[c]@[l]@[x]
        }
    }

    /// What is known of the branch after the run, if `done` was looked at: it
    /// may be reached for the first time.
    pub open spec fn func_after(
        self,
        funcs: Seq<Vec<BranchMutateInfo>>,
        now: u64,
        done: Set<usize>,
        c: int,
        l: int,
    ) -> BranchMutateInfo {
        let id = self.start[c] + l;
        let f = funcs[c]@[l];
        if done.contains(id as usize) && self.wins(id) && f.reach_time == 0 {
            BranchMutateInfo { reach_time: now as usize, ..f }
        } else {
            f
        }
    }
}

/// All branches of a map.
pub open spec fn all_ids(total: int) -> Set<usize> {
    Set::new(|id: usize| id < total)
}

/// Every seed of the favor map is favored for its branch (or edge), and no
/// seed stands there in two contexts.
pub open spec fn is_linked(
    cells: Seq<Vec<[SeedInfo; BRANCH_CONTEXT_CNT]>>,
    start: Seq<usize>,
    view: FavorView,
) -> bool {
    &&& forall|c: int, l: int, x: int|
        0 <= c < cells.len() && 0 <= l < cells[c]@.len() && 0 <= x < 8 && (
        #[trigger] cells[c]@[l]@[x]).seed_id != 0 ==> view.items(
            cells[c]@[l]@[x].seed_id,
        ).contains((start[c] + l) as usize)
    &&& forall|c: int, l: int, x: int, y: int|
        0 <= c < cells.len() && 0 <= l < cells[c]@.len() && 0 <= x < 8 && 0 <= y < 8 && x != y && (
        #[trigger] cells[c]@[l]@[x]).seed_id != 0 ==> cells[c]@[l]@[x].seed_id != (
        #[trigger] cells[c]@[l]@[y]).seed_id
}

/// No more than `total` numbers are below `total`.
pub(crate) proof fn lemma_ids_fit(s: Set<usize>, total: nat)
    requires
        s.finite(),
        forall|id: usize| s.contains(id) ==> id < total,
    ensures
        s.len() <= total,
    decreases total,
{
    if total == 0 {
        assert(s =~= Set::empty());
    } else {
        let top = (total - 1) as usize;
        lemma_ids_fit(s.remove(top), (total - 1) as nat);
    }
}

/// Looks at one branch that the run came close to.
fn commit_branch(
    row: &mut [SeedInfo; BRANCH_CONTEXT_CNT],
    func: &mut BranchMutateInfo,
    reached: &mut usize,
    depot: &mut Depot,
    v: u16,
    id: usize,
    seed: SeedInfo,
    now: u64,
) -> (matched: bool)
    requires
        match_of(v) > 0,
        v / 1024 > 0,
        old(depot).wf(),
        1 <= seed.seed_id <= old(depot).num_inputs,
        *old(reached) < usize::MAX,
        old(row)@[context_of(v)].seed_id != 0 ==> old(depot).branches().items(
            old(row)@[context_of(v)].seed_id,
        ).contains(id),
    ensures
        0 <= context_of(v) < 8,
        final(depot).wf(),
        final(depot).same_store(old(depot)),
        final(depot).edges() == old(depot).edges(),
        old(row)@[context_of(v)].match_value < match_of(v) ==> {
            &&& matched == (match_of(v) == BEST_MATCH)
            &&& final(row)@ == old(row)@.update(
                context_of(v),
                SeedInfo { match_value: match_of(v), ..seed },
            )
            &&& *final(func) == if old(func).reach_time == 0 {
                BranchMutateInfo { reach_time: now as usize, ..*old(func) }
            } else {
                *old(func)
            }
            &&& *final(reached) == *old(reached) + if forall|x: int|
                0 <= x < 8 ==> (#[trigger] old(row)@[x]).seed_id == 0 {
                1int
            } else {
                0
            }
            &&& final(depot).branches() == old(depot).branches().one_won(
                seed,
                now,
                id,
                old(row)@[context_of(v)].seed_id,
            )
        },
        old(row)@[context_of(v)].match_value >= match_of(v) ==> {
            &&& !matched
            &&& *final(row) == *old(row)
            &&& *final(func) == *old(func)
            &&& *final(reached) == *old(reached)
            &&& final(depot).branches() == old(depot).branches()
        },
{
    proof {
        buckets_are_ordered(0, 0, (v / 1024) as u16, 0);
    }
    let mv: u16 = v % 1024;
    let ctx: usize = branch_lookup(v / 1024) as usize - 1;
    let prev: SeedInfo = row[ctx];
    if prev.match_value >= mv {
        return false;
    }
    if func.reach_time == 0 {
        func.reach_time = now as usize;
    }
    let mut is_new = true;
    let mut x: usize = 0;
    while x < 8
        invariant
            x <= 8,
            row@.len() == 8,
            is_new == (forall|y: int| 0 <= y < x ==> (#[trigger] row@[y]).seed_id == 0),
        decreases 8 - x,
    {
        if row[x].seed_id != 0 {
            is_new = false;
        }
        x = x + 1;
    }
    if is_new {
        *reached = *reached + 1;
    }
    let mut entry: SeedInfo = seed;
    entry.match_value = mv;
    row[ctx] = entry;
    if prev.seed_id == 0 {
        depot.branch_insert_favor_seed(seed, id, ctx, now);
    } else {
        depot.branch_replace_favor_seed(prev, seed, id, ctx, now);
    }
    mv == BEST_MATCH
}

/// Whether the run comes closer to any branch.
pub open spec fn any_win(f: FrontierView) -> bool {
    exists|id: int| #[trigger] f.wins(id)
}

/// Tells whether the run comes closer to any branch. The chunks are visited
/// in the given order, which makes no difference to the outcome.
pub fn improves(
    cells: &Vec<Vec<[SeedInfo; BRANCH_CONTEXT_CNT]>>,
    frontier: &[u16],
    start: &Vec<usize>,
    end: &Vec<usize>,
    order: &Vec<usize>,
) -> (r: bool)
    requires
        0 < start@.len(),
        is_table(start@, end@, frontier@.len(), start@.len()),
        is_chunked(cells@, start@, end@),
        is_frontier(frontier@),
        is_order(order@, start@.len() as int),
    ensures
        r == any_win(
            FrontierView { cells: cells@, start: start@, end: end@, map: frontier@ },
        ),
{
    let ghost f = FrontierView { cells: cells@, start: start@, end: end@, map: frontier@ };
    let ghost n = start@.len() as int;
    let limit: usize = frontier.len() / 4 * 4;
    let mut k: usize = 0;
    while k < order.len()
        invariant
            0 < n,
            k <= order@.len() == n == start@.len(),
            is_table(start@, end@, frontier@.len(), start@.len()),
            is_chunked(cells@, start@, end@),
            is_frontier(frontier@),
            is_order(order@, n),
            limit == whole_quads(frontier@.len() as int),
            limit <= frontier@.len(),
            f == (FrontierView { cells: cells@, start: start@, end: end@, map: frontier@ }),
            forall|id: int|
                0 <= id < frontier@.len() && order@.take(k as int).contains(
                    owner(start@, end@, id) as usize,
                ) ==> !#[trigger] f.wins(id),
        decreases order@.len() - k,
    {
        let ci: usize = order[k];
        let ghost c = ci as int;
        let ghost visited = order@.take(k as int);
        let ghost more = order@.take(k + 1);
        proof {
            assert(0 <= order@[k as int] < n);
            assert(more =~= visited.push(ci));
            table_shape(start@, end@, frontier@.len(), start@.len());
            assert(cells@[c]@.len() == end@[c] - start@[c]);
            assert(start@[c] <= end@[c]);
            assert(end@[c] <= frontier@.len());
        }
        let base: usize = start[ci];
        let stop: usize = end[ci];
        let mut id: usize = base;
        while id < stop
            invariant
                base <= id <= stop <= frontier@.len(),
                base == start@[c],
                stop == end@[c],
                c == ci,
                0 <= c < n == start@.len(),
                is_table(start@, end@, frontier@.len(), start@.len()),
                is_chunked(cells@, start@, end@),
                is_frontier(frontier@),
                cells@[c]@.len() == stop - base,
                limit == whole_quads(frontier@.len() as int),
                limit <= frontier@.len(),
                f == (FrontierView { cells: cells@, start: start@, end: end@, map: frontier@ }),
                forall|x: int| base <= x < id ==> !#[trigger] f.wins(x),
            decreases stop - id,
        {
            proof {
                owner_is(start@, end@, frontier@.len(), start@.len(), c, id as int);
            }
            if id < limit {
                let v: u16 = frontier[id];
                if v > 0 {
                    assert(match_of(frontier@[id as int]) > 0);
                    proof {
                        buckets_are_ordered(0, 0, (v / 1024) as u16, 0);
                    }
                    let ctx: usize = branch_lookup(v / 1024) as usize - 1;
                    if cells[ci][id - base][ctx].match_value < v % 1024 {
                        assert(f.wins(id as int));
                        return true;
                    }
                }
            }
            id = id + 1;
        }
        proof {
            assert forall|x: int|
                0 <= x < frontier@.len() && more.contains(
                    owner(start@, end@, x) as usize,
                ) implies !#[trigger] f.wins(x) by {
                owner_exists(start@, end@, frontier@.len(), start@.len(), x);
                let o = owner(start@, end@, x);
                if o != c {
                    let j = choose|j: int| 0 <= j < more.len() && more[j] == o as usize;
                    assert(visited[j] == o as usize);
                    assert(visited.contains(o as usize));
                }
            }
        }
        k = k + 1;
    }
    proof {
        assert(order@.take(k as int) =~= order@);
        assert forall|id: int| !#[trigger] f.wins(id) by {
            if f.wins(id) {
                owner_exists(start@, end@, frontier@.len(), start@.len(), id);
                order_meets_all(order@, n, owner(start@, end@, id));
            }
        }
    }
    false
}

/// Notes the run in the favor map, in what is known of the branches, and in
/// the depot, for every branch that it came closer to. Returns the branches
/// that it matched best. The chunks are visited in the given order, which
/// makes no difference to the outcome.
#[verifier::rlimit(60)]
pub fn commit_frontier(
    cells: &mut Vec<Vec<[SeedInfo; BRANCH_CONTEXT_CNT]>>,
    funcs: &mut Vec<Vec<BranchMutateInfo>>,
    reached: &mut usize,
    depot: &mut Depot,
    frontier: &[u16],
    start: &Vec<usize>,
    end: &Vec<usize>,
    order: &Vec<usize>,
    seed: SeedInfo,
    now: u64,
) -> (matched: Vec<usize>)
    requires
        0 < start@.len(),
        is_table(start@, end@, frontier@.len(), start@.len()),
        is_chunked(old(cells)@, start@, end@),
        is_chunked(old(funcs)@, start@, end@),
        is_frontier(frontier@),
        is_order(order@, start@.len() as int),
        old(depot).wf(),
        is_linked(old(cells)@, start@, old(depot).branches()),
        1 <= seed.seed_id <= old(depot).num_inputs,
        !old(depot).branches().favor.contains_key(seed.seed_id),
        *old(reached) + frontier@.len() <= usize::MAX,
    ensures
        ({
            let f = FrontierView {
                cells: old(cells)@,
                start: start@,
                end: end@,
                map: frontier@,
            };
            let all = all_ids(frontier@.len() as int);
            &&& is_chunked(final(cells)@, start@, end@)
            &&& is_chunked(final(funcs)@, start@, end@)
            &&& forall|c: int, l: int, x: int|
                0 <= c < start@.len() && 0 <= l < end@[c] - start@[c] && 0 <= x < 8 ==> #[trigger]
                    final(cells)@[c]@[l]@[x] == f.cell_after(seed, all, c, l, x)
            &&& forall|c: int, l: int|
                0 <= c < start@.len() && 0 <= l < end@[c] - start@[c] ==> #[trigger]
                    final(funcs)@[c]@[l] == f.func_after(old(funcs)@, now, all, c, l)
            &&& *final(reached) == *old(reached) + f.reached(all).len()
            &&& f.reached(all).finite()
            &&& final(depot).branches() == old(depot).branches().won(seed, now, f.won(all))
            &&& matched@.no_duplicates()
            &&& forall|id: usize| #[trigger]
                matched@.contains(id) <==> f.matched(all).contains(id)
        }),
        final(depot).wf(),
        final(depot).same_store(old(depot)),
        final(depot).edges() == old(depot).edges(),
{
    let ghost f = FrontierView { cells: cells@, start: start@, end: end@, map: frontier@ };
    let ghost funcs0 = funcs@;
    let ghost reached0 = *reached as int;
    let ghost v0 = depot.branches();
    let ghost n = start@.len() as int;
    let ghost total = frontier@.len() as int;
    let ghost depot0 = *depot;
    let limit: usize = frontier.len() / 4 * 4;
    let mut matched: Vec<usize> = Vec::new();
    let ghost mut done: Set<usize> = Set::empty();
    proof {
        winning_nothing(v0, seed, now);
        assert(f.won(done) =~= Map::empty());
        assert(f.reached(done) =~= Set::empty());
    }
    let mut k: usize = 0;
    while k < order.len()
        invariant
            0 < n,
            k <= order@.len() == n == start@.len(),
            total == frontier@.len(),
            is_table(start@, end@, frontier@.len(), start@.len()),
            is_chunked(f.cells, start@, end@),
            is_chunked(funcs0, start@, end@),
            is_chunked(cells@, start@, end@),
            is_chunked(funcs@, start@, end@),
            is_frontier(frontier@),
            is_order(order@, n),
            limit == whole_quads(total),
            limit <= total,
            f.start == start@,
            f.end == end@,
            f.map == frontier@,
            v0.wf(),
            !v0.favor.contains_key(0),
            is_linked(f.cells, start@, v0),
            1 <= seed.seed_id <= depot.num_inputs,
            !v0.favor.contains_key(seed.seed_id),
            reached0 + total <= usize::MAX,
            depot.wf(),
            depot.same_store(&depot0),
            depot.edges() == depot0.edges(),
            depot.branches() == v0.won(seed, now, f.won(done)),
            done.finite(),
            forall|id: usize|
                done.contains(id) <==> id < total && order@.take(k as int).contains(
                    owner(start@, end@, id as int) as usize,
                ),
            forall|c: int, l: int, x: int|
                0 <= c < n && 0 <= l < end@[c] - start@[c] && 0 <= x < 8 ==> #[trigger]
                    cells@[c]@[l]@[x] == f.cell_after(seed, done, c, l, x),
            forall|c: int, l: int|
                0 <= c < n && 0 <= l < end@[c] - start@[c] ==> #[trigger] funcs@[c]@[l]
                    == f.func_after(funcs0, now, done, c, l),
            f.reached(done).finite(),
            *reached == reached0 + f.reached(done).len(),
            matched@.no_duplicates(),
            forall|id: usize| #[trigger]
                matched@.contains(id) <==> f.matched(done).contains(id),
        decreases order@.len() - k,
    {
        let ci: usize = order[k];
        let ghost c = ci as int;
        let ghost visited = order@.take(k as int);
        let ghost more = order@.take(k + 1);
        proof {
            assert(0 <= order@[k as int] < n);
            assert(more =~= visited.push(ci));
            if visited.contains(ci) {
                let j = choose|j: int| 0 <= j < visited.len() && visited[j] == ci;
                assert(order@[j] == order@[k as int]);
            }
            table_shape(start@, end@, frontier@.len(), start@.len());
            assert(start@[c] <= end@[c]);
            assert(end@[c] <= frontier@.len());
        }
        let base: usize = start[ci];
        let stop: usize = end[ci];
        let mut id: usize = base;
        proof {
            assert forall|x: usize|
                done.contains(x) <==> x < total && (visited.contains(
                    owner(start@, end@, x as int) as usize,
                ) || (owner(start@, end@, x as int) == c && x < id)) by {
                if x < total {
                    owner_exists(start@, end@, frontier@.len(), start@.len(), x as int);
                }
            }
        }
        while id < stop
            invariant
                0 < n,
                base <= id <= stop <= total,
                base == start@[c],
                stop == end@[c],
                c == ci,
                0 <= c < n == start@.len(),
                total == frontier@.len(),
                !visited.contains(ci),
                is_table(start@, end@, frontier@.len(), start@.len()),
                is_chunked(f.cells, start@, end@),
                is_chunked(funcs0, start@, end@),
                is_chunked(cells@, start@, end@),
                is_chunked(funcs@, start@, end@),
                is_frontier(frontier@),
                limit == whole_quads(total),
                limit <= total,
                f.start == start@,
                f.end == end@,
                f.map == frontier@,
                v0.wf(),
                !v0.favor.contains_key(0),
                is_linked(f.cells, start@, v0),
                1 <= seed.seed_id <= depot.num_inputs,
                !v0.favor.contains_key(seed.seed_id),
                reached0 + total <= usize::MAX,
                depot.wf(),
                depot.same_store(&depot0),
                depot.edges() == depot0.edges(),
                depot.branches() == v0.won(seed, now, f.won(done)),
                done.finite(),
                forall|x: usize|
                    done.contains(x) <==> x < total && (visited.contains(
                        owner(start@, end@, x as int) as usize,
                    ) || (owner(start@, end@, x as int) == c && x < id)),
                forall|d: int, l: int, x: int|
                    0 <= d < n && 0 <= l < end@[d] - start@[d] && 0 <= x < 8 ==> #[trigger]
                        cells@[d]@[l]@[x] == f.cell_after(seed, done, d, l, x),
                forall|d: int, l: int|
                    0 <= d < n && 0 <= l < end@[d] - start@[d] ==> #[trigger] funcs@[d]@[l]
                        == f.func_after(funcs0, now, done, d, l),
                f.reached(done).finite(),
                *reached == reached0 + f.reached(done).len(),
                matched@.no_duplicates(),
                forall|x: usize| #[trigger]
                    matched@.contains(x) <==> f.matched(done).contains(x),
            decreases stop - id,
        {
            let ghost l = id - base;
            let ghost next = done.insert(id);
            let ghost cells1 = cells@;
            let ghost funcs1 = funcs@;
            let ghost matched1 = matched@;
            proof {
                owner_is(start@, end@, frontier@.len(), start@.len(), c, id as int);
                assert(!done.contains(id));
                assert(cells@[c]@.len() == stop - base);
                assert(funcs@[c]@.len() == stop - base);
                lemma_ids_fit(f.reached(done).insert(id), total as nat);
                assert(f.start[c] + l == id);
                assert forall|d: int, m: int|
                    0 <= d < n && 0 <= m < end@[d] - start@[d] && !(d == c && m == l) implies
                    #[trigger] (start@[d] + m) != id by {
                    if start@[d] + m == id {
                        owner_is(start@, end@, frontier@.len(), start@.len(), d, id as int);
                    }
                }
            }
            if id < limit && frontier[id] > 0 {
                let v: u16 = frontier[id];
                let ghost row0 = f.cells[c]@[l]@;
                proof {
                    assert(match_of(frontier@[id as int]) > 0);
                    buckets_are_ordered(0, 0, (v / 1024) as u16, 0);
                    assert forall|x: int| 0 <= x < 8 implies cells@[c]@[l]@[x]
                        == #[trigger] f.cells[c]@[l]@[x] by {
                        assert(cells@[c]@[l]@[x] == f.cell_after(seed, done, c, l, x));
                    }
                    assert(cells@[c]@[l]@ =~= row0);
                    assert forall|x: int| 0 <= x < 8 implies f.cell(id as int, x)
                        == #[trigger] row0[x] by {}
                    let pre = row0[context_of(v)].seed_id;
                    assert(pre == f.loser(id as int));
                    if pre != 0 {
                        assert(v0.items(pre).contains(id));
                        assert(v0.favor.contains_key(pre));
                    }
                    winning_one_more(v0, seed, now, f.won(done), id, pre);
                    assert(f.is_new(id as int) == (forall|x: int|
                        0 <= x < 8 ==> (#[trigger] row0[x]).seed_id == 0)) by {
                        if f.is_new(id as int) {
                            assert forall|x: int| 0 <= x < 8 implies (
                            #[trigger] row0[x]).seed_id == 0 by {
                                assert(f.cell(id as int, x).seed_id == 0);
                            }
                        }
                    }
                    assert(funcs@[c]@[l] == funcs0[c]@[l]);
                }
                let hit = commit_branch(
                    &mut cells[ci][id - base],
                    &mut funcs[ci][id - base],
                    reached,
                    depot,
                    v,
                    id,
                    seed,
                    now,
                );
                if hit {
                    matched.push(id);
                }
                proof {
                    if f.wins(id as int) {
                        assert(f.won(next) =~= f.won(done).insert(id, f.loser(id as int)));
                        if f.is_new(id as int) {
                            assert(f.reached(next) =~= f.reached(done).insert(id));
                        } else {
                            assert(f.reached(next) =~= f.reached(done));
                        }
                    } else {
                        assert(f.won(next) =~= f.won(done));
                        assert(f.reached(next) =~= f.reached(done));
                    }
                }
            } else {
                proof {
                    assert(!f.wins(id as int));
                    assert(f.won(next) =~= f.won(done));
                    assert(f.reached(next) =~= f.reached(done));
                }
            }
            proof {
                assert forall|d: int, m: int, x: int|
                    0 <= d < n && 0 <= m < end@[d] - start@[d] && 0 <= x < 8 implies #[trigger]
                    cells@[d]@[m]@[x] == f.cell_after(seed, next, d, m, x) by {
                    assert(cells1[d]@[m]@[x] == f.cell_after(seed, done, d, m, x));
                    if d == c && m == l {
                    } else {
                        assert((start@[d] + m) != id);
                        assert(cells@[d]@[m] == cells1[d]@[m]);
                    }
                }
                assert forall|d: int, m: int|
                    0 <= d < n && 0 <= m < end@[d] - start@[d] implies #[trigger] funcs@[d]@[m]
                    == f.func_after(funcs0, now, next, d, m) by {
                    assert(funcs1[d]@[m] == f.func_after(funcs0, now, done, d, m));
                    if d == c && m == l {
                    } else {
                        assert((start@[d] + m) != id);
                        assert(funcs@[d]@[m] == funcs1[d]@[m]);
                    }
                }
                assert forall|x: usize| #[trigger] matched@.contains(x) <==> f.matched(
                    next,
                ).contains(x) by {
                    assert(matched1.contains(x) <==> f.matched(done).contains(x));
                    if matched1.contains(x) {
                        let j = choose|j: int| 0 <= j < matched1.len() && matched1[j] == x;
                        assert(matched@[j] == x);
                    }
                    if matched@.len() > matched1.len() {
                        assert(matched@[matched1.len() as int] == id);
                    }
                }
                assert(matched@.no_duplicates()) by {
                    if matched@.len() > matched1.len() {
                        assert(!matched1.contains(id));
                    }
                }
                done = next;
            }
            id = id + 1;
        }
        proof {
            assert forall|x: usize|
                done.contains(x) <==> x < total && more.contains(
                    owner(start@, end@, x as int) as usize,
                ) by {
                if x < total {
                    owner_exists(start@, end@, frontier@.len(), start@.len(), x as int);
                    let o = owner(start@, end@, x as int);
                    assert(more.contains(o as usize) <==> visited.contains(o as usize) || o == c)
                        by {
                        if visited.contains(o as usize) {
                            let j = choose|j: int|
                                0 <= j < visited.len() && visited[j] == o as usize;
                            assert(more[j] == o as usize);
                        }
                        assert(more[k as int] == ci);
                    }
                }
            }
        }
        k = k + 1;
    }
    proof {
        assert(order@.take(k as int) =~= order@);
        assert(done =~= all_ids(total)) by {
            assert forall|id: usize| id < total implies done.contains(id) by {
                owner_exists(start@, end@, frontier@.len(), start@.len(), id as int);
                order_meets_all(order@, n, owner(start@, end@, id as int));
            }
        }
    }
    matched
}

/// A run that was noted comes no closer to any branch when it is repeated.
pub proof fn noted_runs_come_no_closer(
    f: FrontierView,
    after: Seq<Vec<[SeedInfo; BRANCH_CONTEXT_CNT]>>,
    seed: SeedInfo,
)
    requires
        0 < f.start.len(),
        is_table(f.start, f.end, f.map.len(), f.start.len()),
        f.map.len() <= usize::MAX,
        is_frontier(f.map),
        forall|c: int, l: int, x: int|
            0 <= c < f.start.len() && 0 <= l < f.end[c] - f.start[c] && 0 <= x < 8 ==> #[trigger]
                after[c]@[l]@[x] == f.cell_after(seed, all_ids(f.map.len() as int), c, l, x),
    ensures
        !any_win(FrontierView { cells: after, ..f }),
{
    let g = FrontierView { cells: after, ..f };
    assert forall|id: int| !#[trigger] g.wins(id) by {
        if g.wins(id) {
            owner_exists(f.start, f.end, f.map.len(), f.start.len(), id);
            let c = owner(f.start, f.end, id);
            let l = id - f.start[c];
            let v = f.map[id];
            buckets_are_ordered(0, 0, (v / 1024) as u16, 0);
            assert(after[c]@[l]@[context_of(v)] == f.cell_after(
                seed,
                all_ids(f.map.len() as int),
                c,
                l,
                context_of(v),
            ));
        }
    }
}

/// Winning items keeps the favor map and the queue linked: if the map holds
/// the winner in one context of each item it won, in place of the loser given
/// for it, and is otherwise unchanged, every seed of the map is still favored
/// for its item, and none stands there twice.
pub proof fn winning_keeps_links(
    before: Seq<Vec<[SeedInfo; BRANCH_CONTEXT_CNT]>>,
    after: Seq<Vec<[SeedInfo; BRANCH_CONTEXT_CNT]>>,
    start: Seq<usize>,
    end: Seq<usize>,
    total: nat,
    view: FavorView,
    seed: SeedInfo,
    now: u64,
    won: Map<usize, usize>,
    context: spec_fn(int) -> int,
)
    requires
        0 < start.len(),
        is_table(start, end, total, start.len()),
        total <= usize::MAX,
        is_chunked(before, start, end),
        is_chunked(after, start, end),
        is_linked(before, start, view),
        seed.seed_id != 0,
        !view.favor.contains_key(seed.seed_id),
        forall|c: int, l: int, x: int|
            0 <= c < start.len() && 0 <= l < end[c] - start[c] && 0 <= x < 8 ==> (
            #[trigger] after[c]@[l]@[x]).seed_id == if won.contains_key((start[c] + l) as usize)
                && x == context(start[c] + l) {
                seed.seed_id
            } else {
                before[c]@[l]@[x].seed_id
            },
        forall|c: int, l: int|
            0 <= c < start.len() && 0 <= l < end[c] - start[c] && won.contains_key(
                (start[c] + l) as usize,
            ) ==> 0 <= context(start[c] + l) < 8 && won[(start[c] + l) as usize]
                == (#[trigger] before[c]@[l])@[context(start[c] + l)].seed_id,
    ensures
        is_linked(after, start, view.won(seed, now, won)),
{
    let w = view.won(seed, now, won);
    table_shape(start, end, total, start.len());
    assert forall|c: int, l: int, x: int|
        0 <= c < after.len() && 0 <= l < after[c]@.len() && 0 <= x < 8 && (
        #[trigger] after[c]@[l]@[x]).seed_id != 0 implies w.items(
        after[c]@[l]@[x].seed_id,
    ).contains((start[c] + l) as usize) by {
        assert(after[c]@.len() == end[c] - start[c]);
        assert(before[c]@.len() == end[c] - start[c]);
        assert(end[c] <= total);
        let id = (start[c] + l) as usize;
        let s = after[c]@[l]@[x].seed_id;
        if won.contains_key(id) && x == context(start[c] + l) {
            assert(view.items_won(seed, won, s).contains(id));
        } else {
            assert(before[c]@[l]@[x].seed_id == s);
            assert(view.items(s).contains(id));
            if won.contains_key(id) {
                let y = context(start[c] + l);
                assert(won[id] == before[c]@[l]@[y].seed_id);
                assert(before[c]@[l]@[x].seed_id != before[c]@[l]@[y].seed_id);
            }
            assert(view.items_won(seed, won, s).contains(id));
        }
    }
    assert forall|c: int, l: int, x: int, y: int|
        0 <= c < after.len() && 0 <= l < after[c]@.len() && 0 <= x < 8 && 0 <= y < 8 && x != y && (
        #[trigger] after[c]@[l]@[x]).seed_id != 0 implies after[c]@[l]@[x].seed_id != (
    #[trigger] after[c]@[l]@[y]).seed_id by {
        assert(after[c]@.len() == end[c] - start[c]);
        assert(before[c]@.len() == end[c] - start[c]);
        let bx = before[c]@[l]@[x].seed_id;
        let by_ = before[c]@[l]@[y].seed_id;
        if bx != 0 {
            assert(view.items(bx).contains((start[c] + l) as usize));
        }
        if by_ != 0 {
            assert(view.items(by_).contains((start[c] + l) as usize));
        }
    }
}

/// The context in which a branch was met so often.
pub open spec fn context_by_hits(hits: int) -> int {
    reached(hits, 2) + reached(hits, 3) + reached(hits, 4) + reached(hits, 7) + reached(hits, 13)
        + reached(hits, 21) + reached(hits, 36)
}

/// For every branch and context the seed that came closest is kept. A report
/// has the hit count in the upper six bits and the match in the lower ten: the
/// run takes over where its match is greater than any before it in the same
/// context, with its match. Everything else stays.
pub proof fn closest_seeds_are_kept(
    f: FrontierView,
    seed: SeedInfo,
    c: int,
    l: int,
    x: int,
)
    requires
        0 < f.start.len(),
        is_table(f.start, f.end, f.map.len(), f.start.len()),
        f.map.len() <= usize::MAX,
        is_frontier(f.map),
        0 <= c < f.start.len(),
        0 <= l < f.end[c] - f.start[c],
        0 <= x < 8,
    ensures
        ({
            let v = f.map[f.start[c] + l] as int;
            let old_seed = f.cells[c]@[l]@[x];
            let new_seed = f.cell_after(seed, all_ids(f.map.len() as int), c, l, x);
            let is_met = f.start[c] + l < f.map.len() - f.map.len() % 4 && v > 0
                && context_by_hits(v / 1024) == x;
            if is_met && v % 1024 > old_seed.match_value {
                new_seed == (SeedInfo { match_value: (v % 1024) as u16, ..seed })
            } else {
                new_seed == old_seed
            }
        }),
        f.start[c] + l < f.map.len() - f.map.len() % 4 && f.map[f.start[c] + l] > 0 ==> 0
            <= context_by_hits(f.map[f.start[c] + l] as int / 1024) < 8,
{
    let id = f.start[c] + l;
    let v = f.map[id];
    table_shape(f.start, f.end, f.map.len(), f.start.len());
    owner_is(f.start, f.end, f.map.len(), f.start.len(), c, id);
    buckets_begin_at_bounds(1, (v / 1024) as u16);
    assert(whole_quads(f.map.len() as int) == f.map.len() - f.map.len() % 4);
    assert(id < f.map.len());
    assert(all_ids(f.map.len() as int).contains(id as usize));
    if id < f.map.len() - f.map.len() % 4 && v > 0 {
        assert(v / 1024 > 0);
        assert(context_of(v) == context_by_hits(v as int / 1024));
    }
}

/// The matches of a report are added up: those of two parts make that of the
/// whole, and one entry has the lower ten bits.
pub proof fn matches_add_up(map: Seq<u16>, i: int, hi: int)
    requires
        0 <= i < hi <= map.len(),
    ensures
        match_total(map, 0) == 0,
        match_total(map, hi) >= match_total(map, i) + map[i] as int % 1024,
        hi == i + 1 ==> match_total(map, hi) == match_total(map, i) + map[i] as int % 1024,
    decreases hi - i,
{
    if i + 1 < hi {
        matches_add_up(map, i, hi - 1);
    }
}

} // verus!
