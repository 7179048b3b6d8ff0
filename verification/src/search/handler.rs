//! The work on one seed: its budget, its score and what it earns.

use super::operands::{trace_fits, Operands};
use crate::binary32::{
    compare_product, greater_integers_stay_above, magnitude, product_above, product_below,
    small_products_are_exact,
};
use crate::binary64::{
    product, rounding_errs_little, rounding_keeps_order, scaled_by, scaling_is_close, short_integers_are_exact,
    small_integers_convert, truncated_product, SIX_FIFTHS,
};
use crate::branches::GlobalBranches;
use crate::config::HAVOC_MAX_MULT;
use crate::depot::SeedInfo;
use crate::extras::prepared;
use crate::search::operands::{is_len_set, is_number_set};
use crate::status::StatusType;
use vstd::arithmetic::power2::pow2;
use vstd::prelude::*;

verus! {

/// What a run found.
#[derive(Clone, Copy, Debug, PartialEq, Eq, Structural)]
pub struct Found {
    pub has_new_path: bool,
    pub has_new_edge: bool,
    pub has_higher_match: bool,
}

/// The work on one seed.
#[derive(Debug)]
pub struct SearchHandler {
    pub seed_info: SeedInfo,
    /// How often the target may be run in the current stage.
    pub initial_max_execs: usize,
    /// Up to where that may grow.
    pub final_max_execs: usize,
    /// The seed is given up.
    pub skip: bool,
    pub buf: Vec<u8>,
    /// How often the target was run in the current stage.
    pub exec_count: usize,
    /// Successes and failures to report to the queue the seed came from.
    pub queue_rewards: (usize, usize),
    pub operands: Operands,
}

/// The constant 2, scaled by 2^52.
pub const TWO: u64 = 0x20_0000_0000_0000;

/// What a run earns the queue: a point for each kind of find.
pub open spec fn reward(found: Found) -> nat {
    (if found.has_new_path {
        1nat
    } else {
        0
    }) + (if found.has_new_edge {
        1nat
    } else {
        0
    }) + (if found.has_higher_match {
        1nat
    } else {
        0
    })
}

/// The queue's successes and failures after a run.
pub open spec fn rewarded(rewards: (usize, usize), found: Found) -> (usize, usize) {
    if reward(found) == 0 {
        (rewards.0, (rewards.1 + 1) as usize)
    } else {
        ((rewards.0 + reward(found)) as usize, rewards.1)
    }
}

/// A budget with a bonus, if there is one to give and the budget has not
/// grown as far as it may.
pub open spec fn with_bonus(execs: usize, limit: usize, earned: bool, c: u64) -> usize {
    if earned && execs < limit {
        truncated_product(execs, c, 52)
    } else {
        execs
    }
}

/// The budget after a normal run: a fifth more for a new path, twice as much
/// for a new edge, and a fifth more for a better match.
pub open spec fn budget_after(execs: usize, limit: usize, found: Found) -> usize {
    with_bonus(
        with_bonus(
            with_bonus(execs, limit, found.has_new_path, SIX_FIFTHS),
            limit,
            found.has_new_edge,
            TWO,
        ),
        limit,
        found.has_higher_match,
        SIX_FIFTHS,
    )
}

/// A bonus makes a budget larger, and at most twice as large.
proof fn lemma_bonus(execs: usize, c: u64)
    requires
        execs < 0x10_0000_0000_0000,
        0x10_0000_0000_0000 <= c <= TWO,
    ensures
        execs <= truncated_product(execs, c, 52) <= 2 * execs,
{
    let x = execs as nat;
    let one = pow2(52);
    vstd::arithmetic::power2::lemma2_to64();
    vstd::arithmetic::power2::lemma2_to64_rest();
    small_integers_convert(x);
    short_integers_are_exact(x, 52);
    short_integers_are_exact(x, 53);
    let p = (x * c) as nat;
    assert(x * one <= p <= x * pow2(53) && x * pow2(53) == 2 * x * one) by (nonlinear_arith)
        requires
            p == x * c,
            one <= c <= pow2(53),
            pow2(53) == 2 * one,
            0 <= x,
    ;
    rounding_keeps_order((x * one) as nat, p, 1);
    rounding_keeps_order(p, (x * pow2(53)) as nat, 1);
    let v = product(x, c as nat);
    assert(x <= v / one <= 2 * x) by (nonlinear_arith)
        requires
            x * one <= v <= 2 * x * one,
            one > 0,
    ;
}

/// A budget never shrinks, and the bonuses do not take it further than twice
/// the limit. So a stage in which every run is counted ends, whatever the
/// runs find.
pub proof fn budgets_stay_bounded(execs: usize, limit: usize, found: Found)
    requires
        limit <= 0x10_0000_0000_0000,
    ensures
        execs <= budget_after(execs, limit, found),
        execs <= 2 * limit ==> budget_after(execs, limit, found) <= 2 * limit,
        execs >= limit ==> budget_after(execs, limit, found) == execs,
{
    let first = with_bonus(execs, limit, found.has_new_path, SIX_FIFTHS);
    let second = with_bonus(first, limit, found.has_new_edge, TWO);
    if execs < limit {
        lemma_bonus(execs, SIX_FIFTHS);
    }
    if first < limit {
        lemma_bonus(first, TWO);
    }
    if second < limit {
        lemma_bonus(second, SIX_FIFTHS);
    }
}

fn give_bonus(execs: usize, limit: usize, earned: bool, c: u64) -> (r: usize)
    requires
        c <= 0x20_0000_0000_0000,
    ensures
        r == with_bonus(execs, limit, earned, c),
{
    if earned && execs < limit {
        scaled_by(execs, c, 52)
    } else {
        execs
    }
}

/// How a seed's execution time and number of edges compare with the
/// averages.
#[derive(Clone, Copy, Debug)]
pub struct Comparisons {
    /// A tenth of the time is above average.
    pub tenth_time_above: bool,
    pub quarter_time_above: bool,
    pub half_time_above: bool,
    pub three_quarter_time_above: bool,
    /// Four times the time is below average.
    pub four_times_time_below: bool,
    pub three_times_time_below: bool,
    pub twice_time_below: bool,
    /// Three tenths of the edges are above average.
    pub three_tenth_edges_above: bool,
    pub half_edges_above: bool,
    pub three_quarter_edges_above: bool,
    /// Three times the edges are below average.
    pub three_times_edges_below: bool,
    pub twice_edges_below: bool,
    pub three_half_edges_below: bool,
}

/// 0.1 in double precision, scaled by 2^56.
pub const TENTH: u64 = 0x19_9999_9999_999a;

/// 0.3 in double precision, scaled by 2^54.
pub const THREE_TENTHS: u64 = 0x13_3333_3333_3333;

/// How a seed compares with the averages, which are numbers in single
/// precision, given by their bits. The products are those of double
/// precision.
pub open spec fn comparisons(seed: SeedInfo, avg_exec_us: u32, avg_edge_num: u32) -> Comparisons {
    let t = seed.exec_time_us as nat;
    let n = seed.edge_num as nat;
    Comparisons {
        tenth_time_above: product_above(t, TENTH as nat, 56, avg_exec_us),
        quarter_time_above: product_above(t, 1, 2, avg_exec_us),
        half_time_above: product_above(t, 1, 1, avg_exec_us),
        three_quarter_time_above: product_above(t, 3, 2, avg_exec_us),
        four_times_time_below: product_below(t, 4, 0, avg_exec_us),
        three_times_time_below: product_below(t, 3, 0, avg_exec_us),
        twice_time_below: product_below(t, 2, 0, avg_exec_us),
        three_tenth_edges_above: product_above(n, THREE_TENTHS as nat, 54, avg_edge_num),
        half_edges_above: product_above(n, 1, 1, avg_edge_num),
        three_quarter_edges_above: product_above(n, 3, 2, avg_edge_num),
        three_times_edges_below: product_below(n, 3, 0, avg_edge_num),
        twice_edges_below: product_below(n, 2, 0, avg_edge_num),
        three_half_edges_below: product_below(n, 3, 1, avg_edge_num),
    }
}

/// Compares a seed with the averages.
pub fn compare(seed: &SeedInfo, avg_exec_us: u32, avg_edge_num: u32) -> (r: Comparisons)
    ensures
        r == comparisons(*seed, avg_exec_us, avg_edge_num),
{
    let (t, n) = (seed.exec_time_us, seed.edge_num);
    Comparisons {
        tenth_time_above: compare_product(t, TENTH, 56, avg_exec_us).0,
        quarter_time_above: compare_product(t, 1, 2, avg_exec_us).0,
        half_time_above: compare_product(t, 1, 1, avg_exec_us).0,
        three_quarter_time_above: compare_product(t, 3, 2, avg_exec_us).0,
        four_times_time_below: compare_product(t, 4, 0, avg_exec_us).1,
        three_times_time_below: compare_product(t, 3, 0, avg_exec_us).1,
        twice_time_below: compare_product(t, 2, 0, avg_exec_us).1,
        three_tenth_edges_above: compare_product(n, THREE_TENTHS, 54, avg_edge_num).0,
        half_edges_above: compare_product(n, 1, 1, avg_edge_num).0,
        three_quarter_edges_above: compare_product(n, 3, 2, avg_edge_num).0,
        three_times_edges_below: compare_product(n, 3, 0, avg_edge_num).1,
        twice_edges_below: compare_product(n, 2, 0, avg_edge_num).1,
        three_half_edges_below: compare_product(n, 3, 1, avg_edge_num).1,
    }
}

/// The score for the execution time: fast seeds score high.
pub open spec fn time_score(c: Comparisons) -> nat {
    if c.tenth_time_above {
        10
    } else if c.quarter_time_above {
        25
    } else if c.half_time_above {
        50
    } else if c.three_quarter_time_above {
        75
    } else if c.four_times_time_below {
        300
    } else if c.three_times_time_below {
        200
    } else if c.twice_time_below {
        150
    } else {
        100
    }
}

/// The score for the execution time, adjusted by the number of edges: seeds
/// with many edges score higher.
pub open spec fn edge_score(c: Comparisons) -> nat {
    let s = time_score(c);
    if c.three_tenth_edges_above {
        s * 3
    } else if c.half_edges_above {
        s * 2
    } else if c.three_quarter_edges_above {
        s * 3 / 2
    } else if c.three_times_edges_below {
        s / 4
    } else if c.twice_edges_below {
        s / 2
    } else if c.three_half_edges_below {
        s * 3 / 4
    } else {
        s
    }
}

/// The least score.
pub const MIN_SCORE: usize = 10;

/// The greatest score.
pub const MAX_SCORE: usize = 300;

/// The score: it is held between the least and the greatest one.
pub open spec fn mutation_score(c: Comparisons) -> nat {
    if edge_score(c) < MIN_SCORE {
        MIN_SCORE as nat
    } else if edge_score(c) > MAX_SCORE {
        MAX_SCORE as nat
    } else {
        edge_score(c)
    }
}

/// Scores lie between 10 and 300, well below what havoc allows.
pub proof fn scores_are_bounded(c: Comparisons)
    ensures
        10 <= mutation_score(c) <= 300,
        mutation_score(c) <= HAVOC_MAX_MULT * 100,
{
}

/// The first of two seeds that are compared with the same averages is not the
/// slower one: its time is above a mark only where the other's is, and below
/// a mark wherever the other's is.
pub open spec fn no_slower(a: Comparisons, b: Comparisons) -> bool {
    &&& a.tenth_time_above ==> b.tenth_time_above
    &&& a.quarter_time_above ==> b.quarter_time_above
    &&& a.half_time_above ==> b.half_time_above
    &&& a.three_quarter_time_above ==> b.three_quarter_time_above
    &&& b.four_times_time_below ==> a.four_times_time_below
    &&& b.three_times_time_below ==> a.three_times_time_below
    &&& b.twice_time_below ==> a.twice_time_below
}

/// The first of two seeds that are compared with the same averages has no
/// fewer edges than the other.
pub open spec fn no_fewer_edges(a: Comparisons, b: Comparisons) -> bool {
    &&& b.three_tenth_edges_above ==> a.three_tenth_edges_above
    &&& b.half_edges_above ==> a.half_edges_above
    &&& b.three_quarter_edges_above ==> a.three_quarter_edges_above
    &&& a.three_times_edges_below ==> b.three_times_edges_below
    &&& a.twice_edges_below ==> b.twice_edges_below
    &&& a.three_half_edges_below ==> b.three_half_edges_below
}

/// A seed that compares no worse with the averages never scores less.
pub proof fn better_comparisons_score_no_less(a: Comparisons, b: Comparisons)
    requires
        no_slower(a, b),
        no_fewer_edges(a, b),
    ensures
        mutation_score(a) >= mutation_score(b),
{
    assert(time_score(a) >= time_score(b));
}

/// With the same averages, a seed that is no slower than another and covers no
/// fewer edges never scores less.
pub proof fn better_seeds_score_no_less(
    a: SeedInfo,
    b: SeedInfo,
    avg_exec_us: u32,
    avg_edge_num: u32,
)
    requires
        a.exec_time_us <= b.exec_time_us,
        a.edge_num >= b.edge_num,
    ensures
        mutation_score(comparisons(a, avg_exec_us, avg_edge_num)) >= mutation_score(
            comparisons(b, avg_exec_us, avg_edge_num),
        ),
{
    let (s, t) = (a.exec_time_us as nat, b.exec_time_us as nat);
    greater_integers_stay_above(s, t, TENTH as nat, 56, avg_exec_us);
    greater_integers_stay_above(s, t, 1, 2, avg_exec_us);
    greater_integers_stay_above(s, t, 1, 1, avg_exec_us);
    greater_integers_stay_above(s, t, 3, 2, avg_exec_us);
    greater_integers_stay_above(s, t, 4, 0, avg_exec_us);
    greater_integers_stay_above(s, t, 3, 0, avg_exec_us);
    greater_integers_stay_above(s, t, 2, 0, avg_exec_us);
    let (n, m) = (b.edge_num as nat, a.edge_num as nat);
    greater_integers_stay_above(n, m, THREE_TENTHS as nat, 54, avg_edge_num);
    greater_integers_stay_above(n, m, 1, 1, avg_edge_num);
    greater_integers_stay_above(n, m, 3, 2, avg_edge_num);
    greater_integers_stay_above(n, m, 3, 0, avg_edge_num);
    greater_integers_stay_above(n, m, 2, 0, avg_edge_num);
    greater_integers_stay_above(n, m, 3, 1, avg_edge_num);
    better_comparisons_score_no_less(
        comparisons(a, avg_exec_us, avg_edge_num),
        comparisons(b, avg_exec_us, avg_edge_num),
    );
}

/// The score by the comparisons with the averages.
pub fn score_of(c: &Comparisons) -> (r: usize)
    ensures
        r == mutation_score(*c),
{
    let s: usize = if c.tenth_time_above {
        10
    } else if c.quarter_time_above {
        25
    } else if c.half_time_above {
        50
    } else if c.three_quarter_time_above {
        75
    } else if c.four_times_time_below {
        300
    } else if c.three_times_time_below {
        200
    } else if c.twice_time_below {
        150
    } else {
        100
    };
    let t: usize = if c.three_tenth_edges_above {
        s * 3
    } else if c.half_edges_above {
        s * 2
    } else if c.three_quarter_edges_above {
        s * 3 / 2
    } else if c.three_times_edges_below {
        s / 4
    } else if c.twice_edges_below {
        s / 2
    } else if c.three_half_edges_below {
        s * 3 / 4
    } else {
        s
    };
    if t < MIN_SCORE {
        MIN_SCORE
    } else if t > MAX_SCORE {
        MAX_SCORE
    } else {
        t
    }
}

impl SearchHandler {
    /// Begins the work on a seed with the given input.
    pub fn new(seed_info: SeedInfo, buf: Vec<u8>) -> (r: Self)
        requires
            seed_info.seed_id > 0,
        ensures
            r.seed_info == seed_info,
            r.buf == buf,
            r.initial_max_execs == 0,
            r.final_max_execs == 0,
            !r.skip,
            r.exec_count == 0,
            r.queue_rewards == (0usize, 0usize),
            r.operands.wf(),
            r.operands@.lens.len() == 0,
            r.operands@.pairs.len() == 0,
            r.operands@.numbers.len() == 0,
            r.operands@.strings.len() == 0,
    {
        SearchHandler {
            seed_info,
            initial_max_execs: 0,
            final_max_execs: 0,
            skip: false,
            buf,
            exec_count: 0,
            queue_rewards: (0, 0),
            operands: Operands::new(),
        }
    }

    /// The work on the seed is over.
    pub fn is_stopped_or_skip(&self, running: bool) -> (r: bool)
        ensures
            r == (!running || self.skip),
    {
        !running || self.skip
    }

    /// Counts a run for the queue that the seed came from.
    pub fn update_queue_rewards(&mut self, found: Found)
        requires
            old(self).queue_rewards.0 + 3 <= usize::MAX,
            old(self).queue_rewards.1 + 1 <= usize::MAX,
        ensures
            *final(self) == (SearchHandler {
                queue_rewards: rewarded(old(self).queue_rewards, found),
                ..*old(self)
            }),
    {
        let mut reward: usize = 0;
        if found.has_new_path {
            reward = reward + 1;
        }
        if found.has_new_edge {
            reward = reward + 1;
        }
        if found.has_higher_match {
            reward = reward + 1;
        }
        if reward == 0 {
            self.queue_rewards = (self.queue_rewards.0, self.queue_rewards.1 + 1);
        } else {
            self.queue_rewards = (self.queue_rewards.0 + reward, self.queue_rewards.1);
        }
    }

    /// Draws the consequences of a run: the queue is rewarded, the budget may
    /// grow, and the seed is given up if it timed out too often or the budget
    /// is spent.
    pub fn process_status(&mut self, status: StatusType, found: Found)
        requires
            old(self).queue_rewards.0 + 3 <= usize::MAX,
            old(self).queue_rewards.1 + 1 <= usize::MAX,
        ensures
            ({
                let budget = if status == StatusType::Normal {
                    budget_after(old(self).initial_max_execs, old(self).final_max_execs, found)
                } else {
                    old(self).initial_max_execs
                };
                *final(self) == (SearchHandler {
                    queue_rewards: rewarded(old(self).queue_rewards, found),
                    initial_max_execs: budget,
                    skip: old(self).skip || status == StatusType::Skip || old(self).exec_count
                        > budget,
                    ..*old(self)
                })
            }),
    {
        self.update_queue_rewards(found);
        if status == StatusType::Skip {
            self.skip = true;
        }
        if status == StatusType::Normal {
            let limit: usize = self.final_max_execs;
            let first: usize = give_bonus(
                self.initial_max_execs,
                limit,
                found.has_new_path,
                SIX_FIFTHS,
            );
            let second: usize = give_bonus(first, limit, found.has_new_edge, TWO);
            self.initial_max_execs = give_bonus(
                second,
                limit,
                found.has_higher_match,
                SIX_FIFTHS,
            );
        }
        if self.exec_count > self.initial_max_execs {
            self.skip = true;
        }
    }

    /// Adds the operands that the trace target recorded, if its run was
    /// normal.
    pub fn execute_trace_and_load(
        &mut self,
        trace_status: StatusType,
        raw: &[u8],
        global: &GlobalBranches,
    )
        requires
            old(self).operands.wf(),
            trace_status == StatusType::Normal ==> trace_fits(raw@, global),
        ensures
            final(self).operands.wf(),
            final(self).seed_info == old(self).seed_info,
            final(self).initial_max_execs == old(self).initial_max_execs,
            final(self).final_max_execs == old(self).final_max_execs,
            final(self).skip == old(self).skip,
            final(self).buf == old(self).buf,
            final(self).exec_count == old(self).exec_count,
            final(self).queue_rewards == old(self).queue_rewards,
            trace_status != StatusType::Normal ==> final(self).operands == old(self).operands,
            trace_status == StatusType::Normal ==> ({
                let all = old(self).operands@.with_records(
                    raw@,
                    global,
                    raw@.len() as int / 2242,
                    old(self).buf@.len() as usize,
                );
                &&& is_len_set(all.lens, final(self).operands@.lens)
                &&& is_number_set(all.numbers, final(self).operands@.numbers)
                &&& final(self).operands@.strings == prepared(all.strings)
                &&& final(self).operands@.pairs == all.pairs
                &&& final(self).operands@.branches == all.branches
            }),
    {
        if trace_status != StatusType::Normal {
            return;
        }
        self.operands.add_records(raw, global, self.buf.len());
        self.operands.tidy();
    }

    /// The score of the seed: how much work it is worth, in percent. The
    /// averages are numbers in single precision, given by their bits.
    pub fn calculate_score(&self, avg_exec_us: u32, avg_edge_num: u32) -> (r: usize)
        ensures
            r == mutation_score(comparisons(self.seed_info, avg_exec_us, avg_edge_num)),
            10 <= r <= 300,
    {
        score_of(&compare(&self.seed_info, avg_exec_us, avg_edge_num))
    }
}

/// A new path gives a fifth more runs, a new edge twice as many, and a better
/// match a fifth more, in this order, as long as the limit is not reached.
/// Nothing else gives any.
pub proof fn finds_earn_runs(execs: usize, limit: usize)
    requires
        execs < 0x100_0000_0000,
        2 * execs < usize::MAX,
    ensures
        ({
            let none = Found { has_new_path: false, has_new_edge: false, has_higher_match: false };
            let path = budget_after(execs, limit, Found { has_new_path: true, ..none });
            let edge = budget_after(execs, limit, Found { has_new_edge: true, ..none });
            let closer = budget_after(execs, limit, Found { has_higher_match: true, ..none });
            let all = Found { has_new_path: true, has_new_edge: true, has_higher_match: true };
            &&& budget_after(execs, limit, none) == execs
            &&& execs < limit ==> 6 * execs - 5 <= 5 * path <= 6 * execs
            &&& execs < limit ==> edge == 2 * execs
            &&& closer == path
            &&& execs >= limit ==> path == execs && edge == execs
            &&& budget_after(execs, limit, all) == budget_after(
                budget_after(path, limit, Found { has_new_edge: true, ..none }),
                limit,
                Found { has_higher_match: true, ..none },
            )
        }),
{
    scaling_is_close(execs, SIX_FIFTHS, 52);
    let c = SIX_FIFTHS as int;
    let m = 0x10_0000_0000_0000int;
    let r = truncated_product(execs, SIX_FIFTHS, 52) as int;
    assert(5 * (execs * c) == execs * (6 * m - 1)) by (nonlinear_arith)
        requires
            5 * c == 6 * m - 1,
    ;
    assert(execs * (6 * m - 1) == m * (6 * execs) - execs) by (nonlinear_arith);
    assert((r + 1) * m == r * m + m) by (nonlinear_arith);
    short_integers_are_exact(execs as nat, 53);
    small_integers_convert(execs as nat);
    let x = execs as int;
    assert(x * 0x20_0000_0000_0000 == (2 * x) * m) by (nonlinear_arith)
        requires
            m == 0x10_0000_0000_0000,
    ;
    vstd::arithmetic::div_mod::lemma_div_by_multiple(2 * x, m);
}

/// What a run reports to the queue: a success for each find, or a failure if
/// there is none.
pub proof fn finds_are_successes(rewards: (usize, usize), found: Found)
    requires
        rewards.0 + 3 <= usize::MAX,
        rewards.1 + 1 <= usize::MAX,
    ensures
        ({
            let r = rewarded(rewards, found);
            let n = found.has_new_path as int + found.has_new_edge as int + found.has_higher_match
                as int;
            r.0 == rewards.0 + n && r.1 == rewards.1 + if n == 0 {
                1int
            } else {
                0
            }
        }),
{
}

/// The score of a seed, by its time and then by its edges. The time gives from
/// ten to three hundred; many edges double or treble that or give half as much
/// again, and few take away from a quarter to three quarters of it. The outcome
/// is held between ten and three hundred.
pub proof fn edges_weigh_in(c: Comparisons)
    ensures
        ({
            let even = Comparisons {
                three_tenth_edges_above: false,
                half_edges_above: false,
                three_quarter_edges_above: false,
                three_times_edges_below: false,
                twice_edges_below: false,
                three_half_edges_below: false,
                ..c
            };
            let t = mutation_score(even) as int;
            let r = mutation_score(c) as int;
            &&& t == 10 || t == 25 || t == 50 || t == 75 || t == 100 || t == 150 || t == 200 || t
                == 300
            &&& c.three_tenth_edges_above ==> r == held(3 * t)
            &&& !c.three_tenth_edges_above && c.half_edges_above ==> r == held(2 * t)
            &&& !c.three_tenth_edges_above && !c.half_edges_above && c.three_quarter_edges_above
                ==> r == held(t + t / 2)
            &&& !is_rich(c) && c.three_times_edges_below ==> r == held(t / 4)
            &&& !is_rich(c) && !c.three_times_edges_below && c.twice_edges_below ==> r == held(
                t / 2,
            )
            &&& !is_rich(c) && !c.three_times_edges_below && !c.twice_edges_below
                && c.three_half_edges_below ==> r == held(3 * t / 4)
        }),
        !is_slow(c) && c.four_times_time_below ==> time_score(c) == 300,
        !is_slow(c) && !c.four_times_time_below && c.three_times_time_below ==> time_score(c)
            == 200,
        !is_slow(c) && !c.four_times_time_below && !c.three_times_time_below && c.twice_time_below
            ==> time_score(c) == 150,
        !is_slow(c) && !c.four_times_time_below && !c.three_times_time_below && !c.twice_time_below
            ==> time_score(c) == 100,
        c.tenth_time_above ==> time_score(c) == 10,
        !c.tenth_time_above && c.quarter_time_above ==> time_score(c) == 25,
        !c.tenth_time_above && !c.quarter_time_above && c.half_time_above ==> time_score(c) == 50,
        !c.tenth_time_above && !c.quarter_time_above && !c.half_time_above
            && c.three_quarter_time_above ==> time_score(c) == 75,
{
}

/// A number held between ten and three hundred.
pub open spec fn held(x: int) -> int {
    if x < 10 {
        10
    } else if x > 300 {
        300
    } else {
        x
    }
}

/// The seed has more edges than the average.
pub open spec fn is_rich(c: Comparisons) -> bool {
    c.three_tenth_edges_above || c.half_edges_above || c.three_quarter_edges_above
}

/// The seed takes more time than the average.
pub open spec fn is_slow(c: Comparisons) -> bool {
    c.tenth_time_above || c.quarter_time_above || c.half_time_above || c.three_quarter_time_above
}


proof fn lemma_share(x: nat, c: nat, k: nat, bits: u32, a: nat)
    requires
        x < 0x100_0000_0000,
        c <= 4,
        k <= 2,
        bits <= 0x7f80_0000,
        magnitude(bits) == a * pow2(149),
    ensures
        product_above(x, c, k, bits) <==> x * c > a * pow2(k),
        product_below(x, c, k, bits) <==> x * c < a * pow2(k),
        pow2(0) == 1 && pow2(1) == 2 && pow2(2) == 4,
{
    small_products_are_exact(x, c, k, bits);
    vstd::arithmetic::power2::lemma2_to64();
    vstd::arithmetic::power2::lemma_pow2_pos(149);
    let p = pow2(149) as int;
    let q = pow2(k) as int;
    let (n, m) = (x * c as int, a * q);
    assert((a * p) * q == m * p) by (nonlinear_arith)
        requires
            m == a * q,
    ;
    assert((n * p > m * p) == (n > m) && (n * p < m * p) == (n < m)) by (nonlinear_arith)
        requires
            p > 0,
    ;
}

/// A share that has no exact number in double precision.
proof fn lemma_near_share(x: nat, c: nat, k: nat, bits: u32, a: nat, num: nat)
    requires
        x < 0x100_0000_0000,
        0x10_0000_0000_0000 <= c < 0x20_0000_0000_0000,
        bits <= 0x7f80_0000,
        magnitude(bits) == a * pow2(149),
        num <= 3,
        (k == 56 && num == 1 && c == TENTH) || (k == 54 && num == 3 && c == THREE_TENTHS),
    ensures
        num * x > 10 * a ==> product_above(x, c, k, bits),
        num * x < 10 * a ==> !product_above(x, c, k, bits),
{
    vstd::arithmetic::power2::lemma2_to64();
    vstd::arithmetic::power2::lemma2_to64_rest();
    vstd::arithmetic::power2::lemma_pow2_pos(149);
    small_integers_convert(x);
    let v = product(x, c) as int;
    let n = (x * c) as nat;
    let p = pow2(149) as int;
    let q = pow2(k) as int;
    let m = a * q;
    assert((a * p) * q == m * p) by (nonlinear_arith)
        requires
            m == a * q,
    ;
    assert((v * p > m * p) == (v > m)) by (nonlinear_arith)
        requires
            p > 0,
    ;
    if x == 0 {
        assert(0 * c == 0);
        small_integers_convert(0);
        assert(m >= 0) by (nonlinear_arith)
            requires
                m == a * q,
                q > 0,
        ;
    } else {
        assert(2 * n >= 0x20_0000_0000_0000) by (nonlinear_arith)
            requires
                n == x * c,
                x >= 1,
                c >= 0x10_0000_0000_0000,
        ;
        rounding_errs_little(n, 1);
        assert(n < 0x100_0000_0000 * 0x20_0000_0000_0000) by (nonlinear_arith)
            requires
                n == x * c,
                x < 0x100_0000_0000,
                0 < c < 0x20_0000_0000_0000,
        ;
        assert(v <= n + 0x100_0000_0000 && n <= v + 0x100_0000_0000);
        assert(n == c * x) by (nonlinear_arith)
            requires
                n == x * c,
        ;
        assert(m == q * a) by (nonlinear_arith)
            requires
                m == a * q,
        ;
        if k == 56 {
            assert(n == 0x19_9999_9999_999a * x);
            assert(m == 0x100_0000_0000_0000 * a);
        } else {
            assert(n == 0x13_3333_3333_3333 * x);
            assert(m == 0x40_0000_0000_0000 * a);
        }
    }
}

/// What the marks are, where the averages are integers: a seed's time is
/// compared with ten, four, two and four thirds times the average, and with a
/// quarter, a third and a half of it; its edges with ten thirds, two and four
/// thirds times the average, and with a third, a half and two thirds of it. Of
/// ten and ten thirds it is left open on which side the mark itself lies.
pub proof fn marks_are_shares_of_the_average(
    seed: SeedInfo,
    avg_exec_us: u32,
    avg_edge_num: u32,
    us: nat,
    edges: nat,
)
    requires
        seed.exec_time_us < 0x100_0000_0000,
        seed.edge_num < 0x100_0000_0000,
        avg_exec_us <= 0x7f80_0000,
        avg_edge_num <= 0x7f80_0000,
        magnitude(avg_exec_us) == us * pow2(149),
        magnitude(avg_edge_num) == edges * pow2(149),
    ensures
        ({
            let c = comparisons(seed, avg_exec_us, avg_edge_num);
            let t = seed.exec_time_us as int;
            let n = seed.edge_num as int;
            &&& t > 10 * us ==> c.tenth_time_above
            &&& t < 10 * us ==> !c.tenth_time_above
            &&& c.quarter_time_above <==> t > 4 * us
            &&& c.half_time_above <==> t > 2 * us
            &&& c.three_quarter_time_above <==> 3 * t > 4 * us
            &&& c.four_times_time_below <==> 4 * t < us
            &&& c.three_times_time_below <==> 3 * t < us
            &&& c.twice_time_below <==> 2 * t < us
            &&& 3 * n > 10 * edges ==> c.three_tenth_edges_above
            &&& 3 * n < 10 * edges ==> !c.three_tenth_edges_above
            &&& c.half_edges_above <==> n > 2 * edges
            &&& c.three_quarter_edges_above <==> 3 * n > 4 * edges
            &&& c.three_times_edges_below <==> 3 * n < edges
            &&& c.twice_edges_below <==> 2 * n < edges
            &&& c.three_half_edges_below <==> 3 * n < 2 * edges
        }),
{
    let t = seed.exec_time_us as nat;
    let n = seed.edge_num as nat;
    lemma_near_share(t, TENTH as nat, 56, avg_exec_us, us, 1);
    lemma_share(t, 1, 2, avg_exec_us, us);
    lemma_share(t, 1, 1, avg_exec_us, us);
    lemma_share(t, 3, 2, avg_exec_us, us);
    lemma_share(t, 4, 0, avg_exec_us, us);
    lemma_share(t, 3, 0, avg_exec_us, us);
    lemma_share(t, 2, 0, avg_exec_us, us);
    lemma_near_share(n, THREE_TENTHS as nat, 54, avg_edge_num, edges, 3);
    lemma_share(n, 1, 1, avg_edge_num, edges);
    lemma_share(n, 3, 2, avg_edge_num, edges);
    lemma_share(n, 3, 0, avg_edge_num, edges);
    lemma_share(n, 2, 0, avg_edge_num, edges);
    lemma_share(n, 3, 1, avg_edge_num, edges);
}

} // verus!
