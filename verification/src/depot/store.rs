//! The store of seeds, and which of them is picked next.

use super::depot_dir::DepotDir;
use super::favor_queue::{FavorQueue, FavorView};
use super::seed_info::SeedInfo;
use crate::binary64::{
    scaled_by, scaling_is_close, truncated_product, NINETY_NINE_HUNDREDTHS,
};
use crate::extras::ExtraData;
use crate::rng::random_usize;
use crate::status::StatusType;
use vstd::prelude::*;

verus! {

/// The seed store and the state of scheduling.
///
/// Two favor queues are kept: seeds that come closest to a branch, and seeds
/// that cover an edge best. The queue that the next seed comes from is drawn
/// with odds that follow how well each of them paid off.
pub struct Depot {
    pub branch_queue: FavorQueue,
    pub edge_queue: FavorQueue,
    pub num_inputs: usize,
    pub num_hangs: usize,
    pub num_crashes: usize,
    pub dirs: DepotDir,
    pub extras_data: Vec<ExtraData>,
    /// Successes and failures of the branch queue and of the edge queue.
    pub queue_rewards: Vec<(usize, usize)>,
}

/// A count after its share of the past is discounted: it loses a hundredth,
/// and stays at least one.
pub open spec fn decayed(x: usize) -> usize {
    let v = truncated_product(x, NINETY_NINE_HUNDREDTHS, 53);
    if v < 1 {
        1
    } else {
        v
    }
}

fn decay(x: usize) -> (r: usize)
    ensures
        r == decayed(x),
{
    let v: usize = scaled_by(x, NINETY_NINE_HUNDREDTHS, 53);
    if v < 1 {
        1
    } else {
        v
    }
}

impl Depot {
    /// The seeds that are favored for branches.
    pub open spec fn branches(&self) -> FavorView {
        self.branch_queue@
    }

    /// The seeds that are favored for edges.
    pub open spec fn edges(&self) -> FavorView {
        self.edge_queue@
    }

    /// Both queues are well formed, and there are two of them to reward. All
    /// seeds in the queues were saved, so their identifiers are in use.
    pub open spec fn wf(&self) -> bool {
        &&& self.branches().wf()
        &&& self.edges().wf()
        &&& self.queue_rewards@.len() == 2
        &&& forall|s: usize| #[trigger]
            self.branches().favor.contains_key(s) ==> 1 <= s <= self.num_inputs
        &&& forall|s: usize| #[trigger]
            self.edges().favor.contains_key(s) ==> 1 <= s <= self.num_inputs
    }

    /// Nothing but the queues differs.
    pub open spec fn same_store(&self, other: &Depot) -> bool {
        &&& self.num_inputs == other.num_inputs
        &&& self.num_hangs == other.num_hangs
        &&& self.num_crashes == other.num_crashes
        &&& self.dirs == other.dirs
        &&& self.extras_data == other.extras_data
        &&& self.queue_rewards == other.queue_rewards
    }

    /// An empty store for a run with seeds in `in_dir` that writes to
    /// `out_dir`.
    pub fn new(in_dir: String, out_dir: &str, extras_data: Vec<ExtraData>) -> (r: Self)
        ensures
            r.wf(),
            r.branches() == FavorView::empty(),
            r.edges() == FavorView::empty(),
            r.num_inputs == 0,
            r.num_hangs == 0,
            r.num_crashes == 0,
            r.dirs.seeds_dir@ == in_dir@,
            r.dirs.inputs_dir@ == super::depot_dir::joined(out_dir@, "queue"@),
            r.dirs.hangs_dir@ == super::depot_dir::joined(out_dir@, "hangs"@),
            r.dirs.crashes_dir@ == super::depot_dir::joined(out_dir@, "crashes"@),
            r.extras_data == extras_data,
            r.queue_rewards@ == seq![(1usize, 1usize), (1usize, 1usize)],
    {
        let mut queue_rewards: Vec<(usize, usize)> = Vec::new();
        queue_rewards.push((1, 1));
        queue_rewards.push((1, 1));
        assert(queue_rewards@ =~= seq![(1usize, 1usize), (1usize, 1usize)]);
        Depot {
            branch_queue: FavorQueue::new(),
            edge_queue: FavorQueue::new(),
            num_inputs: 0,
            num_hangs: 0,
            num_crashes: 0,
            dirs: DepotDir::new(in_dir, out_dir),
            extras_data,
            queue_rewards,
        }
    }

    /// How many inputs of a kind were saved.
    pub open spec fn saved(&self, status: StatusType) -> usize {
        match status {
            StatusType::Normal => self.num_inputs,
            StatusType::Timeout => self.num_hangs,
            StatusType::Crash => self.num_crashes,
            _ => 0,
        }
    }

    /// Hands out the identifier under which an input is stored: inputs, hangs
    /// and crashes are numbered from one, each for themselves. Other inputs
    /// are not stored and get zero.
    pub fn save(&mut self, status: StatusType) -> (id: usize)
        requires
            old(self).wf(),
            old(self).saved(status) < usize::MAX,
        ensures
            final(self).wf(),
            id == if status == StatusType::Skip || status == StatusType::Error {
                0
            } else {
                (old(self).saved(status) + 1) as usize
            },
            final(self).num_inputs == if status == StatusType::Normal {
                id
            } else {
                old(self).num_inputs
            },
            final(self).num_hangs == if status == StatusType::Timeout {
                id
            } else {
                old(self).num_hangs
            },
            final(self).num_crashes == if status == StatusType::Crash {
                id
            } else {
                old(self).num_crashes
            },
            final(self).branches() == old(self).branches(),
            final(self).edges() == old(self).edges(),
            final(self).dirs == old(self).dirs,
            final(self).extras_data == old(self).extras_data,
            final(self).queue_rewards == old(self).queue_rewards,
    {
        match status {
            StatusType::Normal => {
                self.num_inputs = self.num_inputs + 1;
                self.num_inputs
            },
            StatusType::Timeout => {
                self.num_hangs = self.num_hangs + 1;
                self.num_hangs
            },
            StatusType::Crash => {
                self.num_crashes = self.num_crashes + 1;
                self.num_crashes
            },
            _ => 0,
        }
    }

    /// Makes a seed the favored one for a branch in context `pos`.
    pub fn branch_insert_favor_seed(
        &mut self,
        seed_info: SeedInfo,
        branch_id: usize,
        pos: usize,
        now: u64,
    )
        requires
            old(self).wf(),
            pos < 8,
            1 <= seed_info.seed_id <= old(self).num_inputs,
        ensures
            final(self).wf(),
            final(self).branches() == old(self).branches().with(seed_info, branch_id, now),
            final(self).edges() == old(self).edges(),
            final(self).same_store(old(self)),
    {
        self.branch_queue.insert(seed_info, branch_id, now);
    }

    /// Replaces the favored seed of a branch in context `pos` by a better one.
    pub fn branch_replace_favor_seed(
        &mut self,
        pre: SeedInfo,
        seed_info: SeedInfo,
        branch_id: usize,
        pos: usize,
        now: u64,
    )
        requires
            old(self).wf(),
            pos < 8,
            1 <= seed_info.seed_id <= old(self).num_inputs,
            old(self).branches().items(pre.seed_id).contains(branch_id),
        ensures
            final(self).wf(),
            final(self).branches() == old(self).branches().without(pre.seed_id, branch_id).with(
                seed_info,
                branch_id,
                now,
            ),
            final(self).edges() == old(self).edges(),
            final(self).same_store(old(self)),
    {
        self.branch_queue.replace(pre, seed_info, branch_id, now);
    }

    /// A branch is covered: none of `seeds_info` is favored for it any more,
    /// and those that were favored for nothing else leave the queue.
    pub fn branch_covered(&mut self, seeds_info: &[SeedInfo], branch_id: usize)
        requires
            old(self).wf(),
            forall|i: int|
                0 <= i < seeds_info@.len() ==> old(self).branches().items(
                    (#[trigger] seeds_info@[i]).seed_id,
                ).contains(branch_id),
            forall|i: int, j: int|
                0 <= i < j < seeds_info@.len() ==> (#[trigger] seeds_info@[i]).seed_id != (
                #[trigger] seeds_info@[j]).seed_id,
        ensures
            final(self).wf(),
            final(self).branches() == old(self).branches().without_all(seeds_info@, branch_id),
            final(self).edges() == old(self).edges(),
            final(self).same_store(old(self)),
    {
        proof {
            super::favor_queue::removing_adds_nothing(
                self.branch_queue@,
                seeds_info@,
                branch_id,
            );
        }
        self.branch_queue.remove_item(seeds_info, branch_id);
    }

    /// Makes a seed the favored one for an edge with hit count bucket `pos`.
    pub fn edge_insert_favor_seed(
        &mut self,
        seed_info: SeedInfo,
        edge_id: usize,
        pos: usize,
        now: u64,
    )
        requires
            old(self).wf(),
            pos < 8,
            1 <= seed_info.seed_id <= old(self).num_inputs,
        ensures
            final(self).wf(),
            final(self).edges() == old(self).edges().with(seed_info, edge_id, now),
            final(self).branches() == old(self).branches(),
            final(self).same_store(old(self)),
    {
        self.edge_queue.insert(seed_info, edge_id, now);
    }

    /// Replaces the favored seed of an edge with hit count bucket `pos`.
    pub fn edge_replace_favor_seed(
        &mut self,
        pre: SeedInfo,
        seed_info: SeedInfo,
        edge_id: usize,
        pos: usize,
        now: u64,
    )
        requires
            old(self).wf(),
            pos < 8,
            1 <= seed_info.seed_id <= old(self).num_inputs,
            old(self).edges().items(pre.seed_id).contains(edge_id),
        ensures
            final(self).wf(),
            final(self).edges() == old(self).edges().without(pre.seed_id, edge_id).with(
                seed_info,
                edge_id,
                now,
            ),
            final(self).branches() == old(self).branches(),
            final(self).same_store(old(self)),
    {
        self.edge_queue.replace(pre, seed_info, edge_id, now);
    }

    /// Which queue the next seed comes from when queue `pick` was drawn: the
    /// other one if that is empty, and then the edge queue if both are.
    pub open spec fn queue_for(&self, pick: usize) -> usize {
        let no_branch = self.branches().favor.dom() == Set::<usize>::empty();
        let no_edge = self.edges().favor.dom() == Set::<usize>::empty();
        if no_branch {
            1
        } else if no_edge || pick == 0 {
            0
        } else {
            1
        }
    }

    /// Returns the queue and the seed to fuzz next, given the queue that was
    /// drawn. The seed counts as picked once more.
    pub fn get_top_seed(&mut self, pick: usize) -> (r: (usize, SeedInfo))
        requires
            old(self).wf(),
            old(self).branches().favor.dom() != Set::<usize>::empty() || old(
                self,
            ).edges().favor.dom() != Set::<usize>::empty(),
            forall|s: usize| #[trigger]
                old(self).branches().rank.contains_key(s) ==> old(self).branches().rank[s].pri
                    < u64::MAX,
            forall|s: usize| #[trigger]
                old(self).edges().rank.contains_key(s) ==> old(self).edges().rank[s].pri
                    < u64::MAX,
        ensures
            final(self).wf(),
            final(self).same_store(old(self)),
            r.0 == old(self).queue_for(pick),
            r.0 == 0 ==> {
                &&& old(self).branches().is_front(r.1.seed_id)
                &&& r.1 == old(self).branches().info[r.1.seed_id]
                &&& final(self).branches() == old(self).branches().picked(r.1.seed_id)
                &&& final(self).edges() == old(self).edges()
            },
            r.0 == 1 ==> {
                &&& old(self).edges().is_front(r.1.seed_id)
                &&& r.1 == old(self).edges().info[r.1.seed_id]
                &&& final(self).edges() == old(self).edges().picked(r.1.seed_id)
                &&& final(self).branches() == old(self).branches()
            },
    {
        proof {
            super::favor_queue::empty_means_no_seed(self.branch_queue@);
            super::favor_queue::empty_means_no_seed(self.edge_queue@);
        }
        let branch_empty = self.branch_queue.len() == 0;
        let edge_empty = self.edge_queue.len() == 0;
        if !branch_empty && (edge_empty || pick == 0) {
            (0, self.branch_queue.peek_top())
        } else {
            (1, self.edge_queue.peek_top())
        }
    }

    /// Counts successes and failures for a queue, after those of all queues
    /// were discounted.
    pub fn update_beta_values_in_depot(&mut self, queue_id: usize, beta_values: (usize, usize))
        requires
            old(self).wf(),
            queue_id < 2,
            decayed(old(self).queue_rewards@[queue_id as int].0) + beta_values.0 <= usize::MAX,
            decayed(old(self).queue_rewards@[queue_id as int].1) + beta_values.1 <= usize::MAX,
        ensures
            final(self).wf(),
            final(self).branches() == old(self).branches(),
            final(self).edges() == old(self).edges(),
            final(self).num_inputs == old(self).num_inputs,
            final(self).num_hangs == old(self).num_hangs,
            final(self).num_crashes == old(self).num_crashes,
            final(self).dirs == old(self).dirs,
            final(self).extras_data == old(self).extras_data,
            forall|q: int|
                0 <= q < 2 ==> {
                    let (a, b) = #[trigger] old(self).queue_rewards@[q];
                    final(self).queue_rewards@[q] == if q == queue_id {
                        (
                            (decayed(a) + beta_values.0) as usize,
                            (decayed(b) + beta_values.1) as usize,
                        )
                    } else {
                        (decayed(a), decayed(b))
                    }
                },
    {
        let (a0, b0) = self.queue_rewards[0];
        let (a1, b1) = self.queue_rewards[1];
        self.queue_rewards.set(0, (decay(a0), decay(b0)));
        self.queue_rewards.set(1, (decay(a1), decay(b1)));
        let (a, b) = self.queue_rewards[queue_id];
        self.queue_rewards.set(queue_id, (a + beta_values.0, b + beta_values.1));
    }

    /// No input was saved yet.
    pub fn empty(&self) -> (r: bool)
        ensures
            r == (self.num_inputs == 0),
    {
        self.num_inputs == 0
    }

    /// The identifier of the input that `draw` falls on.
    pub fn input_at(&self, draw: usize) -> (r: usize)
        requires
            self.num_inputs > 0,
        ensures
            r == draw as int % self.num_inputs as int + 1,
            1 <= r <= self.num_inputs,
    {
        draw % self.num_inputs + 1
    }

    /// The identifier of a random input.
    pub fn next_random(&self) -> (r: usize)
        requires
            self.num_inputs > 0,
        ensures
            1 <= r <= self.num_inputs,
    {
        self.input_at(random_usize())
    }

    /// The identifier of the input other than `now_id` that `draw` falls on:
    /// the others are numbered in their order.
    pub open spec fn other_input(&self, draw: int, now_id: int) -> int {
        let n = self.num_inputs as int;
        if now_id < 1 || now_id > n {
            draw % n + 1
        } else if draw % (n - 1) + 1 < now_id {
            draw % (n - 1) + 1
        } else {
            draw % (n - 1) + 2
        }
    }

    /// The identifier of the input other than `now_id` that `draw` falls on.
    pub fn input_except_at(&self, draw: usize, now_id: usize) -> (r: usize)
        requires
            self.num_inputs > 1 || (self.num_inputs == 1 && now_id != 1),
        ensures
            r == self.other_input(draw as int, now_id as int),
            1 <= r <= self.num_inputs,
            r != now_id,
    {
        if now_id < 1 || now_id > self.num_inputs {
            return self.input_at(draw);
        }
        let k: usize = draw % (self.num_inputs - 1) + 1;
        if k < now_id {
            k
        } else {
            k + 1
        }
    }

    /// The identifier of a random input other than `now_id`.
    pub fn next_random_except(&self, now_id: usize) -> (r: usize)
        requires
            self.num_inputs > 1 || (self.num_inputs == 1 && now_id != 1),
        ensures
            exists|draw: usize| r == #[trigger] self.other_input(draw as int, now_id as int),
            1 <= r <= self.num_inputs,
            r != now_id,
    {
        let draw: usize = random_usize();
        self.input_except_at(draw, now_id)
    }

    /// How many seeds are favored for branches.
    pub fn get_branch_priority_num(&self) -> (r: usize)
        requires
            self.wf(),
        ensures
            r == self.branches().favor.dom().len(),
    {
        self.branch_queue.len()
    }

    /// How many seeds are favored for edges.
    pub fn get_bit_priority_num(&self) -> (r: usize)
        requires
            self.wf(),
        ensures
            r == self.edges().favor.dom().len(),
    {
        self.edge_queue.len()
    }
}

/// Past successes and failures lose a hundredth each time, rounded up to a whole
/// one, but there is always one of each.
pub proof fn the_past_fades(x: usize)
    requires
        x < 0x100_0000_0000,
        2 * x < usize::MAX,
    ensures
        decayed(x) >= 1,
        decayed(x) > 1 ==> 100 * decayed(x) <= 99 * x,
        100 * decayed(x) >= 99 * x - 100,
        x > 1 ==> decayed(x) < x,
{
    let r = truncated_product(x, NINETY_NINE_HUNDREDTHS, 53) as int;
    scaling_is_close(x, NINETY_NINE_HUNDREDTHS, 53);
    let c = NINETY_NINE_HUNDREDTHS as int;
    let m = 0x20_0000_0000_0000int;
    assert(100 * (x * c) == x * (99 * m - 8)) by (nonlinear_arith)
        requires
            100 * c == 99 * m - 8,
    ;
    assert(x * (99 * m - 8) == m * (99 * x) - 8 * x) by (nonlinear_arith);
    assert((r + 1) * m == r * m + m) by (nonlinear_arith);
}


/// The queue that was drawn is the one to take from, unless it is empty and the
/// other is not.
pub proof fn seeds_come_from_the_queue_drawn(d: &Depot, pick: usize)
    requires
        pick < 2,
        d.branches().favor.dom() != Set::<usize>::empty() || d.edges().favor.dom() != Set::<
            usize,
        >::empty(),
    ensures
        ({
            let filled = |q: usize|
                if q == 0 {
                    d.branches().favor.dom() != Set::<usize>::empty()
                } else {
                    d.edges().favor.dom() != Set::<usize>::empty()
                };
            &&& d.queue_for(pick) < 2
            &&& filled(d.queue_for(pick))
            &&& filled(pick) ==> d.queue_for(pick) == pick
        }),
{
}

/// Every input but the one that is left out has as good a chance as any: the
/// draws below the number of the others fall on each of them once, in their
/// order, and further draws begin again.
pub proof fn draws_fall_on_every_other_input(d: &Depot, now_id: int, id: int, draw: int)
    requires
        d.num_inputs > 1 || (d.num_inputs == 1 && now_id != 1),
        0 <= draw,
    ensures
        ({
            let left_out = 1 <= now_id <= d.num_inputs;
            let others = if left_out {
                d.num_inputs - 1
            } else {
                d.num_inputs as int
            };
            let k = if left_out && id > now_id {
                id - 2
            } else {
                id - 1
            };
            &&& d.other_input(draw, now_id) != now_id
            &&& 1 <= d.other_input(draw, now_id) <= d.num_inputs
            &&& 1 <= id <= d.num_inputs && id != now_id ==> 0 <= k < others && d.other_input(
                k,
                now_id,
            ) == id
            &&& d.other_input(draw + others, now_id) == d.other_input(draw, now_id)
            &&& draw + 1 < others ==> d.other_input(draw, now_id) < d.other_input(draw + 1, now_id)
        }),
{
    let n = d.num_inputs as int;
    let left_out = 1 <= now_id <= n;
    let others = if left_out {
        n - 1
    } else {
        n
    };
    vstd::arithmetic::div_mod::lemma_mod_bound(draw, others);
    vstd::arithmetic::div_mod::lemma_mod_add_multiples_vanish(draw, others);
    assert(draw + others == others + draw);
    if 0 <= id - 1 < others {
        vstd::arithmetic::div_mod::lemma_small_mod((id - 1) as nat, others as nat);
    }
    if 0 <= id - 2 < others {
        vstd::arithmetic::div_mod::lemma_small_mod((id - 2) as nat, others as nat);
    }
    if draw + 1 < others {
        vstd::arithmetic::div_mod::lemma_small_mod(draw as nat, others as nat);
        vstd::arithmetic::div_mod::lemma_small_mod((draw + 1) as nat, others as nat);
    }
}

} // verus!
