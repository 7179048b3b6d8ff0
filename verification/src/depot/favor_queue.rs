//! A queue of seeds, each with the branches or edges that it is favored for.

use super::branch_priority::BranchPriority;
use super::queue::{
    pair_le, queue_change_priority, queue_get, queue_items, queue_len, queue_new, queue_peek,
    queue_push, queue_remove,
};
use super::seed_info::SeedInfo;
use priority_queue::PriorityQueue;
use std::collections::{HashMap, HashSet};
use std::hash::RandomState;
use vstd::prelude::*;

verus! {

broadcast use vstd::std_specs::hash::group_hash_axioms;

/// What a favor queue holds: for each seed of the queue the branches or edges
/// it is the best seed for, its rank, and its information when it entered.
#[verifier::ext_equal]
pub struct FavorView {
    pub favor: Map<usize, Set<usize>>,
    pub rank: Map<usize, BranchPriority>,
    pub info: Map<usize, SeedInfo>,
}

impl FavorView {
    pub open spec fn empty() -> FavorView {
        FavorView { favor: Map::empty(), rank: Map::empty(), info: Map::empty() }
    }

    /// The items that seed `s` is favored for.
    pub open spec fn items(self, s: usize) -> Set<usize> {
        if self.favor.contains_key(s) {
            self.favor[s]
        } else {
            Set::empty()
        }
    }

    /// A seed is in the queue if and only if it is favored for an item.
    pub open spec fn wf(self) -> bool {
        &&& self.favor.dom().finite()
        &&& self.rank.dom() == self.favor.dom()
        &&& self.info.dom() == self.favor.dom()
        &&& forall|s: usize| #[trigger]
            self.favor.contains_key(s) ==> self.favor[s] != Set::<usize>::empty()
                && self.favor[s].finite()
        &&& forall|s: usize| #[trigger] self.info.contains_key(s) ==> self.info[s].seed_id == s
    }

    /// Seed `seed` becomes favored for `item`; it enters the queue at time
    /// `now` unless it is there already.
    pub open spec fn with(self, seed: SeedInfo, item: usize, now: u64) -> FavorView {
        let s = seed.seed_id;
        let favor = self.favor.insert(s, self.items(s).insert(item));
        if self.favor.contains_key(s) {
            FavorView { favor, ..self }
        } else {
            FavorView {
                favor,
                rank: self.rank.insert(s, BranchPriority { pri: 0, timestamp: now }),
                info: self.info.insert(s, seed),
            }
        }
    }

    /// Seed `s` is no longer favored for `item`; it leaves the queue if that
    /// was its last.
    pub open spec fn without(self, s: usize, item: usize) -> FavorView {
        let rest = self.items(s).remove(item);
        if rest == Set::<usize>::empty() {
            FavorView {
                favor: self.favor.remove(s),
                rank: self.rank.remove(s),
                info: self.info.remove(s),
            }
        } else {
            FavorView { favor: self.favor.insert(s, rest), ..self }
        }
    }

    /// The seeds of `seeds`, in turn, are no longer favored for `item`.
    pub open spec fn without_all(self, seeds: Seq<SeedInfo>, item: usize) -> FavorView
        decreases seeds.len(),
    {
        if seeds.len() == 0 {
            self
        } else {
            self.without_all(seeds.drop_last(), item).without(seeds.last().seed_id, item)
        }
    }

    /// The items that seed `s` is favored for once `seed` has won the items
    /// of `won` from the seeds given there.
    pub open spec fn items_won(self, seed: SeedInfo, won: Map<usize, usize>, s: usize) -> Set<
        usize,
    > {
        Set::new(
            |b: usize|
                (self.items(s).contains(b) && !(won.contains_key(b) && won[b] == s)) || (s
                    == seed.seed_id && won.contains_key(b)),
        )
    }

    /// The queue once `seed` has won the items of `won`, each from the seed
    /// given there, or from no seed if that is zero: losers keep what they are
    /// still favored for and leave if that is nothing, and `seed` enters at
    /// time `now` if it won anything.
    pub open spec fn won(self, seed: SeedInfo, now: u64, won: Map<usize, usize>) -> FavorView {
        let stays = |s: usize| exists|b: usize| self.items_won(seed, won, s).contains(b);
        FavorView {
            favor: Map::new(stays, |s: usize| self.items_won(seed, won, s)),
            rank: Map::new(
                stays,
                |s: usize|
                    if self.favor.contains_key(s) {
                        self.rank[s]
                    } else {
                        BranchPriority { pri: 0, timestamp: now }
                    },
            ),
            info: Map::new(
                stays,
                |s: usize|
                    if self.favor.contains_key(s) {
                        self.info[s]
                    } else {
                        seed
                    },
            ),
        }
    }

    /// `seed` wins one item from seed `pre`, or from no seed if `pre` is zero.
    pub open spec fn one_won(self, seed: SeedInfo, now: u64, item: usize, pre: usize) -> FavorView {
        if pre == 0 {
            self.with(seed, item, now)
        } else {
            self.without(pre, item).with(seed, item, now)
        }
    }

    /// No seed of the queue comes before `s`.
    pub open spec fn is_front(self, s: usize) -> bool {
        &&& self.rank.contains_key(s)
        &&& forall|t: usize| #[trigger]
            self.rank.contains_key(t) ==> !self.rank[t].comes_before(self.rank[s])
    }

    /// Seed `s` was picked once more.
    pub open spec fn picked(self, s: usize) -> FavorView {
        FavorView {
            rank: self.rank.insert(
                s,
                BranchPriority {
                    pri: (self.rank[s].pri + 1) as u64,
                    timestamp: self.rank[s].timestamp,
                },
            ),
            ..self
        }
    }

    /// The queue after seeds were picked one after the other.
    pub open spec fn after_picks(self, picks: Seq<usize>) -> FavorView
        decreases picks.len(),
    {
        if picks.len() == 0 {
            self
        } else {
            self.after_picks(picks.drop_last()).picked(picks.last())
        }
    }

    /// Each of the seeds was at the front of the queue when it was picked.
    pub open spec fn are_turns(self, picks: Seq<usize>) -> bool
        decreases picks.len(),
    {
        picks.len() == 0 || (self.are_turns(picks.drop_last()) && self.after_picks(
            picks.drop_last(),
        ).is_front(picks.last()))
    }

    /// All seeds of the queue were picked equally often.
    pub open spec fn is_level(self, times: u64) -> bool {
        forall|s: usize| #[trigger] self.rank.contains_key(s) ==> self.rank[s].pri == times
    }
}

/// Replacing the seed of an item by another keeps the queue and the favored
/// items in step, whatever the two seeds are.
pub proof fn replacing_keeps_queue(
    v: FavorView,
    pre: usize,
    seed: SeedInfo,
    item: usize,
    now: u64,
)
    requires
        v.wf(),
    ensures
        v.without(pre, item).wf(),
        v.with(seed, item, now).wf(),
        v.without(pre, item).with(seed, item, now).wf(),
        v.without(pre, item).with(seed, item, now).items(seed.seed_id).contains(item),
        pre != seed.seed_id ==> !v.without(pre, item).with(seed, item, now).items(pre).contains(
            item,
        ),
{
    lemma_without_wf(v, pre, item);
    lemma_with_wf(v, seed, item, now);
    lemma_with_wf(v.without(pre, item), seed, item, now);
}

/// Winning nothing changes nothing.
pub proof fn winning_nothing(v: FavorView, seed: SeedInfo, now: u64)
    requires
        v.wf(),
    ensures
        v.won(seed, now, Map::empty()) == v,
{
    let won = Map::<usize, usize>::empty();
    let w = v.won(seed, now, won);
    assert forall|s: usize| v.items_won(seed, won, s) =~= v.items(s) by {}
    assert forall|s: usize| w.favor.contains_key(s) == v.favor.contains_key(s) by {
        if v.favor.contains_key(s) {
            assert(exists|b: usize| v.favor[s].contains(b)) by {
                if forall|b: usize| !v.favor[s].contains(b) {
                    assert(v.favor[s] =~= Set::empty());
                }
            }
            let b = choose|b: usize| v.favor[s].contains(b);
            assert(v.items_won(seed, won, s).contains(b));
        }
    }
    assert(w.favor =~= v.favor);
    assert(w.rank.dom() =~= v.rank.dom());
    assert(w.rank =~= v.rank);
    assert(w.info =~= v.info);
}

/// Items can be won one after the other, in any order.
pub proof fn winning_one_more(
    v: FavorView,
    seed: SeedInfo,
    now: u64,
    won: Map<usize, usize>,
    item: usize,
    pre: usize,
)
    requires
        v.wf(),
        !v.favor.contains_key(0),
        !v.favor.contains_key(seed.seed_id),
        !won.contains_key(item),
        pre != seed.seed_id,
        pre != 0 ==> v.items(pre).contains(item),
    ensures
        v.won(seed, now, won.insert(item, pre)) == v.won(seed, now, won).one_won(
            seed,
            now,
            item,
            pre,
        ),
        pre != 0 ==> v.won(seed, now, won).items(pre).contains(item),
{
    let w = v.won(seed, now, won);
    let more = won.insert(item, pre);
    let x = v.won(seed, now, more);
    let y = w.one_won(seed, now, item, pre);
    let id = seed.seed_id;
    assert forall|s: usize| #![trigger w.items(s)] w.items(s) =~= v.items_won(seed, won, s) by {}
    assert forall|s: usize| #![trigger x.items(s)] x.items(s) =~= v.items_won(seed, more, s) by {}
    assert forall|s: usize| #![trigger w.favor.contains_key(s)]
        !w.favor.contains_key(s) ==> v.items_won(seed, won, s) =~= Set::empty() by {}
    if pre != 0 {
        assert(w.items(pre).contains(item));
        let u = w.without(pre, item);
        let rest = w.items(pre).remove(item);
        assert(u.items(pre) =~= rest);
        assert(v.items_won(seed, more, pre) =~= rest);
        if rest =~= Set::<usize>::empty() {
            assert(!x.favor.contains_key(pre));
        } else {
            assert(exists|b: usize| rest.contains(b)) by {
                if forall|b: usize| !rest.contains(b) {
                    assert(rest =~= Set::empty());
                }
            }
            let b = choose|b: usize| rest.contains(b);
            assert(v.items_won(seed, more, pre).contains(b));
            assert(x.favor.contains_key(pre));
        }
    }
    assert(v.items_won(seed, more, id).contains(item));
    assert(x.favor.contains_key(id));
    assert(w.items(id).insert(item) =~= v.items_won(seed, more, id));
    assert forall|s: usize| s != id && s != pre implies v.items_won(seed, more, s)
        =~= v.items_won(seed, won, s) by {}
    assert forall|s: usize| s != id && s != pre implies x.favor.contains_key(s)
        == w.favor.contains_key(s) by {
        assert(v.items_won(seed, more, s) =~= v.items_won(seed, won, s));
    }
    if pre == 0 {
        assert(v.items_won(seed, more, 0) =~= v.items_won(seed, won, 0));
        assert(x.favor.contains_key(0) == w.favor.contains_key(0));
    }
    assert(x.favor =~= y.favor);
    assert(x.rank =~= y.rank);
    assert(x.info =~= y.info);
}

proof fn lemma_with_wf(v: FavorView, seed: SeedInfo, item: usize, now: u64)
    requires
        v.wf(),
    ensures
        v.with(seed, item, now).wf(),
{
    let w = v.with(seed, item, now);
    assert(w.rank.dom() =~= w.favor.dom());
    assert(w.info.dom() =~= w.favor.dom());
    assert(w.favor[seed.seed_id].contains(item));
}

proof fn lemma_without_wf(v: FavorView, s: usize, item: usize)
    requires
        v.wf(),
    ensures
        v.without(s, item).wf(),
{
    let w = v.without(s, item);
    if !v.favor.contains_key(s) {
        assert(v.items(s).remove(item) =~= Set::<usize>::empty());
    }
    assert(w.rank.dom() =~= w.favor.dom());
    assert(w.info.dom() =~= w.favor.dom());
}

/// Taking items away brings no seed into the queue.
pub proof fn removing_adds_nothing(v: FavorView, seeds: Seq<SeedInfo>, item: usize)
    ensures
        v.without_all(seeds, item).favor.dom().subset_of(v.favor.dom()),
    decreases seeds.len(),
{
    if seeds.len() > 0 {
        removing_adds_nothing(v, seeds.drop_last(), item);
        let w = v.without_all(seeds.drop_last(), item);
        let s = seeds.last().seed_id;
        if !w.favor.contains_key(s) {
            assert(w.items(s).remove(item) =~= Set::<usize>::empty());
        }
    }
}

/// A queue has no seeds if and only if it counts none.
pub proof fn empty_means_no_seed(v: FavorView)
    requires
        v.wf(),
    ensures
        v.favor.dom().len() == 0 <==> v.favor.dom() == Set::<usize>::empty(),
{
    if v.favor.dom().len() == 0 {
        assert(v.favor.dom() =~= Set::empty());
    }
}

proof fn lemma_turns(v: FavorView, times: u64, picks: Seq<usize>)
    requires
        v.wf(),
        v.is_level(times),
        times < u64::MAX,
        v.are_turns(picks),
        picks.len() <= v.favor.dom().len(),
    ensures
        picks.no_duplicates(),
        picks.to_set().subset_of(v.rank.dom()),
        forall|i: int, j: int|
            0 <= i < j < picks.len() ==> v.rank[#[trigger] picks[i]].timestamp
                <= v.rank[#[trigger] picks[j]].timestamp,
        forall|i: int, t: usize|
            0 <= i < picks.len() && v.rank.contains_key(t) && !picks.contains(t)
                ==> v.rank[#[trigger] picks[i]].timestamp <= (#[trigger] v.rank[t]).timestamp,
        v.after_picks(picks).favor == v.favor,
        v.after_picks(picks).info == v.info,
        v.after_picks(picks).rank.dom() == v.rank.dom(),
        forall|s: usize| #[trigger]
            v.rank.contains_key(s) ==> v.after_picks(picks).rank[s] == (BranchPriority {
                pri: if picks.contains(s) {
                    (times + 1) as u64
                } else {
                    times
                },
                ..v.rank[s]
            }),
    decreases picks.len(),
{
    broadcast use vstd::seq_lib::seq_to_set_is_finite;

    if picks.len() > 0 {
        let prev = picks.drop_last();
        let s = picks.last();
        let w = v.after_picks(prev);
        let x = v.after_picks(picks);
        lemma_turns(v, times, prev);
        assert(picks =~= prev.push(s));
        assert forall|t: usize| picks.contains(t) == (prev.contains(t) || t == s) by {
            if prev.contains(t) {
                let i = choose|i: int| 0 <= i < prev.len() && prev[i] == t;
                assert(picks[i] == t);
            }
            if t == s {
                assert(picks[picks.len() - 1] == t);
            }
        }
        assert(exists|t: usize| v.rank.contains_key(t) && !prev.contains(t)) by {
            if forall|t: usize| v.rank.contains_key(t) ==> prev.contains(t) {
                prev.unique_seq_to_set();
                assert forall|t: usize| v.rank.dom().contains(t) implies prev.to_set().contains(
                    t,
                ) by {
                    assert(v.rank.contains_key(t));
                }
                vstd::set_lib::lemma_len_subset(v.rank.dom(), prev.to_set());
            }
        }
        let t = choose|t: usize| v.rank.contains_key(t) && !prev.contains(t);
        assert(w.rank.dom().contains(t) && w.rank.dom().contains(s));
        assert(v.rank.contains_key(s));
        assert(w.rank.contains_key(t) && !w.rank[t].comes_before(w.rank[s]));
        assert(!prev.contains(s));
        assert forall|t: usize|
            v.rank.contains_key(t) && !picks.contains(t) implies v.rank[s].timestamp
            <= (#[trigger] v.rank[t]).timestamp by {
            assert(w.rank.dom().contains(t));
            assert(w.rank.contains_key(t) && !w.rank[t].comes_before(w.rank[s]));
        }
        assert forall|i: int, t: usize|
            0 <= i < picks.len() && v.rank.contains_key(t) && !picks.contains(t) implies v.rank[
        #[trigger] picks[i]].timestamp <= (#[trigger] v.rank[t]).timestamp by {
            if i < prev.len() {
                assert(picks[i] == prev[i]);
            }
        }
        assert forall|i: int, j: int| 0 <= i < j < picks.len() implies v.rank[
        #[trigger] picks[i]].timestamp <= v.rank[#[trigger] picks[j]].timestamp by {
            assert(picks[i] == prev[i]);
            if j < prev.len() {
                assert(picks[j] == prev[j]);
            } else {
                assert(v.rank[s].timestamp == v.rank[picks[j]].timestamp);
            }
        }
        assert(x.rank.dom() =~= v.rank.dom());
        assert(x.rank[s].pri == times + 1);
    }
}

/// Seeds take turns: if all were picked equally often, or not at all, as many
/// picks as there are seeds return each seed once, those that entered the
/// queue earlier first. All are then picked equally often again, and nothing
/// else has changed.
pub proof fn seeds_take_turns(v: FavorView, times: u64, picks: Seq<usize>)
    requires
        v.wf(),
        v.is_level(times),
        times < u64::MAX,
        v.are_turns(picks),
        picks.len() == v.favor.dom().len(),
    ensures
        picks.no_duplicates(),
        picks.to_set() == v.favor.dom(),
        forall|i: int, j: int|
            0 <= i < j < picks.len() ==> v.rank[#[trigger] picks[i]].timestamp
                <= v.rank[#[trigger] picks[j]].timestamp,
        v.after_picks(picks).wf(),
        v.after_picks(picks).is_level((times + 1) as u64),
        v.after_picks(picks).favor == v.favor,
        v.after_picks(picks).info == v.info,
        forall|s: usize| #[trigger]
            v.rank.contains_key(s) ==> v.after_picks(picks).rank[s].timestamp
                == v.rank[s].timestamp,
{
    broadcast use vstd::seq_lib::seq_to_set_is_finite;

    lemma_turns(v, times, picks);
    picks.unique_seq_to_set();
    vstd::set_lib::lemma_subset_equality(picks.to_set(), v.rank.dom());
    let w = v.after_picks(picks);
    assert forall|s: usize| #[trigger] w.rank.contains_key(s) implies w.rank[s].pri == times + 1 by {
        assert(v.rank.dom().contains(s));
        assert(picks.to_set().contains(s));
        assert(picks.contains(s));
        assert(v.rank.contains_key(s));
    }
}

/// A queue of seeds, ranked by how often they were picked, with the branches
/// or edges that each of them is currently the best seed for.
pub struct FavorQueue {
    queue: PriorityQueue<usize, (u64, u64), RandomState>,
    seeds: HashMap<usize, SeedInfo>,
    favor_data: HashMap<usize, HashSet<usize>>,
}

impl View for FavorQueue {
    type V = FavorView;

    closed spec fn view(&self) -> FavorView {
        FavorView {
            favor: Map::new(
                |s: usize| self.favor_data@.contains_key(s),
                |s: usize| self.favor_data@[s]@,
            ),
            rank: Map::new(
                |s: usize| queue_items(self.queue).contains_key(s),
                |s: usize|
                    BranchPriority {
                        pri: (u64::MAX - queue_items(self.queue)[s].0) as u64,
                        timestamp: (u64::MAX - queue_items(self.queue)[s].1) as u64,
                    },
            ),
            info: self.seeds@,
        }
    }
}

impl FavorQueue {
    /// A seed is in the queue if and only if it is favored for an item.
    pub open spec fn wf(&self) -> bool {
        self@.wf()
    }

    pub fn new() -> (r: Self)
        ensures
            r.wf(),
            r@ == FavorView::empty(),
    {
        let r = FavorQueue {
            queue: queue_new(),
            seeds: HashMap::new(),
            favor_data: HashMap::new(),
        };
        assert(r@ =~= FavorView::empty());
        r
    }

    /// Makes `seed_info` the favored seed of `item_id`. A seed that is in the
    /// queue already keeps its rank.
    pub fn insert(&mut self, seed_info: SeedInfo, item_id: usize, now: u64)
        requires
            old(self).wf(),
        ensures
            final(self).wf(),
            final(self)@ == old(self)@.with(seed_info, item_id, now),
    {
        let s: usize = seed_info.seed_id;
        let ghost v = self@;
        proof {
            lemma_with_wf(v, seed_info, item_id, now);
            assert(v.favor.contains_key(s) == v.rank.dom().contains(s));
        }
        let mut set: HashSet<usize> = match self.favor_data.remove(&s) {
            Some(set) => set,
            None => HashSet::new(),
        };
        assert(set@ =~= v.items(s));
        set.insert(item_id);
        self.favor_data.insert(s, set);
        let found = queue_get(&self.queue, s);
        if found.is_none() {
            queue_push(&mut self.queue, s, BranchPriority::new(now).key());
            self.seeds.insert(s, seed_info);
        }
        assert(self@ =~= v.with(seed_info, item_id, now));
    }

    /// The item leaves the favor set of seed `s`, and the seed the queue if
    /// the set is then empty.
    fn unfavor(&mut self, s: usize, item_id: usize)
        requires
            old(self).wf(),
            old(self)@.items(s).contains(item_id),
        ensures
            final(self).wf(),
            final(self)@ == old(self)@.without(s, item_id),
    {
        let ghost v = self@;
        proof {
            lemma_without_wf(v, s, item_id);
            assert(v.favor.contains_key(s) == v.rank.dom().contains(s));
            assert(v.favor.contains_key(s) == v.info.dom().contains(s));
        }
        let taken: Option<HashSet<usize>> = self.favor_data.remove(&s);
        if let Some(mut set) = taken {
            assert(set@ =~= v.items(s));
            set.remove(&item_id);
            if set.is_empty() {
                assert(set@ =~= Set::<usize>::empty());
                queue_remove(&mut self.queue, s);
                self.seeds.remove(&s);
            } else {
                assert(set@ != Set::<usize>::empty());
                self.favor_data.insert(s, set);
            }
        }
        assert(self@ =~= v.without(s, item_id));
    }

    /// Replaces `pre`, the favored seed of `item_id`, by `seed`.
    pub fn replace(&mut self, pre: SeedInfo, seed: SeedInfo, item_id: usize, now: u64)
        requires
            old(self).wf(),
            old(self)@.items(pre.seed_id).contains(item_id),
        ensures
            final(self).wf(),
            final(self)@ == old(self)@.without(pre.seed_id, item_id).with(seed, item_id, now),
    {
        self.unfavor(pre.seed_id, item_id);
        self.insert(seed, item_id, now);
    }

    /// Takes `item_id` from the favor sets of all of `seeds_info`.
    pub fn remove_item(&mut self, seeds_info: &[SeedInfo], item_id: usize)
        requires
            old(self).wf(),
            forall|i: int|
                0 <= i < seeds_info@.len() ==> old(self)@.items(
                    (#[trigger] seeds_info@[i]).seed_id,
                ).contains(item_id),
            forall|i: int, j: int|
                0 <= i < j < seeds_info@.len() ==> (#[trigger] seeds_info@[i]).seed_id != (
                #[trigger] seeds_info@[j]).seed_id,
        ensures
            final(self).wf(),
            final(self)@ == old(self)@.without_all(seeds_info@, item_id),
    {
        let mut k: usize = 0;
        while k < seeds_info.len()
            invariant
                k <= seeds_info@.len(),
                self.wf(),
                self@ == old(self)@.without_all(seeds_info@.take(k as int), item_id),
                forall|i: int|
                    k <= i < seeds_info@.len() ==> self@.items(
                        (#[trigger] seeds_info@[i]).seed_id,
                    ).contains(item_id),
                forall|i: int, j: int|
                    0 <= i < j < seeds_info@.len() ==> (#[trigger] seeds_info@[i]).seed_id != (
                    #[trigger] seeds_info@[j]).seed_id,
            decreases seeds_info@.len() - k,
        {
            let ghost v = self@;
            self.unfavor(seeds_info[k].seed_id, item_id);
            assert(seeds_info@.take(k + 1).drop_last() =~= seeds_info@.take(k as int));
            k = k + 1;
        }
        assert(seeds_info@.take(k as int) =~= seeds_info@);
    }

    /// Returns a seed at the front of the queue, which stays in the queue but
    /// counts as picked once more.
    pub fn peek_top(&mut self) -> (r: SeedInfo)
        requires
            old(self).wf(),
            old(self)@.favor.dom() != Set::<usize>::empty(),
            forall|s: usize| #[trigger]
                old(self)@.rank.contains_key(s) ==> old(self)@.rank[s].pri < u64::MAX,
        ensures
            final(self).wf(),
            old(self)@.is_front(r.seed_id),
            r == old(self)@.info[r.seed_id],
            final(self)@ == old(self)@.picked(r.seed_id),
    {
        let ghost v = self@;
        let top = queue_peek(&self.queue);
        if let Some((s, key)) = top {
            assert(v.rank.contains_key(s));
            assert(v.rank[s].pri < u64::MAX);
            let next = BranchPriority::from_key(key).branch_inc();
            queue_change_priority(&mut self.queue, s, next.key());
            proof {
                assert(v.rank.dom().contains(s));
                assert(v.info.dom().contains(s));
                assert forall|t: usize| #[trigger] v.rank.contains_key(t) implies !v.rank[t].comes_before(
                    v.rank[s],
                ) by {
                    assert(pair_le(queue_items(old(self).queue)[t], key));
                }
                assert(self@ =~= v.picked(s));
                assert(self@.rank.dom() =~= self@.favor.dom());
            }
            match self.seeds.get(&s) {
                Some(info) => *info,
                None => SeedInfo::default(),
            }
        } else {
            assert(v.rank.dom() =~= Set::<usize>::empty());
            SeedInfo::default()
        }
    }

    /// The number of seeds in the queue.
    pub fn len(&self) -> (r: usize)
        requires
            self.wf(),
        ensures
            r == self@.favor.dom().len(),
    {
        assert(queue_items(self.queue).dom() =~= self@.rank.dom());
        queue_len(&self.queue)
    }
}


/// A seed that becomes favored for an item keeps what it had and gets this one;
/// no other seed gets or loses anything. Who was in the queue keeps rank and
/// information; who was not enters as never picked, at the given time.
pub proof fn entering_gives_one_item(
    v: FavorView,
    seed: SeedInfo,
    item: usize,
    now: u64,
    s: usize,
    x: usize,
)
    requires
        v.wf(),
    ensures
        ({
            let w = v.with(seed, item, now);
            &&& w.items(s).contains(x) <==> v.items(s).contains(x) || (s == seed.seed_id && x
                == item)
            &&& w.rank.contains_key(s) <==> v.rank.contains_key(s) || s == seed.seed_id
            &&& v.rank.contains_key(s) ==> w.rank[s] == v.rank[s] && w.info[s] == v.info[s]
            &&& !v.rank.contains_key(seed.seed_id) ==> {
                &&& w.rank[seed.seed_id].pri == 0
                &&& w.rank[seed.seed_id].timestamp == now
                &&& w.info[seed.seed_id] == seed
            }
        }),
{
    assert(v.favor.contains_key(s) == v.rank.dom().contains(s));
    assert(v.favor.contains_key(seed.seed_id) == v.rank.dom().contains(seed.seed_id));
}

/// Seeds that are no longer favored for an item lose that item and no other, no
/// other seed loses anything, and who is left with nothing leaves the queue,
/// while all others keep rank and information.
pub proof fn leaving_takes_one_item(
    v: FavorView,
    seeds: Seq<SeedInfo>,
    item: usize,
    s: usize,
    x: usize,
)
    requires
        v.wf(),
    ensures
        ({
            let w = v.without_all(seeds, item);
            let loses = exists|i: int| 0 <= i < seeds.len() && (#[trigger] seeds[i]).seed_id == s;
            &&& w.wf()
            &&& w.items(s).contains(x) <==> v.items(s).contains(x) && !(x == item && loses)
            &&& w.rank.contains_key(s) <==> exists|y: usize| w.items(s).contains(y)
            &&& w.rank.contains_key(s) ==> v.rank.contains_key(s) && w.rank[s] == v.rank[s]
                && w.info[s] == v.info[s]
        }),
    decreases seeds.len(),
{
    let w = v.without_all(seeds, item);
    let loses = exists|i: int| 0 <= i < seeds.len() && (#[trigger] seeds[i]).seed_id == s;
    if seeds.len() > 0 {
        let rest = seeds.drop_last();
        let u = v.without_all(rest, item);
        let l = seeds.last().seed_id;
        leaving_takes_one_item(v, rest, item, s, x);
        lemma_without_wf(u, l, item);
        if !u.favor.contains_key(l) {
            assert(u.items(l).remove(item) =~= Set::<usize>::empty());
        }
        if l == s {
            assert(seeds[seeds.len() - 1].seed_id == s);
            assert(w.items(s) =~= u.items(s).remove(item));
        } else {
            assert(w.items(s) =~= u.items(s));
            if loses {
                let i = choose|i: int|
                    0 <= i < seeds.len() && (#[trigger] seeds[i]).seed_id == s;
                assert(rest[i].seed_id == s);
            }
            if exists|i: int| 0 <= i < rest.len() && (#[trigger] rest[i]).seed_id == s {
                let i = choose|i: int| 0 <= i < rest.len() && (#[trigger] rest[i]).seed_id == s;
                assert(seeds[i].seed_id == s);
            }
        }
        assert(u.rank.dom().contains(s) == u.favor.contains_key(s));
        assert(u.rank.contains_key(s) == u.rank.dom().contains(s));
    }
    assert(w.rank.dom().contains(s) == w.favor.contains_key(s));
    if w.favor.contains_key(s) && forall|y: usize| !w.items(s).contains(y) {
        assert(w.favor[s] =~= Set::empty());
    }
}

/// The front of the queue was picked no more often than any other seed, and
/// entered no later than those picked as often. A pick is counted for the seed
/// that was picked and for no other.
pub proof fn picks_are_fair(v: FavorView, s: usize, t: usize)
    requires
        v.wf(),
        v.is_front(s),
        v.rank.contains_key(t),
        v.rank[s].pri < u64::MAX,
    ensures
        v.rank[s].pri <= v.rank[t].pri,
        v.rank[s].pri == v.rank[t].pri ==> v.rank[s].timestamp <= v.rank[t].timestamp,
        v.picked(s).rank[t].pri == v.rank[t].pri + if s == t {
            1int
        } else {
            0
        },
        v.picked(s).rank[t].timestamp == v.rank[t].timestamp,
        v.picked(s).rank.dom() == v.rank.dom(),
        v.picked(s).favor == v.favor,
        v.picked(s).info == v.info,
{
    assert(v.picked(s).rank.dom() =~= v.rank.dom());
}

/// What a seed wins it is favored for, and those it wins from are not any more;
/// everything else stays. Whoever is favored for nothing is not in the queue.
pub proof fn winners_take_what_losers_had(
    v: FavorView,
    seed: SeedInfo,
    now: u64,
    won: Map<usize, usize>,
    s: usize,
    x: usize,
)
    requires
        v.wf(),
    ensures
        ({
            let w = v.won(seed, now, won);
            &&& won.contains_key(x) ==> w.items(seed.seed_id).contains(x)
            &&& won.contains_key(x) && won[x] != seed.seed_id ==> !w.items(won[x]).contains(x)
            &&& s != seed.seed_id && !(won.contains_key(x) && won[x] == s) ==> w.items(
                s,
            ).contains(x) == v.items(s).contains(x)
            &&& !won.contains_key(x) ==> w.items(s).contains(x) == v.items(s).contains(x)
            &&& w.rank.contains_key(s) <==> exists|y: usize| w.items(s).contains(y)
            &&& w.rank.contains_key(s) && v.rank.contains_key(s) ==> w.rank[s] == v.rank[s]
                && w.info[s] == v.info[s]
            &&& w.rank.contains_key(s) && !v.rank.contains_key(s) ==> s == seed.seed_id
                && w.rank[s].pri == 0 && w.rank[s].timestamp == now && w.info[s] == seed
        }),
{
    let w = v.won(seed, now, won);
    assert(v.favor.contains_key(s) == v.rank.dom().contains(s));
    assert(forall|t: usize| #![trigger w.items(t)] w.items(t) =~= v.items_won(seed, won, t)) by {
        assert forall|t: usize| #![trigger w.items(t)] w.items(t) =~= v.items_won(seed, won, t) by {
            if !w.favor.contains_key(t) {
                assert(v.items_won(seed, won, t) =~= Set::empty());
            }
        }
    }
    assert(w.items(seed.seed_id) == v.items_won(seed, won, seed.seed_id));
    assert(w.items(s) == v.items_won(seed, won, s));
    if won.contains_key(x) {
        assert(w.items(won[x]) == v.items_won(seed, won, won[x]));
    }
}

} // verus!
