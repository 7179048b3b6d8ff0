//! Noting a run.

use super::boundary::{
    boundary_after, can_shrink, cover, is_cleared, mark_covered, reduce_boundaries,
};
use super::favor::{any_edge_won, commit_edges, covers_better, has_cost, have_costs, EdgeView};
use super::frontier::{
    all_ids, any_win, is_linked, lemma_ids_fit, match_total, whole_quads, winning_keeps_links,
};
use super::global::{edges_of, is_covered, is_non_term, GlobalBranches};
use super::paths::{
    are_paths, are_writes, first_edges, in_chunk, map_has_news, note_map, seen, unseen_was_not_hit,
};
use super::tracker::{
    best_matched, frontier_of, has_branch_room, has_map, map_for, not_covered, report_fits, Branches,
};
use crate::chunks::{owner_is, table_shape};
use crate::depot::favor_queue::winning_nothing;
use crate::depot::{Depot, SeedInfo};
use crate::mutate_func::BranchMutateInfo;
use crate::stats::LocalStats;
use crate::status::StatusType;
use rand::rngs::ThreadRng;
use vstd::prelude::*;

verus! {

broadcast use vstd::std_specs::hash::group_hash_axioms;

/// The edges of the full target that are seen for the first time.
pub open spec fn new_full_edges(
    g: &GlobalBranches,
    write_flag: bool,
    writes: Seq<Vec<(usize, u8)>>,
) -> Set<usize> {
    if write_flag {
        first_edges(
            g.full_virgin_branches@,
            writes,
            g.full_start_pos@,
            g.full_end_pos@,
            g.full_map_size_data.used_map_size as int,
        )
    } else {
        Set::empty()
    }
}

/// The branches that are covered once the edges of `gone` were seen.
pub open spec fn cleared_by(g: &GlobalBranches, gone: Set<usize>) -> Set<usize> {
    Set::new(
        |b: usize|
            is_cleared(g.branch_boundary@, g.edge_to_pred_branch_dict@, gone, b),
    )
}

proof fn lemma_can_shrink(g: &GlobalBranches, b: int)
    requires
        g.wf(),
        0 <= b < g.branch_boundary@.len(),
    ensures
        can_shrink(g.branch_boundary@, g.edge_to_pred_branch_dict@, b),
{
    assert(g.boundary_fits(b));
    if is_non_term(g.branch_type_dict@, b as usize) {
        assert(edges_of(g.edge_to_pred_branch_dict@, b as usize) == Set::<usize>::empty());
    }
}

/// Every edge that is seen for the first time is still in the boundary of its
/// branch.
proof fn lemma_new_in_boundary(
    g: &GlobalBranches,
    writes: Seq<Vec<(usize, u8)>>,
    e: usize,
)
    requires
        g.wf(),
        are_writes(writes, g.full_start_pos@, g.full_end_pos@),
        new_full_edges(g, true, writes).contains(e),
        g.edge_to_pred_branch_dict@.contains_key(e),
    ensures
        g.edge_to_pred_branch_dict@[e] < g.branch_boundary@.len(),
        g.branch_boundary@[g.edge_to_pred_branch_dict@[e] as int]@.contains(e),
{
    let start = g.full_start_pos@;
    let end = g.full_end_pos@;
    let c = crate::chunks::owner(start, end, e as int);
    crate::chunks::owner_exists(
        start,
        end,
        g.full_map_size_data.used_map_size as nat,
        start.len(),
        e as int,
    );
    assert(g.full_virgin_branches@[c]@.len() == end[c] - start[c]);
    assert(g.unseen_in_boundary(c, e - start[c]));
}

impl Branches {
    /// Notes the edges that a run of the full target showed, and the branches
    /// that are covered by this. Returns how many of them were not covered
    /// before.
    #[verifier::rlimit(40)]
    pub fn update_branch_boundary(
        &mut self,
        global: &mut GlobalBranches,
        write_flag: bool,
        edge_to_write: &Vec<Vec<(usize, u8)>>,
        rng: &mut ThreadRng,
    ) -> (r: usize)
        requires
            old(self).wf(old(global)),
            old(global).wf(),
            has_branch_room(old(global)),
            old(global).fast_map_size_data.used_branch_map_size % 8 == 0,
            write_flag ==> are_writes(
                edge_to_write@,
                old(global).full_start_pos@,
                old(global).full_end_pos@,
            ),
        ensures
            *final(self) == *old(self),
            ({
                let gone = new_full_edges(old(global), write_flag, edge_to_write@);
                let cleared = cleared_by(old(global), gone);
                let newly = not_covered(old(global), cleared);
                let total = old(global).fast_map_size_data.used_branch_map_size;
                &&& newly.finite()
                &&& r == newly.len()
                &&& final(global).cov_branches == old(global).cov_branches + newly.len()
                &&& forall|c: int|
                    0 <= c < old(global).n() ==> (#[trigger] final(global).full_virgin_branches@[c])@ == if write_flag {
                        seen(old(global).full_virgin_branches@[c]@, edge_to_write@[c]@)
                    } else {
                        old(global).full_virgin_branches@[c]@
                    }
                &&& forall|b: int|
                    0 <= b < total ==> (#[trigger] final(global).branch_boundary@[b])@
                        == boundary_after(
                        old(global).branch_boundary@,
                        old(global).edge_to_pred_branch_dict@,
                        gone,
                        b,
                    )
                &&& forall|b: usize|
                    b < total ==> (#[trigger] is_covered(
                        final(global).global_branch_cov_map@,
                        b as int,
                    ) <==> is_covered(old(global).global_branch_cov_map@, b as int)
                        || cleared.contains(b))
                &&& forall|c: int, l: int|
                    0 <= c < old(global).n() && 0 <= l < old(global).branch_end_pos@[c] - old(
                        global,
                    ).branch_start_pos@[c] ==> #[trigger] final(global).branch_mutate_funcs@[c]@[l] == if cleared.contains(
                        (old(global).branch_start_pos@[c] + l) as usize,
                    ) {
                        BranchMutateInfo {
                            is_covered: true,
                            ..old(global).branch_mutate_funcs@[c]@[l]
                        }
                    } else {
                        old(global).branch_mutate_funcs@[c]@[l]
                    }
            }),
            final(global).wf(),
            final(global).same_setup(old(global)),
            final(global).virgin_branches == old(global).virgin_branches,
            final(global).tmouts_branches == old(global).tmouts_branches,
            final(global).crashes_branches == old(global).crashes_branches,
            final(global).cov_edges == old(global).cov_edges,
            final(global).edge_favor_map == old(global).edge_favor_map,
            final(global).branch_favor_map == old(global).branch_favor_map,
            final(global).reached_branches == old(global).reached_branches,
    {
        let ghost g0 = *global;
        let ghost dict = g0.edge_to_pred_branch_dict@;
        let ghost gone = new_full_edges(&g0, write_flag, edge_to_write@);
        let ghost cleared = cleared_by(&g0, gone);
        let ghost newly_set = not_covered(&g0, cleared);
        let total: usize = global.fast_map_size_data.used_branch_map_size;
        let mut new_edges: Vec<usize> = Vec::new();
        if write_flag {
            let order: Vec<usize> = self.chunk_order(global, rng);
            let full_total: usize = global.full_map_size_data.used_map_size;
            let (edges, _any) = note_map(
                &mut global.full_virgin_branches,
                edge_to_write,
                &global.full_start_pos,
                &global.full_end_pos,
                full_total,
                &order,
            );
            new_edges = edges;
        }
        proof {
            assert(new_edges@.to_set() =~= gone) by {
                assert forall|e: usize| new_edges@.to_set().contains(e) <==> gone.contains(e) by {
                    assert(new_edges@.contains(e) <==> gone.contains(e));
                }
            }
            assert forall|e: usize| #[trigger]
                dict.contains_key(e) && new_edges@.contains(e) implies dict[e]
                < global.branch_boundary@.len() && global.branch_boundary@[dict[e] as int]@.contains(
                e,
            ) by {
                assert(gone.contains(e));
                lemma_new_in_boundary(&g0, edge_to_write@, e);
            }
            assert forall|b: int| 0 <= b < global.branch_boundary@.len() implies #[trigger]
                can_shrink(global.branch_boundary@, dict, b) by {
                lemma_can_shrink(&g0, b);
            }
        }
        let covered = reduce_boundaries(
            &mut global.branch_boundary,
            &global.edge_to_pred_branch_dict,
            &new_edges,
        );
        proof {
            assert forall|i: int| 0 <= i < covered@.len() implies (#[trigger] covered@[i]) / 8
                < global.global_branch_cov_map@.len() by {
                assert(covered@[i] < total);
            }
            assert forall|b: usize| #[trigger] covered@.contains(b) <==> cleared.contains(b) by {}
        }
        let newly = cover(&mut global.global_branch_cov_map, &covered);
        proof {
            newly@.unique_seq_to_set();
            assert(newly@.to_set() =~= newly_set) by {
                assert forall|b: usize| newly@.to_set().contains(b) <==> newly_set.contains(b) by {
                    assert(newly@.contains(b) <==> covered@.contains(b) && !is_covered(
                        g0.global_branch_cov_map@,
                        b as int,
                    ));
                }
            }
            lemma_ids_fit(newly_set, total as nat);
        }
        global.cov_branches = global.cov_branches + newly.len();
        mark_covered(
            &mut global.branch_mutate_funcs,
            &covered,
            &global.branch_start_pos,
            &global.branch_end_pos,
            total,
        );
        proof {
            assert forall|b: int| 0 <= b < global.branch_boundary@.len() implies #[trigger]
                global.boundary_fits(b) by {
                assert(g0.boundary_fits(b));
                lemma_boundary_part(g0.branch_boundary@, dict, gone, b);
                assert(global.branch_boundary@[b]@ == boundary_after(
                    g0.branch_boundary@,
                    dict,
                    gone,
                    b,
                ));
                let s0 = g0.branch_boundary@[b]@;
                let s1 = global.branch_boundary@[b]@;
                if !is_non_term(g0.branch_type_dict@, b as usize) {
                    assert forall|i: int| 0 <= i < s1.len() implies edges_of(
                        dict,
                        b as usize,
                    ).contains(#[trigger] s1[i]) by {
                        assert(s1.contains(s1[i]));
                        assert(s0.contains(s1[i]));
                        let j = choose|j: int| 0 <= j < s0.len() && s0[j] == s1[i];
                        assert(edges_of(dict, b as usize).contains(s0[j]));
                    }
                }
            }
            assert forall|c: int, l: int|
                0 <= c < global.n() && 0 <= l < global.full_virgin_branches@[c]@.len() implies
                #[trigger] global.unseen_in_boundary(c, l) by {
                let e = (g0.full_start_pos@[c] + l) as usize;
                let start = g0.full_start_pos@;
                let end = g0.full_end_pos@;
                let full_total = g0.full_map_size_data.used_map_size as nat;
                assert(g0.full_virgin_branches@[c]@.len() == end[c] - start[c]);
                assert(global.full_virgin_branches@[c]@.len() == end[c] - start[c]);
                assert(g0.unseen_in_boundary(c, l));
                table_shape(start, end, full_total, start.len());
                assert(end[c] <= full_total);
                owner_is(start, end, full_total, start.len(), c, start[c] + l);
                if global.full_virgin_branches@[c]@[l] == 255 && dict.contains_key(e) {
                    let b = dict[e] as int;
                    if write_flag {
                        assert(in_chunk(edge_to_write@[c]@, end[c] - start[c]));
                        unseen_was_not_hit(
                            g0.full_virgin_branches@[c]@,
                            edge_to_write@[c]@,
                            l,
                        );
                    }
                    assert(!gone.contains(e));
                    assert(g0.branch_boundary@[b]@.contains(e));
                    lemma_boundary_part(g0.branch_boundary@, dict, gone, b);
                    assert(global.branch_boundary@[b]@ == boundary_after(
                        g0.branch_boundary@,
                        dict,
                        gone,
                        b,
                    ));
                }
            }
        }
        newly.len()
    }
}

/// What does not touch boundaries and the full target's edges keeps the state
/// well formed.
proof fn lemma_wf_kept(g0: &GlobalBranches, g1: &GlobalBranches)
    requires
        g0.wf(),
        g1.tables_wf(),
        g1.same_setup(g0),
        g1.branch_boundary == g0.branch_boundary,
        g1.full_virgin_branches == g0.full_virgin_branches,
    ensures
        g1.wf(),
{
    assert forall|b: int| 0 <= b < g1.branch_boundary@.len() implies #[trigger] g1.boundary_fits(
        b,
    ) by {
        assert(g0.boundary_fits(b));
    }
    assert forall|c: int, l: int|
        0 <= c < g1.n() && 0 <= l < g1.full_virgin_branches@[c]@.len() implies #[trigger]
        g1.unseen_in_boundary(c, l) by {
        assert(g0.unseen_in_boundary(c, l));
    }
}

/// A boundary that loses edges is a part of what it was: nothing but the
/// edges of `gone` is lost.
proof fn lemma_boundary_part(
    bb: Seq<Vec<usize>>,
    dict: Map<usize, usize>,
    gone: Set<usize>,
    b: int,
)
    ensures
        forall|x: usize| #[trigger]
            boundary_after(bb, dict, gone, b).contains(x) ==> bb[b]@.contains(x),
        forall|x: usize|
            bb[b]@.contains(x) && !gone.contains(x) ==> #[trigger] boundary_after(
                bb,
                dict,
                gone,
                b,
            ).contains(x),
        boundary_after(bb, dict, gone, b).len() <= bb[b]@.len(),
        bb[b]@.no_duplicates() ==> boundary_after(bb, dict, gone, b).no_duplicates(),
{
    super::boundary::lemma_rest_contains(bb[b]@, gone);
}

/// A run's paths together with the favor map of the edges.
pub open spec fn edges_view(g: &GlobalBranches, path: Seq<Vec<(usize, u8)>>) -> EdgeView {
    EdgeView {
        cells: g.edge_favor_map@,
        start: g.start_pos@,
        end: g.end_pos@,
        paths: path,
    }
}

/// The favor map of the edges after `seed` won what it covers best.
pub open spec fn edge_cells_after(
    g0: &GlobalBranches,
    g1: &GlobalBranches,
    path: Seq<Vec<(usize, u8)>>,
    seed: SeedInfo,
) -> bool {
    forall|c: int, l: int, x: int|
        0 <= c < g0.n() && 0 <= l < g0.end_pos@[c] - g0.start_pos@[c] && 0 <= x < 8 ==> #[trigger]
            g1.edge_favor_map@[c]@[l]@[x] == edges_view(g0, path).cell_after(
            seed,
            all_ids(g0.fast_map_size_data.used_map_size as int),
            c,
            l,
            x,
        )
}

/// The edges that `seed` wins, with the seeds that lose them.
pub open spec fn edges_won(
    g: &GlobalBranches,
    path: Seq<Vec<(usize, u8)>>,
    seed: SeedInfo,
) -> Map<usize, usize> {
    edges_view(g, path).won(seed, all_ids(g.fast_map_size_data.used_map_size as int))
}

impl Branches {
    /// Makes a normal run's input the favored seed of every edge that it
    /// covers better than the seeds so far.
    #[verifier::rlimit(40)]
    pub fn update_edge_favor_map(
        &mut self,
        global: &mut GlobalBranches,
        depot: &mut Depot,
        path: &Vec<Vec<(usize, u8)>>,
        rng: &mut ThreadRng,
        now: u64,
    )
        requires
            old(self).wf(old(global)),
            old(global).wf(),
            old(depot).wf(),
            are_paths(path@, old(global).start_pos@, old(global).end_pos@),
            is_linked(
                old(global).edge_favor_map@,
                old(global).start_pos@,
                old(depot).edges(),
            ),
            have_costs(old(global).edge_favor_map@),
            has_cost(old(self).seed_info),
            old(self).insert_seed_flag ==> 1 <= old(self).seed_info.seed_id <= old(
                depot,
            ).num_inputs && !old(depot).edges().favor.contains_key(old(self).seed_info.seed_id),
            !old(self).insert_seed_flag ==> old(depot).num_inputs < usize::MAX,
        ensures
            ({
                let any = any_edge_won(
                    edges_view(old(global), path@),
                    old(self).seed_info,
                    old(global).fast_map_size_data.used_map_size as int,
                );
                let seed = old(self).stored(old(depot), any);
                &&& final(self).steps == old(self).steps
                &&& final(self).insert_seed_flag == (old(self).insert_seed_flag || any)
                &&& final(self).seed_info == seed
                &&& final(depot).edges() == old(depot).edges().won(
                    seed,
                    now,
                    edges_won(old(global), path@, seed),
                )
                &&& final(depot).num_inputs == if any && !old(self).insert_seed_flag {
                    (old(depot).num_inputs + 1) as usize
                } else {
                    old(depot).num_inputs
                }
                &&& edge_cells_after(old(global), final(global), path@, seed)
            }),
            final(depot).wf(),
            final(depot).branches() == old(depot).branches(),
            final(depot).num_hangs == old(depot).num_hangs,
            final(depot).num_crashes == old(depot).num_crashes,
            final(depot).dirs == old(depot).dirs,
            final(depot).extras_data == old(depot).extras_data,
            final(depot).queue_rewards == old(depot).queue_rewards,
            final(global).wf(),
            final(global).same_setup(old(global)),
            final(global).same_edges(old(global)),
            final(global).same_branches(old(global)),
            is_linked(
                final(global).edge_favor_map@,
                final(global).start_pos@,
                final(depot).edges(),
            ),
            have_costs(final(global).edge_favor_map@),
    {
        let ghost g0 = *global;
        let ghost d0 = *depot;
        let ghost e = edges_view(&g0, path@);
        let total: usize = global.fast_map_size_data.used_map_size;
        let ghost all = all_ids(total as int);
        let ghost before = self.seed_info;
        let order: Vec<usize> = self.chunk_order(global, rng);
        let any = covers_better(
            &global.edge_favor_map,
            path,
            &global.start_pos,
            &global.end_pos,
            total,
            &order,
            &self.seed_info,
        );
        if !any {
            proof {
                winning_nothing(d0.edges(), self.seed_info, now);
                assert(e.won(before, all) =~= Map::empty());
                assert forall|c: int, l: int, x: int|
                    0 <= c < g0.n() && 0 <= l < g0.end_pos@[c] - g0.start_pos@[c] && 0 <= x
                        < 8 implies #[trigger] global.edge_favor_map@[c]@[l]@[x] == e.cell_after(
                    before,
                    all,
                    c,
                    l,
                    x,
                ) by {
                    if all.contains((g0.start_pos@[c] + l) as usize) && e.wins(
                        before,
                        g0.start_pos@[c] + l,
                    ) {
                        table_shape(
                            g0.start_pos@,
                            g0.end_pos@,
                            total as nat,
                            g0.start_pos@.len(),
                        );
                        assert(g0.end_pos@[c] <= total);
                        assert(0 <= g0.start_pos@[c] + l < total && e.wins(
                            before,
                            g0.start_pos@[c] + l,
                        ));
                    }
                }
            }
            return;
        }
        self.insert_new_seed(StatusType::Normal, depot);
        let seed: SeedInfo = self.seed_info;
        commit_edges(
            &mut global.edge_favor_map,
            depot,
            path,
            &global.start_pos,
            &global.end_pos,
            total,
            &order,
            seed,
            now,
        );
        proof {
            let start = g0.start_pos@;
            let end = g0.end_pos@;
            let cells0 = g0.edge_favor_map@;
            let won = e.won(seed, all);
            table_shape(start, end, total as nat, start.len());
            assert forall|c: int, l: int, x: int|
                0 <= c < start.len() && 0 <= l < end[c] - start[c] && 0 <= x < 8 implies (
            #[trigger] global.edge_favor_map@[c]@[l]@[x]).seed_id == if won.contains_key(
                (start[c] + l) as usize,
            ) && x == super::lookup::lowest_bit(e.bucket(start[c] + l)) {
                seed.seed_id
            } else {
                cells0[c]@[l]@[x].seed_id
            } by {
                assert(end[c] <= total);
                assert(global.edge_favor_map@[c]@[l]@[x] == e.cell_after(seed, all, c, l, x));
            }
            assert forall|c: int, l: int|
                0 <= c < start.len() && 0 <= l < end[c] - start[c] && won.contains_key(
                    (start[c] + l) as usize,
                ) implies 0 <= super::lookup::lowest_bit(e.bucket(start[c] + l)) < 8 && won[(
            start[c] + l) as usize] == (#[trigger] cells0[c]@[l])@[super::lookup::lowest_bit(
                e.bucket(start[c] + l),
            )].seed_id by {
                assert(end[c] <= total);
                owner_is(start, end, total as nat, start.len(), c, start[c] + l);
                super::lookup::lowest_bit_found(e.bucket(start[c] + l));
            }
            winning_keeps_links(
                cells0,
                global.edge_favor_map@,
                start,
                end,
                total as nat,
                d0.edges(),
                seed,
                now,
                won,
                |id: int| super::lookup::lowest_bit(e.bucket(id)),
            );
            assert forall|c: int, l: int, x: int|
                0 <= c < global.edge_favor_map@.len() && 0 <= l < global.edge_favor_map@[c]@.len()
                    && 0 <= x < 8 implies has_cost(
                #[trigger] global.edge_favor_map@[c]@[l]@[x],
            ) by {
                assert(global.edge_favor_map@[c]@.len() == end[c] - start[c]);
                assert(cells0[c]@.len() == end[c] - start[c]);
                assert(global.edge_favor_map@[c]@[l]@[x] == e.cell_after(seed, all, c, l, x));
                assert(has_cost(cells0[c]@[l]@[x]));
            }
            lemma_wf_kept(&g0, global);
        }
    }

    /// Notes the edges that a run showed, and stores its input if any of them
    /// was not seen yet in that way. Returns how many edges were seen for the
    /// first time, and whether anything was new.
    #[verifier::rlimit(40)]
    fn note_edges(
        &mut self,
        global: &mut GlobalBranches,
        depot: &mut Depot,
        status: StatusType,
        edge_to_write: &Vec<Vec<(usize, u8)>>,
        rng: &mut ThreadRng,
    ) -> (r: (usize, bool))
        requires
            has_map(status),
            old(self).wf(old(global)),
            old(global).wf(),
            old(depot).wf(),
            are_writes(edge_to_write@, old(global).start_pos@, old(global).end_pos@),
            old(self).insert_seed_flag || old(depot).saved(status) < usize::MAX,
        ensures
            ({
                let map = map_for(old(global), status);
                let news = map_has_news(map, edge_to_write@);
                let total = old(global).fast_map_size_data.used_map_size;
                let firsts = first_edges(
                    map,
                    edge_to_write@,
                    old(global).start_pos@,
                    old(global).end_pos@,
                    total as int,
                );
                &&& r.1 == news
                &&& firsts.finite()
                &&& r.0 == firsts.len()
                &&& r.0 <= total
                &&& forall|c: int|
                    0 <= c < old(global).n() ==> (#[trigger] map_for(
                        final(global),
                        status,
                    )[c])@ == seen(map[c]@, edge_to_write@[c]@)
                &&& final(self).insert_seed_flag == (old(self).insert_seed_flag || news)
                &&& final(self).seed_info == if news && !old(self).insert_seed_flag {
                    SeedInfo {
                        seed_id: (old(depot).saved(status) + 1) as usize,
                        ..old(self).seed_info
                    }
                } else {
                    old(self).seed_info
                }
                &&& final(depot).num_inputs == if news && !old(self).insert_seed_flag && status
                    == StatusType::Normal {
                    (old(depot).num_inputs + 1) as usize
                } else {
                    old(depot).num_inputs
                }
                &&& final(depot).num_hangs == if news && !old(self).insert_seed_flag && status
                    == StatusType::Timeout {
                    (old(depot).num_hangs + 1) as usize
                } else {
                    old(depot).num_hangs
                }
                &&& final(depot).num_crashes == if news && !old(self).insert_seed_flag && status
                    == StatusType::Crash {
                    (old(depot).num_crashes + 1) as usize
                } else {
                    old(depot).num_crashes
                }
            }),
            forall|other: StatusType|
                has_map(other) && other != status ==> #[trigger] map_for(final(global), other)
                    == map_for(old(global), other),
            final(self).steps == old(self).steps,
            final(depot).wf(),
            final(depot).branches() == old(depot).branches(),
            final(depot).edges() == old(depot).edges(),
            final(depot).dirs == old(depot).dirs,
            final(depot).extras_data == old(depot).extras_data,
            final(depot).queue_rewards == old(depot).queue_rewards,
            final(global).wf(),
            final(global).same_setup(old(global)),
            final(global).same_branches(old(global)),
            final(global).full_virgin_branches == old(global).full_virgin_branches,
            final(global).cov_edges == old(global).cov_edges,
            final(global).edge_favor_map == old(global).edge_favor_map,
    {
        let ghost g0 = *global;
        let total: usize = global.fast_map_size_data.used_map_size;
        let order: Vec<usize> = self.chunk_order(global, rng);
        let (new_edges, news) = match status {
            StatusType::Normal => note_map(
                &mut global.virgin_branches,
                edge_to_write,
                &global.start_pos,
                &global.end_pos,
                total,
                &order,
            ),
            StatusType::Timeout => note_map(
                &mut global.tmouts_branches,
                edge_to_write,
                &global.start_pos,
                &global.end_pos,
                total,
                &order,
            ),
            _ => note_map(
                &mut global.crashes_branches,
                edge_to_write,
                &global.start_pos,
                &global.end_pos,
                total,
                &order,
            ),
        };
        if news {
            self.insert_new_seed(status, depot);
        }
        proof {
            let firsts = first_edges(
                map_for(&g0, status),
                edge_to_write@,
                g0.start_pos@,
                g0.end_pos@,
                total as int,
            );
            new_edges@.unique_seq_to_set();
            assert(new_edges@.to_set() =~= firsts) by {
                assert forall|x: usize| new_edges@.to_set().contains(x) <==> firsts.contains(x) by {
                    assert(new_edges@.contains(x) <==> firsts.contains(x));
                }
            }
            lemma_ids_fit(firsts, total as nat);
            lemma_wf_kept(&g0, global);
        }
        (new_edges.len(), news)
    }
}

/// What a run showed, as it is handed in to be noted.
pub ghost struct RunView {
    pub status: StatusType,
    pub write_flag: bool,
    pub path: Seq<Vec<(usize, u8)>>,
    pub writes: Seq<Vec<(usize, u8)>>,
    pub frontier: Seq<u16>,
}

impl RunView {
    pub open spec fn is_normal(self) -> bool {
        self.status == StatusType::Normal
    }

    /// Some edge was not seen yet in that way.
    pub open spec fn has_news(self, g: &GlobalBranches) -> bool {
        self.write_flag && map_has_news(map_for(g, self.status), self.writes)
    }

    /// The edges that are seen for the first time.
    pub open spec fn firsts(self, g: &GlobalBranches) -> Set<usize> {
        if self.write_flag {
            first_edges(
                map_for(g, self.status),
                self.writes,
                g.start_pos@,
                g.end_pos@,
                g.fast_map_size_data.used_map_size as int,
            )
        } else {
            Set::empty()
        }
    }

    /// The run came closer to some branch.
    pub open spec fn is_closer(self, g: &GlobalBranches) -> bool {
        self.is_normal() && any_win(frontier_of(g, self.frontier))
    }

    /// The input, with the matches of the run counted if it was normal.
    pub open spec fn counted(self, b: &Branches) -> SeedInfo {
        if self.is_normal() {
            SeedInfo {
                match_value_sum: (b.seed_info.match_value_sum + match_total(
                    self.frontier,
                    whole_quads(self.frontier.len() as int),
                )) as usize,
                ..b.seed_info
            }
        } else {
            b.seed_info
        }
    }

    /// The run covers some edge better.
    pub open spec fn is_better(self, b: &Branches, g: &GlobalBranches) -> bool {
        self.is_normal() && any_edge_won(
            edges_view(g, self.path),
            self.counted(b),
            g.fast_map_size_data.used_map_size as int,
        )
    }

    /// The input is worth storing.
    pub open spec fn is_kept(self, b: &Branches, g: &GlobalBranches) -> bool {
        self.has_news(g) || self.is_closer(g) || self.is_better(b, g)
    }

    /// The input after the run was noted.
    pub open spec fn seed(self, b: &Branches, g: &GlobalBranches, d: &Depot) -> SeedInfo {
        if self.is_kept(b, g) && !b.insert_seed_flag {
            SeedInfo { seed_id: (d.saved(self.status) + 1) as usize, ..self.counted(b) }
        } else {
            self.counted(b)
        }
    }

    /// The branches that are covered by the run alone.
    pub open spec fn newly(self, g: &GlobalBranches) -> Set<usize> {
        if self.is_normal() {
            not_covered(g, best_matched(g, self.frontier))
        } else {
            Set::empty()
        }
    }

    /// How many inputs of kind `kind` are stored after the run was noted.
    pub open spec fn saved_after(
        self,
        b: &Branches,
        g: &GlobalBranches,
        d: &Depot,
        kind: StatusType,
    ) -> usize {
        if self.is_kept(b, g) && !b.insert_seed_flag && self.status == kind {
            (d.saved(kind) + 1) as usize
        } else {
            d.saved(kind)
        }
    }

    /// The worker's counters after the run was noted.
    pub open spec fn stats_after(
        self,
        b: &Branches,
        g: &GlobalBranches,
        stats: LocalStats,
        sync_flag: bool,
    ) -> LocalStats {
        let s1 = if self.is_closer(g) {
            LocalStats {
                num_branches: crate::stats::Counter(
                    (stats.num_branches.0 + self.newly(g).len()) as usize,
                ),
                ..stats
            }
        } else {
            stats
        };
        if b.insert_seed_flag || self.is_kept(b, g) || sync_flag {
            let s2 = s1.found(self.status);
            LocalStats {
                num_edges: crate::stats::Counter(
                    (s2.num_edges.0 + self.firsts(g).len()) as usize,
                ),
                ..s2
            }
        } else {
            s1
        }
    }
}

/// What was seen of the edges in runs like this one, after it was noted.
pub open spec fn maps_after(g0: &GlobalBranches, g1: &GlobalBranches, run: RunView) -> bool {
    &&& forall|c: int|
        0 <= c < g0.n() ==> (#[trigger] map_for(g1, run.status)[c])@ == if run.write_flag {
            seen(map_for(g0, run.status)[c]@, run.writes[c]@)
        } else {
            map_for(g0, run.status)[c]@
        }
    &&& forall|other: StatusType|
        has_map(other) && other != run.status ==> #[trigger] map_for(g1, other) == map_for(
            g0,
            other,
        )
}

/// What is known of the branches after a normal run was noted.
pub open spec fn branches_after(
    g0: &GlobalBranches,
    g1: &GlobalBranches,
    run: RunView,
    seed: SeedInfo,
    now: u64,
) -> bool {
    let f = frontier_of(g0, run.frontier);
    let all = all_ids(run.frontier.len() as int);
    &&& g1.reached_branches == g0.reached_branches + f.reached(all).len()
    &&& g1.cov_branches == g0.cov_branches + run.newly(g0).len()
    &&& forall|c: int, l: int, x: int|
        0 <= c < g0.n() && 0 <= l < g0.branch_end_pos@[c] - g0.branch_start_pos@[c] && 0 <= x < 8
            ==> #[trigger] g1.branch_favor_map@[c]@[l]@[x] == f.cell_after(seed, all, c, l, x)
    &&& forall|c: int, l: int|
        0 <= c < g0.n() && 0 <= l < g0.branch_end_pos@[c] - g0.branch_start_pos@[c] ==> #[trigger]
            g1.branch_mutate_funcs@[c]@[l] == f.func_after(
            g0.branch_mutate_funcs@,
            now,
            all,
            c,
            l,
        )
    &&& forall|b: usize|
        b < run.frontier.len() ==> (#[trigger] is_covered(
            g1.global_branch_cov_map@,
            b as int,
        ) <==> is_covered(g0.global_branch_cov_map@, b as int) || best_matched(
            g0,
            run.frontier,
        ).contains(b))
    &&& forall|b: int|
        0 <= b < run.frontier.len() ==> (#[trigger] g1.branch_boundary@[b])@ == if run.newly(
            g0,
        ).contains(b as usize) {
            Seq::<usize>::empty()
        } else {
            g0.branch_boundary@[b]@
        }
}

/// The favor maps and the queues belong together.
pub open spec fn in_step(g: &GlobalBranches, d: &Depot) -> bool {
    &&& is_linked(g.branch_favor_map@, g.branch_start_pos@, d.branches())
    &&& is_linked(g.edge_favor_map@, g.start_pos@, d.edges())
    &&& have_costs(g.edge_favor_map@)
}

/// A fresh state and an empty depot belong together.
pub proof fn fresh_is_in_step(g: &GlobalBranches, d: &Depot)
    requires
        g.tables_wf(),
        g.is_fresh(),
    ensures
        in_step(g, d),
{
    assert forall|c: int, l: int, x: int|
        0 <= c < g.edge_favor_map@.len() && 0 <= l < g.edge_favor_map@[c]@.len() && 0 <= x
            < 8 implies has_cost(#[trigger] g.edge_favor_map@[c]@[l]@[x]) by {
        assert(0 * 0 == 0) by (nonlinear_arith);
    }
}

/// What a seed wins does not depend on its identifier.
proof fn lemma_same_cost(e: EdgeView, s: SeedInfo, t: SeedInfo, total: int)
    requires
        s.len == t.len,
        s.exec_time_us == t.exec_time_us,
        s.match_value_sum == t.match_value_sum,
    ensures
        any_edge_won(e, s, total) == any_edge_won(e, t, total),
{
    assert forall|id: int| #[trigger] e.wins(s, id) == e.wins(t, id) by {}
    if any_edge_won(e, s, total) {
        let id = choose|id: int| 0 <= id < total && #[trigger] e.wins(s, id);
        assert(e.wins(t, id));
    }
    if any_edge_won(e, t, total) {
        let id = choose|id: int| 0 <= id < total && #[trigger] e.wins(t, id);
        assert(e.wins(s, id));
    }
}

impl Branches {
    /// Notes a run of the fast target: the edges and branches it showed, its
    /// input if it is worth keeping, and what the worker counts. Returns
    /// whether an edge was not seen yet in that way, whether one was not seen
    /// yet at all, how many edges the run showed, and whether it came closer
    /// to a branch.
    #[verifier::rlimit(60)]
    pub fn update_edges_and_branches(
        &mut self,
        global: &mut GlobalBranches,
        depot: &mut Depot,
        frontier: &[u16],
        status: StatusType,
        local_stats: &mut LocalStats,
        write_flag: bool,
        path: &Vec<Vec<(usize, u8)>>,
        edge_to_write: &Vec<Vec<(usize, u8)>>,
        sync_flag: bool,
        rng: &mut ThreadRng,
        now: u64,
    ) -> (r: (bool, bool, usize, bool))
        requires
            old(self).wf(old(global)),
            old(global).wf(),
            old(depot).wf(),
            has_branch_room(old(global)),
            old(global).cov_edges + old(global).fast_map_size_data.used_map_size <= usize::MAX,
            old(global).fast_map_size_data.used_branch_map_size % 8 == 0,
            has_map(status) && write_flag ==> are_writes(
                edge_to_write@,
                old(global).start_pos@,
                old(global).end_pos@,
            ),
            has_map(status) ==> old(self).insert_seed_flag || old(depot).saved(status) < usize::MAX,
            status == StatusType::Normal ==> {
                &&& are_paths(path@, old(global).start_pos@, old(global).end_pos@)
                &&& report_fits(old(global), frontier@)
                &&& in_step(old(global), old(depot))
                &&& old(self).can_store(old(depot))
                &&& has_cost(old(self).seed_info)
                &&& old(self).seed_info.match_value_sum + match_total(
                    frontier@,
                    whole_quads(frontier@.len() as int),
                ) <= usize::MAX
            },
            old(local_stats).has_room(
                old(global).fast_map_size_data.used_map_size + old(
                    global,
                ).fast_map_size_data.used_branch_map_size + 1,
            ),
        ensures
            final(global).wf(),
            final(global).same_setup(old(global)),
            final(global).full_virgin_branches == old(global).full_virgin_branches,
            final(depot).wf(),
            final(depot).dirs == old(depot).dirs,
            final(depot).extras_data == old(depot).extras_data,
            final(depot).queue_rewards == old(depot).queue_rewards,
            final(self).steps == old(self).steps,
            !has_map(status) ==> {
                &&& r == (false, false, 0usize, false)
                &&& *final(self) == *old(self)
                &&& *final(local_stats) == *old(local_stats)
                &&& *final(global) == *old(global)
                &&& *final(depot) == *old(depot)
            },
            has_map(status) ==> ({
                let run = RunView {
                    status,
                    write_flag,
                    path: path@,
                    writes: edge_to_write@,
                    frontier: frontier@,
                };
                let seed = run.seed(old(self), old(global), old(depot));
                &&& final(self).insert_seed_flag == (old(self).insert_seed_flag || run.is_kept(
                    old(self),
                    old(global),
                ))
                &&& final(self).seed_info == seed
                &&& *final(local_stats) == run.stats_after(
                    old(self),
                    old(global),
                    *old(local_stats),
                    sync_flag,
                )
                &&& run.firsts(old(global)).finite()
                &&& r.0 == run.has_news(old(global))
                &&& r.1 == (r.0 && run.firsts(old(global)).len() > 0)
                &&& r.2 == old(self).seed_info.edge_num
                &&& r.3 == run.is_closer(old(global))
                &&& maps_after(old(global), final(global), run)
                &&& final(global).cov_edges == old(global).cov_edges + if run.is_normal() {
                    run.firsts(old(global)).len()
                } else {
                    0
                }
                &&& final(depot).num_inputs == run.saved_after(
                    old(self),
                    old(global),
                    old(depot),
                    StatusType::Normal,
                )
                &&& final(depot).num_hangs == run.saved_after(
                    old(self),
                    old(global),
                    old(depot),
                    StatusType::Timeout,
                )
                &&& final(depot).num_crashes == run.saved_after(
                    old(self),
                    old(global),
                    old(depot),
                    StatusType::Crash,
                )
                &&& !run.is_normal() ==> {
                    &&& final(global).same_branches(old(global))
                    &&& final(global).edge_favor_map == old(global).edge_favor_map
                    &&& final(depot).branches() == old(depot).branches()
                    &&& final(depot).edges() == old(depot).edges()
                }
                &&& run.is_normal() ==> {
                    &&& branches_after(old(global), final(global), run, seed, now)
                    &&& edge_cells_after(old(global), final(global), path@, seed)
                    &&& final(depot).branches() == old(depot).branches().won(
                        seed,
                        now,
                        frontier_of(old(global), frontier@).won(
                            all_ids(frontier@.len() as int),
                        ),
                    )
                    &&& final(depot).edges() == old(depot).edges().won(
                        seed,
                        now,
                        edges_won(old(global), path@, seed),
                    )
                    &&& in_step(final(global), final(depot))
                }
            }),
    {
        let ghost g0 = *global;
        let ghost d0 = *depot;
        let ghost b0 = *self;
        let ghost stats0 = *local_stats;
        let ghost run = RunView {
            status,
            write_flag,
            path: path@,
            writes: edge_to_write@,
            frontier: frontier@,
        };
        match status {
            StatusType::Normal => {},
            StatusType::Timeout => {},
            StatusType::Crash => {},
            _ => {
                return (false, false, 0, false);
            },
        }
        let mut num_new_edge: usize = 0;
        let mut news = false;
        if write_flag {
            let (num, any) = self.note_edges(global, depot, status, edge_to_write, rng);
            num_new_edge = num;
            news = any;
        }
        let ghost gm = *global;
        assert(run.firsts(&g0).finite());
        assert(num_new_edge == run.firsts(&g0).len());
        if num_new_edge > 0 && status == StatusType::Normal {
            global.cov_edges = global.cov_edges + num_new_edge;
        }
        let ghost g1 = *global;
        let ghost d1 = *depot;
        let ghost b1 = *self;
        proof {
            lemma_wf_kept(&g0, global);
            assert(map_for(&g1, status) == map_for(&gm, status));
            assert forall|other: StatusType|
                has_map(other) && other != status implies #[trigger] map_for(&g1, other)
                == map_for(&g0, other) by {
                assert(map_for(&gm, other) == map_for(&g0, other));
            }
            assert forall|c: int| 0 <= c < g0.n() implies (#[trigger] map_for(&g1, status)[c])@
                == if write_flag {
                seen(map_for(&g0, status)[c]@, edge_to_write@[c]@)
            } else {
                map_for(&g0, status)[c]@
            } by {
                assert(map_for(&gm, status)[c] == map_for(&g1, status)[c]);
            }
            assert(maps_after(&g0, &g1, run));
        }
        let mut has_higher_match = false;
        if status == StatusType::Normal {
            proof {
                assert(best_matched(&g1, frontier@) == best_matched(&g0, frontier@));
                assert(report_fits(&g1, frontier@));
            }
            let (improved, num_new_branches) = self.check_frontier_branch(
                global,
                depot,
                frontier,
                rng,
                now,
            );
            if improved {
                proof {
                    lemma_ids_fit(
                        run.newly(&g0),
                        g0.fast_map_size_data.used_branch_map_size as nat,
                    );
                }
                local_stats.num_branches.inc(num_new_branches);
                has_higher_match = true;
            }
            let ghost g2 = *global;
            let ghost d2 = *depot;
            let ghost b2 = *self;
            self.update_edge_favor_map(global, depot, path, rng, now);
            proof {
                let f = frontier_of(&g0, frontier@);
                let e = edges_view(&g0, path@);
                let all = all_ids(frontier@.len() as int);
                let total = g0.fast_map_size_data.used_map_size as int;
                assert(frontier_of(&g1, frontier@) == f);
                assert(edges_view(&g2, path@) == e);
                lemma_same_cost(e, b2.seed_info, run.counted(&b0), total);
                assert(self.seed_info == run.seed(&b0, &g0, &d0));
                let seed = self.seed_info;
                if !any_win(f) {
                    winning_nothing(d0.branches(), seed, now);
                    winning_nothing(d0.branches(), b2.seed_info, now);
                    assert(f.won(all) =~= Map::empty());
                }
                assert(branches_after(&g0, global, run, seed, now));
            }
        }
        proof {
            assert(map_for(global, status) == map_for(&g1, status));
            assert forall|other: StatusType| has_map(other) && other != status implies #[trigger]
                map_for(global, other) == map_for(&g0, other) by {
                assert(map_for(&g1, other) == map_for(&g0, other));
            }
            assert(maps_after(&g0, global, run));
        }
        if self.insert_seed_flag || sync_flag {
            local_stats.find_new(&status);
            local_stats.num_edges.inc(num_new_edge);
        }
        if !news {
            (false, false, self.seed_info.edge_num, has_higher_match)
        } else {
            (true, num_new_edge > 0, self.seed_info.edge_num, has_higher_match)
        }
    }
}

} // verus!
