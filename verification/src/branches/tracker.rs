//! Looking at a run, and how close it comes to the branches.

use super::boundary::{clear_marks, cover};
use super::branch_type::BranchType;
use super::calibrate::{
    bucket_at, calibrate_chunk, lies_on, merged, merged_write, unseen_lies_on_path, varies,
};
use super::frontier::{
    all_ids, any_win, commit_frontier, improves, is_frontier, is_linked, lemma_ids_fit,
    match_of, match_total, sum_matches, whole_quads, winning_keeps_links, FrontierView, BEST_MATCH,
};
use super::global::{edges_of, is_covered, is_non_term, GlobalBranches};
use super::lookup::{branch_lookup, buckets_are_ordered};
use super::paths::{
    any_edge, are_paths, chunk_path, count_edges, edge_count, get_path, paths_fit, unseen,
    unseen_in_map,
};
use crate::chunks::{
    all_steps, coprime_steps, is_order, owner_is, random_chunk_order, table_shape,
};
use crate::depot::favor_queue::winning_nothing;
use crate::depot::{Depot, SeedInfo};
use crate::status::StatusType;
use rand::rngs::ThreadRng;
use vstd::prelude::*;

verus! {

broadcast use vstd::std_specs::hash::group_hash_axioms;

/// What one worker keeps between looking at a run and noting it.
pub struct Branches {
    /// The steps by which the chunks can be visited.
    pub steps: Vec<usize>,
    /// The run's input was stored.
    pub insert_seed_flag: bool,
    /// The run's input.
    pub seed_info: SeedInfo,
}

/// The map that runs of a kind are compared with.
pub open spec fn map_for(g: &GlobalBranches, status: StatusType) -> Seq<Vec<u8>> {
    match status {
        StatusType::Normal => g.virgin_branches@,
        StatusType::Timeout => g.tmouts_branches@,
        _ => g.crashes_branches@,
    }
}

/// Runs of this kind are compared with a map.
pub open spec fn has_map(status: StatusType) -> bool {
    status == StatusType::Normal || status == StatusType::Timeout || status == StatusType::Crash
}

/// Branch `id` lies in the padding of the trace target's map.
pub open spec fn is_padding(g: &GlobalBranches, id: usize) -> bool {
    g.trace_map_size_data.real_branch_map_size <= id < g.trace_map_size_data.used_branch_map_size
}

/// The type of branch `id` of the trace target is known.
pub open spec fn has_trace_type(g: &GlobalBranches, id: usize) -> bool {
    is_padding(g, id) || g.trace_branch_type_dict@.contains_key(id)
}

/// The type of branch `id` of the trace target.
pub open spec fn trace_type(g: &GlobalBranches, id: usize) -> BranchType {
    if is_padding(g, id) {
        BranchType::Cmp
    } else {
        g.trace_branch_type_dict@[id]
    }
}

impl Branches {
    /// The steps are those for the number of chunks.
    pub open spec fn wf(&self, g: &GlobalBranches) -> bool {
        self.steps@ == all_steps(g.n())
    }

    /// The state of a worker that has not looked at a run yet.
    pub fn new(global: &GlobalBranches) -> (r: Self)
        requires
            global.thread_num > 0,
        ensures
            r.wf(global),
            !r.insert_seed_flag,
            r.seed_info == SeedInfo::spec_default(),
    {
        Branches {
            steps: coprime_steps(global.thread_num),
            insert_seed_flag: false,
            seed_info: SeedInfo::default(),
        }
    }

    /// The number of cells of the fast target's trace map.
    pub fn get_map_size(&self, global: &GlobalBranches) -> (r: usize)
        ensures
            r == global.fast_map_size_data.used_map_size,
    {
        global.fast_map_size_data.used_map_size
    }

    /// The number of cells of the full target's trace map.
    pub fn get_full_map_size(&self, global: &GlobalBranches) -> (r: usize)
        ensures
            r == global.full_map_size_data.used_map_size,
    {
        global.full_map_size_data.used_map_size
    }

    /// The number of cells of the branch map.
    pub fn get_branch_size(&self, global: &GlobalBranches) -> (r: usize)
        ensures
            r == global.fast_map_size_data.used_branch_map_size,
    {
        global.fast_map_size_data.used_branch_map_size
    }

    /// The type of a branch of the trace target; branches in the padding of
    /// the map count as ordinary comparisons.
    pub fn get_trace_branch_type(&self, global: &GlobalBranches, branch_id: usize) -> (r:
        BranchType)
        requires
            has_trace_type(global, branch_id),
        ensures
            r == trace_type(global, branch_id),
    {
        let trace = &global.trace_map_size_data;
        if branch_id >= trace.real_branch_map_size && branch_id < trace.used_branch_map_size {
            return BranchType::Cmp;
        }
        match global.trace_branch_type_dict.get(&branch_id) {
            Some(t) => *t,
            None => BranchType::Cmp,
        }
    }

    /// Branches reached, covered and in all, and the share covered in
    /// hundredths of a percent.
    pub fn get_branch_data(&self, global: &GlobalBranches) -> (r: (usize, usize, usize, usize))
        requires
            global.fast_map_size_data.real_branch_map_size > 0,
            global.cov_branches * 10000 <= usize::MAX,
        ensures
            r.0 == global.reached_branches,
            r.1 == global.cov_branches,
            r.2 == global.fast_map_size_data.real_branch_map_size,
            r.3 == global.cov_branches as int * 10000
                / global.fast_map_size_data.real_branch_map_size as int,
    {
        let reached: usize = global.get_reached_branches();
        let (covered, total, percent) = global.get_branch_stats();
        (reached, covered, total, percent)
    }

    /// An order in which to visit the chunks.
    pub(crate) fn chunk_order(&self, global: &GlobalBranches, rng: &mut ThreadRng) -> (order: Vec<usize>)
        requires
            self.wf(global),
            global.tables_wf(),
        ensures
            is_order(order@, global.n() as int),
    {
        random_chunk_order(rng, global.thread_num, &self.steps)
    }

    /// Looks at a run of the fast target: which edges it shows, and which of
    /// them were not seen yet in that way. Nothing is noted yet.
    pub fn has_new_edge(
        &mut self,
        global: &GlobalBranches,
        trace: &[u8],
        status: StatusType,
        seed_info: SeedInfo,
        rng: &mut ThreadRng,
    ) -> (r: (bool, Vec<Vec<(usize, u8)>>, Vec<Vec<(usize, u8)>>))
        requires
            old(self).wf(global),
            global.tables_wf(),
            trace@.len() == global.fast_map_size_data.used_map_size,
        ensures
            final(self).wf(global),
            !final(self).insert_seed_flag,
            !has_map(status) ==> {
                &&& final(self).seed_info == seed_info
                &&& !r.0
                &&& r.1@.len() == 0
                &&& r.2@.len() == 0
            },
            has_map(status) ==> {
                &&& final(self).seed_info == (SeedInfo {
                    edge_num: edge_count(r.1@, r.1@.len() as int) as usize,
                    ..seed_info
                })
                &&& edge_count(r.1@, r.1@.len() as int) <= usize::MAX
                &&& r.0 == any_edge(r.2@)
                &&& r.1@.len() == global.n()
                &&& r.2@.len() == global.n()
                &&& forall|c: int|
                    0 <= c < global.n() ==> (#[trigger] r.1@[c])@ == chunk_path(
                        trace@,
                        global.start_pos@[c] as int,
                        global.end_pos@[c] as int,
                    )
                &&& forall|c: int|
                    0 <= c < global.n() ==> (#[trigger] r.2@[c])@ == unseen(
                        r.1@[c]@,
                        map_for(global, status)[c]@,
                    )
                &&& are_paths(r.1@, global.start_pos@, global.end_pos@)
                &&& are_paths(r.2@, global.start_pos@, global.end_pos@)
                &&& all_lie_on(r.2@, r.1@)
            },
    {
        self.insert_seed_flag = false;
        self.seed_info = seed_info;
        let order: Vec<usize> = self.chunk_order(global, rng);
        let gb_map: &Vec<Vec<u8>> = match status {
            StatusType::Normal => &global.virgin_branches,
            StatusType::Timeout => &global.tmouts_branches,
            StatusType::Crash => &global.crashes_branches,
            _ => {
                return (false, Vec::new(), Vec::new());
            },
        };
        let path = get_path(trace, &global.start_pos, &global.end_pos);
        proof {
            paths_fit(
                path@,
                global.start_pos@,
                global.end_pos@,
                trace@.len(),
                global.n() as int,
            );
        }
        self.seed_info.edge_num = count_edges(&path);
        let (flag, to_write) = unseen_in_map(
            gb_map,
            &path,
            &global.start_pos,
            &global.end_pos,
            &order,
        );
        proof {
            lemma_all_lie_on(gb_map@, path@, to_write@, global.start_pos@, global.end_pos@);
        }
        (flag, path, to_write)
    }

    /// Looks at a run of the full target, as [`Branches::has_new_edge`] does.
    pub fn has_new_full_edge(
        &mut self,
        global: &GlobalBranches,
        full_trace: &[u8],
        rng: &mut ThreadRng,
    ) -> (r: (bool, Vec<Vec<(usize, u8)>>, Vec<Vec<(usize, u8)>>))
        requires
            old(self).wf(global),
            global.tables_wf(),
            full_trace@.len() == global.full_map_size_data.used_map_size,
        ensures
            *final(self) == *old(self),
            r.0 == any_edge(r.2@),
            r.1@.len() == global.n(),
            r.2@.len() == global.n(),
            forall|c: int|
                0 <= c < global.n() ==> (#[trigger] r.1@[c])@ == chunk_path(
                    full_trace@,
                    global.full_start_pos@[c] as int,
                    global.full_end_pos@[c] as int,
                ),
            forall|c: int|
                0 <= c < global.n() ==> (#[trigger] r.2@[c])@ == unseen(
                    r.1@[c]@,
                    global.full_virgin_branches@[c]@,
                ),
            are_paths(r.1@, global.full_start_pos@, global.full_end_pos@),
            are_paths(r.2@, global.full_start_pos@, global.full_end_pos@),
            all_lie_on(r.2@, r.1@),
    {
        let full_path = get_path(full_trace, &global.full_start_pos, &global.full_end_pos);
        let order: Vec<usize> = self.chunk_order(global, rng);
        let (flag, to_write) = unseen_in_map(
            &global.full_virgin_branches,
            &full_path,
            &global.full_start_pos,
            &global.full_end_pos,
            &order,
        );
        proof {
            lemma_all_lie_on(
                global.full_virgin_branches@,
                full_path@,
                to_write@,
                global.full_start_pos@,
                global.full_end_pos@,
            );
        }
        (flag, full_path, to_write)
    }

    /// Stores the run's input, at most once for a run.
    pub fn insert_new_seed(&mut self, status: StatusType, depot: &mut Depot)
        requires
            old(depot).wf(),
            old(self).insert_seed_flag || old(depot).saved(status) < usize::MAX,
        ensures
            final(depot).wf(),
            final(self).steps == old(self).steps,
            final(self).insert_seed_flag,
            final(depot).branches() == old(depot).branches(),
            final(depot).edges() == old(depot).edges(),
            final(depot).dirs == old(depot).dirs,
            final(depot).extras_data == old(depot).extras_data,
            final(depot).queue_rewards == old(depot).queue_rewards,
            old(self).insert_seed_flag ==> {
                &&& final(self).seed_info == old(self).seed_info
                &&& final(depot).same_store(old(depot))
            },
            !old(self).insert_seed_flag ==> {
                let id = if has_map(status) {
                    (old(depot).saved(status) + 1) as usize
                } else {
                    0
                };
                &&& final(self).seed_info == (SeedInfo { seed_id: id, ..old(self).seed_info })
                &&& final(depot).num_inputs == if status == StatusType::Normal {
                    id
                } else {
                    old(depot).num_inputs
                }
                &&& final(depot).num_hangs == if status == StatusType::Timeout {
                    id
                } else {
                    old(depot).num_hangs
                }
                &&& final(depot).num_crashes == if status == StatusType::Crash {
                    id
                } else {
                    old(depot).num_crashes
                }
            },
    {
        if !self.insert_seed_flag {
            self.insert_seed_flag = true;
            self.seed_info.seed_id = depot.save(status);
        }
    }
}

/// Two runs differ somewhere in chunk `c`.
pub open spec fn chunk_varies(
    first: Seq<Vec<(usize, u8)>>,
    trace: Seq<u8>,
    start: Seq<usize>,
    end: Seq<usize>,
    c: int,
) -> bool {
    exists|l: usize| #[trigger]
        varies(first[c]@, chunk_path(trace, start[c] as int, end[c] as int), l)
}

/// Two runs differ somewhere.
pub open spec fn run_varies(
    first: Seq<Vec<(usize, u8)>>,
    trace: Seq<u8>,
    start: Seq<usize>,
    end: Seq<usize>,
) -> bool {
    exists|c: int| 0 <= c < start.len() && #[trigger] chunk_varies(first, trace, start, end, c)
}

/// The chunk's path and what is to be noted of it, before and after it was
/// compared with another run.
pub open spec fn is_calibrated(
    path0: Seq<(usize, u8)>,
    writes0: Seq<(usize, u8)>,
    path1: Seq<(usize, u8)>,
    writes1: Seq<(usize, u8)>,
    second: Seq<(usize, u8)>,
) -> bool {
    &&& forall|l: usize| #[trigger] bucket_at(path1, l) == merged(path0, second, l)
    &&& forall|l: usize| #[trigger]
        bucket_at(writes1, l) == merged_write(path0, second, writes0, l)
}

/// What is to be noted of a run lies on its path, in every chunk.
pub open spec fn all_lie_on(
    writes: Seq<Vec<(usize, u8)>>,
    paths: Seq<Vec<(usize, u8)>>,
) -> bool {
    forall|c: int| 0 <= c < paths.len() ==> lies_on((#[trigger] writes[c])@, paths[c]@)
}

/// What was not seen yet lies on the path, in every chunk.
proof fn lemma_all_lie_on(
    map: Seq<Vec<u8>>,
    paths: Seq<Vec<(usize, u8)>>,
    writes: Seq<Vec<(usize, u8)>>,
    start: Seq<usize>,
    end: Seq<usize>,
)
    requires
        are_paths(paths, start, end),
        writes.len() == paths.len(),
        forall|c: int|
            0 <= c < paths.len() ==> (#[trigger] writes[c])@ == unseen(paths[c]@, map[c]@),
    ensures
        all_lie_on(writes, paths),
{
    assert forall|c: int| 0 <= c < paths.len() implies lies_on(
        (#[trigger] writes[c])@,
        paths[c]@,
    ) by {
        unseen_lies_on_path(paths[c]@, map[c]@, end[c] - start[c]);
    }
}

impl Branches {
    /// Compares another run of the same input with the first one. Edges that
    /// the runs show differently get all bits as their bucket, so that they
    /// count as seen in every way from then on. Tells whether any do.
    pub fn calibrate_edge(
        &mut self,
        global: &GlobalBranches,
        trace: &[u8],
        first_path: &mut Vec<Vec<(usize, u8)>>,
        edge_to_write: &mut Vec<Vec<(usize, u8)>>,
        is_full: bool,
    ) -> (r: bool)
        requires
            global.tables_wf(),
            is_full ==> trace@.len() == global.full_map_size_data.used_map_size && are_paths(
                old(first_path)@,
                global.full_start_pos@,
                global.full_end_pos@,
            ) && are_paths(
                old(edge_to_write)@,
                global.full_start_pos@,
                global.full_end_pos@,
            ),
            !is_full ==> trace@.len() == global.fast_map_size_data.used_map_size && are_paths(
                old(first_path)@,
                global.start_pos@,
                global.end_pos@,
            ) && are_paths(old(edge_to_write)@, global.start_pos@, global.end_pos@),
            all_lie_on(old(edge_to_write)@, old(first_path)@),
        ensures
            *final(self) == *old(self),
            ({
                let start = if is_full {
                    global.full_start_pos@
                } else {
                    global.start_pos@
                };
                let end = if is_full {
                    global.full_end_pos@
                } else {
                    global.end_pos@
                };
                &&& are_paths(final(first_path)@, start, end)
                &&& are_paths(final(edge_to_write)@, start, end)
                &&& forall|c: int|
                    0 <= c < global.n() ==> is_calibrated(
                        old(first_path)@[c]@,
                        old(edge_to_write)@[c]@,
                        (#[trigger] final(first_path)@[c])@,
                        final(edge_to_write)@[c]@,
                        chunk_path(trace@, start[c] as int, end[c] as int),
                    )
                &&& r == run_varies(old(first_path)@, trace@, start, end)
            }),
            all_lie_on(final(edge_to_write)@, final(first_path)@),
    {
        let start: &Vec<usize> = if is_full {
            &global.full_start_pos
        } else {
            &global.start_pos
        };
        let end: &Vec<usize> = if is_full {
            &global.full_end_pos
        } else {
            &global.end_pos
        };
        let path = get_path(trace, start, end);
        let ghost n = start@.len() as int;
        let ghost path0 = first_path@;
        let ghost writes0 = edge_to_write@;
        let mut is_variable = false;
        let mut c: usize = 0;
        while c < path.len()
            invariant
                c <= path@.len() == n,
                n == start@.len(),
                n == global.n(),
                are_paths(path@, start@, end@),
                are_paths(path0, start@, end@),
                are_paths(writes0, start@, end@),
                are_paths(first_path@, start@, end@),
                are_paths(edge_to_write@, start@, end@),
                all_lie_on(writes0, path0),
                forall|k: int|
                    0 <= k < n ==> (#[trigger] path@[k])@ == chunk_path(
                        trace@,
                        start@[k] as int,
                        end@[k] as int,
                    ),
                forall|k: int| c <= k < n ==> (#[trigger] first_path@[k]) == path0[k],
                forall|k: int| c <= k < n ==> (#[trigger] edge_to_write@[k]) == writes0[k],
                forall|k: int|
                    0 <= k < c ==> is_calibrated(
                        path0[k]@,
                        writes0[k]@,
                        (#[trigger] first_path@[k])@,
                        edge_to_write@[k]@,
                        chunk_path(trace@, start@[k] as int, end@[k] as int),
                    ),
                is_variable == exists|k: int|
                    0 <= k < c && #[trigger] chunk_varies(path0, trace@, start@, end@, k),
            decreases path@.len() - c,
        {
            let ghost var1 = is_variable;
            let ghost first1 = first_path@;
            let ghost write1 = edge_to_write@;
            proof {
                let k = c as int;
                assert(first_path@[k] == path0[k] && edge_to_write@[k] == writes0[k]);
                assert(lies_on(writes0[k]@, path0[k]@));
                assert(super::paths::is_path(path0[k]@, end@[k] - start@[k]));
                assert(super::paths::is_path(writes0[k]@, end@[k] - start@[k]));
                assert(super::paths::is_path(path@[k]@, end@[k] - start@[k]));
            }
            let (p, w, v) = calibrate_chunk(
                &first_path[c],
                &edge_to_write[c],
                &path[c],
                Ghost(end@[c as int] - start@[c as int]),
            );
            first_path.set(c, p);
            edge_to_write.set(c, w);
            if v {
                is_variable = true;
            }
            proof {
                let k = c as int;
                assert forall|j: int| c + 1 <= j < n implies (#[trigger] first_path@[j])
                    == path0[j] by {
                    assert(first1[j] == path0[j]);
                }
                assert forall|j: int| c + 1 <= j < n implies (#[trigger] edge_to_write@[j])
                    == writes0[j] by {
                    assert(write1[j] == writes0[j]);
                }
                assert(path@[k]@ == chunk_path(trace@, start@[k] as int, end@[k] as int));
                assert(chunk_varies(path0, trace@, start@, end@, k) == v);
                assert(is_variable == exists|j: int|
                    0 <= j < c + 1 && #[trigger] chunk_varies(path0, trace@, start@, end@, j)) by {
                    if var1 {
                        let j = choose|j: int|
                            0 <= j < c && #[trigger] chunk_varies(
                                path0,
                                trace@,
                                start@,
                                end@,
                                j,
                            );
                        assert(0 <= j < c + 1 && chunk_varies(path0, trace@, start@, end@, j));
                    }
                }
                assert forall|j: int| 0 <= j < c + 1 implies is_calibrated(
                    path0[j]@,
                    writes0[j]@,
                    (#[trigger] first_path@[j])@,
                    edge_to_write@[j]@,
                    chunk_path(trace@, start@[j] as int, end@[j] as int),
                ) by {
                    if j < c {
                        assert(first_path@[j] == first1[j]);
                        assert(edge_to_write@[j] == write1[j]);
                    }
                }
                assert forall|j: int| 0 <= j < n implies super::paths::is_path(
                    #[trigger] first_path@[j]@,
                    end@[j] - start@[j],
                ) by {
                    if j != c {
                        assert(first_path@[j] == first1[j]);
                    }
                }
                assert forall|j: int| 0 <= j < n implies super::paths::is_path(
                    #[trigger] edge_to_write@[j]@,
                    end@[j] - start@[j],
                ) by {
                    if j != c {
                        assert(edge_to_write@[j] == write1[j]);
                    }
                }
            }
            c = c + 1;
        }
        proof {
            assert(is_variable == run_varies(path0, trace@, start@, end@));
            assert forall|k: int| 0 <= k < first_path@.len() implies lies_on(
                (#[trigger] edge_to_write@[k])@,
                first_path@[k]@,
            ) by {
                let second = chunk_path(trace@, start@[k] as int, end@[k] as int);
                assert(is_calibrated(
                    path0[k]@,
                    writes0[k]@,
                    first_path@[k]@,
                    edge_to_write@[k]@,
                    second,
                ));
                assert(lies_on(writes0[k]@, path0[k]@));
                assert forall|l: usize| #[trigger] bucket_at(edge_to_write@[k]@, l) != 0 implies
                    bucket_at(first_path@[k]@, l) != 0 by {
                    assert(bucket_at(first_path@[k]@, l) == merged(path0[k]@, second, l));
                    assert(bucket_at(writes0[k]@, l) != 0 ==> bucket_at(path0[k]@, l) != 0);
                }
            }
        }
        is_variable
    }
}

/// A report together with the favor map of the branches.
pub open spec fn frontier_of(g: &GlobalBranches, frontier: Seq<u16>) -> FrontierView {
    FrontierView {
        cells: g.branch_favor_map@,
        start: g.branch_start_pos@,
        end: g.branch_end_pos@,
        map: frontier,
    }
}

/// The branches that a run matches best.
pub open spec fn best_matched(g: &GlobalBranches, frontier: Seq<u16>) -> Set<usize> {
    frontier_of(g, frontier).matched(all_ids(frontier.len() as int))
}

/// Those of `branches` that were not covered yet.
pub open spec fn not_covered(g: &GlobalBranches, branches: Set<usize>) -> Set<usize> {
    Set::new(
        |b: usize| branches.contains(b) && !is_covered(g.global_branch_cov_map@, b as int),
    )
}

/// What the target reports of the branches makes sense for this map: it has
/// the map's size, and the best match comes only from branches that are
/// covered by it.
pub open spec fn report_fits(g: &GlobalBranches, frontier: Seq<u16>) -> bool {
    &&& frontier.len() == g.fast_map_size_data.used_branch_map_size
    &&& is_frontier(frontier)
    &&& forall|b: usize| #[trigger]
        best_matched(g, frontier).contains(b) ==> is_non_term(g.branch_type_dict@, b)
}

/// Tells whether what the target reports of the branches makes sense.
pub fn check_report(global: &GlobalBranches, frontier: &[u16]) -> (r: bool)
    requires
        global.tables_wf(),
    ensures
        r == report_fits(global, frontier@),
{
    let size: usize = global.fast_map_size_data.used_branch_map_size;
    if frontier.len() != size {
        return false;
    }
    let ghost f = frontier_of(global, frontier@);
    let ghost types = global.branch_type_dict@;
    let limit: usize = frontier.len() / 4 * 4;
    let mut id: usize = 0;
    while id < limit
        invariant
            id <= limit <= frontier@.len() == size,
            limit == whole_quads(frontier@.len() as int),
            size == global.fast_map_size_data.used_branch_map_size,
            global.tables_wf(),
            f == frontier_of(global, frontier@),
            types == global.branch_type_dict@,
            forall|i: int|
                0 <= i < id && #[trigger] frontier@[i] > 0 ==> match_of(frontier@[i]) > 0
                    && frontier@[i] / 1024 > 0,
            forall|b: usize|
                b < id && f.wins(b as int) && match_of(frontier@[b as int]) == BEST_MATCH
                    ==> #[trigger] is_non_term(types, b),
        decreases limit - id,
    {
        let v: u16 = frontier[id];
        if v > 0 {
            if v % 1024 == 0 || v / 1024 == 0 {
                return false;
            }
            let c: usize = global.branch_chunk_of(id);
            proof {
                owner_is(
                    global.branch_start_pos@,
                    global.branch_end_pos@,
                    size as nat,
                    global.n(),
                    c as int,
                    id as int,
                );
                buckets_are_ordered(0, 0, (v / 1024) as u16, 0);
            }
            let l: usize = id - global.branch_start_pos[c];
            let ctx: usize = branch_lookup(v / 1024) as usize - 1;
            if v % 1024 == BEST_MATCH && global.branch_favor_map[c][l][ctx].match_value
                < BEST_MATCH {
                let known = match global.branch_type_dict.get(&id) {
                    Some(t) => t.is_non_term(),
                    None => false,
                };
                if !known {
                    assert(f.wins(id as int));
                    assert(best_matched(global, frontier@).contains(id));
                    return false;
                }
            }
        }
        id = id + 1;
    }
    true
}

/// The counters of branches are far from their limits.
pub open spec fn has_branch_room(g: &GlobalBranches) -> bool {
    &&& g.cov_branches + g.fast_map_size_data.used_branch_map_size <= usize::MAX
    &&& g.reached_branches + g.fast_map_size_data.used_branch_map_size <= usize::MAX
}

impl Branches {
    /// The run's input is stored under an identifier that `view` does not
    /// know yet, or can still be stored.
    pub open spec fn can_store(&self, depot: &Depot) -> bool {
        if self.insert_seed_flag {
            &&& 1 <= self.seed_info.seed_id <= depot.num_inputs
            &&& !depot.branches().favor.contains_key(self.seed_info.seed_id)
            &&& !depot.edges().favor.contains_key(self.seed_info.seed_id)
        } else {
            depot.num_inputs < usize::MAX
        }
    }

    /// The run's input after it was stored, if `store` says so.
    pub open spec fn stored(&self, depot: &Depot, store: bool) -> SeedInfo {
        if store && !self.insert_seed_flag {
            SeedInfo { seed_id: (depot.num_inputs + 1) as usize, ..self.seed_info }
        } else {
            self.seed_info
        }
    }

    /// Notes how close a normal run came to the branches. Returns whether it
    /// came closer to any of them, and how many are covered by it.
    #[verifier::rlimit(40)]
    pub fn check_frontier_branch(
        &mut self,
        global: &mut GlobalBranches,
        depot: &mut Depot,
        frontier: &[u16],
        rng: &mut ThreadRng,
        now: u64,
    ) -> (r: (bool, usize))
        requires
            old(self).wf(old(global)),
            old(global).wf(),
            old(depot).wf(),
            has_branch_room(old(global)),
            old(global).fast_map_size_data.used_branch_map_size % 8 == 0,
            report_fits(old(global), frontier@),
            is_linked(
                old(global).branch_favor_map@,
                old(global).branch_start_pos@,
                old(depot).branches(),
            ),
            old(self).can_store(old(depot)),
            old(self).seed_info.match_value_sum + match_total(
                frontier@,
                whole_quads(frontier@.len() as int),
            ) <= usize::MAX,
        ensures
            ({
                let f = frontier_of(old(global), frontier@);
                let all = all_ids(frontier@.len() as int);
                let any = any_win(f);
                let seed = SeedInfo {
                    match_value_sum: (old(self).seed_info.match_value_sum + match_total(
                        frontier@,
                        whole_quads(frontier@.len() as int),
                    )) as usize,
                    ..old(self).stored(old(depot), any)
                };
                let newly = not_covered(old(global), best_matched(old(global), frontier@));
                &&& r.0 == any
                &&& r.1 == newly.len()
                &&& newly.finite()
                &&& final(self).steps == old(self).steps
                &&& final(self).insert_seed_flag == (old(self).insert_seed_flag || any)
                &&& final(self).seed_info == seed
                &&& final(depot).branches() == old(depot).branches().won(seed, now, f.won(all))
                &&& final(depot).edges() == old(depot).edges()
                &&& final(depot).num_inputs == if any && !old(self).insert_seed_flag {
                    (old(depot).num_inputs + 1) as usize
                } else {
                    old(depot).num_inputs
                }
                &&& final(global).reached_branches == old(global).reached_branches + f.reached(
                    all,
                ).len()
                &&& final(global).cov_branches == old(global).cov_branches + newly.len()
                &&& forall|c: int, l: int, x: int|
                    0 <= c < f.start.len() && 0 <= l < f.end[c] - f.start[c] && 0 <= x < 8
                        ==> #[trigger] final(global).branch_favor_map@[c]@[l]@[x] == f.cell_after(
                        seed,
                        all,
                        c,
                        l,
                        x,
                    )
                &&& forall|c: int, l: int|
                    0 <= c < f.start.len() && 0 <= l < f.end[c] - f.start[c] ==> #[trigger]
                        final(global).branch_mutate_funcs@[c]@[l] == f.func_after(
                        old(global).branch_mutate_funcs@,
                        now,
                        all,
                        c,
                        l,
                    )
                &&& forall|b: usize|
                    b < frontier@.len() ==> (#[trigger] is_covered(
                        final(global).global_branch_cov_map@,
                        b as int,
                    ) <==> is_covered(old(global).global_branch_cov_map@, b as int)
                        || best_matched(old(global), frontier@).contains(b))
                &&& forall|b: int|
                    0 <= b < frontier@.len() ==> (#[trigger] final(global).branch_boundary@[b])@
                        == if newly.contains(b as usize) {
                        Seq::<usize>::empty()
                    } else {
                        old(global).branch_boundary@[b]@
                    }
            }),
            final(depot).wf(),
            final(depot).num_hangs == old(depot).num_hangs,
            final(depot).num_crashes == old(depot).num_crashes,
            final(depot).dirs == old(depot).dirs,
            final(depot).extras_data == old(depot).extras_data,
            final(depot).queue_rewards == old(depot).queue_rewards,
            final(global).wf(),
            final(global).same_setup(old(global)),
            final(global).same_edges(old(global)),
            final(global).edge_favor_map == old(global).edge_favor_map,
            is_linked(
                final(global).branch_favor_map@,
                final(global).branch_start_pos@,
                final(depot).branches(),
            ),
    {
        let ghost g0 = *global;
        let ghost d0 = *depot;
        let ghost b0 = *self;
        let ghost f = frontier_of(&g0, frontier@);
        let ghost total = frontier@.len() as int;
        let ghost all = all_ids(total);
        self.seed_info.match_value_sum = sum_matches(frontier, self.seed_info.match_value_sum);
        let order: Vec<usize> = self.chunk_order(global, rng);
        let any = improves(
            &global.branch_favor_map,
            frontier,
            &global.branch_start_pos,
            &global.branch_end_pos,
            &order,
        );
        if !any {
            proof {
                winning_nothing(d0.branches(), self.seed_info, now);
                assert(f.won(all) =~= Map::empty());
                assert(f.reached(all) =~= Set::empty());
                assert(f.matched(all) =~= Set::empty());
                assert(not_covered(&g0, best_matched(&g0, frontier@)) =~= Set::empty());
            }
            return (false, 0);
        }
        self.insert_new_seed(StatusType::Normal, depot);
        let seed: SeedInfo = self.seed_info;
        let matched = commit_frontier(
            &mut global.branch_favor_map,
            &mut global.branch_mutate_funcs,
            &mut global.reached_branches,
            depot,
            frontier,
            &global.branch_start_pos,
            &global.branch_end_pos,
            &order,
            seed,
            now,
        );
        let ghost best = best_matched(&g0, frontier@);
        let ghost newly_set = not_covered(&g0, best);
        proof {
            assert forall|i: int| 0 <= i < matched@.len() implies (#[trigger] matched@[i])
                < total && best.contains(matched@[i]) by {
                assert(matched@.contains(matched@[i]));
            }
            assert forall|i: int| 0 <= i < matched@.len() implies (#[trigger] matched@[i]) / 8
                < global.global_branch_cov_map@.len() by {
                assert(matched@[i] < total);
            }
        }
        let newly = cover(&mut global.global_branch_cov_map, &matched);
        proof {
            newly@.unique_seq_to_set();
            assert(newly@.to_set() =~= newly_set) by {
                assert forall|b: usize| newly@.to_set().contains(b) <==> newly_set.contains(b) by {
                    assert(newly@.contains(b) <==> matched@.contains(b) && !is_covered(
                        g0.global_branch_cov_map@,
                        b as int,
                    ));
                    assert(matched@.contains(b) <==> f.matched(all).contains(b));
                }
            }
            assert forall|i: int| 0 <= i < newly@.len() implies (#[trigger] newly@[i])
                < global.branch_boundary@.len() && global.branch_boundary@[newly@[i] as int]@.len()
                <= 1 by {
                assert(newly@.contains(newly@[i]));
                assert(best.contains(newly@[i]));
                assert(g0.boundary_fits(newly@[i] as int));
            }
            lemma_ids_fit(newly_set, total as nat);
        }
        global.cov_branches = global.cov_branches + newly.len();
        clear_marks(&mut global.branch_boundary, &newly);
        proof {
            assert forall|b: usize| #[trigger] newly@.contains(b) == newly_set.contains(b) by {
                assert(newly@.to_set().contains(b) == newly@.contains(b));
            }
            assert forall|b: int| 0 <= b < global.branch_boundary@.len() implies #[trigger]
                global.boundary_fits(b) by {
                assert(g0.boundary_fits(b));
                assert(global.branch_boundary@[b]@ == if newly@.contains(b as usize) {
                    Seq::<usize>::empty()
                } else {
                    g0.branch_boundary@[b]@
                });
            }
            assert forall|c: int, l: int|
                0 <= c < global.n() && 0 <= l < global.full_virgin_branches@[c]@.len() implies
                #[trigger] global.unseen_in_boundary(c, l) by {
                assert(g0.unseen_in_boundary(c, l));
                let e = (g0.full_start_pos@[c] + l) as usize;
                let dict = g0.edge_to_pred_branch_dict@;
                if dict.contains_key(e) {
                    let b = dict[e];
                    assert(edges_of(dict, b).contains(e));
                    if newly@.contains(b) {
                        assert(best.contains(b));
                        assert(is_non_term(g0.branch_type_dict@, b));
                        assert(!(Set::<usize>::empty()).contains(e));
                    }
                    assert(global.branch_boundary@[b as int]@ == g0.branch_boundary@[b as int]@);
                }
            }
            let start = g0.branch_start_pos@;
            let end = g0.branch_end_pos@;
            let cells0 = g0.branch_favor_map@;
            table_shape(start, end, total as nat, start.len());
            assert forall|c: int, l: int, x: int|
                0 <= c < start.len() && 0 <= l < end[c] - start[c] && 0 <= x < 8 implies (
            #[trigger] global.branch_favor_map@[c]@[l]@[x]).seed_id == if f.won(
                all,
            ).contains_key((start[c] + l) as usize) && x == super::frontier::context_of(
                frontier@[start[c] + l],
            ) {
                seed.seed_id
            } else {
                cells0[c]@[l]@[x].seed_id
            } by {
                assert(end[c] <= total);
                assert(global.branch_favor_map@[c]@[l]@[x] == f.cell_after(seed, all, c, l, x));
            }
            assert forall|c: int, l: int|
                0 <= c < start.len() && 0 <= l < end[c] - start[c] && f.won(all).contains_key(
                    (start[c] + l) as usize,
                ) implies 0 <= super::frontier::context_of(frontier@[start[c] + l]) < 8 && f.won(
                all,
            )[(start[c] + l) as usize] == (
            #[trigger] cells0[c]@[l])@[super::frontier::context_of(
                frontier@[start[c] + l],
            )].seed_id by {
                assert(end[c] <= total);
                crate::chunks::owner_is(
                    start,
                    end,
                    total as nat,
                    start.len(),
                    c,
                    start[c] + l,
                );
                let v = frontier@[start[c] + l];
                super::lookup::buckets_are_ordered(0, 0, (v / 1024) as u16, 0);
            }
            winning_keeps_links(
                g0.branch_favor_map@,
                global.branch_favor_map@,
                g0.branch_start_pos@,
                g0.branch_end_pos@,
                total as nat,
                d0.branches(),
                seed,
                now,
                f.won(all),
                |id: int| super::frontier::context_of(frontier@[id]),
            );
        }
        (true, newly.len())
    }
}

} // verus!
