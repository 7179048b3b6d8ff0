//! What is known of each branch's mutation function.

use super::global::GlobalBranches;
use crate::chunks::{owner, owner_exists, owner_is};
use crate::mutate_func::BranchMutateInfo;
use vstd::prelude::*;

verus! {

impl GlobalBranches {
    /// What is known of branch `b`.
    pub open spec fn info(&self, b: int) -> BranchMutateInfo {
        let c = owner(self.branch_start_pos@, self.branch_end_pos@, b);
        self.branch_mutate_funcs@[c]@[b - self.branch_start_pos@[c]]
    }

    /// All is the same but what is known of the branches' functions.
    pub open spec fn same_but_functions(&self, other: &GlobalBranches) -> bool {
        &&& self.same_setup(other)
        &&& self.same_edges(other)
        &&& self.edge_favor_map == other.edge_favor_map
        &&& self.branch_favor_map == other.branch_favor_map
        &&& self.reached_branches == other.reached_branches
        &&& self.global_branch_cov_map == other.global_branch_cov_map
        &&& self.cov_branches == other.cov_branches
        &&& self.branch_boundary == other.branch_boundary
    }

    /// All is the same but what is known of branch `b`.
    pub open spec fn same_but(&self, other: &GlobalBranches, b: int) -> bool {
        &&& self.same_but_functions(other)
        &&& forall|d: int|
            0 <= d < self.branch_boundary@.len() && d != b ==> #[trigger] self.info(d)
                == other.info(d)
    }

    /// What is known of a branch.
    pub fn get_info(&self, branch_id: usize) -> (r: BranchMutateInfo)
        requires
            self.tables_wf(),
            branch_id < self.branch_boundary@.len(),
        ensures
            r == self.info(branch_id as int),
    {
        let c: usize = self.branch_chunk_of(branch_id);
        proof {
            owner_is(
                self.branch_start_pos@,
                self.branch_end_pos@,
                self.fast_map_size_data.used_branch_map_size as nat,
                self.n(),
                c as int,
                branch_id as int,
            );
        }
        let l: usize = branch_id - self.branch_start_pos[c];
        self.branch_mutate_funcs[c][l]
    }

    /// Notes what is known of a branch.
    pub fn set_info(&mut self, branch_id: usize, info: BranchMutateInfo)
        requires
            old(self).wf(),
            branch_id < old(self).branch_boundary@.len(),
        ensures
            final(self).wf(),
            final(self).same_but(old(self), branch_id as int),
            final(self).info(branch_id as int) == info,
    {
        let c: usize = self.branch_chunk_of(branch_id);
        let ghost total = self.fast_map_size_data.used_branch_map_size as nat;
        proof {
            owner_is(
                self.branch_start_pos@,
                self.branch_end_pos@,
                total,
                self.n(),
                c as int,
                branch_id as int,
            );
        }
        let l: usize = branch_id - self.branch_start_pos[c];
        self.branch_mutate_funcs[c][l] = info;
        proof {
            assert forall|d: int| 0 <= d < self.branch_boundary@.len() && d != branch_id implies
                #[trigger] self.info(d) == old(self).info(d) by {
                owner_exists(self.branch_start_pos@, self.branch_end_pos@, total, self.n(), d);
            }
            assert forall|b: int| 0 <= b < self.branch_boundary@.len() implies
                #[trigger] self.boundary_fits(b) by {
                assert(old(self).boundary_fits(b));
            }
            assert forall|k: int, m: int|
                0 <= k < self.n() && 0 <= m < self.full_virgin_branches@[k]@.len() implies
                #[trigger] self.unseen_in_boundary(k, m) by {
                assert(old(self).unseen_in_boundary(k, m));
            }
        }
    }

    /// Drops the function of a branch.
    pub fn disable_function(&mut self, branch_id: usize)
        requires
            old(self).wf(),
            branch_id < old(self).branch_boundary@.len(),
        ensures
            final(self).wf(),
            final(self).same_but(old(self), branch_id as int),
            final(self).info(branch_id as int) == (BranchMutateInfo {
                mutate_func: None,
                ..old(self).info(branch_id as int)
            }),
    {
        let mut info: BranchMutateInfo = self.get_info(branch_id);
        info.mutate_func = None;
        self.set_info(branch_id, info);
    }
}

} // verus!
