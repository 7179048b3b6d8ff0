//! What is known of a branch and its generated mutation function.

use vstd::prelude::*;

verus! {

/// What is known of a branch and its generated mutation function.
///
/// The function itself is code that was loaded from a shared object; here it
/// is known by the number under which it was loaded.
#[derive(Debug, Clone, Copy, PartialEq, Eq, Structural)]
pub struct BranchMutateInfo {
    pub mutate_func: Option<usize>,
    pub is_covered: bool,
    /// When a seed first came close to the branch, in seconds; zero if never.
    pub reach_time: usize,
    /// How often a function was asked for.
    pub retry_count: usize,
}

impl BranchMutateInfo {
    pub open spec fn spec_default() -> BranchMutateInfo {
        BranchMutateInfo { mutate_func: None, is_covered: false, reach_time: 0, retry_count: 0 }
    }
}

impl Default for BranchMutateInfo {
    fn default() -> (r: Self)
        ensures
            r == BranchMutateInfo::spec_default(),
    {
        BranchMutateInfo { mutate_func: None, is_covered: false, reach_time: 0, retry_count: 0 }
    }
}


/// Of a branch that no seed came close to nothing is known: it was not reached,
/// is not covered, has no function, and none was asked for.
pub proof fn nothing_is_known_of_new_branches()
    ensures
        ({
            let info = BranchMutateInfo::spec_default();
            &&& info.mutate_func is None
            &&& !info.is_covered
            &&& info.reach_time == 0
            &&& info.retry_count == 0
        }),
{
}

} // verus!
