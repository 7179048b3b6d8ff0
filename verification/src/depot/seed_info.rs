//! What is kept of a seed.

use vstd::prelude::*;

verus! {

/// What is remembered of a seed.
#[derive(Clone, Copy, Debug)]
pub struct SeedInfo {
    pub seed_id: usize,
    pub edge_num: usize,
    pub exec_time_us: usize,
    pub len: usize,
    pub match_value: u16,
    pub match_value_sum: usize,
    pub run_ratio: usize,
}

impl SeedInfo {
    pub fn new(seed_id: usize, edge_num: usize) -> (r: Self)
        ensures
            r == (SeedInfo { seed_id, edge_num, ..SeedInfo::spec_default() }),
    {
        SeedInfo {
            seed_id,
            edge_num,
            exec_time_us: 0,
            len: 0,
            match_value: 0,
            match_value_sum: 1,
            run_ratio: 0,
        }
    }

    /// The seed information of a cell that no seed has claimed yet.
    pub open spec fn spec_default() -> SeedInfo {
        SeedInfo {
            seed_id: 0,
            edge_num: 0,
            exec_time_us: 0,
            len: 0,
            match_value: 0,
            match_value_sum: 1,
            run_ratio: 0,
        }
    }
}

impl Default for SeedInfo {
    fn default() -> (r: Self)
        ensures
            r == SeedInfo::spec_default(),
    {
        SeedInfo::new(0, 0)
    }
}

/// Seeds are told apart by their identifier alone.
impl PartialEq for SeedInfo {
    fn eq(&self, other: &Self) -> (r: bool) {
        self.seed_id == other.seed_id
    }
}

impl vstd::std_specs::cmp::PartialEqSpecImpl for SeedInfo {
    open spec fn obeys_eq_spec() -> bool {
        true
    }

    open spec fn eq_spec(&self, other: &Self) -> bool {
        self.seed_id == other.seed_id
    }
}

impl Eq for SeedInfo {

}


/// Two seeds are the same if and only if they have the same identifier, and
/// nothing is known of a cell without a seed but the least sum of matches.
pub proof fn identifiers_tell_seeds_apart(a: SeedInfo, b: SeedInfo)
    ensures
        vstd::std_specs::cmp::PartialEqSpec::eq_spec(&a, &b) <==> a.seed_id == b.seed_id,
        ({
            let none = SeedInfo::spec_default();
            &&& none.seed_id == 0 && none.edge_num == 0 && none.exec_time_us == 0
            &&& none.len == 0 && none.match_value == 0 && none.run_ratio == 0
            &&& none.match_value_sum == 1
        }),
{
}

} // verus!
