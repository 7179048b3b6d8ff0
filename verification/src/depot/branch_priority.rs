//! The rank of a seed: how often it was picked, then how old it is.

use vstd::prelude::*;

verus! {

/// The rank of a seed in a favor queue.
#[derive(Debug, Eq, PartialEq, Structural, Clone, Copy)]
pub struct BranchPriority {
    /// How often the seed was picked.
    pub pri: u64,
    /// When the seed entered the queue.
    pub timestamp: u64,
}

impl BranchPriority {
    pub fn new(timestamp: u64) -> (r: Self)
        ensures
            r == (BranchPriority { pri: 0, timestamp }),
    {
        BranchPriority { pri: 0, timestamp }
    }

    /// The rank after one more pick.
    pub fn branch_inc(&self) -> (r: Self)
        requires
            self.pri < u64::MAX,
        ensures
            r == (BranchPriority { pri: (self.pri + 1) as u64, timestamp: self.timestamp }),
    {
        BranchPriority { pri: self.pri + 1, timestamp: self.timestamp }
    }

    /// Whether a seed of this rank comes before one of rank `other`: it was
    /// picked less often or, picked as often, entered the queue earlier.
    pub open spec fn comes_before(self, other: Self) -> bool {
        self.pri < other.pri || (self.pri == other.pri && self.timestamp < other.timestamp)
    }

    /// The pair whose order is that of the ranks, the front of the queue
    /// being the greatest.
    pub open spec fn spec_key(self) -> (u64, u64) {
        ((u64::MAX - self.pri) as u64, (u64::MAX - self.timestamp) as u64)
    }

    pub fn key(&self) -> (r: (u64, u64))
        ensures
            r == self.spec_key(),
    {
        (u64::MAX - self.pri, u64::MAX - self.timestamp)
    }

    /// The rank behind a pair.
    pub fn from_key(key: (u64, u64)) -> (r: Self)
        ensures
            r.spec_key() == key,
    {
        BranchPriority { pri: u64::MAX - key.0, timestamp: u64::MAX - key.1 }
    }
}

impl Default for BranchPriority {
    fn default() -> (r: Self)
        ensures
            r == (BranchPriority { pri: 0, timestamp: 0 }),
    {
        BranchPriority { pri: 0, timestamp: 0 }
    }
}

/// No two ranks come before one another, and only equal ranks are level: the
/// queue has one front rank.
pub proof fn ranks_are_ordered(a: BranchPriority, b: BranchPriority, c: BranchPriority)
    ensures
        !(a.comes_before(b) && b.comes_before(a)),
        a.comes_before(b) || b.comes_before(a) || a == b,
        a.comes_before(b) && b.comes_before(c) ==> a.comes_before(c),
{
}

impl PartialOrd for BranchPriority {
    /// Greater means nearer to the front of the queue.
    fn partial_cmp(&self, other: &Self) -> (r: Option<core::cmp::Ordering>) {
        if self.pri < other.pri {
            Some(core::cmp::Ordering::Greater)
        } else if self.pri > other.pri {
            Some(core::cmp::Ordering::Less)
        } else if self.timestamp < other.timestamp {
            Some(core::cmp::Ordering::Greater)
        } else if self.timestamp > other.timestamp {
            Some(core::cmp::Ordering::Less)
        } else {
            Some(core::cmp::Ordering::Equal)
        }
    }
}

impl vstd::std_specs::cmp::PartialOrdSpecImpl for BranchPriority {
    open spec fn obeys_partial_cmp_spec() -> bool {
        true
    }

    open spec fn partial_cmp_spec(&self, other: &Self) -> Option<core::cmp::Ordering> {
        if self.comes_before(*other) {
            Some(core::cmp::Ordering::Greater)
        } else if other.comes_before(*self) {
            Some(core::cmp::Ordering::Less)
        } else {
            Some(core::cmp::Ordering::Equal)
        }
    }
}


/// Greater means nearer to the front: picked less often or, picked as often,
/// there for longer. The pairs that stand for ranks are ordered in the same
/// way, and each stands for one rank.
pub proof fn greater_ranks_are_nearer_to_the_front(a: BranchPriority, b: BranchPriority)
    ensures
        ({
            let nearer = a.pri < b.pri || (a.pri == b.pri && a.timestamp < b.timestamp);
            let (x, y) = (a.spec_key(), b.spec_key());
            &&& vstd::std_specs::cmp::PartialOrdSpec::partial_cmp_spec(&a, &b) == Some(
                core::cmp::Ordering::Greater,
            ) <==> nearer
            &&& vstd::std_specs::cmp::PartialOrdSpec::partial_cmp_spec(&a, &b) == Some(
                core::cmp::Ordering::Equal,
            ) <==> a == b
            &&& (x.0 > y.0 || (x.0 == y.0 && x.1 > y.1)) <==> nearer
            &&& x == y <==> a == b
        }),
{
}

} // verus!
