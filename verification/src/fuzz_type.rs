//! The stages of a fuzzing round.

use vstd::prelude::*;

verus! {

/// The stages that statistics are kept for.
#[derive(Clone, Copy, Debug, PartialEq, Eq, Structural)]
pub enum FuzzType {
    AFLFuzz,
    LenFuzz,
    DirectCopyFuzz,
    TaintFuzz,
    Trim,
    ExploitFuzz,
    Sync,
    Default,
}

/// The number of stages; the default is none of them.
pub const FUZZ_TYPE_NUM: usize = 7;

/// The name of a stage.
pub open spec fn fuzz_type_name(i: int) -> Seq<char> {
    if i == 0 {
        "AFL"@
    } else if i == 1 {
        "Len"@
    } else if i == 2 {
        "Direct"@
    } else if i == 3 {
        "Taint"@
    } else if i == 4 {
        "Trim"@
    } else if i == 5 {
        "Exploit"@
    } else {
        "Sync"@
    }
}

/// Returns the name of the stage with index `i`.
pub fn get_fuzz_type_name(i: usize) -> (r: String)
    requires
        i < FUZZ_TYPE_NUM,
    ensures
        r@ == fuzz_type_name(i as int),
{
    let name = if i == 0 {
        "AFL"
    } else if i == 1 {
        "Len"
    } else if i == 2 {
        "Direct"
    } else if i == 3 {
        "Taint"
    } else if i == 4 {
        "Trim"
    } else if i == 5 {
        "Exploit"
    } else {
        "Sync"
    };
    name.to_owned()
}

impl Default for FuzzType {
    fn default() -> (r: Self)
        ensures
            r == FuzzType::Default,
    {
        FuzzType::Default
    }
}

impl FuzzType {
    /// The place of a stage in the statistics.
    pub open spec fn spec_index(self) -> usize {
        match self {
            FuzzType::AFLFuzz => 0,
            FuzzType::LenFuzz => 1,
            FuzzType::DirectCopyFuzz => 2,
            FuzzType::TaintFuzz => 3,
            FuzzType::Trim => 4,
            FuzzType::ExploitFuzz => 5,
            FuzzType::Sync => 6,
            FuzzType::Default => 7,
        }
    }

    pub fn index(&self) -> (r: usize)
        ensures
            r == self.spec_index(),
    {
        match self {
            FuzzType::AFLFuzz => 0,
            FuzzType::LenFuzz => 1,
            FuzzType::DirectCopyFuzz => 2,
            FuzzType::TaintFuzz => 3,
            FuzzType::Trim => 4,
            FuzzType::ExploitFuzz => 5,
            FuzzType::Sync => 6,
            FuzzType::Default => 7,
        }
    }
}

/// Every stage has its own place, and all but the default have statistics.
pub proof fn stages_have_places(a: FuzzType, b: FuzzType)
    ensures
        a.spec_index() == b.spec_index() <==> a == b,
        a.spec_index() < FUZZ_TYPE_NUM <==> a != FuzzType::Default,
{
}


/// The place of a stage tells its name.
pub proof fn stages_are_named(stage: FuzzType)
    ensures
        ({
            let name = fuzz_type_name(stage.spec_index() as int);
            match stage {
                FuzzType::AFLFuzz => name == seq!['A', 'F', 'L'],
                FuzzType::LenFuzz => name == seq!['L', 'e', 'n'],
                FuzzType::DirectCopyFuzz => name == seq!['D', 'i', 'r', 'e', 'c', 't'],
                FuzzType::TaintFuzz => name == seq!['T', 'a', 'i', 'n', 't'],
                FuzzType::Trim => name == seq!['T', 'r', 'i', 'm'],
                FuzzType::ExploitFuzz => name == seq!['E', 'x', 'p', 'l', 'o', 'i', 't'],
                FuzzType::Sync => name == seq!['S', 'y', 'n', 'c'],
                FuzzType::Default => true,
            }
        }),
{
    reveal_strlit("AFL");
    reveal_strlit("Len");
    reveal_strlit("Direct");
    reveal_strlit("Taint");
    reveal_strlit("Trim");
    reveal_strlit("Exploit");
    reveal_strlit("Sync");
}

} // verus!
