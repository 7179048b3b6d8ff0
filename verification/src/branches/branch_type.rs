//! The kinds of branches.

use vstd::prelude::*;

verus! {

/// What a branch compares, as the instrumentation reports it.
#[derive(PartialEq, Eq, Debug, Clone, Copy, Structural)]
pub enum BranchType {
    /// Integer comparison.
    Cmp,
    /// Integer comparison with one constant operand.
    ConstCmp,
    /// A case of a switch statement.
    Switch,
    /// Floating-point comparison.
    FCmp,
    /// String or memory comparison.
    Strcmp,
    /// Comparison with a string literal.
    ConstStrcmp,
    /// Comparison of strings that need not end in a zero byte.
    StrcmpNonTerm,
    /// The same, with a string literal.
    ConstStrcmpNonTerm,
    /// Comparison of a returned value; not used at run time.
    RtnFunction,
}

impl BranchType {
    /// Comparisons that count as covered once they report the best match.
    pub open spec fn spec_is_non_term(self) -> bool {
        self == BranchType::StrcmpNonTerm || self == BranchType::ConstStrcmpNonTerm
    }

    pub fn is_non_term(&self) -> (r: bool)
        ensures
            r == self.spec_is_non_term(),
    {
        match self {
            BranchType::StrcmpNonTerm => true,
            BranchType::ConstStrcmpNonTerm => true,
            _ => false,
        }
    }

    /// The trace target records numbers for the branch.
    pub open spec fn spec_has_numbers(self) -> bool {
        self == BranchType::Cmp || self == BranchType::ConstCmp || self == BranchType::Switch
    }

    pub fn has_numbers(&self) -> (r: bool)
        ensures
            r == self.spec_has_numbers(),
    {
        match self {
            BranchType::Cmp => true,
            BranchType::ConstCmp => true,
            BranchType::Switch => true,
            _ => false,
        }
    }

    /// The first number is a constant.
    pub open spec fn spec_has_const(self) -> bool {
        self == BranchType::ConstCmp || self == BranchType::Switch
    }

    pub fn has_const(&self) -> (r: bool)
        ensures
            r == self.spec_has_const(),
    {
        match self {
            BranchType::ConstCmp => true,
            BranchType::Switch => true,
            _ => false,
        }
    }

    /// The first string is worth trying elsewhere.
    pub open spec fn spec_keeps_first(self) -> bool {
        self == BranchType::ConstStrcmp || self == BranchType::ConstStrcmpNonTerm
            || self.spec_keeps_second()
    }

    pub fn keeps_first(&self) -> (r: bool)
        ensures
            r == self.spec_keeps_first(),
    {
        match self {
            BranchType::ConstStrcmp => true,
            BranchType::ConstStrcmpNonTerm => true,
            _ => self.keeps_second(),
        }
    }

    /// The second string is worth trying elsewhere too.
    pub open spec fn spec_keeps_second(self) -> bool {
        self == BranchType::Strcmp || self == BranchType::StrcmpNonTerm
    }

    pub fn keeps_second(&self) -> (r: bool)
        ensures
            r == self.spec_keeps_second(),
    {
        match self {
            BranchType::Strcmp => true,
            BranchType::StrcmpNonTerm => true,
            _ => false,
        }
    }

    /// The tag that stands for the type in the section tables.
    pub open spec fn of_tag(tag: u64) -> Option<BranchType> {
        if tag == 1 {
            Some(BranchType::Cmp)
        } else if tag == 2 {
            Some(BranchType::ConstCmp)
        } else if tag == 3 {
            Some(BranchType::Switch)
        } else if tag == 4 {
            Some(BranchType::FCmp)
        } else if tag == 5 {
            Some(BranchType::Strcmp)
        } else if tag == 6 {
            Some(BranchType::ConstStrcmp)
        } else if tag == 7 {
            Some(BranchType::StrcmpNonTerm)
        } else if tag == 8 {
            Some(BranchType::ConstStrcmpNonTerm)
        } else if tag == 9 {
            Some(BranchType::RtnFunction)
        } else {
            None
        }
    }

    /// Reads a tag of a section table.
    pub fn from_tag(tag: u64) -> (r: Option<BranchType>)
        ensures
            r == BranchType::of_tag(tag),
    {
        match tag {
            1 => Some(BranchType::Cmp),
            2 => Some(BranchType::ConstCmp),
            3 => Some(BranchType::Switch),
            4 => Some(BranchType::FCmp),
            5 => Some(BranchType::Strcmp),
            6 => Some(BranchType::ConstStrcmp),
            7 => Some(BranchType::StrcmpNonTerm),
            8 => Some(BranchType::ConstStrcmpNonTerm),
            9 => Some(BranchType::RtnFunction),
            _ => None,
        }
    }
}


/// Numbers are recorded of comparisons of integers, with a constant first if
/// one operand is constant or a case is tested. Strings are kept of comparisons
/// of strings: of those with a literal the first alone, of others both. Those
/// that need no end count as covered at the best match.
pub proof fn types_tell_what_is_recorded(t: BranchType)
    ensures
        ({
            let ints = t == BranchType::Cmp || t == BranchType::ConstCmp || t
                == BranchType::Switch;
            let literal = t == BranchType::ConstStrcmp || t == BranchType::ConstStrcmpNonTerm;
            let ended = t == BranchType::Strcmp || t == BranchType::ConstStrcmp;
            let strings = literal || ended || t == BranchType::StrcmpNonTerm;
            &&& t.spec_has_numbers() <==> ints
            &&& t.spec_has_const() <==> ints && t != BranchType::Cmp
            &&& t.spec_keeps_first() <==> strings
            &&& t.spec_keeps_second() <==> strings && !literal
            &&& t.spec_is_non_term() <==> strings && !ended
        }),
{
}

} // verus!
