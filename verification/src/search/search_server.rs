//! The order of the stages.

use super::afl::{all_operators, AFLFuzz};
use super::handler::SearchHandler;
use super::taint::TaintFuzz;
use crate::fuzz_type::FuzzType;
use vstd::prelude::*;

verus! {

/// The stages of the work on a seed.
#[derive(Debug)]
pub struct SearchServer {
    pub afl: AFLFuzz,
    pub taint: TaintFuzz,
}

/// The stage behind `stage`.
pub open spec fn stage_after(stage: Option<FuzzType>) -> Option<FuzzType> {
    match stage {
        None => Some(FuzzType::ExploitFuzz),
        Some(FuzzType::ExploitFuzz) => Some(FuzzType::TaintFuzz),
        Some(FuzzType::TaintFuzz) => Some(FuzzType::LenFuzz),
        Some(FuzzType::LenFuzz) => Some(FuzzType::DirectCopyFuzz),
        Some(FuzzType::DirectCopyFuzz) => Some(FuzzType::AFLFuzz),
        _ => None,
    }
}

impl SearchServer {
    pub fn new(scheduled_mutation: bool, havoc_div: usize, use_llm: bool) -> (r: Self)
        requires
            havoc_div > 0,
        ensures
            r.afl.wf(),
            r.afl.scheduled_mutation == scheduled_mutation,
            r.afl.havoc_div == havoc_div,
            r.taint.havoc_div == havoc_div,
            r.taint.use_llm == use_llm,
            r.afl.mutators@ == all_operators(),
    {
        SearchServer {
            afl: AFLFuzz::new(scheduled_mutation, havoc_div),
            taint: TaintFuzz::new(havoc_div, use_llm),
        }
    }

    /// The stage to run behind `stage`, or the first one. An empty seed is
    /// left alone.
    pub fn mutate(&self, handler: &SearchHandler, stage: Option<FuzzType>) -> (r: Option<FuzzType>)
        ensures
            r == if handler.buf@.len() == 0 {
                None
            } else {
                stage_after(stage)
            },
    {
        if handler.buf.len() == 0 {
            return None;
        }
        match stage {
            None => Some(FuzzType::ExploitFuzz),
            Some(FuzzType::ExploitFuzz) => Some(FuzzType::TaintFuzz),
            Some(FuzzType::TaintFuzz) => Some(FuzzType::LenFuzz),
            Some(FuzzType::LenFuzz) => Some(FuzzType::DirectCopyFuzz),
            Some(FuzzType::DirectCopyFuzz) => Some(FuzzType::AFLFuzz),
            _ => None,
        }
    }
}


/// The five stages come one after the other, each of them once: first the
/// calls that are attacked, then the operands that were recorded, the lengths,
/// what is copied directly, and at last the stacked operators.
pub proof fn stages_come_one_after_the_other(stage: FuzzType)
    ensures
        ({
            let order = seq![
                FuzzType::ExploitFuzz,
                FuzzType::TaintFuzz,
                FuzzType::LenFuzz,
                FuzzType::DirectCopyFuzz,
                FuzzType::AFLFuzz,
            ];
            &&& stage_after(None) == Some(order[0])
            &&& forall|i: int|
                0 <= i < 4 ==> stage_after(Some(#[trigger] order[i])) == Some(order[i + 1])
            &&& stage_after(Some(stage)) is None <==> forall|i: int|
                0 <= i < 4 ==> stage != #[trigger] order[i]
        }),
{
    let order = seq![
        FuzzType::ExploitFuzz,
        FuzzType::TaintFuzz,
        FuzzType::LenFuzz,
        FuzzType::DirectCopyFuzz,
        FuzzType::AFLFuzz,
    ];
    assert(order[0] == FuzzType::ExploitFuzz && order[1] == FuzzType::TaintFuzz && order[2]
        == FuzzType::LenFuzz && order[3] == FuzzType::DirectCopyFuzz);
}

} // verus!
