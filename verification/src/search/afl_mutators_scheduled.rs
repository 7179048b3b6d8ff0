//! The havoc operators in one of the position ranges of an input.

use super::afl::{material, mutates_at, mutates_in};
use super::afl_mutators::{
    arith, change_byte_at, change_number_from, clone_copy_at, clone_fixed_at, flip_bit_at,
    insert_byte_at, insert_token, overwrite_copy, overwrite_fixed, overwrite_splice,
    overwrite_token, place, remove_block, remove_byte_at, shuffle_block, splice_in_at, swap_operands,
    switch_from, write_constant, write_digits, write_interesting, AFLMutator,
};
use super::edits::{flip_at, shift_at};
use super::handler::SearchHandler;
use crate::config::POSITION_NUM;
use crate::extras::{all_wf, ExtraData};
use crate::utils::{choose_start_point, start_points_are_inside};
use rand::rngs::ThreadRng;
use vstd::prelude::*;

verus! {

/// Applies one operator at `at`.
#[verifier::spinoff_prover]
pub fn apply_at(
    mutator: AFLMutator,
    at: usize,
    buf: &mut Vec<u8>,
    handler: &SearchHandler,
    extra_data: &Vec<ExtraData>,
    other: &Vec<u8>,
    rng: &mut ThreadRng,
    tmp_buf: &mut Vec<u8>,
)
    requires
        at < old(buf)@.len() < u32::MAX,
        other@.len() < u32::MAX,
        handler.operands.wf(),
        all_wf(extra_data@),
    ensures
        mutates_at(
            mutator,
            material(*handler, extra_data@),
            other@,
            old(buf)@,
            final(buf)@,
            place(at),
        ),
{
    let operands = &handler.operands;
    assert(operands@.numbers == operands.const_numbers@);
    match mutator {
        AFLMutator::BitFilp => flip_bit_at(buf, at, rng),
        AFLMutator::Int8 => write_interesting(buf, Some(at), rng, 1, false),
        AFLMutator::Int16 => write_interesting(buf, Some(at), rng, 2, false),
        AFLMutator::Int16Be => write_interesting(buf, Some(at), rng, 2, true),
        AFLMutator::Int32 => write_interesting(buf, Some(at), rng, 4, false),
        AFLMutator::Int32Be => write_interesting(buf, Some(at), rng, 4, true),
        AFLMutator::Arith8Sub => arith(buf, Some(at), rng, 1, false, true),
        AFLMutator::Arith8Add => arith(buf, Some(at), rng, 1, false, false),
        AFLMutator::Arith16Sub => arith(buf, Some(at), rng, 2, false, true),
        AFLMutator::Arith16SubBe => arith(buf, Some(at), rng, 2, true, true),
        AFLMutator::Arith16Add => arith(buf, Some(at), rng, 2, false, false),
        AFLMutator::Arith16AddBe => arith(buf, Some(at), rng, 2, true, false),
        AFLMutator::Arith32Add => arith(buf, Some(at), rng, 4, false, false),
        AFLMutator::Arith32AddBe => arith(buf, Some(at), rng, 4, true, false),
        AFLMutator::Arith32Sub => arith(buf, Some(at), rng, 4, false, true),
        AFLMutator::Arith32SubBe => arith(buf, Some(at), rng, 4, true, true),
        AFLMutator::Rand8 => change_byte_at(buf, at, rng),
        AFLMutator::CloneCopy => clone_copy_at(buf, at, rng, tmp_buf),
        AFLMutator::CloneFixed => clone_fixed_at(buf, at, rng, tmp_buf),
        AFLMutator::OverWriteCopy => overwrite_copy(buf, Some(at), rng),
        AFLMutator::OverWriteFixed => overwrite_fixed(buf, Some(at), rng),
        AFLMutator::ByteAdd => shift_at(buf, at, 1, false, 1, false),
        AFLMutator::ByteSub => shift_at(buf, at, 1, false, 1, true),
        AFLMutator::BitFilp8 => flip_at(buf, at, 0xff),
        AFLMutator::Switch => switch_from(buf, at, rng, tmp_buf),
        AFLMutator::Del => remove_block(buf, Some(at), rng),
        AFLMutator::Shuffle => shuffle_block(buf, Some(at), rng),
        AFLMutator::DelOne => remove_byte_at(buf, at),
        AFLMutator::InsertOne => insert_byte_at(buf, at, rng),
        AFLMutator::AsciiNum => change_number_from(buf, at, rng, tmp_buf),
        AFLMutator::InsertAsciiNum => write_digits(buf, Some(at), rng),
        AFLMutator::SpliceOverwrite => overwrite_splice(buf, Some(at), other, rng),
        AFLMutator::SpliceInsert => splice_in_at(buf, at, other, rng, tmp_buf),
        AFLMutator::TraceCmpData => {
            swap_operands(buf, Some(at), &operands.direct_copy_pairs, rng)
        },
        AFLMutator::ExtraInsert => insert_token(buf, Some(at), extra_data, rng),
        AFLMutator::ExtraOverwrite => overwrite_token(buf, Some(at), extra_data, rng),
        AFLMutator::ConstCmpData => {
            write_constant(buf, Some(at), &operands.const_numbers, false, rng)
        },
        AFLMutator::ConstCmpDataBe => {
            write_constant(buf, Some(at), &operands.const_numbers, true, rng)
        },
        AFLMutator::ConstStrcmpInsert => {
            insert_token(buf, Some(at), &operands.const_strings, rng)
        },
        AFLMutator::ConstStrcmpOverwrite => {
            overwrite_token(buf, Some(at), &operands.const_strings, rng)
        },
    }
}

/// Applies one operator somewhere in a position range of the input.
pub fn apply_scheduled(
    mutator: AFLMutator,
    position: usize,
    buf: &mut Vec<u8>,
    handler: &SearchHandler,
    extra_data: &Vec<ExtraData>,
    other: &Vec<u8>,
    rng: &mut ThreadRng,
    tmp_buf: &mut Vec<u8>,
)
    requires
        position < POSITION_NUM,
        0 < old(buf)@.len() < u32::MAX,
        other@.len() < u32::MAX,
        handler.operands.wf(),
        all_wf(extra_data@),
    ensures
        mutates_in(
            mutator,
            material(*handler, extra_data@),
            other@,
            old(buf)@,
            final(buf)@,
            position as int,
        ),
{
    proof {
        start_points_are_inside(buf@.len(), position as nat);
    }
    let at: usize = choose_start_point(buf.len(), position, rng);
    apply_at(mutator, at, buf, handler, extra_data, other, rng, tmp_buf);
}

} // verus!
