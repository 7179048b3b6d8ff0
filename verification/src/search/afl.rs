//! The havoc stage: stacks of random operators on a seed, and on its splices
//! with other seeds.

use super::afl_mutators::{
    arith_done, bit_flipped, block_cloned, block_copied_over, block_filled, block_filled_in,
    block_removed, block_shuffled, blocks_switched, byte_added, byte_changed, byte_flipped,
    byte_inserted, byte_removed, constant_written, made_interesting, mut_arith16_add,
    mut_arith16_add_be, mut_arith16_sub, mut_arith16_sub_be, mut_arith32_add, mut_arith32_add_be,
    mut_arith32_sub, mut_arith32_sub_be, mut_arith8_add, mut_arith8_sub, mut_ascii_num,
    mut_bitflip, mut_bitflip8, mut_byte_add, mut_byte_sub, mut_clone_copy, mut_clone_fixed,
    mut_const_cmp_data, mut_const_cmp_data_be, mut_const_strcmp_insert,
    mut_const_strcmp_overwrite, mut_del, mut_del_one, mut_extra_insert, mut_extra_overwrite,
    mut_insert_ascii_num, mut_insert_one, mut_interesting16, mut_interesting16_be,
    mut_interesting32, mut_interesting32_be, mut_interesting8, mut_overwrite_copy,
    mut_overwrite_fixed, mut_rand8, mut_shuffle, mut_splice_insert, mut_splice_overwrite,
    mut_switch, mut_trace_cmp_data, number_changed, number_written, operand_replaced,
    splice_overwritten, splice_put_in, token_inserted, token_overwritten, AFLMutator,
};
use super::afl_mutators::{
    complement, fitted, interesting, is_block_len, longer, operand_replaced_from, swaps_are_short,
};
use super::afl_mutators_scheduled::apply_scheduled;
use super::ascii::{changed_numbers_are_short, with_changed_number};
use super::edits::{
    encodings_have_width, modulus, number_at, picks_fit, shifted, shuffled, shuffles_keep_bytes,
    with_number,
};
use super::handler::{Found, SearchHandler};
use crate::config::{
    ARITH_MAX, HAVOC_MAX_MULT, HAVOC_STACK_POW2, MAX_HAVOC_TIMES, MAX_INPUT_LEN, MAX_SPLICE_CYCLES,
    MAX_SPLICE_TIMES, POSITION_NUM,
};
use crate::extras::{all_wf, tokens, ExtraData};
use crate::rng::{below, random_usize};
use crate::utils::start_point_range;
use rand::rngs::ThreadRng;
use vstd::prelude::*;

verus! {

/// What the operators can put into an input.
pub ghost struct Material {
    /// Operands that were compared with each other.
    pub pairs: Seq<(Seq<u8>, Seq<u8>)>,
    /// Constants, with their lengths.
    pub numbers: Seq<(u64, usize)>,
    /// Strings that the target compared with.
    pub strings: Seq<Seq<u8>>,
    /// The dictionary.
    pub extras: Seq<Seq<u8>>,
}

impl Material {
    /// The operands have the lengths that a trace gives.
    pub open spec fn is_sized(self) -> bool {
        forall|i: int|
            #![trigger self.pairs[i]]
            0 <= i < self.pairs.len() ==> 1 <= self.pairs[i].0.len() <= 32 && 1
                <= self.pairs[i].1.len() <= 32
    }
}

/// What there is for the work on a seed.
pub open spec fn material(handler: SearchHandler, extra_data: Seq<ExtraData>) -> Material {
    Material {
        pairs: handler.operands@.pairs,
        numbers: handler.operands@.numbers,
        strings: handler.operands@.strings,
        extras: tokens(extra_data),
    }
}

/// The operator, set to work at `at`, can turn `s` into `r`. If its bytes do
/// not fit in there, it works as far before as they need.
pub open spec fn mutates_at(
    m: AFLMutator,
    material: Material,
    other: Seq<u8>,
    s: Seq<u8>,
    r: Seq<u8>,
    at: int,
) -> bool {
    match m {
        AFLMutator::BitFilp => bit_flipped(s, r, at),
        AFLMutator::Int8 => made_interesting(s, r, 1, false, at),
        AFLMutator::Int16 => made_interesting(s, r, 2, false, at),
        AFLMutator::Int16Be => made_interesting(s, r, 2, true, at),
        AFLMutator::Int32 => made_interesting(s, r, 4, false, at),
        AFLMutator::Int32Be => made_interesting(s, r, 4, true, at),
        AFLMutator::Arith8Sub => arith_done(s, r, 1, false, true, at),
        AFLMutator::Arith8Add => arith_done(s, r, 1, false, false, at),
        AFLMutator::Arith16Sub => arith_done(s, r, 2, false, true, at),
        AFLMutator::Arith16SubBe => arith_done(s, r, 2, true, true, at),
        AFLMutator::Arith16Add => arith_done(s, r, 2, false, false, at),
        AFLMutator::Arith16AddBe => arith_done(s, r, 2, true, false, at),
        AFLMutator::Arith32Add => arith_done(s, r, 4, false, false, at),
        AFLMutator::Arith32AddBe => arith_done(s, r, 4, true, false, at),
        AFLMutator::Arith32Sub => arith_done(s, r, 4, false, true, at),
        AFLMutator::Arith32SubBe => arith_done(s, r, 4, true, true, at),
        AFLMutator::Rand8 => byte_changed(s, r, at),
        AFLMutator::CloneCopy => block_cloned(s, r, at),
        AFLMutator::CloneFixed => block_filled_in(s, r, at),
        AFLMutator::OverWriteCopy => block_copied_over(s, r, at),
        AFLMutator::OverWriteFixed => block_filled(s, r, at),
        AFLMutator::ByteAdd => byte_added(s, r, 1, at),
        AFLMutator::ByteSub => byte_added(s, r, -1, at),
        AFLMutator::BitFilp8 => byte_flipped(s, r, at),
        AFLMutator::Switch => blocks_switched(s, r, at),
        AFLMutator::Del => block_removed(s, r, at),
        AFLMutator::Shuffle => block_shuffled(s, r, at),
        AFLMutator::DelOne => byte_removed(s, r, at),
        AFLMutator::InsertOne => byte_inserted(s, r, at),
        AFLMutator::AsciiNum => number_changed(s, r, at),
        AFLMutator::InsertAsciiNum => number_written(s, r, at),
        AFLMutator::SpliceOverwrite => splice_overwritten(s, r, other, at),
        AFLMutator::SpliceInsert => splice_put_in(s, r, other, at),
        AFLMutator::ExtraInsert => token_inserted(s, r, material.extras, at),
        AFLMutator::ExtraOverwrite => token_overwritten(s, r, material.extras, at),
        AFLMutator::TraceCmpData => operand_replaced(s, r, material.pairs, at),
        AFLMutator::ConstStrcmpInsert => token_inserted(s, r, material.strings, at),
        AFLMutator::ConstStrcmpOverwrite => token_overwritten(s, r, material.strings, at),
        AFLMutator::ConstCmpDataBe => constant_written(s, r, material.numbers, true, at),
        AFLMutator::ConstCmpData => constant_written(s, r, material.numbers, false, at),
    }
}

/// The operator, wherever it works, can turn `s` into `r`.
pub open spec fn mutates(
    m: AFLMutator,
    material: Material,
    other: Seq<u8>,
    s: Seq<u8>,
    r: Seq<u8>,
) -> bool {
    exists|at: int| #[trigger] mutates_at(m, material, other, s, r, at)
}

/// The operator, working in one of the position ranges of the input, can turn
/// `s` into `r`.
pub open spec fn mutates_in(
    m: AFLMutator,
    material: Material,
    other: Seq<u8>,
    s: Seq<u8>,
    r: Seq<u8>,
    position: int,
) -> bool {
    exists|at: int|
        start_point_range(s.len() as int, position).0 <= at < start_point_range(
            s.len() as int,
            position,
        ).1 && #[trigger] mutates_at(m, material, other, s, r, at)
}

/// The operator can turn `s` into `r`: in the position range that is given, or
/// anywhere.
pub open spec fn mutates_by(
    m: AFLMutator,
    position: Option<usize>,
    material: Material,
    other: Seq<u8>,
    s: Seq<u8>,
    r: Seq<u8>,
) -> bool {
    match position {
        Some(p) => mutates_in(m, material, other, s, r, p as int),
        None => mutates(m, material, other, s, r),
    }
}

/// The operator takes a block of another input.
pub open spec fn takes_splice(m: AFLMutator) -> bool {
    m == AFLMutator::SpliceOverwrite || m == AFLMutator::SpliceInsert
}

/// Tells whether the operator takes a block of another input.
pub fn needs_splice(m: AFLMutator) -> (r: bool)
    ensures
        r == takes_splice(m),
{
    m == AFLMutator::SpliceOverwrite || m == AFLMutator::SpliceInsert
}

/// All operators, in the order in which they are numbered.
pub open spec fn all_operators() -> Seq<AFLMutator> {
    seq![
        AFLMutator::BitFilp,
        AFLMutator::Int8,
        AFLMutator::Int16,
        AFLMutator::Int16Be,
        AFLMutator::Int32,
        AFLMutator::Int32Be,
        AFLMutator::Arith8Sub,
        AFLMutator::Arith8Add,
        AFLMutator::Arith16Sub,
        AFLMutator::Arith16SubBe,
        AFLMutator::Arith16Add,
        AFLMutator::Arith16AddBe,
        AFLMutator::Arith32Add,
        AFLMutator::Arith32AddBe,
        AFLMutator::Arith32Sub,
        AFLMutator::Arith32SubBe,
        AFLMutator::Rand8,
        AFLMutator::CloneCopy,
        AFLMutator::CloneFixed,
        AFLMutator::OverWriteCopy,
        AFLMutator::OverWriteFixed,
        AFLMutator::ByteAdd,
        AFLMutator::ByteSub,
        AFLMutator::BitFilp8,
        AFLMutator::Switch,
        AFLMutator::Del,
        AFLMutator::Shuffle,
        AFLMutator::DelOne,
        AFLMutator::InsertOne,
        AFLMutator::AsciiNum,
        AFLMutator::InsertAsciiNum,
        AFLMutator::SpliceOverwrite,
        AFLMutator::SpliceInsert,
        AFLMutator::TraceCmpData,
        AFLMutator::ExtraInsert,
        AFLMutator::ExtraOverwrite,
        AFLMutator::ConstStrcmpInsert,
        AFLMutator::ConstStrcmpOverwrite,
        AFLMutator::ConstCmpDataBe,
        AFLMutator::ConstCmpData,
    ]
}

/// Every operator has a number.
pub proof fn operators_are_all_there(m: AFLMutator)
    ensures
        all_operators().contains(m),
        all_operators().len() == 40,
{
    let s = all_operators();
    assert(s.len() == 40);
    assert(exists|i: int| 0 <= i < s.len() && s[i] == m) by {
        match m {
            AFLMutator::BitFilp => assert(s[0] == m),
            AFLMutator::Int8 => assert(s[1] == m),
            AFLMutator::Int16 => assert(s[2] == m),
            AFLMutator::Int16Be => assert(s[3] == m),
            AFLMutator::Int32 => assert(s[4] == m),
            AFLMutator::Int32Be => assert(s[5] == m),
            AFLMutator::Arith8Sub => assert(s[6] == m),
            AFLMutator::Arith8Add => assert(s[7] == m),
            AFLMutator::Arith16Sub => assert(s[8] == m),
            AFLMutator::Arith16SubBe => assert(s[9] == m),
            AFLMutator::Arith16Add => assert(s[10] == m),
            AFLMutator::Arith16AddBe => assert(s[11] == m),
            AFLMutator::Arith32Add => assert(s[12] == m),
            AFLMutator::Arith32AddBe => assert(s[13] == m),
            AFLMutator::Arith32Sub => assert(s[14] == m),
            AFLMutator::Arith32SubBe => assert(s[15] == m),
            AFLMutator::Rand8 => assert(s[16] == m),
            AFLMutator::CloneCopy => assert(s[17] == m),
            AFLMutator::CloneFixed => assert(s[18] == m),
            AFLMutator::OverWriteCopy => assert(s[19] == m),
            AFLMutator::OverWriteFixed => assert(s[20] == m),
            AFLMutator::ByteAdd => assert(s[21] == m),
            AFLMutator::ByteSub => assert(s[22] == m),
            AFLMutator::BitFilp8 => assert(s[23] == m),
            AFLMutator::Switch => assert(s[24] == m),
            AFLMutator::Del => assert(s[25] == m),
            AFLMutator::Shuffle => assert(s[26] == m),
            AFLMutator::DelOne => assert(s[27] == m),
            AFLMutator::InsertOne => assert(s[28] == m),
            AFLMutator::AsciiNum => assert(s[29] == m),
            AFLMutator::InsertAsciiNum => assert(s[30] == m),
            AFLMutator::SpliceOverwrite => assert(s[31] == m),
            AFLMutator::SpliceInsert => assert(s[32] == m),
            AFLMutator::TraceCmpData => assert(s[33] == m),
            AFLMutator::ExtraInsert => assert(s[34] == m),
            AFLMutator::ExtraOverwrite => assert(s[35] == m),
            AFLMutator::ConstStrcmpInsert => assert(s[36] == m),
            AFLMutator::ConstStrcmpOverwrite => assert(s[37] == m),
            AFLMutator::ConstCmpDataBe => assert(s[38] == m),
            AFLMutator::ConstCmpData => assert(s[39] == m),
        }
    }
}

/// How long an input may get by one operator.
pub open spec fn grown(len: int) -> int {
    if len >= MAX_INPUT_LEN {
        len + 0x1_0000
    } else {
        MAX_INPUT_LEN + 0x1_0000
    }
}

proof fn lemma_interesting_keeps_len(s: Seq<u8>, r: Seq<u8>, width: int, big: bool, at: int)
    requires
        made_interesting(s, r, width, big, at),
        0 <= width,
    ensures
        r.len() == s.len(),
{
    if s.len() >= width {
        let pos = fitted(at, s.len() as int, width);
        let i = choose|i: int|
            0 <= i < interesting(width).len() && r == #[trigger] with_number(
                s,
                pos,
                complement(interesting(width)[i]),
                width,
                big,
            );
        encodings_have_width(complement(interesting(width)[i]), width, big);
    }
}

proof fn lemma_arith_keeps_len(s: Seq<u8>, r: Seq<u8>, width: int, big: bool, sub: bool, at: int)
    requires
        arith_done(s, r, width, big, sub, at),
        0 <= width,
    ensures
        r.len() == s.len(),
{
    if s.len() >= width {
        let pos = fitted(at, s.len() as int, width);
        let delta = choose|delta: int|
            1 <= (if sub {
                -delta
            } else {
                delta
            }) <= ARITH_MAX && r == #[trigger] shifted(s, pos, width, big, delta);
        encodings_have_width(
            ((number_at(s, pos, width, big) + delta) % modulus(width)) as u64,
            width,
            big,
        );
    }
}

proof fn lemma_byte_keeps_len(s: Seq<u8>, r: Seq<u8>, delta: int, at: int)
    requires
        byte_added(s, r, delta, at),
    ensures
        r.len() == s.len(),
{
    if s.len() > 0 {
        encodings_have_width(
            ((number_at(s, at, 1, false) + delta) % modulus(1)) as u64,
            1,
            false,
        );
    }
}

proof fn lemma_constant_keeps_len(
    s: Seq<u8>,
    r: Seq<u8>,
    all: Seq<(u64, usize)>,
    big: bool,
    at: int,
)
    requires
        constant_written(s, r, all, big, at),
    ensures
        r.len() == s.len(),
{
    if all.len() > 0 {
        let k = choose|k: int|
            #![trigger all[k]]
            0 <= k < all.len() && (if all[k].1 > s.len() {
                r == s
            } else {
                0 <= at <= s.len() && r == with_number(
                    s,
                    fitted(at, s.len() as int, all[k].1 as int),
                    all[k].0,
                    all[k].1 as int,
                    big,
                )
            });
        encodings_have_width(all[k].0, all[k].1 as int, big);
    }
}

proof fn lemma_shuffles_keep_len(s: Seq<u8>, r: Seq<u8>, at: int)
    requires
        block_shuffled(s, r, at),
    ensures
        r.len() == s.len(),
{
    if s.len() >= 4 {
        let picks = choose|picks: Seq<usize>|
            picks_fit(picks) && is_block_len(s.len() - 1, 1 + picks.len() as int) && at <= s.len()
                - picks.len() - 1 && r == #[trigger] shuffled(s, at, picks);
        shuffles_keep_bytes(s, at, picks);
    }
}

proof fn lemma_numbers_keep_bounds(s: Seq<u8>, r: Seq<u8>, at: int)
    requires
        number_changed(s, r, at),
        s.len() > 0,
    ensures
        0 < r.len() <= s.len() + 21,
{
    if s.len() >= 4 {
        let (op, wide, small) = choose|op: u8, wide: u64, small: u8|
            op < 8 && r == #[trigger] with_changed_number(s, at, op, wide, small);
        changed_numbers_are_short(s, at, op, wide, small);
    }
}

proof fn lemma_pairs_keep_bounds(s: Seq<u8>, r: Seq<u8>, material: Material, at: int)
    requires
        operand_replaced(s, r, material.pairs, at),
        material.is_sized(),
        s.len() > 0,
    ensures
        0 < r.len() <= s.len() + 64,
{
    let all = material.pairs;
    if all.len() > 0 {
        let k = choose|k: int|
            0 <= k < all.len() && #[trigger] operand_replaced_from(
                s,
                r,
                at,
                all[k].0,
                all[k].1,
            );
        assert(1 <= all[k].0.len() <= 32 && 1 <= all[k].1.len() <= 32);
        let n = longer(all[k].0, all[k].1);
        if n <= s.len() {
            swaps_are_short(s, fitted(at, s.len() as int, n), all[k].0, all[k].1);
        }
    }
}

/// No operator empties an input, and none makes it longer than the limit for
/// inputs by more than a block.
#[verifier::spinoff_prover]
pub proof fn operators_keep_bounds(
    m: AFLMutator,
    material: Material,
    other: Seq<u8>,
    s: Seq<u8>,
    r: Seq<u8>,
)
    requires
        mutates(m, material, other, s, r),
        material.is_sized(),
        s.len() > 0,
    ensures
        0 < r.len() <= grown(s.len() as int),
{
    let at = choose|at: int| #[trigger] mutates_at(m, material, other, s, r, at);
    match m {
        AFLMutator::Int8 => lemma_interesting_keeps_len(s, r, 1, false, at),
        AFLMutator::Int16 => lemma_interesting_keeps_len(s, r, 2, false, at),
        AFLMutator::Int16Be => lemma_interesting_keeps_len(s, r, 2, true, at),
        AFLMutator::Int32 => lemma_interesting_keeps_len(s, r, 4, false, at),
        AFLMutator::Int32Be => lemma_interesting_keeps_len(s, r, 4, true, at),
        AFLMutator::Arith8Sub => lemma_arith_keeps_len(s, r, 1, false, true, at),
        AFLMutator::Arith8Add => lemma_arith_keeps_len(s, r, 1, false, false, at),
        AFLMutator::Arith16Sub => lemma_arith_keeps_len(s, r, 2, false, true, at),
        AFLMutator::Arith16SubBe => lemma_arith_keeps_len(s, r, 2, true, true, at),
        AFLMutator::Arith16Add => lemma_arith_keeps_len(s, r, 2, false, false, at),
        AFLMutator::Arith16AddBe => lemma_arith_keeps_len(s, r, 2, true, false, at),
        AFLMutator::Arith32Add => lemma_arith_keeps_len(s, r, 4, false, false, at),
        AFLMutator::Arith32AddBe => lemma_arith_keeps_len(s, r, 4, true, false, at),
        AFLMutator::Arith32Sub => lemma_arith_keeps_len(s, r, 4, false, true, at),
        AFLMutator::Arith32SubBe => lemma_arith_keeps_len(s, r, 4, true, true, at),
        AFLMutator::ByteAdd => lemma_byte_keeps_len(s, r, 1, at),
        AFLMutator::ByteSub => lemma_byte_keeps_len(s, r, -1, at),
        AFLMutator::Shuffle => lemma_shuffles_keep_len(s, r, at),
        AFLMutator::AsciiNum => lemma_numbers_keep_bounds(s, r, at),
        AFLMutator::TraceCmpData => lemma_pairs_keep_bounds(s, r, material, at),
        AFLMutator::ConstCmpDataBe => lemma_constant_keeps_len(s, r, material.numbers, true, at),
        AFLMutator::ConstCmpData => lemma_constant_keeps_len(s, r, material.numbers, false, at),
        _ => {},
    }
}

/// Applies one operator, wherever it draws to work.
#[verifier::spinoff_prover]
pub fn apply_mutator(
    mutator: AFLMutator,
    buf: &mut Vec<u8>,
    handler: &SearchHandler,
    extra_data: &Vec<ExtraData>,
    other: &Vec<u8>,
    rng: &mut ThreadRng,
    tmp_buf: &mut Vec<u8>,
)
    requires
        0 < old(buf)@.len() < u32::MAX,
        other@.len() < u32::MAX,
        handler.operands.wf(),
        all_wf(extra_data@),
    ensures
        mutates(mutator, material(*handler, extra_data@), other@, old(buf)@, final(buf)@),
{
    let ghost mat = material(*handler, extra_data@);
    assert(mat.extras == tokens(extra_data@) && mat.strings == handler.operands@.strings);
    assert(mat.numbers == handler.operands@.numbers && mat.pairs == handler.operands@.pairs);
    match mutator {
        AFLMutator::BitFilp => mut_bitflip(buf, rng),
        AFLMutator::Int8 => mut_interesting8(buf, rng),
        AFLMutator::Int16 => mut_interesting16(buf, rng),
        AFLMutator::Int16Be => mut_interesting16_be(buf, rng),
        AFLMutator::Int32 => mut_interesting32(buf, rng),
        AFLMutator::Int32Be => mut_interesting32_be(buf, rng),
        AFLMutator::Arith8Sub => mut_arith8_sub(buf, rng),
        AFLMutator::Arith8Add => mut_arith8_add(buf, rng),
        AFLMutator::Arith16Sub => mut_arith16_sub(buf, rng),
        AFLMutator::Arith16SubBe => mut_arith16_sub_be(buf, rng),
        AFLMutator::Arith16Add => mut_arith16_add(buf, rng),
        AFLMutator::Arith16AddBe => mut_arith16_add_be(buf, rng),
        AFLMutator::Arith32Add => mut_arith32_add(buf, rng),
        AFLMutator::Arith32AddBe => mut_arith32_add_be(buf, rng),
        AFLMutator::Arith32Sub => mut_arith32_sub(buf, rng),
        AFLMutator::Arith32SubBe => mut_arith32_sub_be(buf, rng),
        AFLMutator::Rand8 => mut_rand8(buf, rng),
        AFLMutator::CloneCopy => mut_clone_copy(buf, rng, tmp_buf),
        AFLMutator::CloneFixed => mut_clone_fixed(buf, rng, tmp_buf),
        AFLMutator::OverWriteCopy => mut_overwrite_copy(buf, rng),
        AFLMutator::OverWriteFixed => mut_overwrite_fixed(buf, rng),
        AFLMutator::ByteAdd => mut_byte_add(buf, rng),
        AFLMutator::ByteSub => mut_byte_sub(buf, rng),
        AFLMutator::BitFilp8 => mut_bitflip8(buf, rng),
        AFLMutator::Switch => mut_switch(buf, rng, tmp_buf),
        AFLMutator::Del => mut_del(buf, rng),
        AFLMutator::Shuffle => mut_shuffle(buf, rng),
        AFLMutator::DelOne => mut_del_one(buf, rng),
        AFLMutator::InsertOne => mut_insert_one(buf, rng),
        AFLMutator::AsciiNum => mut_ascii_num(buf, rng, tmp_buf),
        AFLMutator::InsertAsciiNum => mut_insert_ascii_num(buf, rng),
        AFLMutator::SpliceOverwrite => mut_splice_overwrite(buf, other, rng),
        AFLMutator::SpliceInsert => mut_splice_insert(buf, other, rng, tmp_buf),
        AFLMutator::TraceCmpData => mut_trace_cmp_data(buf, handler, rng),
        AFLMutator::ExtraInsert => mut_extra_insert(buf, extra_data, rng),
        AFLMutator::ExtraOverwrite => mut_extra_overwrite(buf, extra_data, rng),
        AFLMutator::ConstCmpData => mut_const_cmp_data(buf, handler, rng),
        AFLMutator::ConstCmpDataBe => mut_const_cmp_data_be(buf, handler, rng),
        AFLMutator::ConstStrcmpInsert => mut_const_strcmp_insert(buf, handler, rng),
        AFLMutator::ConstStrcmpOverwrite => mut_const_strcmp_overwrite(buf, handler, rng),
    }
    proof {
        let (s, r) = (old(buf)@, buf@);
        let at = match mutator {
            AFLMutator::BitFilp => choose|at: int| #[trigger] bit_flipped(s, r, at),
            AFLMutator::Int8 => choose|at: int| #[trigger] made_interesting(s, r, 1, false, at),
            AFLMutator::Int16 => choose|at: int| #[trigger] made_interesting(s, r, 2, false, at),
            AFLMutator::Int16Be => choose|at: int| #[trigger] made_interesting(s, r, 2, true, at),
            AFLMutator::Int32 => choose|at: int| #[trigger] made_interesting(s, r, 4, false, at),
            AFLMutator::Int32Be => choose|at: int| #[trigger] made_interesting(s, r, 4, true, at),
            AFLMutator::Arith8Sub => choose|at: int| #[trigger]
                arith_done(s, r, 1, false, true, at),
            AFLMutator::Arith8Add => choose|at: int| #[trigger]
                arith_done(s, r, 1, false, false, at),
            AFLMutator::Arith16Sub => choose|at: int| #[trigger]
                arith_done(s, r, 2, false, true, at),
            AFLMutator::Arith16SubBe => choose|at: int| #[trigger]
                arith_done(s, r, 2, true, true, at),
            AFLMutator::Arith16Add => choose|at: int| #[trigger]
                arith_done(s, r, 2, false, false, at),
            AFLMutator::Arith16AddBe => choose|at: int| #[trigger]
                arith_done(s, r, 2, true, false, at),
            AFLMutator::Arith32Add => choose|at: int| #[trigger]
                arith_done(s, r, 4, false, false, at),
            AFLMutator::Arith32AddBe => choose|at: int| #[trigger]
                arith_done(s, r, 4, true, false, at),
            AFLMutator::Arith32Sub => choose|at: int| #[trigger]
                arith_done(s, r, 4, false, true, at),
            AFLMutator::Arith32SubBe => choose|at: int| #[trigger]
                arith_done(s, r, 4, true, true, at),
            AFLMutator::Rand8 => choose|at: int| #[trigger] byte_changed(s, r, at),
            AFLMutator::CloneCopy => choose|at: int| #[trigger] block_cloned(s, r, at),
            AFLMutator::CloneFixed => choose|at: int| #[trigger] block_filled_in(s, r, at),
            AFLMutator::OverWriteCopy => choose|at: int| #[trigger] block_copied_over(s, r, at),
            AFLMutator::OverWriteFixed => choose|at: int| #[trigger] block_filled(s, r, at),
            AFLMutator::ByteAdd => choose|at: int| #[trigger] byte_added(s, r, 1, at),
            AFLMutator::ByteSub => choose|at: int| #[trigger] byte_added(s, r, -1, at),
            AFLMutator::BitFilp8 => choose|at: int| #[trigger] byte_flipped(s, r, at),
            AFLMutator::Switch => choose|at: int| #[trigger] blocks_switched(s, r, at),
            AFLMutator::Del => choose|at: int| #[trigger] block_removed(s, r, at),
            AFLMutator::Shuffle => choose|at: int| #[trigger] block_shuffled(s, r, at),
            AFLMutator::DelOne => choose|at: int| #[trigger] byte_removed(s, r, at),
            AFLMutator::InsertOne => choose|at: int| #[trigger] byte_inserted(s, r, at),
            AFLMutator::AsciiNum => choose|at: int| #[trigger] number_changed(s, r, at),
            AFLMutator::InsertAsciiNum => choose|at: int| #[trigger] number_written(s, r, at),
            AFLMutator::SpliceOverwrite => choose|at: int| #[trigger]
                splice_overwritten(s, r, other@, at),
            AFLMutator::SpliceInsert => choose|at: int| #[trigger] splice_put_in(s, r, other@, at),
            AFLMutator::ExtraInsert => choose|at: int| #[trigger]
                token_inserted(s, r, mat.extras, at),
            AFLMutator::ExtraOverwrite => choose|at: int| #[trigger]
                token_overwritten(s, r, mat.extras, at),
            AFLMutator::TraceCmpData => choose|at: int| #[trigger]
                operand_replaced(s, r, mat.pairs, at),
            AFLMutator::ConstStrcmpInsert => choose|at: int| #[trigger]
                token_inserted(s, r, mat.strings, at),
            AFLMutator::ConstStrcmpOverwrite => choose|at: int| #[trigger]
                token_overwritten(s, r, mat.strings, at),
            AFLMutator::ConstCmpDataBe => choose|at: int| #[trigger]
                constant_written(s, r, mat.numbers, true, at),
            AFLMutator::ConstCmpData => choose|at: int| #[trigger]
                constant_written(s, r, mat.numbers, false, at),
        };
        assert(mutates_at(mutator, mat, other@, s, r, at));
    }
}

/// How many of the first `n` operators take a block of another input.
pub open spec fn splices_in(plan: Seq<AFLMutator>, n: int) -> int
    decreases n,
{
    if n <= 0 {
        0
    } else {
        splices_in(plan, n - 1) + if takes_splice(plan[n - 1]) {
            1int
        } else {
            0
        }
    }
}

/// The other input that operator `i` takes a block of, if it does.
pub open spec fn splice_for(plan: Seq<AFLMutator>, splices: Seq<Vec<u8>>, i: int) -> Seq<u8> {
    if takes_splice(plan[i]) {
        splices[splices_in(plan, i)]@
    } else {
        Seq::empty()
    }
}

/// The position range for operator `i`, if there are any.
pub open spec fn position_of(positions: Option<Seq<usize>>, i: int) -> Option<usize> {
    match positions {
        Some(p) => Some(p[i]),
        None => None,
    }
}

/// The operators lead from each input to the next, each in its position range
/// of the input that it finds.
pub open spec fn is_chain(
    plan: Seq<AFLMutator>,
    positions: Option<Seq<usize>>,
    material: Material,
    splices: Seq<Vec<u8>>,
    steps: Seq<Seq<u8>>,
) -> bool {
    &&& steps.len() == plan.len() + 1
    &&& forall|i: int|
        #![trigger plan[i]]
        0 <= i < plan.len() ==> mutates_by(
            plan[i],
            position_of(positions, i),
            material,
            splice_for(plan, splices, i),
            steps[i],
            steps[i + 1],
        )
}

/// The operators, one after the other, can turn `s` into `r`: each in its
/// position range, or anywhere if there are none.
pub open spec fn havoc_done(
    plan: Seq<AFLMutator>,
    positions: Option<Seq<usize>>,
    material: Material,
    splices: Seq<Vec<u8>>,
    s: Seq<u8>,
    r: Seq<u8>,
) -> bool {
    exists|steps: Seq<Seq<u8>>| #[trigger]
        is_chain(plan, positions, material, splices, steps) && steps[0] == s && steps.last() == r
}

/// How many other inputs the operators take blocks of.
pub fn count_splices(plan: &Vec<AFLMutator>) -> (r: usize)
    ensures
        r == splices_in(plan@, plan@.len() as int),
{
    let mut r: usize = 0;
    let mut i: usize = 0;
    while i < plan.len()
        invariant
            i <= plan@.len(),
            r <= i,
            r == splices_in(plan@, i as int),
        decreases plan@.len() - i,
    {
        if needs_splice(plan[i]) {
            r = r + 1;
        }
        i = i + 1;
    }
    r
}

proof fn lemma_splices_grow(plan: Seq<AFLMutator>, i: int, j: int)
    requires
        0 <= i <= j,
    ensures
        0 <= splices_in(plan, i) <= splices_in(plan, j),
    decreases j,
{
    if i < j {
        lemma_splices_grow(plan, i, j - 1);
    } else if i > 0 {
        lemma_splices_grow(plan, i - 1, j - 1);
    }
}

/// The position ranges that are given, if any.
pub open spec fn positions_in(positions: Option<&Vec<usize>>) -> Option<Seq<usize>> {
    match positions {
        Some(p) => Some(p@),
        None => None,
    }
}

/// Applies the operators one after the other, each in its position range if
/// there are any.
#[verifier::rlimit(30)]
fn apply_all(
    plan: &Vec<AFLMutator>,
    positions: Option<&Vec<usize>>,
    buf: &mut Vec<u8>,
    handler: &SearchHandler,
    extra_data: &Vec<ExtraData>,
    splices: &Vec<Vec<u8>>,
    rng: &mut ThreadRng,
    tmp_buf: &mut Vec<u8>,
)
    requires
        0 < old(buf)@.len() <= 0x4000_0000,
        plan@.len() <= 0x1000,
        positions matches Some(p) ==> p@.len() == plan@.len() && forall|i: int|
            0 <= i < p@.len() ==> (#[trigger] p@[i]) < POSITION_NUM,
        splices@.len() == splices_in(plan@, plan@.len() as int),
        forall|i: int| 0 <= i < splices@.len() ==> (#[trigger] splices@[i])@.len() < u32::MAX,
        handler.operands.wf(),
        all_wf(extra_data@),
    ensures
        havoc_done(
            plan@,
            positions_in(positions),
            material(*handler, extra_data@),
            splices@,
            old(buf)@,
            final(buf)@,
        ),
        final(buf)@.len() > 0,
{
    let ghost mat = material(*handler, extra_data@);
    let ghost places = positions_in(positions);
    let ghost mut steps: Seq<Seq<u8>> = seq![buf@];
    let none: Vec<u8> = Vec::new();
    let mut used: usize = 0;
    let mut i: usize = 0;
    assert(none@ =~= Seq::empty());
    while i < plan.len()
        invariant
            i <= plan@.len() <= 0x1000,
            positions matches Some(p) ==> p@.len() == plan@.len() && forall|k: int|
                0 <= k < p@.len() ==> (#[trigger] p@[k]) < POSITION_NUM,
            places == positions_in(positions),
            used == splices_in(plan@, i as int),
            splices@.len() == splices_in(plan@, plan@.len() as int),
            forall|k: int| 0 <= k < splices@.len() ==> (#[trigger] splices@[k])@.len() < u32::MAX,
            none@ == Seq::<u8>::empty(),
            handler.operands.wf(),
            all_wf(extra_data@),
            mat == material(*handler, extra_data@),
            mat.is_sized(),
            0 < buf@.len() <= 0x4000_0000 + 0x1_0000 * (i as int),
            steps.len() == i + 1,
            steps[0] == old(buf)@,
            steps[i as int] == buf@,
            forall|k: int|
                #![trigger plan@[k]]
                0 <= k < i ==> mutates_by(
                    plan@[k],
                    position_of(places, k),
                    mat,
                    splice_for(plan@, splices@, k),
                    steps[k],
                    steps[k + 1],
                ),
        decreases plan@.len() - i,
    {
        let m = plan[i];
        let position: Option<usize> = match positions {
            Some(p) => Some(p[i]),
            None => None,
        };
        let ghost before = buf@;
        proof {
            lemma_splices_grow(plan@, i + 1, plan@.len() as int);
            lemma_splices_grow(plan@, 0, i as int);
        }
        let other: &Vec<u8> = if needs_splice(m) {
            assert(splices.len() == splices@.len());
            let next: &Vec<u8> = &splices[used];
            used = used + 1;
            next
        } else {
            &none
        };
        match position {
            Some(p) => apply_scheduled(m, p, buf, handler, extra_data, other, rng, tmp_buf),
            None => apply_mutator(m, buf, handler, extra_data, other, rng, tmp_buf),
        }
        proof {
            assert(mutates(m, mat, other@, before, buf@));
            operators_keep_bounds(m, mat, other@, before, buf@);
            let more = steps.push(buf@);
            assert forall|k: int| #![trigger plan@[k]] 0 <= k < i + 1 implies mutates_by(
                plan@[k],
                position_of(places, k),
                mat,
                splice_for(plan@, splices@, k),
                more[k],
                more[k + 1],
            ) by {
                if k < i {
                    assert(more[k] == steps[k] && more[k + 1] == steps[k + 1]);
                }
            }
            steps = more;
        }
        i = i + 1;
    }
    assert(is_chain(plan@, places, mat, splices@, steps));
}

/// Applies the operators one after the other. Each that takes a block of
/// another input takes it of the next of `splices`.
pub fn havoc_mutation(
    plan: &Vec<AFLMutator>,
    buf: &mut Vec<u8>,
    handler: &SearchHandler,
    extra_data: &Vec<ExtraData>,
    splices: &Vec<Vec<u8>>,
    rng: &mut ThreadRng,
    tmp_buf: &mut Vec<u8>,
)
    requires
        0 < old(buf)@.len() <= 0x4000_0000,
        plan@.len() <= 0x1000,
        splices@.len() == splices_in(plan@, plan@.len() as int),
        forall|i: int| 0 <= i < splices@.len() ==> (#[trigger] splices@[i])@.len() < u32::MAX,
        handler.operands.wf(),
        all_wf(extra_data@),
    ensures
        havoc_done(
            plan@,
            None,
            material(*handler, extra_data@),
            splices@,
            old(buf)@,
            final(buf)@,
        ),
        final(buf)@.len() > 0,
{
    apply_all(plan, None, buf, handler, extra_data, splices, rng, tmp_buf);
}

/// Where the stage stands.
#[derive(Copy, Clone, Debug, PartialEq, Eq, Structural)]
pub enum AflPhase {
    /// The seed itself is mutated.
    Havoc,
    /// Splices are tried, so many so far; one of them is being mutated or
    /// the next is due.
    Splice { tried: usize, mutating: bool },
}

/// What is to be done next.
#[derive(Copy, Clone, Debug, PartialEq, Eq, Structural)]
pub enum AflStep {
    /// Mutate the base input and run it.
    Mutate,
    /// Find another seed and splice it.
    FetchSplice,
    /// The stage is over.
    Done,
}

/// The havoc stage.
#[derive(Debug)]
pub struct AFLFuzz {
    /// The score of the seed, in percent.
    pub run_ratio: usize,
    pub tmp_buf: Vec<u8>,
    pub mutators: Vec<AFLMutator>,
    /// How often each operator was used, plus one.
    pub mutators_usage_cnt: Vec<usize>,
    /// What each operator earned, plus one.
    pub mutators_value: Vec<usize>,
    /// How often each position was used, plus one.
    pub positions_usage_cnt: Vec<usize>,
    /// What each position earned, plus one.
    pub positions_value: Vec<usize>,
    /// How often operators were used, plus one.
    pub total_usage_cnt: usize,
    pub scheduled_mutation: bool,
    pub havoc_div: usize,
    /// How many operators may be stacked.
    pub max_stacking: usize,
    pub phase: AflPhase,
    /// The input that is mutated.
    pub base: Vec<u8>,
}

/// How often the target may be run for a seed of the given score.
pub open spec fn budget(times: int, score: int, div: int) -> int {
    times * score / div / 256
}

/// The position of the first place up to `len` where the inputs differ.
pub open spec fn first_diff(a: Seq<u8>, b: Seq<u8>, i: int, len: int) -> Option<int>
    decreases len - i,
{
    if i >= len {
        None
    } else if a[i] != b[i] {
        Some(i)
    } else {
        first_diff(a, b, i + 1, len)
    }
}

/// The position of the last place below `len` where the inputs differ.
pub open spec fn last_diff(a: Seq<u8>, b: Seq<u8>, len: int) -> Option<int>
    decreases len,
{
    if len <= 0 {
        None
    } else if a[len - 1] != b[len - 1] {
        Some(len - 1)
    } else {
        last_diff(a, b, len - 1)
    }
}

/// The length of the shorter input.
pub open spec fn shorter_len(a: Seq<u8>, b: Seq<u8>) -> int {
    if a.len() <= b.len() {
        a.len() as int
    } else {
        b.len() as int
    }
}

/// Where two inputs can be spliced: from the first difference up to the last.
pub open spec fn splice_range(a: Seq<u8>, b: Seq<u8>) -> Option<(int, int)> {
    let len = shorter_len(a, b);
    match (first_diff(a, b, 0, len), last_diff(a, b, len)) {
        (Some(f), Some(l)) => if len >= 2 && f != l {
            Some((f, l))
        } else {
            None
        },
        _ => None,
    }
}

/// The beginning of `a` and the rest of `b`.
pub open spec fn spliced(a: Seq<u8>, b: Seq<u8>, at: int) -> Seq<u8> {
    a.subrange(0, at) + b.subrange(at, b.len() as int)
}

proof fn lemma_first_diff(a: Seq<u8>, b: Seq<u8>, i: int, len: int)
    requires
        0 <= i <= len,
    ensures
        match first_diff(a, b, i, len) {
            Some(f) => i <= f < len && a[f] != b[f] && forall|k: int|
                i <= k < f ==> a[k] == b[k],
            None => forall|k: int| i <= k < len ==> a[k] == b[k],
        },
    decreases len - i,
{
    if i < len && a[i] == b[i] {
        lemma_first_diff(a, b, i + 1, len);
    }
}

proof fn lemma_last_diff(a: Seq<u8>, b: Seq<u8>, len: int)
    requires
        0 <= len,
    ensures
        match last_diff(a, b, len) {
            Some(l) => 0 <= l < len && a[l] != b[l] && forall|k: int|
                l < k < len ==> a[k] == b[k],
            None => forall|k: int| 0 <= k < len ==> a[k] == b[k],
        },
    decreases len,
{
    if 0 < len && a[len - 1] == b[len - 1] {
        lemma_last_diff(a, b, len - 1);
    }
}

/// A splice behind the first difference equals neither of the inputs that it
/// comes from, and it is as long as the second.
pub proof fn splices_are_new(a: Seq<u8>, b: Seq<u8>, at: int)
    requires
        splice_range(a, b) matches Some((f, l)) && f < at < l,
    ensures
        spliced(a, b, at) != a,
        spliced(a, b, at) != b,
        spliced(a, b, at).len() == b.len(),
{
    let len = shorter_len(a, b);
    lemma_first_diff(a, b, 0, len);
    lemma_last_diff(a, b, len);
    let r = spliced(a, b, at);
    if let Some((f, l)) = splice_range(a, b) {
        assert(r[f] == a[f]);
        assert(r[l] == b[l]);
    }
}

/// The first and the last place below `len` where the inputs differ.
pub fn locate_diffs(buf1: &Vec<u8>, buf2: &Vec<u8>, len: usize) -> (r: (
    Option<usize>,
    Option<usize>,
))
    requires
        len <= buf1@.len(),
        len <= buf2@.len(),
    ensures
        match r.0 {
            Some(f) => first_diff(buf1@, buf2@, 0, len as int) == Some(f as int),
            None => first_diff(buf1@, buf2@, 0, len as int) is None,
        },
        match r.1 {
            Some(l) => last_diff(buf1@, buf2@, len as int) == Some(l as int),
            None => last_diff(buf1@, buf2@, len as int) is None,
        },
{
    let mut first: Option<usize> = None;
    let mut last: Option<usize> = None;
    let mut i: usize = 0;
    while i < len
        invariant
            i <= len,
            len <= buf1@.len(),
            len <= buf2@.len(),
            match first {
                Some(f) => first_diff(buf1@, buf2@, 0, len as int) == Some(f as int),
                None => first_diff(buf1@, buf2@, 0, len as int) == first_diff(
                    buf1@,
                    buf2@,
                    i as int,
                    len as int,
                ),
            },
            match last {
                Some(l) => last_diff(buf1@, buf2@, i as int) == Some(l as int),
                None => last_diff(buf1@, buf2@, i as int) is None,
            },
        decreases len - i,
    {
        if buf1[i] != buf2[i] {
            if first.is_none() {
                first = Some(i);
            }
            last = Some(i);
        }
        i = i + 1;
    }
    (first, last)
}

/// Splices two inputs, at a place that `pick` chooses.
pub fn splice_at(buf1: &Vec<u8>, buf2: &Vec<u8>, pick: usize) -> (r: Option<Vec<u8>>)
    ensures
        match splice_range(buf1@, buf2@) {
            Some((f, l)) => match r {
                Some(v) => v@ == spliced(buf1@, buf2@, f + pick as int % (l - f)),
                None => false,
            },
            None => r is None,
        },
        r matches Some(v) ==> v@.len() == buf2@.len() && v@.len() >= 2,
{
    let len: usize = if buf1.len() <= buf2.len() {
        buf1.len()
    } else {
        buf2.len()
    };
    if len < 2 {
        return None;
    }
    let (first, last) = locate_diffs(buf1, buf2, len);
    proof {
        lemma_first_diff(buf1@, buf2@, 0, len as int);
        lemma_last_diff(buf1@, buf2@, len as int);
    }
    if first.is_none() || last.is_none() {
        return None;
    }
    let f: usize = first.unwrap();
    let l: usize = last.unwrap();
    if f == l {
        return None;
    }
    assert(f < l);
    let at: usize = f + pick % (l - f);
    let mut r: Vec<u8> = super::edits::copy_of(buf1, 0, at);
    let mut tail: Vec<u8> = super::edits::copy_of(buf2, at, buf2.len() - at);
    r.append(&mut tail);
    assert(r@ =~= spliced(buf1@, buf2@, at as int));
    Some(r)
}

/// Splices two inputs at a random place.
pub fn splice_two_vec(buf1: &Vec<u8>, buf2: &Vec<u8>) -> (r: Option<Vec<u8>>)
    ensures
        match splice_range(buf1@, buf2@) {
            Some((f, l)) => match r {
                Some(v) => exists|at: int|
                    f <= at < l && v@ == #[trigger] spliced(buf1@, buf2@, at),
                None => false,
            },
            None => r is None,
        },
        r matches Some(v) ==> v@.len() == buf2@.len() && v@.len() >= 2,
{
    let pick: usize = random_usize();
    proof {
        let len = shorter_len(buf1@, buf2@);
        lemma_first_diff(buf1@, buf2@, 0, len);
        lemma_last_diff(buf1@, buf2@, len);
        if let Some((f, l)) = splice_range(buf1@, buf2@) {
            assert(f < l);
            vstd::arithmetic::div_mod::lemma_mod_bound(pick as int, l - f);
        }
    }
    splice_at(buf1, buf2, pick)
}

/// How often `i` was picked as an operator.
pub open spec fn operator_picks(picks: Seq<(usize, usize)>, i: int) -> int
    decreases picks.len(),
{
    if picks.len() == 0 {
        0
    } else {
        operator_picks(picks.drop_last(), i) + if picks.last().0 == i {
            1int
        } else {
            0
        }
    }
}

/// How often `i` was picked as a position.
pub open spec fn position_picks(picks: Seq<(usize, usize)>, i: int) -> int
    decreases picks.len(),
{
    if picks.len() == 0 {
        0
    } else {
        position_picks(picks.drop_last(), i) + if picks.last().1 == i {
            1int
        } else {
            0
        }
    }
}

/// The operators that were picked.
pub open spec fn picked_operators(picks: Seq<(usize, usize)>) -> Seq<AFLMutator> {
    Seq::new(picks.len(), |i: int| all_operators()[picks[i].0 as int])
}

/// The position ranges that were picked.
pub open spec fn picked_positions(picks: Seq<(usize, usize)>) -> Seq<usize> {
    Seq::new(picks.len(), |i: int| picks[i].1)
}

fn positions_of(picks: &Vec<(usize, usize)>) -> (r: Vec<usize>)
    ensures
        r@ == picked_positions(picks@),
{
    let mut r: Vec<usize> = Vec::new();
    let mut k: usize = 0;
    while k < picks.len()
        invariant
            k <= picks@.len(),
            r@.len() == k,
            forall|j: int| 0 <= j < k ==> r@[j] == #[trigger] picked_positions(picks@)[j],
        decreases picks@.len() - k,
    {
        r.push(picks[k].1);
        k = k + 1;
    }
    assert(r@ =~= picked_positions(picks@));
    r
}

/// What a run earns the operators and positions that were used.
pub open spec fn ucb_gain(found: Found) -> int {
    (if found.has_new_path {
        5int
    } else {
        0
    }) + (if found.has_new_edge {
        10int
    } else {
        0
    }) + (if found.has_higher_match {
        5int
    } else {
        0
    })
}

/// There is room to add `gain` for each use.
pub open spec fn has_room(values: Seq<usize>, uses: Seq<usize>, gain: int) -> bool {
    forall|i: int|
        0 <= i < values.len() ==> (#[trigger] values[i]) + gain * uses[i] <= usize::MAX
}

/// Adds `gain` for each use.
fn add_gain(values: &mut Vec<usize>, uses: &Vec<usize>, gain: usize)
    requires
        old(values)@.len() == uses@.len(),
        has_room(old(values)@, uses@, gain as int),
    ensures
        final(values)@.len() == old(values)@.len(),
        forall|i: int|
            0 <= i < old(values)@.len() ==> (#[trigger] final(values)@[i]) == old(values)@[i]
                + gain * uses@[i],
{
    let mut i: usize = 0;
    while i < values.len()
        invariant
            i <= values@.len(),
            values@.len() == old(values)@.len(),
            values@.len() == uses@.len(),
            has_room(old(values)@, uses@, gain as int),
            forall|k: int|
                0 <= k < i ==> (#[trigger] values@[k]) == old(values)@[k] + gain * uses@[k],
            forall|k: int| i <= k < values@.len() ==> (#[trigger] values@[k]) == old(values)@[k],
        decreases values@.len() - i,
    {
        let v: usize = values[i];
        let u: usize = uses[i];
        assert(v == old(values)@[i as int]);
        assert(v + gain * u <= usize::MAX);
        assert(0 <= gain * u) by (nonlinear_arith);
        values[i] = v + gain * u;
        i = i + 1;
    }
}

impl AFLFuzz {
    /// The operators and positions are counted: each count is positive.
    pub open spec fn wf(&self) -> bool {
        &&& self.mutators@ == all_operators()
        &&& self.mutators_usage_cnt@.len() == 40
        &&& self.mutators_value@.len() == 40
        &&& self.positions_usage_cnt@.len() == POSITION_NUM
        &&& self.positions_value@.len() == POSITION_NUM
        &&& self.havoc_div > 0
        &&& forall|i: int| 0 <= i < 40 ==> #[trigger] self.mutators_usage_cnt@[i] > 0
        &&& forall|i: int|
            0 <= i < POSITION_NUM ==> #[trigger] self.positions_usage_cnt@[i] > 0
        &&& self.total_usage_cnt > 0
    }

    /// A stage for which nothing has been counted yet. The budgets are
    /// divided by `havoc_div`.
    pub fn new(scheduled_mutation: bool, havoc_div: usize) -> (r: Self)
        requires
            havoc_div > 0,
        ensures
            r.wf(),
            r.scheduled_mutation == scheduled_mutation,
            r.havoc_div == havoc_div,
            r.run_ratio == 0,
            r.total_usage_cnt == 1,
            r.tmp_buf@.len() == 0,
            r.max_stacking == 2,
            r.phase == AflPhase::Havoc,
            r.base@.len() == 0,
            forall|i: int|
                0 <= i < 40 ==> #[trigger] r.mutators_usage_cnt@[i] == 1 && r.mutators_value@[i]
                    == 1,
            forall|i: int|
                0 <= i < POSITION_NUM ==> #[trigger] r.positions_usage_cnt@[i] == 1
                    && r.positions_value@[i] == 1,
    {
        let mutators: Vec<AFLMutator> = vec![
            AFLMutator::BitFilp,
            AFLMutator::Int8,
            AFLMutator::Int16,
            AFLMutator::Int16Be,
            AFLMutator::Int32,
            AFLMutator::Int32Be,
            AFLMutator::Arith8Sub,
            AFLMutator::Arith8Add,
            AFLMutator::Arith16Sub,
            AFLMutator::Arith16SubBe,
            AFLMutator::Arith16Add,
            AFLMutator::Arith16AddBe,
            AFLMutator::Arith32Add,
            AFLMutator::Arith32AddBe,
            AFLMutator::Arith32Sub,
            AFLMutator::Arith32SubBe,
            AFLMutator::Rand8,
            AFLMutator::CloneCopy,
            AFLMutator::CloneFixed,
            AFLMutator::OverWriteCopy,
            AFLMutator::OverWriteFixed,
            AFLMutator::ByteAdd,
            AFLMutator::ByteSub,
            AFLMutator::BitFilp8,
            AFLMutator::Switch,
            AFLMutator::Del,
            AFLMutator::Shuffle,
            AFLMutator::DelOne,
            AFLMutator::InsertOne,
            AFLMutator::AsciiNum,
            AFLMutator::InsertAsciiNum,
            AFLMutator::SpliceOverwrite,
            AFLMutator::SpliceInsert,
            AFLMutator::TraceCmpData,
            AFLMutator::ExtraInsert,
            AFLMutator::ExtraOverwrite,
            AFLMutator::ConstStrcmpInsert,
            AFLMutator::ConstStrcmpOverwrite,
            AFLMutator::ConstCmpDataBe,
            AFLMutator::ConstCmpData,
        ];
        assert(mutators@ =~= all_operators());
        AFLFuzz {
            run_ratio: 0,
            tmp_buf: Vec::new(),
            mutators,
            mutators_usage_cnt: vec![1usize;40],
            mutators_value: vec![1usize;40],
            positions_usage_cnt: vec![1usize;POSITION_NUM],
            positions_value: vec![1usize;POSITION_NUM],
            total_usage_cnt: 1,
            scheduled_mutation,
            havoc_div,
            max_stacking: 2,
            phase: AflPhase::Havoc,
            base: Vec::new(),
        }
    }

    /// The counts are the same.
    pub open spec fn same_counts(self, other: Self) -> bool {
        &&& self.mutators == other.mutators
        &&& self.mutators_usage_cnt == other.mutators_usage_cnt
        &&& self.mutators_value == other.mutators_value
        &&& self.positions_usage_cnt == other.positions_usage_cnt
        &&& self.positions_value == other.positions_value
        &&& self.total_usage_cnt == other.total_usage_cnt
        &&& self.scheduled_mutation == other.scheduled_mutation
        &&& self.havoc_div == other.havoc_div
    }

    /// Sets the budget for a round of runs.
    fn start_round(&self, handler: &mut SearchHandler, times: usize)
        requires
            self.havoc_div > 0,
            self.run_ratio <= 0x1_0000,
            times <= 256,
        ensures
            *final(handler) == (SearchHandler {
                exec_count: 0,
                initial_max_execs: budget(
                    times as int,
                    self.run_ratio as int,
                    self.havoc_div as int,
                ) as usize,
                final_max_execs: budget(times as int, 6400, self.havoc_div as int) as usize,
                skip: false,
                ..*old(handler)
            }),
            final(handler).initial_max_execs == budget(
                times as int,
                self.run_ratio as int,
                self.havoc_div as int,
            ),
            final(handler).final_max_execs == budget(times as int, 6400, self.havoc_div as int),
    {
        let ratio: usize = self.run_ratio;
        assert(0 <= times * ratio <= 256 * 0x1_0000) by (nonlinear_arith)
            requires
                times <= 256,
                ratio <= 0x1_0000,
        ;
        let product: usize = times * ratio;
        handler.exec_count = 0;
        handler.initial_max_execs = product / self.havoc_div / 256;
        handler.final_max_execs = times * (HAVOC_MAX_MULT * 100) / self.havoc_div / 256;
        handler.skip = false;
    }

    /// Begins the stage on a seed of the given score, with up to
    /// 2^`stacking` operators at once.
    pub fn begin(&mut self, handler: &mut SearchHandler, score: usize, stacking: usize)
        requires
            old(self).wf(),
            score <= 0x1_0000,
            1 <= stacking <= HAVOC_STACK_POW2,
        ensures
            final(self).wf(),
            final(self).same_counts(*old(self)),
            final(self).run_ratio == score,
            final(self).max_stacking == (if stacking == 1 {
                2int
            } else if stacking == 2 {
                4
            } else if stacking == 3 {
                8
            } else {
                16
            }),
            final(self).phase == AflPhase::Havoc,
            final(self).base@ == old(handler).buf@,
            *final(handler) == (SearchHandler {
                exec_count: 0,
                initial_max_execs: budget(
                    MAX_HAVOC_TIMES as int,
                    score as int,
                    old(self).havoc_div as int,
                ) as usize,
                final_max_execs: budget(
                    MAX_HAVOC_TIMES as int,
                    6400,
                    old(self).havoc_div as int,
                ) as usize,
                skip: false,
                ..*old(handler)
            }),
    {
        self.run_ratio = score;
        self.max_stacking = if stacking == 1 {
            2
        } else if stacking == 2 {
            4
        } else if stacking == 3 {
            8
        } else {
            16
        };
        self.phase = AflPhase::Havoc;
        self.base = handler.buf.clone();
        assert(self.base@ =~= handler.buf@);
        self.start_round(handler, MAX_HAVOC_TIMES);
    }

    /// Draws how many operators may be stacked, as a power of two.
    pub fn choose_stacking(rng: &mut ThreadRng) -> (r: usize)
        ensures
            1 <= r <= HAVOC_STACK_POW2,
    {
        1 + below(rng, HAVOC_STACK_POW2)
    }

    /// What is to be done next: a round goes on until the seed is given up
    /// or fuzzing stops. Then splices are tried, each at the start of a round
    /// of its own. An input that is to be made is counted.
    pub fn next_step(&mut self, handler: &mut SearchHandler, running: bool) -> (r: AflStep)
        requires
            old(self).wf(),
            old(handler).exec_count < usize::MAX,
        ensures
            *final(handler) == if r == AflStep::Mutate {
                SearchHandler {
                    exec_count: (old(handler).exec_count + 1) as usize,
                    ..*old(handler)
                }
            } else {
                *old(handler)
            },
            final(self).wf(),
            final(self).same_counts(*old(self)),
            final(self).run_ratio == old(self).run_ratio,
            final(self).max_stacking == old(self).max_stacking,
            final(self).base == old(self).base,
            ({
                let over = !running || old(handler).skip;
                match old(self).phase {
                    AflPhase::Havoc => if over {
                        &&& r == AflStep::FetchSplice
                        &&& final(self).phase == (AflPhase::Splice { tried: 0, mutating: false })
                    } else {
                        &&& r == AflStep::Mutate
                        &&& final(self).phase == AflPhase::Havoc
                    },
                    AflPhase::Splice { tried, mutating } => if mutating && !over {
                        &&& r == AflStep::Mutate
                        &&& final(self).phase == old(self).phase
                    } else {
                        &&& final(self).phase == (AflPhase::Splice { tried, mutating: false })
                        &&& r == if tried < MAX_SPLICE_CYCLES {
                            AflStep::FetchSplice
                        } else {
                            AflStep::Done
                        }
                    },
                }
            }),
    {
        let over = handler.is_stopped_or_skip(running);
        let step = match self.phase {
            AflPhase::Havoc => {
                if over {
                    self.phase = AflPhase::Splice { tried: 0, mutating: false };
                    AflStep::FetchSplice
                } else {
                    AflStep::Mutate
                }
            },
            AflPhase::Splice { tried, mutating } => {
                if mutating && !over {
                    AflStep::Mutate
                } else {
                    self.phase = AflPhase::Splice { tried, mutating: false };
                    if tried < MAX_SPLICE_CYCLES {
                        AflStep::FetchSplice
                    } else {
                        AflStep::Done
                    }
                }
            },
        };
        if let AflStep::Mutate = step {
            handler.exec_count = handler.exec_count + 1;
        }
        step
    }

    /// Tries a splice of the seed with another. If there is one, it is the
    /// base of the next round.
    pub fn splice(&mut self, handler: &mut SearchHandler, other: &Vec<u8>)
        requires
            old(self).wf(),
            old(self).run_ratio <= 0x1_0000,
            old(self).phase matches AflPhase::Splice { tried, mutating } && tried
                < MAX_SPLICE_CYCLES && !mutating,
        ensures
            final(self).wf(),
            final(self).same_counts(*old(self)),
            final(self).run_ratio == old(self).run_ratio,
            final(self).max_stacking == old(self).max_stacking,
            old(self).phase matches AflPhase::Splice { tried, .. } ==> match splice_range(
                old(handler).buf@,
                other@,
            ) {
                None => {
                    &&& final(self).phase == (AflPhase::Splice {
                        tried: (tried + 1) as usize,
                        mutating: false,
                    })
                    &&& final(self).base == old(self).base
                    &&& *final(handler) == *old(handler)
                },
                Some((f, l)) => {
                    &&& final(self).phase == (AflPhase::Splice {
                        tried: (tried + 1) as usize,
                        mutating: true,
                    })
                    &&& exists|at: int|
                        f <= at < l && final(self).base@ == #[trigger] spliced(
                            old(handler).buf@,
                            other@,
                            at,
                        )
                    &&& *final(handler) == (SearchHandler {
                        exec_count: 0,
                        initial_max_execs: budget(
                            MAX_SPLICE_TIMES as int,
                            old(self).run_ratio as int,
                            old(self).havoc_div as int,
                        ) as usize,
                        final_max_execs: budget(
                            MAX_SPLICE_TIMES as int,
                            6400,
                            old(self).havoc_div as int,
                        ) as usize,
                        skip: false,
                        ..*old(handler)
                    })
                },
            },
    {
        if let AflPhase::Splice { tried, mutating: _ } = self.phase {
            match splice_two_vec(&handler.buf, other) {
                Some(base) => {
                    self.base = base;
                    self.phase = AflPhase::Splice { tried: tried + 1, mutating: true };
                    self.start_round(handler, MAX_SPLICE_TIMES);
                },
                None => {
                    self.phase = AflPhase::Splice { tried: tried + 1, mutating: false };
                },
            }
        }
    }

    /// Draws how many operators are stacked on an input: at least one.
    pub fn choose_depth(&self, rng: &mut ThreadRng) -> (r: usize)
        requires
            0 < self.max_stacking,
        ensures
            1 <= r <= self.max_stacking,
    {
        1 + below(rng, self.max_stacking)
    }

    /// Draws the operators for an input: at least one.
    pub fn choose_mutators(&self, rng: &mut ThreadRng) -> (plan: Vec<AFLMutator>)
        requires
            self.wf(),
            0 < self.max_stacking <= 0x1000,
        ensures
            1 <= plan@.len() <= self.max_stacking,
    {
        let n: usize = self.choose_depth(rng);
        let mut plan: Vec<AFLMutator> = Vec::new();
        while plan.len() < n
            invariant
                plan@.len() <= n <= self.max_stacking,
                self.wf(),
            decreases n - plan@.len(),
        {
            let i: usize = below(rng, self.mutators.len());
            plan.push(self.mutators[i]);
        }
        plan
    }

    /// Counts the operators and positions that were picked, and tells how
    /// often each was picked now.
    pub fn count_picks(&mut self, picks: &Vec<(usize, usize)>) -> (r: (Vec<usize>, Vec<usize>))
        requires
            old(self).wf(),
            forall|k: int|
                0 <= k < picks@.len() ==> (#[trigger] picks@[k]).0 < 40 && picks@[k].1
                    < POSITION_NUM,
            old(self).total_usage_cnt + picks@.len() <= usize::MAX,
            forall|i: int|
                0 <= i < 40 ==> #[trigger] old(self).mutators_usage_cnt@[i] + picks@.len()
                    <= usize::MAX,
            forall|i: int|
                0 <= i < POSITION_NUM ==> #[trigger] old(self).positions_usage_cnt@[i]
                    + picks@.len() <= usize::MAX,
        ensures
            final(self).wf(),
            final(self).total_usage_cnt == old(self).total_usage_cnt + picks@.len(),
            final(self).mutators_value == old(self).mutators_value,
            final(self).positions_value == old(self).positions_value,
            final(self).scheduled_mutation == old(self).scheduled_mutation,
            final(self).havoc_div == old(self).havoc_div,
            final(self).run_ratio == old(self).run_ratio,
            final(self).max_stacking == old(self).max_stacking,
            final(self).phase == old(self).phase,
            final(self).base == old(self).base,
            final(self).tmp_buf == old(self).tmp_buf,
            r.0@.len() == 40,
            r.1@.len() == POSITION_NUM,
            forall|i: int| 0 <= i < 40 ==> #[trigger] r.0@[i] == operator_picks(picks@, i),
            forall|i: int|
                0 <= i < POSITION_NUM ==> #[trigger] r.1@[i] == position_picks(picks@, i),
            forall|i: int|
                0 <= i < 40 ==> #[trigger] final(self).mutators_usage_cnt@[i] == old(
                    self,
                ).mutators_usage_cnt@[i] + operator_picks(picks@, i),
            forall|i: int|
                0 <= i < POSITION_NUM ==> #[trigger] final(self).positions_usage_cnt@[i] == old(
                    self,
                ).positions_usage_cnt@[i] + position_picks(picks@, i),
    {
        let mut now_mutators: Vec<usize> = vec![0usize;40];
        let mut now_positions: Vec<usize> = vec![0usize;POSITION_NUM];
        let mut k: usize = 0;
        assert(picks@.take(0) =~= Seq::empty());
        while k < picks.len()
            invariant
                k <= picks@.len(),
                self.wf(),
                forall|j: int|
                    0 <= j < picks@.len() ==> (#[trigger] picks@[j]).0 < 40 && picks@[j].1
                        < POSITION_NUM,
                old(self).total_usage_cnt + picks@.len() <= usize::MAX,
                forall|i: int|
                    0 <= i < 40 ==> #[trigger] old(self).mutators_usage_cnt@[i] + picks@.len()
                        <= usize::MAX,
                forall|i: int|
                    0 <= i < POSITION_NUM ==> #[trigger] old(self).positions_usage_cnt@[i]
                        + picks@.len() <= usize::MAX,
                self.total_usage_cnt == old(self).total_usage_cnt + k,
                self.mutators_value == old(self).mutators_value,
                self.positions_value == old(self).positions_value,
                self.scheduled_mutation == old(self).scheduled_mutation,
                self.havoc_div == old(self).havoc_div,
                self.run_ratio == old(self).run_ratio,
                self.max_stacking == old(self).max_stacking,
                self.phase == old(self).phase,
                self.base == old(self).base,
                self.tmp_buf == old(self).tmp_buf,
                now_mutators@.len() == 40,
                now_positions@.len() == POSITION_NUM,
                forall|i: int|
                    0 <= i < 40 ==> #[trigger] now_mutators@[i] == operator_picks(
                        picks@.take(k as int),
                        i,
                    ) && now_mutators@[i] <= k,
                forall|i: int|
                    0 <= i < POSITION_NUM ==> #[trigger] now_positions@[i] == position_picks(
                        picks@.take(k as int),
                        i,
                    ) && now_positions@[i] <= k,
                forall|i: int|
                    0 <= i < 40 ==> #[trigger] self.mutators_usage_cnt@[i] == old(
                        self,
                    ).mutators_usage_cnt@[i] + now_mutators@[i],
                forall|i: int|
                    0 <= i < POSITION_NUM ==> #[trigger] self.positions_usage_cnt@[i] == old(
                        self,
                    ).positions_usage_cnt@[i] + now_positions@[i],
            decreases picks@.len() - k,
        {
            let (m, p) = picks[k];
            proof {
                let more = picks@.take(k + 1);
                assert(more.drop_last() =~= picks@.take(k as int));
                assert(more.last() == picks@[k as int]);
                assert(picks@[k as int].0 < 40);
                assert(old(self).mutators_usage_cnt@[m as int] + picks@.len() <= usize::MAX);
                assert(old(self).positions_usage_cnt@[p as int] + picks@.len() <= usize::MAX);
                assert(now_mutators@[m as int] <= k);
                assert(now_positions@[p as int] <= k);
            }
            let a: usize = now_mutators[m];
            now_mutators[m] = a + 1;
            let b: usize = now_positions[p];
            now_positions[p] = b + 1;
            let c: usize = self.mutators_usage_cnt[m];
            self.mutators_usage_cnt[m] = c + 1;
            let d: usize = self.positions_usage_cnt[p];
            self.positions_usage_cnt[p] = d + 1;
            self.total_usage_cnt = self.total_usage_cnt + 1;
            k = k + 1;
        }
        assert(picks@.take(k as int) =~= picks@);
        (now_mutators, now_positions)
    }

    /// Applies the operators that were picked, each in the position range
    /// picked with it, and counts them and the positions.
    pub fn havoc_mutation_scheduled(
        &mut self,
        picks: &Vec<(usize, usize)>,
        buf: &mut Vec<u8>,
        handler: &SearchHandler,
        extra_data: &Vec<ExtraData>,
        splices: &Vec<Vec<u8>>,
        rng: &mut ThreadRng,
    ) -> (r: (Vec<usize>, Vec<usize>))
        requires
            old(self).wf(),
            forall|k: int|
                0 <= k < picks@.len() ==> (#[trigger] picks@[k]).0 < 40 && picks@[k].1
                    < POSITION_NUM,
            old(self).total_usage_cnt + picks@.len() <= usize::MAX,
            forall|i: int|
                0 <= i < 40 ==> #[trigger] old(self).mutators_usage_cnt@[i] + picks@.len()
                    <= usize::MAX,
            forall|i: int|
                0 <= i < POSITION_NUM ==> #[trigger] old(self).positions_usage_cnt@[i]
                    + picks@.len() <= usize::MAX,
            0 < old(buf)@.len() <= 0x4000_0000,
            picks@.len() <= 0x1000,
            splices@.len() == splices_in(picked_operators(picks@), picks@.len() as int),
            forall|i: int| 0 <= i < splices@.len() ==> (#[trigger] splices@[i])@.len() < u32::MAX,
            handler.operands.wf(),
            all_wf(extra_data@),
        ensures
            final(self).wf(),
            final(self).total_usage_cnt == old(self).total_usage_cnt + picks@.len(),
            final(self).mutators_value == old(self).mutators_value,
            final(self).positions_value == old(self).positions_value,
            final(self).scheduled_mutation == old(self).scheduled_mutation,
            final(self).havoc_div == old(self).havoc_div,
            final(self).run_ratio == old(self).run_ratio,
            final(self).max_stacking == old(self).max_stacking,
            final(self).phase == old(self).phase,
            final(self).base == old(self).base,
            r.0@.len() == 40,
            r.1@.len() == POSITION_NUM,
            forall|i: int| 0 <= i < 40 ==> #[trigger] r.0@[i] == operator_picks(picks@, i),
            forall|i: int|
                0 <= i < POSITION_NUM ==> #[trigger] r.1@[i] == position_picks(picks@, i),
            forall|i: int|
                0 <= i < 40 ==> #[trigger] final(self).mutators_usage_cnt@[i] == old(
                    self,
                ).mutators_usage_cnt@[i] + operator_picks(picks@, i),
            forall|i: int|
                0 <= i < POSITION_NUM ==> #[trigger] final(self).positions_usage_cnt@[i] == old(
                    self,
                ).positions_usage_cnt@[i] + position_picks(picks@, i),
            havoc_done(
                picked_operators(picks@),
                Some(picked_positions(picks@)),
                material(*handler, extra_data@),
                splices@,
                old(buf)@,
                final(buf)@,
            ),
            final(buf)@.len() > 0,
    {
        let counts = self.count_picks(picks);
        let plan = self.plan_of(picks);
        let positions = positions_of(picks);
        assert forall|k: int| 0 <= k < positions@.len() implies (#[trigger] positions@[k])
            < POSITION_NUM by {
            assert(picks@[k].1 < POSITION_NUM);
        }
        apply_all(
            &plan,
            Some(&positions),
            buf,
            handler,
            extra_data,
            splices,
            rng,
            &mut self.tmp_buf,
        );
        counts
    }

    /// The operators that were picked.
    pub fn plan_of(&self, picks: &Vec<(usize, usize)>) -> (plan: Vec<AFLMutator>)
        requires
            self.wf(),
            forall|k: int| 0 <= k < picks@.len() ==> (#[trigger] picks@[k]).0 < 40,
        ensures
            plan@ == picked_operators(picks@),
    {
        let mut plan: Vec<AFLMutator> = Vec::new();
        let mut k: usize = 0;
        while k < picks.len()
            invariant
                k <= picks@.len(),
                self.wf(),
                forall|j: int| 0 <= j < picks@.len() ==> (#[trigger] picks@[j]).0 < 40,
                plan@.len() == k,
                forall|j: int| 0 <= j < k ==> plan@[j] == #[trigger] picked_operators(picks@)[j],
            decreases picks@.len() - k,
        {
            assert(picks@[k as int].0 < 40);
            plan.push(self.mutators[picks[k].0]);
            k = k + 1;
        }
        assert(plan@ =~= picked_operators(picks@));
        plan
    }

    /// Credits the operators and positions that were used with what the run
    /// found.
    pub fn update_ucb_value(
        &mut self,
        found: Found,
        now_mutator_cnt: &Vec<usize>,
        now_position_cnt: &Vec<usize>,
    )
        requires
            old(self).wf(),
            now_mutator_cnt@.len() == 40,
            now_position_cnt@.len() == POSITION_NUM,
            has_room(old(self).mutators_value@, now_mutator_cnt@, ucb_gain(found)),
            has_room(old(self).positions_value@, now_position_cnt@, ucb_gain(found)),
        ensures
            final(self).wf(),
            final(self).mutators == old(self).mutators,
            final(self).mutators_usage_cnt == old(self).mutators_usage_cnt,
            final(self).positions_usage_cnt == old(self).positions_usage_cnt,
            final(self).total_usage_cnt == old(self).total_usage_cnt,
            final(self).scheduled_mutation == old(self).scheduled_mutation,
            final(self).havoc_div == old(self).havoc_div,
            final(self).run_ratio == old(self).run_ratio,
            final(self).max_stacking == old(self).max_stacking,
            final(self).phase == old(self).phase,
            final(self).base == old(self).base,
            final(self).tmp_buf == old(self).tmp_buf,
            forall|i: int|
                0 <= i < 40 ==> (#[trigger] final(self).mutators_value@[i]) == old(
                    self,
                ).mutators_value@[i] + ucb_gain(found) * now_mutator_cnt@[i],
            forall|i: int|
                0 <= i < POSITION_NUM ==> (#[trigger] final(self).positions_value@[i]) == old(
                    self,
                ).positions_value@[i] + ucb_gain(found) * now_position_cnt@[i],
    {
        let mut gain: usize = 0;
        if found.has_new_path {
            gain = gain + 5;
        }
        if found.has_new_edge {
            gain = gain + 10;
        }
        if found.has_higher_match {
            gain = gain + 5;
        }
        add_gain(&mut self.mutators_value, now_mutator_cnt, gain);
        add_gain(&mut self.positions_value, now_position_cnt, gain);
    }
}

/// A splice is the beginning of one input and the rest of another. It can be
/// made where they differ in two places at least: from the first of these on,
/// up to the last.
pub proof fn splices_lie_between_differences(a: Seq<u8>, b: Seq<u8>, at: int, i: int)
    ensures
        match splice_range(a, b) {
            Some((f, l)) => {
                &&& 0 <= f < l < a.len() && l < b.len()
                &&& a[f] != b[f] && a[l] != b[l]
                &&& forall|k: int| 0 <= k < f ==> a[k] == b[k]
                &&& forall|k: int| l < k < a.len() && k < b.len() ==> a[k] == b[k]
            },
            None => forall|j: int, k: int|
                0 <= j < k < a.len() && k < b.len() ==> #[trigger] a[j] == b[j] || #[trigger] a[k]
                    == b[k],
        },
        0 <= at <= a.len() && at <= b.len() && 0 <= i < b.len() ==> spliced(a, b, at).len()
            == b.len() && spliced(a, b, at)[i] == if i < at {
            a[i]
        } else {
            b[i]
        },
{
    let len = shorter_len(a, b);
    lemma_first_diff(a, b, 0, len);
    lemma_last_diff(a, b, len);
    if splice_range(a, b) is None {
        assert forall|j: int, k: int|
            0 <= j < k < a.len() && k < b.len() implies #[trigger] a[j] == b[j] || #[trigger] a[k]
            == b[k] by {
            if a[j] != b[j] && a[k] != b[k] {
                let f = first_diff(a, b, 0, len)->0;
                let l = last_diff(a, b, len)->0;
                assert(f <= j && k <= l);
            }
        }
    }
}

/// How often something was picked is the number of picks that name it.
pub proof fn picks_are_counted(picks: Seq<(usize, usize)>, i: int)
    ensures
        operator_picks(picks, i) == Set::new(
            |k: int| 0 <= k < picks.len() && picks[k].0 == i,
        ).len(),
        position_picks(picks, i) == Set::new(
            |k: int| 0 <= k < picks.len() && picks[k].1 == i,
        ).len(),
        Set::new(|k: int| 0 <= k < picks.len() && picks[k].0 == i).finite(),
        Set::new(|k: int| 0 <= k < picks.len() && picks[k].1 == i).finite(),
    decreases picks.len(),
{
    let a = Set::new(|k: int| 0 <= k < picks.len() && picks[k].0 == i);
    let b = Set::new(|k: int| 0 <= k < picks.len() && picks[k].1 == i);
    if picks.len() == 0 {
        assert(a =~= Set::empty());
        assert(b =~= Set::empty());
    } else {
        let rest = picks.drop_last();
        let n = picks.len() - 1;
        picks_are_counted(rest, i);
        let c = Set::new(|k: int| 0 <= k < rest.len() && rest[k].0 == i);
        let d = Set::new(|k: int| 0 <= k < rest.len() && rest[k].1 == i);
        assert(!c.contains(n) && !d.contains(n));
        if picks.last().0 == i {
            assert(a =~= c.insert(n));
        } else {
            assert(a =~= c);
        }
        if picks.last().1 == i {
            assert(b =~= d.insert(n));
        } else {
            assert(b =~= d);
        }
    }
}

/// A find is worth ten for a new edge, and five for a new path or a better
/// match, for each use; and a seed may be run as often as its score and the
/// speed of the target allow: `times * score / 256`, divided, and rounded down.
pub proof fn gains_and_budgets(found: Found, times: int, score: int, div: int)
    requires
        0 <= times,
        0 <= score,
        0 < div,
    ensures
        ucb_gain(found) == 5 * (found.has_new_path as int) + 10 * (found.has_new_edge as int) + 5 * (
        found.has_higher_match as int),
        256 * (div * budget(times, score, div)) <= times * score,
        times * score < 256 * (div * (budget(times, score, div) + 1)),
{
    let p = times * score;
    let q = p / div;
    let r = q / 256;
    assert(p >= 0) by (nonlinear_arith)
        requires
            p == times * score,
            times >= 0,
            score >= 0,
    ;
    vstd::arithmetic::div_mod::lemma_fundamental_div_mod(p, div);
    vstd::arithmetic::div_mod::lemma_mod_bound(p, div);
    assert(256 * r <= q < 256 * (r + 1));
    assert(256 * (div * r) <= div * q) by (nonlinear_arith)
        requires
            256 * r <= q,
            div > 0,
    ;
    assert(div * (q + 1) <= 256 * (div * (r + 1))) by (nonlinear_arith)
        requires
            q + 1 <= 256 * (r + 1),
            div > 0,
    ;
    assert(div * (q + 1) == div * q + div) by (nonlinear_arith);
}


/// A seed gets as many runs in the havoc stage as it scores, and an eighth of
/// them in each of eight splice cycles, if runs are not to be saved.
pub proof fn scores_are_runs(score: int)
    requires
        0 <= score,
    ensures
        budget(MAX_HAVOC_TIMES as int, score, 1) == score,
        budget(MAX_SPLICE_TIMES as int, score, 1) == score / 8,
        MAX_SPLICE_CYCLES == 8,
{
    assert(256 * score / 1 == 256 * score);
    assert(32 * score / 1 == 32 * score);
}

} // verus!
