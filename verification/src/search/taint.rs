//! Mutation with the operands that the trace target recorded.

use super::afl_mutators::{
    either_stands_at, longer, nothing_is_swapped_unless_found, operand_is_found, operands_swapped,
    stands_at, swap_operands_at, swaps_take_out_what_was_found,
};
use super::edits::{copy_of, reversed};
use super::handler::SearchHandler;
use super::operands::{Operands, OperandsView};
use crate::branches::GlobalBranches;
use crate::bytes::{le_u32, read_le_u32};
use crate::config::{HAVOC_STACK_POW2, MAX_DIRECT_COPY_TIMES, MAX_INPUT_LEN};
use crate::mutate_func::BranchMutateInfo;
use crate::rng::{below, coin, fill_bytes};
use crate::trace_data::{low_bytes, number_bytes};
use crate::wait_status::{
    endings_are_told_apart, exit_code, exit_status, is_signaled, was_signaled,
};
use rand::rngs::ThreadRng;
use vstd::prelude::*;

verus! {

/// Why a mutation function gave no result.
#[derive(Clone, Copy, Debug, PartialEq, Eq, Structural)]
pub enum MutationError {
    /// It took too long.
    Timeout,
    /// It ended abnormally, or the input is too large for it.
    WorkerCrashed,
}

/// A payload as it lies in shared memory: its length in four bytes, then its
/// bytes.
pub open spec fn framed(payload: Seq<u8>) -> Seq<u8> {
    low_bytes(payload.len() as u64, 4) + payload
}

/// The payload in a shared memory segment, cut to what the segment can hold.
pub open spec fn unframed(shm: Seq<u8>) -> Seq<u8> {
    let room = shm.len() - 4;
    let len = le_u32(shm, 0);
    shm.subrange(
        4,
        4 + if len <= room {
            len as int
        } else {
            room
        },
    )
}

proof fn lemma_length_word(n: u32, rest: Seq<u8>)
    ensures
        low_bytes(n as u64, 4).len() == 4,
        le_u32(low_bytes(n as u64, 4) + rest, 0) == n,
{
    reveal_with_fuel(low_bytes, 5);
    let b = low_bytes(n as u64, 4);
    let s = b + rest;
    assert(b.len() == 4);
    assert(s[0] == (n as u64 % 256) as u8);
    assert(s[1] == (n as u64 / 256 % 256) as u8);
    assert(s[2] == (n as u64 / 256 / 256 % 256) as u8);
    assert(s[3] == (n as u64 / 256 / 256 / 256 % 256) as u8);
}

/// What is put into shared memory comes out of it unchanged, whatever lies
/// behind it.
pub proof fn payloads_come_back(payload: Seq<u8>, rest: Seq<u8>)
    requires
        payload.len() <= u32::MAX,
    ensures
        unframed(framed(payload) + rest) == payload,
{
    let n = payload.len() as u32;
    lemma_length_word(n, payload + rest);
    let s = framed(payload) + rest;
    assert(s =~= low_bytes(n as u64, 4) + (payload + rest));
    assert(unframed(s) =~= payload);
}

/// Frames an input for a mutation function, if the segment can hold it.
pub fn frame_payload(buf: &[u8], max_payload: usize) -> (r: Result<Vec<u8>, MutationError>)
    requires
        max_payload <= u32::MAX,
    ensures
        match r {
            Ok(v) => buf@.len() <= max_payload && v@ == framed(buf@),
            Err(e) => buf@.len() > max_payload && e == MutationError::WorkerCrashed,
        },
{
    if buf.len() > max_payload {
        return Err(MutationError::WorkerCrashed);
    }
    let mut v: Vec<u8> = number_bytes(buf.len() as u64, 4);
    v.extend_from_slice(buf);
    assert(v@ =~= framed(buf@));
    Ok(v)
}

/// Takes the payload out of a shared memory segment.
pub fn unframe_payload(shm: &[u8]) -> (r: Vec<u8>)
    requires
        shm@.len() >= 4,
    ensures
        r@ == unframed(shm@),
{
    let room: usize = shm.len() - 4;
    let word: u32 = read_le_u32(shm, 0);
    let len: usize = if (word as u64) <= (room as u64) {
        word as usize
    } else {
        room
    };
    copy_of(shm, 4, len)
}

/// The exit status for what a mutation function returned.
pub open spec fn status_for(code: int) -> int {
    if code == 1 {
        1
    } else if code == 0 {
        0
    } else {
        2
    }
}

/// What a mutation function returns is what its caller gets, if its process
/// exits by itself: the exit status is the second byte of the wait status.
pub proof fn codes_come_back(code: int, status: i32)
    requires
        -1 <= code <= 1,
        status == status_for(code) * 256,
    ensures
        worker_code(status) == Ok::<int, MutationError>(code),
{
    assert(0i32 & 0x7f == 0 && 256i32 & 0x7f == 0 && 512i32 & 0x7f == 0 && (0i32 >> 8) & 0xff == 0
        && (256i32 >> 8) & 0xff == 1 && (512i32 >> 8) & 0xff == 2) by (bit_vector);
}

/// The exit status for what a mutation function returned.
pub fn exit_status_for(code: i32) -> (r: i32)
    ensures
        r == status_for(code as int),
{
    if code == 1 {
        1
    } else if code == 0 {
        0
    } else {
        2
    }
}

/// What a mutation function returned, by the wait status of its process.
pub open spec fn worker_code(status: i32) -> Result<int, MutationError> {
    if was_signaled(status) {
        Err(MutationError::WorkerCrashed)
    } else if exit_code(status) == 1 {
        Ok(1)
    } else if exit_code(status) == 0 {
        Ok(0)
    } else {
        Ok(-1)
    }
}

/// What a mutation function returned, by the wait status of its process: 1
/// if it changed the input, 0 if it chose not to, -1 if it failed.
pub fn worker_result(status: i32) -> (r: Result<i32, MutationError>)
    ensures
        match r {
            Ok(code) => worker_code(status) == Ok::<int, MutationError>(code as int),
            Err(e) => worker_code(status) == Err::<int, MutationError>(e),
        },
{
    if is_signaled(status) {
        return Err(MutationError::WorkerCrashed);
    }
    let code: i32 = exit_status(status);
    if code == 1 {
        Ok(1)
    } else if code == 0 {
        Ok(0)
    } else {
        Ok(-1)
    }
}

/// `s` cut to `len` bytes, or extended to them with `tail`.
pub open spec fn resized(s: Seq<u8>, len: int, tail: Seq<u8>) -> Seq<u8> {
    if len < s.len() {
        s.subrange(0, len)
    } else {
        s + tail
    }
}

/// The input to try for a length: random bytes are put behind the seed if it
/// is shorter. There is none for the length that it has.
pub fn resize_input(buf: &Vec<u8>, len: usize, rng: &mut ThreadRng) -> (r: Option<Vec<u8>>)
    ensures
        len == 0 || len == buf@.len() ==> r is None,
        len != 0 && len != buf@.len() ==> (r matches Some(v) && exists|tail: Seq<u8>|
            (len < buf@.len() || buf@.len() + tail.len() == len) && v@ == #[trigger] resized(
                buf@,
                len as int,
                tail,
            )),
{
    if len == 0 || len == buf.len() {
        return None;
    }
    if len < buf.len() {
        let v: Vec<u8> = copy_of(buf, 0, len);
        assert(v@ == resized(buf@, len as int, Seq::empty()));
        return Some(v);
    }
    let mut tail: Vec<u8> = super::edits::fill(0, len - buf.len());
    fill_bytes(rng, &mut tail);
    let mut v: Vec<u8> = buf.clone();
    assert(v@ =~= buf@);
    let ghost t = tail@;
    v.append(&mut tail);
    assert(v@ == resized(buf@, len as int, t));
    Some(v)
}

/// Replaces the first of two operands that is found from `pos` on by the
/// other, and tells whether there is one. At each place the operands are
/// tried as they are, then with their bytes reversed.
pub fn replace_operand_at(
    buf: &mut Vec<u8>,
    pos: usize,
    op1_substr: &Vec<u8>,
    op2_substr: &Vec<u8>,
) -> (found: bool)
    requires
        op1_substr@.len() > 0,
        op2_substr@.len() > 0,
    ensures
        found == operand_is_found(
            old(buf)@,
            pos as int,
            op1_substr@.reverse(),
            op2_substr@.reverse(),
        ),
        final(buf)@ == operands_swapped(
            old(buf)@,
            pos as int,
            op1_substr@.reverse(),
            op2_substr@.reverse(),
        ),
        final(buf)@.len() <= old(buf)@.len() + op1_substr@.len() + op2_substr@.len(),
        old(buf)@.len() > 0 ==> final(buf)@.len() > 0,
{
    let a: Vec<u8> = reversed(op1_substr);
    let b: Vec<u8> = reversed(op2_substr);
    swap_operands_at(buf, pos, &a, &b)
}

/// If two operands are exchanged as they were compared, the one that is found
/// first from `pos` on gives way to the other: as it is or, failing that, with
/// its bytes reversed. All around it stays.
pub proof fn operands_give_way(s: Seq<u8>, pos: int, p: int, op1: Seq<u8>, op2: Seq<u8>)
    requires
        0 <= pos <= p,
        p + op1.len() <= s.len(),
        p + op2.len() <= s.len(),
        op1.len() > 0,
        op2.len() > 0,
        forall|k: int| pos <= k < p ==> !#[trigger] either_stands_at(s, k, op1, op2),
        either_stands_at(s, p, op1, op2),
    ensures
        operand_is_found(s, pos, op1.reverse(), op2.reverse()),
        ({
            let r = operands_swapped(s, pos, op1.reverse(), op2.reverse());
            if stands_at(s, p, op1) {
                r == s.take(p) + op2 + s.skip(p + op1.len())
            } else if stands_at(s, p, op2) {
                r == s.take(p) + op1 + s.skip(p + op2.len())
            } else if stands_at(s, p, op1.reverse()) {
                r == s.take(p) + op2.reverse() + s.skip(p + op1.len())
            } else {
                r == s.take(p) + op1.reverse() + s.skip(p + op2.len())
            }
        }),
{
    assert(op1.reverse().reverse() =~= op1);
    assert(op2.reverse().reverse() =~= op2);
    assert forall|k: int| pos <= k < p implies !#[trigger] either_stands_at(
        s,
        k,
        op1.reverse(),
        op2.reverse(),
    ) by {
        assert(!either_stands_at(s, k, op1, op2));
    }
    swaps_take_out_what_was_found(s, pos, p, op1.reverse(), op2.reverse());
}

/// What came of an attempt to exchange two operands: the draw was `pos`.
pub open spec fn matched_from(
    s: Seq<u8>,
    r: Seq<u8>,
    found: bool,
    pos: int,
    a: Seq<u8>,
    b: Seq<u8>,
) -> bool {
    if longer(a, b) > s.len() {
        r == s && !found
    } else {
        &&& 0 <= pos <= s.len() - longer(a, b)
        &&& r == operands_swapped(s, pos, a.reverse(), b.reverse())
        &&& found == operand_is_found(s, pos, a.reverse(), b.reverse())
    }
}

/// The search for two operands can begin at `pos`.
pub open spec fn is_start(len: int, pos: int, a: Seq<u8>, b: Seq<u8>) -> bool {
    0 <= pos && (longer(a, b) <= len ==> pos <= len - longer(a, b))
}

/// Draws where the search for two operands begins. In an input that is too
/// short for them it begins at the start, and finds nothing.
fn choose_start(len: usize, a: &Vec<u8>, b: &Vec<u8>, rng: &mut ThreadRng) -> (pos: usize)
    requires
        a@.len() > 0,
    ensures
        is_start(len as int, pos as int, a@, b@),
        pos <= len,
{
    let max_len: usize = if a.len() >= b.len() {
        a.len()
    } else {
        b.len()
    };
    if len < max_len {
        0
    } else {
        below(rng, len - max_len + 1)
    }
}

/// Exchanges two operands at the first place that is found from a random one
/// on.
pub fn match_and_replace_input(
    tmp_buf: &mut Vec<u8>,
    op1_substr: &Vec<u8>,
    op2_substr: &Vec<u8>,
    rng: &mut ThreadRng,
) -> (found: bool)
    requires
        op1_substr@.len() > 0,
        op2_substr@.len() > 0,
    ensures
        exists|pos: int| #[trigger]
            matched_from(
                old(tmp_buf)@,
                final(tmp_buf)@,
                found,
                pos,
                op1_substr@,
                op2_substr@,
            ),
        final(tmp_buf)@.len() <= old(tmp_buf)@.len() + op1_substr@.len() + op2_substr@.len(),
        old(tmp_buf)@.len() > 0 ==> final(tmp_buf)@.len() > 0,
{
    let pos: usize = choose_start(tmp_buf.len(), op1_substr, op2_substr, rng);
    let found = replace_operand_at(tmp_buf, pos, op1_substr, op2_substr);
    assert(matched_from(
        old(tmp_buf)@,
        tmp_buf@,
        found,
        pos as int,
        op1_substr@,
        op2_substr@,
    ));
    found
}

/// How often operands are exchanged for a seed of the given score.
pub open spec fn direct_copy_rounds(score: int, div: int) -> int {
    MAX_DIRECT_COPY_TIMES * score / div / 256
}

/// How many changes are made to an input, by the power of two that was drawn.
pub open spec fn stack_of(power: int) -> int {
    if power == 0 {
        2
    } else if power == 1 {
        4
    } else if power == 2 {
        8
    } else {
        16
    }
}

/// What is to be done next.
#[derive(Clone, Copy, Debug, PartialEq, Eq, Structural)]
pub enum TaintStep {
    /// Nothing: ask again.
    Again,
    /// Run the function that was loaded under this number on the input in
    /// work, with the operands of the given pair.
    Call { func: usize, index: usize },
    /// Run the target on the input in work.
    Run,
    /// The stage is over.
    Done,
}

/// The stage in which operands are exchanged.
#[derive(Debug)]
pub struct TaintFuzz {
    pub havoc_div: usize,
    /// The score of the seed, in percent.
    pub run_ratio: usize,
    /// Mutation functions are used.
    pub use_llm: bool,
    /// How many inputs are still to be made.
    pub rounds_left: usize,
    /// How many changes are still to be made to the input in work.
    pub stack_left: usize,
    /// The input in work was changed.
    pub mutated: bool,
    /// The input in work.
    pub work: Vec<u8>,
}

impl TaintFuzz {
    pub fn new(havoc_div: usize, use_llm: bool) -> (r: Self)
        requires
            havoc_div > 0,
        ensures
            r.havoc_div == havoc_div,
            r.use_llm == use_llm,
            r.run_ratio == 0,
            r.rounds_left == 0,
            r.stack_left == 0,
            !r.mutated,
            r.work@.len() == 0,
    {
        TaintFuzz {
            havoc_div,
            run_ratio: 0,
            use_llm,
            rounds_left: 0,
            stack_left: 0,
            mutated: false,
            work: Vec::new(),
        }
    }

    /// How much there may still be to do: every step makes it less, so the
    /// stage ends.
    pub open spec fn left(self) -> int {
        34 * self.rounds_left + 2 * self.stack_left + if self.mutated {
            1int
        } else {
            0
        }
    }

    /// Begins the stage on a seed of the given score. Without operands there
    /// is nothing to do.
    pub fn begin(&mut self, score: usize, operands: &Operands)
        requires
            old(self).havoc_div > 0,
            score <= 0x1_0000,
        ensures
            *final(self) == (TaintFuzz {
                run_ratio: score,
                rounds_left: if operands@.pairs.len() == 0 {
                    0
                } else {
                    direct_copy_rounds(score as int, old(self).havoc_div as int) as usize
                },
                stack_left: 0,
                mutated: false,
                ..*old(self)
            }),
            final(self).rounds_left == if operands@.pairs.len() == 0 {
                0
            } else {
                direct_copy_rounds(score as int, old(self).havoc_div as int)
            },
    {
        assert(0 <= MAX_DIRECT_COPY_TIMES * score <= 128 * 0x1_0000) by (nonlinear_arith)
            requires
                score <= 0x1_0000,
                MAX_DIRECT_COPY_TIMES == 128,
        ;
        self.run_ratio = score;
        self.rounds_left = if operands.direct_copy_pairs.len() == 0 {
            0
        } else {
            MAX_DIRECT_COPY_TIMES * score / self.havoc_div / 256
        };
        self.stack_left = 0;
        self.mutated = false;
    }

    /// The next input was begun as a copy of the seed, with as many changes
    /// to come as the power stands for.
    pub open spec fn begun_with(self, after: Self, seed: Seq<u8>, power: int) -> bool {
        &&& after.work@ == seed
        &&& after == (TaintFuzz {
            rounds_left: (self.rounds_left - 1) as usize,
            stack_left: stack_of(power) as usize,
            mutated: false,
            work: after.work,
            ..self
        })
    }

    /// Begins the next input, with as many changes to come as the power that
    /// was drawn stands for.
    pub fn begin_input(&mut self, seed: &Vec<u8>, power: usize)
        requires
            old(self).rounds_left > 0,
            power < HAVOC_STACK_POW2,
        ensures
            old(self).begun_with(*final(self), seed@, power as int),
    {
        self.rounds_left = self.rounds_left - 1;
        self.stack_left = if power == 0 {
            2
        } else if power == 1 {
            4
        } else if power == 2 {
            8
        } else {
            16
        };
        self.mutated = false;
        self.work = seed.clone();
        assert(self.work@ =~= seed@);
    }

    /// What is done by the draws: the function of the pair's branch is to be
    /// run if it is wanted and there is one. Otherwise the operands of the
    /// pair are exchanged at the first place that is found from `pos` on.
    pub open spec fn changed_by(
        self,
        after: Self,
        r: TaintStep,
        operands: OperandsView,
        global: &GlobalBranches,
        index: int,
        wants_function: bool,
        pos: int,
    ) -> bool {
        let a = operands.pairs[index].0.reverse();
        let b = operands.pairs[index].1.reverse();
        let known = global.info(operands.branches[index] as int).mutate_func;
        if wants_function && self.use_llm && self.work@.len() <= MAX_INPUT_LEN && known is Some {
            &&& r == (TaintStep::Call { func: known->0, index: index as usize })
            &&& after == (TaintFuzz { stack_left: (self.stack_left - 1) as usize, ..self })
        } else {
            &&& r == TaintStep::Again
            &&& after.work@ == operands_swapped(self.work@, pos, a, b)
            &&& after == (TaintFuzz {
                stack_left: (self.stack_left - 1) as usize,
                work: after.work,
                mutated: self.mutated || operand_is_found(self.work@, pos, a, b),
                ..self
            })
        }
    }

    /// Makes the next change to the input in work, by the draws: the pair, the
    /// wish for its branch's function, and the place where operands are
    /// looked for. A function is not run here, but asked for.
    pub fn change_by(
        &mut self,
        operands: &Operands,
        global: &GlobalBranches,
        index: usize,
        wants_function: bool,
        pos: usize,
    ) -> (r: TaintStep)
        requires
            operands.wf(),
            global.tables_wf(),
            old(self).stack_left > 0,
            index < operands@.pairs.len(),
            operands@.branches[index as int] < global.branch_boundary@.len(),
        ensures
            old(self).changed_by(
                *final(self),
                r,
                operands@,
                global,
                index as int,
                wants_function,
                pos as int,
            ),
    {
        self.stack_left = self.stack_left - 1;
        if wants_function && self.use_llm && self.work.len() <= MAX_INPUT_LEN {
            let branch: usize = operands.index_to_branch_dict[index];
            assert(operands@.branches[index as int] == branch);
            if let Some(func) = global.get_info(branch).mutate_func {
                return TaintStep::Call { func, index };
            }
        }
        let (op1, op2) = &operands.direct_copy_pairs[index];
        let ghost pair = operands@.pairs[index as int];
        assert(pair.0 == op1@ && pair.1 == op2@);
        if replace_operand_at(&mut self.work, pos, op1, op2) {
            self.mutated = true;
        }
        TaintStep::Again
    }

    /// Goes on by one change: to a pair that is drawn, its branch's function
    /// is applied, or the operands are exchanged. An input with all its
    /// changes is run if any was made; then the next is begun.
    pub fn next_step(
        &mut self,
        handler: &SearchHandler,
        global: &GlobalBranches,
        rng: &mut ThreadRng,
    ) -> (r: TaintStep)
        requires
            handler.operands.wf(),
            global.tables_wf(),
            old(self).stack_left > 0 || old(self).rounds_left > 0 ==> handler.operands@.pairs.len()
                > 0,
            forall|i: int|
                0 <= i < handler.operands@.branches.len() ==> (
                #[trigger] handler.operands@.branches[i]) < global.branch_boundary@.len(),
        ensures
            final(self).havoc_div == old(self).havoc_div,
            final(self).run_ratio == old(self).run_ratio,
            final(self).use_llm == old(self).use_llm,
            r != TaintStep::Done ==> final(self).left() < old(self).left(),
            r is Call ==> final(self).left() + 1 < old(self).left(),
            old(self).stack_left == 0 && old(self).mutated ==> {
                &&& r == TaintStep::Run
                &&& *final(self) == (TaintFuzz { mutated: false, ..*old(self) })
            },
            old(self).stack_left == 0 && !old(self).mutated ==> if old(self).rounds_left == 0 {
                &&& r == TaintStep::Done
                &&& *final(self) == *old(self)
            } else {
                &&& r == TaintStep::Again
                &&& exists|power: int|
                    0 <= power < HAVOC_STACK_POW2 && #[trigger] old(self).begun_with(
                        *final(self),
                        handler.buf@,
                        power,
                    )
            },
            old(self).stack_left > 0 ==> exists|index: int, wants_function: bool, pos: int|
                0 <= index < handler.operands@.pairs.len() && is_start(
                    old(self).work@.len() as int,
                    pos,
                    handler.operands@.pairs[index].0,
                    handler.operands@.pairs[index].1,
                ) && #[trigger] old(self).changed_by(
                    *final(self),
                    r,
                    handler.operands@,
                    global,
                    index,
                    wants_function,
                    pos,
                ),
    {
        if self.stack_left == 0 {
            if self.mutated {
                self.mutated = false;
                return TaintStep::Run;
            }
            if self.rounds_left == 0 {
                return TaintStep::Done;
            }
            let power: usize = below(rng, HAVOC_STACK_POW2);
            self.begin_input(&handler.buf, power);
            return TaintStep::Again;
        }
        let operands = &handler.operands;
        let index: usize = below(rng, operands.direct_copy_pairs.len());
        let wants_function = coin(rng);
        let (op1, op2) = &operands.direct_copy_pairs[index];
        let ghost pair = operands@.pairs[index as int];
        assert(pair.0 == op1@ && pair.1 == op2@);
        let pos: usize = choose_start(self.work.len(), op1, op2, rng);
        assert(operands@.branches[index as int] < global.branch_boundary@.len());
        self.change_by(operands, global, index, wants_function, pos)
    }

    /// Takes the result of the mutation function over that was run for pair
    /// `index`, and tells whether the input in work was changed. Any failure
    /// of a function is its last: it is dropped, and the operands of the pair
    /// are exchanged in its place.
    pub fn function_done(
        &mut self,
        result: Result<(i32, Vec<u8>), MutationError>,
        operands: &Operands,
        index: usize,
        global: &mut GlobalBranches,
        rng: &mut ThreadRng,
    ) -> (changed: bool)
        requires
            operands.wf(),
            index < operands@.pairs.len(),
            old(global).wf(),
            operands@.branches[index as int] < old(global).branch_boundary@.len(),
        ensures
            final(global).wf(),
            match result {
                Ok((1, mutated)) => {
                    &&& changed
                    &&& *final(self) == (TaintFuzz { work: mutated, mutated: true, ..*old(self) })
                    &&& *final(global) == *old(global)
                },
                Ok((0, _)) => {
                    &&& !changed
                    &&& *final(self) == *old(self)
                    &&& *final(global) == *old(global)
                },
                _ => {
                    let branch = operands@.branches[index as int] as int;
                    let pair = operands@.pairs[index as int];
                    &&& exists|pos: int| #[trigger]
                        matched_from(
                            old(self).work@,
                            final(self).work@,
                            changed,
                            pos,
                            pair.0,
                            pair.1,
                        )
                    &&& *final(self) == (TaintFuzz {
                        work: final(self).work,
                        mutated: old(self).mutated || changed,
                        ..*old(self)
                    })
                    &&& final(global).same_but(old(global), branch)
                    &&& final(global).info(branch) == (BranchMutateInfo {
                        mutate_func: None,
                        ..old(global).info(branch)
                    })
                },
            },
            final(self).left() <= old(self).left() + 1,
    {
        match result {
            Ok((1, mutated)) => {
                self.work = mutated;
                self.mutated = true;
                true
            },
            Ok((0, _)) => false,
            _ => {
                let branch: usize = operands.index_to_branch_dict[index];
                assert(operands@.branches[index as int] == branch);
                global.disable_function(branch);
                let (op1, op2) = &operands.direct_copy_pairs[index];
                let ghost pair = operands@.pairs[index as int];
                assert(pair.0 == op1@ && pair.1 == op2@);
                let found = match_and_replace_input(&mut self.work, op1, op2, rng);
                if found {
                    self.mutated = true;
                }
                proof {
                    let pos = choose|pos: int| #[trigger]
                        matched_from(old(self).work@, self.work@, found, pos, op1@, op2@);
                    assert(matched_from(old(self).work@, self.work@, found, pos, pair.0, pair.1));
                }
                found
            },
        }
    }
}

/// A payload lies behind its length in shared memory: four bytes, lowest first.
pub proof fn payloads_lie_behind_their_length(payload: Seq<u8>, i: int)
    requires
        payload.len() <= u32::MAX,
        0 <= i < payload.len(),
    ensures
        ({
            let s = framed(payload);
            &&& s.len() == payload.len() + 4
            &&& s[0] + 0x100 * s[1] + 0x1_0000 * s[2] + 0x100_0000 * s[3] == payload.len()
            &&& s[4 + i] == payload[i]
        }),
{
    let n = payload.len() as u32;
    lemma_length_word(n, payload);
    let s = framed(payload);
    assert(le_u32(s, 0) == n);
}

/// A function that is registered for the branch of a pair is called whenever it
/// is wanted, functions are in use, and the input is no longer than a million
/// bytes or so; otherwise the operands are exchanged, and no function is
/// called. Either way one change less is to come.
pub proof fn registered_functions_are_called(
    before: TaintFuzz,
    after: TaintFuzz,
    r: TaintStep,
    operands: OperandsView,
    global: &GlobalBranches,
    index: int,
    wants_function: bool,
    pos: int,
)
    requires
        before.stack_left > 0,
        0 <= index <= usize::MAX,
        before.changed_by(after, r, operands, global, index, wants_function, pos),
    ensures
        after.stack_left == before.stack_left - 1,
        after.rounds_left == before.rounds_left,
        ({
            let known = global.info(operands.branches[index] as int).mutate_func;
            if wants_function && before.use_llm && before.work@.len() <= 1048576 && known is Some {
                &&& r == (TaintStep::Call { func: known->0, index: index as usize })
                &&& after.work == before.work
                &&& after.mutated == before.mutated
            } else {
                &&& r == TaintStep::Again
                &&& after.mutated == (before.mutated || operand_is_found(
                    before.work@,
                    pos,
                    operands.pairs[index].0.reverse(),
                    operands.pairs[index].1.reverse(),
                ))
                &&& after.work@ == operands_swapped(
                    before.work@,
                    pos,
                    operands.pairs[index].0.reverse(),
                    operands.pairs[index].1.reverse(),
                )
            }
        }),
{
}

/// An exchange that is said to have found something did, from the place that
/// was drawn on; otherwise the input is as it was.
pub proof fn exchanges_say_what_they_found(
    s: Seq<u8>,
    r: Seq<u8>,
    found: bool,
    pos: int,
    a: Seq<u8>,
    b: Seq<u8>,
)
    requires
        matched_from(s, r, found, pos, a, b),
        a.len() > 0,
        b.len() > 0,
    ensures
        !found ==> r == s,
        a.len() <= s.len() && b.len() <= s.len() ==> (found <==> exists|p: int|
            pos <= p && p + a.len() <= s.len() && p + b.len() <= s.len()
                && #[trigger] either_stands_at(s, p, a, b)),
{
    if a.len() <= s.len() && b.len() <= s.len() {
        assert forall|p: int| #[trigger]
            either_stands_at(s, p, a.reverse(), b.reverse()) == either_stands_at(s, p, a, b) by {
            assert(a.reverse().reverse() =~= a);
            assert(b.reverse().reverse() =~= b);
        }
        if exists|p: int|
            pos <= p && p + a.len() <= s.len() && p + b.len() <= s.len()
                && #[trigger] either_stands_at(s, p, a, b) {
            let p = choose|p: int|
                pos <= p && p + a.len() <= s.len() && p + b.len() <= s.len()
                    && #[trigger] either_stands_at(s, p, a, b);
            lemma_found_from(s, pos, p, a.reverse(), b.reverse());
        } else {
            assert forall|k: int|
                pos <= k && k + a.reverse().len() <= s.len() && k + b.reverse().len()
                    <= s.len() implies !#[trigger] either_stands_at(
                s,
                k,
                a.reverse(),
                b.reverse(),
            ) by {
                assert(!either_stands_at(s, k, a, b));
            }
            nothing_is_swapped_unless_found(s, pos, a.reverse(), b.reverse());
        }
        if !found {
            lemma_not_found_stays(s, pos, a.reverse(), b.reverse());
        }
    }
}

proof fn lemma_found_from(s: Seq<u8>, pos: int, p: int, a: Seq<u8>, b: Seq<u8>)
    requires
        0 <= pos <= p,
        p + a.len() <= s.len(),
        p + b.len() <= s.len(),
        a.len() > 0,
        b.len() > 0,
        either_stands_at(s, p, a, b),
    ensures
        operand_is_found(s, pos, a, b),
    decreases p - pos,
{
    if pos == p {
        swaps_take_out_what_was_found(s, p, p, a, b);
    } else {
        lemma_found_from(s, pos + 1, p, a, b);
    }
}

proof fn lemma_not_found_stays(s: Seq<u8>, pos: int, a: Seq<u8>, b: Seq<u8>)
    requires
        !operand_is_found(s, pos, a, b),
    ensures
        operands_swapped(s, pos, a, b) == s,
    decreases s.len() - pos,
{
    if pos + longer(a, b) <= s.len() && pos < s.len() {
        lemma_not_found_stays(s, pos + 1, a, b);
    }
}


/// An input of another length begins as the seed does, and what is behind the
/// seed's end is new.
pub proof fn lengths_are_tried(s: Seq<u8>, len: int, tail: Seq<u8>, i: int)
    requires
        0 <= i < len,
        s.len() <= len ==> s.len() + tail.len() == len,
    ensures
        resized(s, len, tail).len() == len,
        i < s.len() ==> resized(s, len, tail)[i] == s[i],
        i >= s.len() ==> resized(s, len, tail)[i] == tail[i - s.len()],
{
}


/// An input gets two, four, eight or sixteen changes, and a seed of score 256
/// gets 128 inputs, if runs are not to be saved.
pub proof fn changes_come_in_powers_of_two(power: int, score: int, div: int)
    requires
        0 <= power < 3,
        0 <= score,
        0 < div,
    ensures
        stack_of(0) == 2,
        stack_of(power + 1) == 2 * stack_of(power),
        256 * (div * direct_copy_rounds(score, div)) <= 128 * score,
        128 * score < 256 * (div * (direct_copy_rounds(score, div) + 1)),
{
    let n = 128 * score;
    let q = n / div;
    vstd::arithmetic::div_mod::lemma_fundamental_div_mod(n, div);
    vstd::arithmetic::div_mod::lemma_mod_bound(n, div);
    let r = q / 256;
    assert(256 * (div * r) <= n && n < 256 * (div * (r + 1))) by (nonlinear_arith)
        requires
            n == div * q + n % div,
            0 <= n % div < div,
            256 * r <= q <= 256 * r + 255,
            div > 0,
    ;
}


/// The process of a mutation function exits with one if the input was changed,
/// with zero if it was not to be, and with two if that failed; what its exit
/// status is, its caller gets, any other status for a failure; and a process
/// that a signal ends has crashed.
pub proof fn processes_tell_results(code: int, exit: i32, signal: i32, dumped: bool)
    requires
        0 <= exit <= 255,
        1 <= signal <= 126,
    ensures
        status_for(code) == 1 <==> code == 1,
        status_for(code) == 0 <==> code == 0,
        status_for(code) == 2 <==> code != 1 && code != 0,
        worker_code((256 * exit) as i32) == Ok::<int, MutationError>(
            if exit <= 1 {
                exit as int
            } else {
                -1
            },
        ),
        worker_code(
            (signal + if dumped {
                128int
            } else {
                0
            }) as i32,
        ) == Err::<int, MutationError>(MutationError::WorkerCrashed),
{
    endings_are_told_apart(exit, signal, dumped);
}

} // verus!
