//! The havoc operators.
//!
//! Each operator draws where and how to change the input. What the draws lead
//! to is stated by a relation between the input before and after and the place
//! where the operator works: the result is that of some draw within the
//! operator's bounds. The place can be given or drawn, too.

use super::ascii::{change_number_at, digits, print_digits, with_changed_number};
use super::edits::{
    copied_in, copied_over, copy_of, copy_over_at, fill, filled, flip_at, flipped, picks_fit,
    replace, replaced, reversed, shift_at, shifted, shuffle_at, shuffled, switch_at, switched,
    with_number, write_number_at,
};
use super::handler::SearchHandler;
use super::operands::pair_bytes;
use crate::config::{
    ARITH_MAX, HAVOC_BLK_LARGE, HAVOC_BLK_MEDIUM, HAVOC_BLK_SMALL, HAVOC_BLK_XL, MAX_INPUT_LEN,
};
use crate::extras::{all_wf, tokens, ExtraData};
use crate::rng::{any_byte, below, below_u32, coin, gen_u64};
use rand::rngs::ThreadRng;
use vstd::prelude::*;

verus! {

/// The havoc operators.
#[derive(Copy, Clone, Debug, Hash, PartialEq, Eq, Structural)]
pub enum AFLMutator {
    BitFilp,
    Int8,
    Int16,
    Int16Be,
    Int32,
    Int32Be,
    Arith8Sub,
    Arith8Add,
    Arith16Sub,
    Arith16SubBe,
    Arith16Add,
    Arith16AddBe,
    Arith32Add,
    Arith32AddBe,
    Arith32Sub,
    Arith32SubBe,
    Rand8,
    CloneCopy,
    CloneFixed,
    OverWriteCopy,
    OverWriteFixed,
    ByteAdd,
    ByteSub,
    BitFilp8,
    Switch,
    Del,
    Shuffle,
    DelOne,
    InsertOne,
    AsciiNum,
    InsertAsciiNum,
    SpliceOverwrite,
    SpliceInsert,
    ExtraInsert,
    ExtraOverwrite,
    TraceCmpData,
    ConstStrcmpInsert,
    ConstStrcmpOverwrite,
    ConstCmpDataBe,
    ConstCmpData,
}

/// The length of blocks of the given kind, from the smallest to the largest,
/// if they may be at most `limit` long.
pub open spec fn block_range(kind: u32, limit: u32) -> (int, int) {
    let lo: int = if kind == 0 {
        1
    } else if kind == 1 {
        HAVOC_BLK_SMALL as int
    } else if kind == 2 {
        HAVOC_BLK_MEDIUM as int
    } else {
        HAVOC_BLK_LARGE as int
    };
    let hi: int = if kind == 0 {
        HAVOC_BLK_SMALL as int
    } else if kind == 1 {
        HAVOC_BLK_MEDIUM as int
    } else if kind == 2 {
        HAVOC_BLK_LARGE as int
    } else {
        HAVOC_BLK_XL as int
    };
    (
        if lo >= limit {
            1
        } else {
            lo
        },
        if hi < limit {
            hi
        } else {
            limit as int
        },
    )
}

/// A block may be `n` long if it may be at most `limit` long.
pub open spec fn is_block_len(limit: int, n: int) -> bool {
    1 <= n <= limit && n <= HAVOC_BLK_XL
}

/// The smallest and the largest length of a block of the given kind.
pub fn block_bounds(kind: u32, limit: u32) -> (r: (u32, u32))
    requires
        limit >= 1,
    ensures
        r.0 == block_range(kind, limit).0,
        r.1 == block_range(kind, limit).1,
        1 <= r.0 <= r.1 <= limit,
        r.1 <= HAVOC_BLK_XL,
{
    let lo: u32 = if kind == 0 {
        1
    } else if kind == 1 {
        HAVOC_BLK_SMALL
    } else if kind == 2 {
        HAVOC_BLK_MEDIUM
    } else {
        HAVOC_BLK_LARGE
    };
    let hi: u32 = if kind == 0 {
        HAVOC_BLK_SMALL
    } else if kind == 1 {
        HAVOC_BLK_MEDIUM
    } else if kind == 2 {
        HAVOC_BLK_LARGE
    } else {
        HAVOC_BLK_XL
    };
    (
        if lo >= limit {
            1
        } else {
            lo
        },
        if hi < limit {
            hi
        } else {
            limit
        },
    )
}

/// The kind of a block by two draws, of which the second counts only for
/// large blocks: one in ten of them is very large.
pub open spec fn kind_of(first: u32, second: u32) -> u32 {
    if first < 2 {
        first
    } else if second > 0 {
        2
    } else {
        3
    }
}

/// The kind of a block by two draws.
pub fn block_kind(first: u32, second: u32) -> (r: u32)
    ensures
        r == kind_of(first, second),
{
    if first < 2 {
        first
    } else if second > 0 {
        2
    } else {
        3
    }
}

/// The length of a block of the given kind, `more` above the smallest.
pub fn block_len(kind: u32, limit: u32, more: u32) -> (r: usize)
    requires
        limit >= 1,
        block_range(kind, limit).0 + more <= block_range(kind, limit).1,
    ensures
        r == block_range(kind, limit).0 + more,
        is_block_len(limit as int, r as int),
{
    let (lo, _) = block_bounds(kind, limit);
    (lo + more) as usize
}

/// Draws the length of a block: its kind, and then any length of that kind.
fn choose_block_len(rng: &mut ThreadRng, limit: usize) -> (r: usize)
    requires
        1 <= limit <= u32::MAX,
    ensures
        is_block_len(limit as int, r as int),
{
    let first: u32 = below_u32(rng, 3);
    let second: u32 = if first < 2 {
        0
    } else {
        below_u32(rng, 10)
    };
    let kind: u32 = block_kind(first, second);
    let (lo, hi) = block_bounds(kind, limit as u32);
    let more: u32 = below_u32(rng, hi - lo + 1);
    block_len(kind, limit as u32, more)
}

/// One-byte numbers that often matter.
pub open spec fn interesting_8() -> Seq<int> {
    seq![-128int, -1, 0, 1, 16, 32, 64, 100, 127]
}

/// Two-byte numbers that often matter.
pub open spec fn interesting_16() -> Seq<int> {
    interesting_8() + seq![-32768int, -129, 128, 255, 256, 512, 1000, 1024, 4096, 32767]
}

/// Four-byte numbers that often matter.
pub open spec fn interesting_32() -> Seq<int> {
    interesting_16() + seq![
        -2147483648int,
        -100663046,
        -32769,
        32768,
        65535,
        65536,
        100663045,
        2147483647,
    ]
}

/// Numbers that often matter, by width.
pub open spec fn interesting(width: int) -> Seq<int> {
    if width == 1 {
        interesting_8()
    } else if width == 2 {
        interesting_16()
    } else {
        interesting_32()
    }
}

/// The numbers of `v`.
pub open spec fn as_ints(v: Seq<i64>) -> Seq<int> {
    Seq::new(v.len(), |i: int| v[i] as int)
}

/// Numbers that often matter.
pub fn interesting_numbers(width: u32) -> (r: Vec<i64>)
    requires
        width == 1 || width == 2 || width == 4,
    ensures
        as_ints(r@) == interesting(width as int),
        r@.len() > 0,
{
    let mut r: Vec<i64> = vec![-128, -1, 0, 1, 16, 32, 64, 100, 127];
    assert(as_ints(r@) =~= interesting_8());
    if width >= 2 {
        let mut more: Vec<i64> = vec![-32768, -129, 128, 255, 256, 512, 1000, 1024, 4096, 32767];
        r.append(&mut more);
        assert(as_ints(r@) =~= interesting_16());
    }
    if width == 4 {
        let mut more: Vec<i64> = vec![
            -2147483648,
            -100663046,
            -32769,
            32768,
            65535,
            65536,
            100663045,
            2147483647,
        ];
        r.append(&mut more);
        assert(as_ints(r@) =~= interesting_32());
    }
    r
}

/// The two's complement of `v`, in 64 bits.
pub open spec fn complement(v: int) -> u64 {
    if v < 0 {
        (v + 0x1_0000_0000_0000_0000) as u64
    } else {
        v as u64
    }
}

/// One bit is set.
pub open spec fn is_single_bit(mask: u8) -> bool {
    mask == 1 || mask == 2 || mask == 4 || mask == 8 || mask == 16 || mask == 32 || mask == 64
        || mask == 128
}

/// The place `at` in an input of the given length, moved back as far as it
/// takes for `n` bytes to fit in there.
pub open spec fn fitted(at: int, len: int, n: int) -> int {
    if at + n <= len {
        at
    } else {
        len - n
    }
}

/// A bit of the byte at `at` was flipped.
pub open spec fn bit_flipped(s: Seq<u8>, r: Seq<u8>, at: int) -> bool {
    if s.len() == 0 {
        r == s
    } else {
        0 <= at < s.len() && exists|mask: u8|
            is_single_bit(mask) && r == #[trigger] flipped(s, at, mask)
    }
}

/// The low bytes of an interesting number were written at `at`.
pub open spec fn made_interesting(
    s: Seq<u8>,
    r: Seq<u8>,
    width: int,
    big: bool,
    at: int,
) -> bool {
    if s.len() < width {
        r == s
    } else {
        0 <= at < s.len() && exists|i: int|
            0 <= i < interesting(width).len() && r == #[trigger] with_number(
                s,
                fitted(at, s.len() as int, width),
                complement(interesting(width)[i]),
                width,
                big,
            )
    }
}

/// A small amount was added to the number at `at`, or taken off if `sub`
/// holds.
pub open spec fn arith_done(
    s: Seq<u8>,
    r: Seq<u8>,
    width: int,
    big: bool,
    sub: bool,
    at: int,
) -> bool {
    if s.len() < width {
        r == s
    } else {
        0 <= at < s.len() && exists|delta: int|
            1 <= (if sub {
                -delta
            } else {
                delta
            }) <= ARITH_MAX && r == #[trigger] shifted(
                s,
                fitted(at, s.len() as int, width),
                width,
                big,
                delta,
            )
    }
}

/// The byte at `at` was changed.
pub open spec fn byte_changed(s: Seq<u8>, r: Seq<u8>, at: int) -> bool {
    if s.len() == 0 {
        r == s
    } else {
        0 <= at < s.len() && exists|mask: u8| mask != 0 && r == #[trigger] flipped(s, at, mask)
    }
}

/// The input is too long to insert a block.
pub open spec fn is_long(s: Seq<u8>) -> bool {
    s.len() + HAVOC_BLK_XL >= MAX_INPUT_LEN
}

/// A block was copied and inserted before the byte at `at`.
pub open spec fn block_cloned(s: Seq<u8>, r: Seq<u8>, at: int) -> bool {
    if is_long(s) {
        r == s
    } else {
        0 <= at < s.len() && exists|from: int, n: int|
            is_block_len(s.len() as int, n) && 0 <= from <= s.len() - n && r
                == #[trigger] copied_in(s, from, at, n)
    }
}

/// `s` with `n` times `x` inserted at `to`.
pub open spec fn fill_inserted(s: Seq<u8>, to: int, x: u8, n: int) -> Seq<u8> {
    replaced(s, to, to, filled(x, n))
}

/// `s` with `n` times `x` written over the bytes at `to`.
pub open spec fn fill_written(s: Seq<u8>, to: int, x: u8, n: int) -> Seq<u8> {
    replaced(s, to, to + n, filled(x, n))
}

/// A block of one byte's value was inserted before the byte at `at`.
pub open spec fn block_filled_in(s: Seq<u8>, r: Seq<u8>, at: int) -> bool {
    if is_long(s) {
        r == s
    } else {
        0 <= at < s.len() && exists|x: u8, n: int|
            is_block_len(HAVOC_BLK_XL as int, n) && r == #[trigger] fill_inserted(s, at, x, n)
    }
}

/// A block was copied over the one at `at`.
pub open spec fn block_copied_over(s: Seq<u8>, r: Seq<u8>, at: int) -> bool {
    if s.len() < 2 {
        r == s
    } else {
        0 <= at && exists|from: int, n: int|
            is_block_len(s.len() - 1, n) && 0 <= from <= s.len() - n && at <= s.len() - n && from
                != at && r == #[trigger] copied_over(s, from, at, n)
    }
}

/// The block at `at` was filled with one byte's value.
pub open spec fn block_filled(s: Seq<u8>, r: Seq<u8>, at: int) -> bool {
    if s.len() < 2 {
        r == s
    } else {
        0 <= at && exists|x: u8, n: int|
            is_block_len(s.len() - 1, n) && at <= s.len() - n && r == #[trigger] fill_written(
                s,
                at,
                x,
                n,
            )
    }
}

/// `delta` was added to the byte at `at`.
pub open spec fn byte_added(s: Seq<u8>, r: Seq<u8>, delta: int, at: int) -> bool {
    if s.len() == 0 {
        r == s
    } else {
        0 <= at < s.len() && r == shifted(s, at, 1, false, delta)
    }
}

/// All bits of the byte at `at` were flipped.
pub open spec fn byte_flipped(s: Seq<u8>, r: Seq<u8>, at: int) -> bool {
    if s.len() == 0 {
        r == s
    } else {
        0 <= at < s.len() && r == flipped(s, at, 0xff)
    }
}

/// Blocks at `a` and `b` of length `n` can be switched in an input of the
/// given length.
pub open spec fn can_switch(len: int, a: int, b: int, n: int) -> bool {
    &&& 0 <= a < len
    &&& 0 <= b < len
    &&& a + n <= b || b + n <= a
    &&& a + n <= len
    &&& b + n <= len
    &&& 1 <= n <= HAVOC_BLK_XL
}

/// The block at `at` was switched with another.
pub open spec fn blocks_switched(s: Seq<u8>, r: Seq<u8>, at: int) -> bool {
    if s.len() < 4 {
        r == s
    } else {
        exists|b: int, n: int|
            can_switch(s.len() as int, at, b, n) && r == #[trigger] switched(s, at, b, n)
    }
}

/// `s` without the `n` bytes at `from`.
pub open spec fn without(s: Seq<u8>, from: int, n: int) -> Seq<u8> {
    replaced(s, from, from + n, Seq::empty())
}

/// The block at `at` was removed; something is left.
pub open spec fn block_removed(s: Seq<u8>, r: Seq<u8>, at: int) -> bool {
    if s.len() < 2 {
        r == s
    } else {
        0 <= at && exists|n: int|
            is_block_len(s.len() - 1, n) && at <= s.len() - n && r == #[trigger] without(s, at, n)
    }
}

/// The block at `at` was shuffled.
pub open spec fn block_shuffled(s: Seq<u8>, r: Seq<u8>, at: int) -> bool {
    if s.len() < 4 {
        r == s
    } else {
        0 <= at && exists|picks: Seq<usize>|
            picks_fit(picks) && is_block_len(s.len() - 1, 1 + picks.len() as int) && at <= s.len()
                - picks.len() - 1 && r == #[trigger] shuffled(s, at, picks)
    }
}

/// The byte at `at` was removed.
pub open spec fn byte_removed(s: Seq<u8>, r: Seq<u8>, at: int) -> bool {
    if s.len() < 2 {
        r == s
    } else {
        0 <= at < s.len() && r == without(s, at, 1)
    }
}

/// A byte was inserted at `at`.
pub open spec fn byte_inserted(s: Seq<u8>, r: Seq<u8>, at: int) -> bool {
    if s.len() < 2 {
        r == s
    } else {
        0 <= at <= s.len() && exists|x: u8| r == #[trigger] fill_inserted(s, at, x, 1)
    }
}

/// The decimal number that is found from `at` on was changed.
pub open spec fn number_changed(s: Seq<u8>, r: Seq<u8>, at: int) -> bool {
    if s.len() < 4 {
        r == s
    } else {
        0 <= at < s.len() && exists|op: u8, wide: u64, small: u8|
            op < 8 && r == #[trigger] with_changed_number(s, at, op, wide, small)
    }
}

/// `s` with the first digits of `x`, at most `n`, written at `pos`.
pub open spec fn digits_written(s: Seq<u8>, pos: int, x: u64, n: int) -> Seq<u8> {
    let d = digits(x as nat);
    let k = if n < d.len() {
        n
    } else {
        d.len() as int
    };
    replaced(s, pos, pos + k, d.take(k))
}

/// The first `n` digits of `x` were written at `at`, if there was room for as
/// many.
pub open spec fn digits_put(s: Seq<u8>, r: Seq<u8>, at: int, x: u64, n: int) -> bool {
    1 <= n <= 8 && (if s.len() < n {
        r == s
    } else {
        0 <= at < s.len() && r == digits_written(s, fitted(at, s.len() as int, n), x, n)
    })
}

/// The first digits of a number were written at `at`, if there was room for
/// as many as were wanted.
pub open spec fn number_written(s: Seq<u8>, r: Seq<u8>, at: int) -> bool {
    exists|x: u64, n: int| #[trigger] digits_put(s, r, at, x, n)
}

/// `s` with the `n` bytes at `from` of `other` written at `to`.
pub open spec fn splice_written(
    s: Seq<u8>,
    other: Seq<u8>,
    from: int,
    to: int,
    n: int,
) -> Seq<u8> {
    replaced(s, to, to + n, other.subrange(from, from + n))
}

/// A block of another input was written over the one at `at`.
pub open spec fn splice_overwritten(s: Seq<u8>, r: Seq<u8>, other: Seq<u8>, at: int) -> bool {
    if other.len() < 4 {
        r == s
    } else {
        0 <= at && exists|from: int, n: int|
            (n == s.len() || is_block_len(other.len() - 1, n)) && n <= HAVOC_BLK_XL && n
                <= other.len() - 1 && 0 <= n && 0 <= from <= other.len() - n && at <= s.len() - n
                && r == #[trigger] splice_written(s, other, from, at, n)
    }
}

/// `s` with the `n` bytes at `from` of `other` inserted at `to`, and one more
/// byte behind the end.
pub open spec fn splice_inserted(
    s: Seq<u8>,
    other: Seq<u8>,
    from: int,
    to: int,
    n: int,
    last: u8,
) -> Seq<u8> {
    replaced(s, to, to, other.subrange(from, from + n)).push(last)
}

/// A block of another input was inserted at `at`.
pub open spec fn splice_put_in(s: Seq<u8>, r: Seq<u8>, other: Seq<u8>, at: int) -> bool {
    if is_long(s) || other.len() < 4 {
        r == s
    } else {
        0 <= at <= s.len() && exists|from: int, n: int, last: u8|
            is_block_len(other.len() as int, n) && 0 <= from <= other.len() - n && r
                == #[trigger] splice_inserted(s, other, from, at, n, last)
    }
}

/// `s` with `token` inserted at `to`.
pub open spec fn token_put_in(s: Seq<u8>, token: Seq<u8>, to: int) -> Seq<u8> {
    replaced(s, to, to, token)
}

/// `s` with `token` written at `to`.
pub open spec fn token_written(s: Seq<u8>, token: Seq<u8>, to: int) -> Seq<u8> {
    replaced(s, to, to + token.len(), token)
}

/// One of the tokens was inserted at `at`, if the input does not get too long
/// by it.
pub open spec fn token_inserted(s: Seq<u8>, r: Seq<u8>, all: Seq<Seq<u8>>, at: int) -> bool {
    if all.len() == 0 {
        r == s
    } else {
        exists|k: int|
            #![trigger all[k]]
            0 <= k < all.len() && (if s.len() + all[k].len() >= MAX_INPUT_LEN {
                r == s
            } else {
                0 <= at <= s.len() && r == token_put_in(s, all[k], at)
            })
    }
}

/// One of the tokens was written over the block at `at`, if it fits in.
pub open spec fn token_overwritten(s: Seq<u8>, r: Seq<u8>, all: Seq<Seq<u8>>, at: int) -> bool {
    if all.len() == 0 {
        r == s
    } else {
        exists|k: int|
            #![trigger all[k]]
            0 <= k < all.len() && (if all[k].len() > s.len() {
                r == s
            } else {
                0 <= at <= s.len() && r == token_written(
                    s,
                    all[k],
                    fitted(at, s.len() as int, all[k].len() as int),
                )
            })
    }
}

/// One of the constants was written over the block at `at`, if it fits in.
pub open spec fn constant_written(
    s: Seq<u8>,
    r: Seq<u8>,
    all: Seq<(u64, usize)>,
    big: bool,
    at: int,
) -> bool {
    if all.len() == 0 {
        r == s
    } else {
        exists|k: int|
            #![trigger all[k]]
            0 <= k < all.len() && (if all[k].1 > s.len() {
                r == s
            } else {
                0 <= at <= s.len() && r == with_number(
                    s,
                    fitted(at, s.len() as int, all[k].1 as int),
                    all[k].0,
                    all[k].1 as int,
                    big,
                )
            })
    }
}

/// `s` with one of two operands at `pos` replaced by the other, in either
/// byte order; nothing if neither is there.
pub open spec fn operand_swap(s: Seq<u8>, pos: int, a: Seq<u8>, b: Seq<u8>) -> Option<Seq<u8>> {
    if s.subrange(pos, pos + a.len()) == a.reverse() {
        Some(replaced(s, pos, pos + a.len(), b.reverse()))
    } else if s.subrange(pos, pos + b.len()) == b.reverse() {
        Some(replaced(s, pos, pos + b.len(), a.reverse()))
    } else if s.subrange(pos, pos + a.len()) == a {
        Some(replaced(s, pos, pos + a.len(), b))
    } else if s.subrange(pos, pos + b.len()) == b {
        Some(replaced(s, pos, pos + b.len(), a))
    } else {
        None
    }
}

/// The length of the longer operand.
pub open spec fn longer(a: Seq<u8>, b: Seq<u8>) -> int {
    if a.len() >= b.len() {
        a.len() as int
    } else {
        b.len() as int
    }
}

/// `s` with the first operand found from `pos` on replaced by the other.
pub open spec fn operands_swapped(s: Seq<u8>, pos: int, a: Seq<u8>, b: Seq<u8>) -> Seq<u8>
    decreases s.len() - pos,
{
    if pos + longer(a, b) > s.len() || pos >= s.len() {
        s
    } else {
        match operand_swap(s, pos, a, b) {
            Some(r) => r,
            None => operands_swapped(s, pos + 1, a, b),
        }
    }
}

/// One of the operands is found from `pos` on.
pub open spec fn operand_is_found(s: Seq<u8>, pos: int, a: Seq<u8>, b: Seq<u8>) -> bool
    decreases s.len() - pos,
{
    if pos + longer(a, b) > s.len() || pos >= s.len() {
        false
    } else {
        operand_swap(s, pos, a, b) is Some || operand_is_found(s, pos + 1, a, b)
    }
}

/// Exchanging operands changes the length by no more than theirs.
pub proof fn swaps_are_short(s: Seq<u8>, pos: int, a: Seq<u8>, b: Seq<u8>)
    requires
        0 <= pos,
        a.len() > 0,
        b.len() > 0,
    ensures
        operands_swapped(s, pos, a, b).len() <= s.len() + a.len() + b.len(),
        s.len() > 0 ==> operands_swapped(s, pos, a, b).len() > 0,
    decreases s.len() - pos,
{
    if pos + longer(a, b) <= s.len() && pos < s.len() {
        if operand_swap(s, pos, a, b) is None {
            swaps_are_short(s, pos + 1, a, b);
        }
    }
}

/// The bytes of `x` stand at `p`.
pub open spec fn stands_at(s: Seq<u8>, p: int, x: Seq<u8>) -> bool {
    0 <= p && p + x.len() <= s.len() && forall|i: int|
        #![trigger x[i]]
        0 <= i < x.len() ==> s[p + i] == x[i]
}

/// One of two operands stands at `p`, in either byte order.
pub open spec fn either_stands_at(s: Seq<u8>, p: int, a: Seq<u8>, b: Seq<u8>) -> bool {
    stands_at(s, p, a) || stands_at(s, p, b) || stands_at(s, p, a.reverse()) || stands_at(
        s,
        p,
        b.reverse(),
    )
}

proof fn lemma_stands_at(s: Seq<u8>, p: int, x: Seq<u8>)
    requires
        0 <= p,
        p + x.len() <= s.len(),
    ensures
        stands_at(s, p, x) == (s.subrange(p, p + x.len()) == x),
{
    let t = s.subrange(p, p + x.len());
    if stands_at(s, p, x) {
        assert forall|i: int| 0 <= i < x.len() implies t[i] == x[i] by {
            assert(s[p + i] == x[i]);
        }
        assert(t =~= x);
    }
    if t == x {
        assert forall|i: int| #![trigger x[i]] 0 <= i < x.len() implies s[p + i] == x[i] by {
            assert(t[i] == x[i]);
        }
    }
}

proof fn lemma_swap_place(s: Seq<u8>, pos: int, p: int, a: Seq<u8>, b: Seq<u8>)
    requires
        0 <= pos <= p,
        p + a.len() <= s.len(),
        p + b.len() <= s.len(),
        a.len() > 0,
        b.len() > 0,
        forall|k: int| pos <= k < p ==> !#[trigger] either_stands_at(s, k, a, b),
    ensures
        operands_swapped(s, pos, a, b) == operands_swapped(s, p, a, b),
        operand_is_found(s, pos, a, b) == operand_is_found(s, p, a, b),
    decreases p - pos,
{
    if pos < p {
        assert(!either_stands_at(s, pos, a, b));
        assert(a.reverse().len() == a.len() && b.reverse().len() == b.len());
        lemma_stands_at(s, pos, a);
        lemma_stands_at(s, pos, b);
        lemma_stands_at(s, pos, a.reverse());
        lemma_stands_at(s, pos, b.reverse());
        lemma_swap_place(s, pos + 1, p, a, b);
    }
}

/// Where neither operand stands, the search goes on with the next place.
pub proof fn lemma_swap_goes_on(s: Seq<u8>, pos: int, a: Seq<u8>, b: Seq<u8>)
    requires
        0 <= pos,
        a.len() > 0,
        b.len() > 0,
        !either_stands_at(s, pos, a, b),
    ensures
        operands_swapped(s, pos, a, b) == operands_swapped(s, pos + 1, a, b),
{
    if pos + longer(a, b) <= s.len() {
        assert(a.reverse().len() == a.len() && b.reverse().len() == b.len());
        lemma_stands_at(s, pos, a);
        lemma_stands_at(s, pos, b);
        lemma_stands_at(s, pos, a.reverse());
        lemma_stands_at(s, pos, b.reverse());
    }
}

/// An exchange takes out the operand that was found, and nothing else, and puts
/// the other in its place in the same byte order. Of the places from `pos` on
/// at which both operands would fit in the first one counts. There the first
/// operand is looked for before the second, and reversed bytes before the
/// others.
pub proof fn swaps_take_out_what_was_found(
    s: Seq<u8>,
    pos: int,
    p: int,
    a: Seq<u8>,
    b: Seq<u8>,
)
    requires
        0 <= pos <= p,
        p + a.len() <= s.len(),
        p + b.len() <= s.len(),
        a.len() > 0,
        b.len() > 0,
        forall|k: int| pos <= k < p ==> !#[trigger] either_stands_at(s, k, a, b),
        either_stands_at(s, p, a, b),
    ensures
        operand_is_found(s, pos, a, b),
        ({
            let r = operands_swapped(s, pos, a, b);
            if stands_at(s, p, a.reverse()) {
                r == s.take(p) + b.reverse() + s.skip(p + a.len())
            } else if stands_at(s, p, b.reverse()) {
                r == s.take(p) + a.reverse() + s.skip(p + b.len())
            } else if stands_at(s, p, a) {
                r == s.take(p) + b + s.skip(p + a.len())
            } else {
                r == s.take(p) + a + s.skip(p + b.len())
            }
        }),
{
    lemma_swap_place(s, pos, p, a, b);
    assert(a.reverse().len() == a.len() && b.reverse().len() == b.len());
    lemma_stands_at(s, p, a);
    lemma_stands_at(s, p, b);
    lemma_stands_at(s, p, a.reverse());
    lemma_stands_at(s, p, b.reverse());
    assert(operand_swap(s, p, a, b) is Some);
    let r = operands_swapped(s, pos, a, b);
    assert(r == operands_swapped(s, p, a, b));
    assert(s.take(p) =~= s.subrange(0, p));
    assert(s.skip(p + a.len()) =~= s.subrange(p + a.len(), s.len() as int));
    assert(s.skip(p + b.len()) =~= s.subrange(p + b.len(), s.len() as int));
}

/// Where neither operand is found, nothing is exchanged.
pub proof fn nothing_is_swapped_unless_found(s: Seq<u8>, pos: int, a: Seq<u8>, b: Seq<u8>)
    requires
        0 <= pos,
        a.len() > 0,
        b.len() > 0,
        forall|k: int|
            pos <= k && k + a.len() <= s.len() && k + b.len() <= s.len()
                ==> !#[trigger] either_stands_at(s, k, a, b),
    ensures
        operands_swapped(s, pos, a, b) == s,
        !operand_is_found(s, pos, a, b),
{
    let max = longer(a, b);
    if pos + max <= s.len() {
        let last = s.len() - max;
        assert(a.len() <= max && b.len() <= max && (a.len() == max || b.len() == max));
        lemma_swap_place(s, pos, last, a, b);
        assert(!either_stands_at(s, last, a, b));
        assert(a.reverse().len() == a.len() && b.reverse().len() == b.len());
        lemma_stands_at(s, last, a);
        lemma_stands_at(s, last, b);
        lemma_stands_at(s, last, a.reverse());
        lemma_stands_at(s, last, b.reverse());
        assert(operands_swapped(s, last + 1, a, b) == s);
        assert(!operand_is_found(s, last + 1, a, b));
    }
}

/// The first operand found from `at` on was replaced, if both fit in.
pub open spec fn operand_replaced_from(
    s: Seq<u8>,
    r: Seq<u8>,
    at: int,
    a: Seq<u8>,
    b: Seq<u8>,
) -> bool {
    if longer(a, b) > s.len() {
        r == s
    } else {
        0 <= at <= s.len() && r == operands_swapped(
            s,
            fitted(at, s.len() as int, longer(a, b)),
            a,
            b,
        )
    }
}

/// An operand that is found from `at` on was replaced by the one it was
/// compared with.
pub open spec fn operand_replaced(
    s: Seq<u8>,
    r: Seq<u8>,
    all: Seq<(Seq<u8>, Seq<u8>)>,
    at: int,
) -> bool {
    if all.len() == 0 {
        r == s
    } else {
        exists|k: int|
            0 <= k < all.len() && #[trigger] operand_replaced_from(
                s,
                r,
                at,
                all[k].0,
                all[k].1,
            )
    }
}

/// A place in an input.
pub open spec fn place(at: usize) -> int {
    at as int
}

/// `p` is the place that is given, or any.
pub open spec fn is_place(at: Option<usize>, p: int) -> bool {
    at matches Some(q) ==> p == q
}

/// The place that is given, or else the one that was drawn.
pub open spec fn place_or(at: Option<usize>, pos: int) -> int {
    match at {
        Some(q) => q as int,
        None => pos,
    }
}

/// The place for `n` bytes: the one that is given, moved back as far as they
/// need to fit in, or any.
fn place_for(at: Option<usize>, len: usize, n: usize, rng: &mut ThreadRng) -> (pos: usize)
    requires
        n <= len,
        len - n < usize::MAX,
    ensures
        pos <= len - n,
        at matches Some(q) ==> pos == fitted(q as int, len as int, n as int),
{
    match at {
        Some(q) => if q <= len - n {
            q
        } else {
            len - n
        },
        None => below(rng, len - n + 1),
    }
}

/// The length of a block that leaves something of the input over: at the
/// place that is given, or at any.
fn part_len(at: Option<usize>, len: usize, rng: &mut ThreadRng) -> (n: usize)
    requires
        2 <= len <= u32::MAX,
        at matches Some(q) ==> q < len,
    ensures
        is_block_len(len - 1, n as int),
        at matches Some(q) ==> q + n <= len,
{
    match at {
        Some(q) => choose_block_len(
            rng,
            if q > 0 {
                len - q
            } else {
                len - 1
            },
        ),
        None => choose_block_len(rng, len - 1),
    }
}

/// Flips a bit of the byte at `at`.
pub(crate) fn flip_bit_at(buf: &mut Vec<u8>, at: usize, rng: &mut ThreadRng)
    requires
        at < old(buf)@.len(),
    ensures
        bit_flipped(old(buf)@, final(buf)@, at as int),
{
    let bit: u32 = below_u32(rng, 8);
    let mask: u8 = 1u8 << bit;
    proof {
        assert(bit < 8 ==> ((1u8 << bit) == 1 || (1u8 << bit) == 2 || (1u8 << bit) == 4 || (1u8
            << bit) == 8 || (1u8 << bit) == 16 || (1u8 << bit) == 32 || (1u8 << bit) == 64 || (1u8
            << bit) == 128)) by (bit_vector);
    }
    flip_at(buf, at, mask);
}

/// Flips a bit.
pub fn mut_bitflip(buf: &mut Vec<u8>, rng: &mut ThreadRng)
    ensures
        exists|at: int| #[trigger] bit_flipped(old(buf)@, final(buf)@, at),
{
    if buf.len() == 0 {
        assert(bit_flipped(buf@, buf@, 0));
        return;
    }
    let at: usize = below(rng, buf.len());
    flip_bit_at(buf, at, rng);
}

/// Writes an interesting number at the place that is given, or at any.
pub(crate) fn write_interesting(
    buf: &mut Vec<u8>,
    at: Option<usize>,
    rng: &mut ThreadRng,
    width: u32,
    big: bool,
)
    requires
        width == 1 || width == 2 || width == 4,
        at matches Some(q) ==> q < old(buf)@.len(),
    ensures
        exists|p: int|
            is_place(at, p) && #[trigger] made_interesting(
                old(buf)@,
                final(buf)@,
                width as int,
                big,
                p,
            ),
{
    if buf.len() < width as usize {
        assert(made_interesting(buf@, buf@, width as int, big, place_or(at, 0)));
        return;
    }
    let numbers: Vec<i64> = interesting_numbers(width);
    let item: usize = below(rng, numbers.len());
    let pos: usize = place_for(at, buf.len(), width as usize, rng);
    let v: i64 = numbers[item];
    assert(interesting(width as int)[item as int] == v);
    let x: u64 = if v < 0 {
        (v as i128 + 0x1_0000_0000_0000_0000) as u64
    } else {
        v as u64
    };
    assert(x == complement(interesting(width as int)[item as int]));
    write_number_at(buf, pos, x, width, big);
    let ghost p = place_or(at, pos as int);
    assert(buf@ == with_number(
        old(buf)@,
        fitted(p, old(buf)@.len() as int, width as int),
        complement(interesting(width as int)[item as int]),
        width as int,
        big,
    ));
    assert(made_interesting(old(buf)@, buf@, width as int, big, p));
}

/// Writes an interesting byte.
pub fn mut_interesting8(buf: &mut Vec<u8>, rng: &mut ThreadRng)
    ensures
        exists|at: int| #[trigger] made_interesting(old(buf)@, final(buf)@, 1, false, at),
{
    write_interesting(buf, None, rng, 1, false);
}

/// Writes an interesting number of two bytes, lowest byte first.
pub fn mut_interesting16(buf: &mut Vec<u8>, rng: &mut ThreadRng)
    ensures
        exists|at: int| #[trigger] made_interesting(old(buf)@, final(buf)@, 2, false, at),
{
    write_interesting(buf, None, rng, 2, false);
}

/// Writes an interesting number of two bytes, highest byte first.
pub fn mut_interesting16_be(buf: &mut Vec<u8>, rng: &mut ThreadRng)
    ensures
        exists|at: int| #[trigger] made_interesting(old(buf)@, final(buf)@, 2, true, at),
{
    write_interesting(buf, None, rng, 2, true);
}

/// Writes an interesting number of four bytes, lowest byte first.
pub fn mut_interesting32(buf: &mut Vec<u8>, rng: &mut ThreadRng)
    ensures
        exists|at: int| #[trigger] made_interesting(old(buf)@, final(buf)@, 4, false, at),
{
    write_interesting(buf, None, rng, 4, false);
}

/// Writes an interesting number of four bytes, highest byte first.
pub fn mut_interesting32_be(buf: &mut Vec<u8>, rng: &mut ThreadRng)
    ensures
        exists|at: int| #[trigger] made_interesting(old(buf)@, final(buf)@, 4, true, at),
{
    write_interesting(buf, None, rng, 4, true);
}

/// Adds a small amount to the number at the place that is given, or at any, or
/// takes it off.
pub(crate) fn arith(
    buf: &mut Vec<u8>,
    at: Option<usize>,
    rng: &mut ThreadRng,
    width: u32,
    big: bool,
    sub: bool,
)
    requires
        width == 1 || width == 2 || width == 4,
        at matches Some(q) ==> q < old(buf)@.len(),
    ensures
        exists|p: int|
            is_place(at, p) && #[trigger] arith_done(
                old(buf)@,
                final(buf)@,
                width as int,
                big,
                sub,
                p,
            ),
{
    if buf.len() < width as usize {
        assert(arith_done(buf@, buf@, width as int, big, sub, place_or(at, 0)));
        return;
    }
    let pos: usize = place_for(at, buf.len(), width as usize, rng);
    let item: u8 = 1 + below_u32(rng, ARITH_MAX) as u8;
    shift_at(buf, pos, width, big, item, sub);
    let ghost p = place_or(at, pos as int);
    let ghost delta = if sub {
        -(item as int)
    } else {
        item as int
    };
    assert(buf@ == shifted(
        old(buf)@,
        fitted(p, old(buf)@.len() as int, width as int),
        width as int,
        big,
        delta,
    ));
    assert(arith_done(old(buf)@, buf@, width as int, big, sub, p));
}

/// Takes a small amount off a byte.
pub fn mut_arith8_sub(buf: &mut Vec<u8>, rng: &mut ThreadRng)
    ensures
        exists|at: int| #[trigger] arith_done(old(buf)@, final(buf)@, 1, false, true, at),
{
    arith(buf, None, rng, 1, false, true);
}

/// Adds a small amount to a byte.
pub fn mut_arith8_add(buf: &mut Vec<u8>, rng: &mut ThreadRng)
    ensures
        exists|at: int| #[trigger] arith_done(old(buf)@, final(buf)@, 1, false, false, at),
{
    arith(buf, None, rng, 1, false, false);
}

/// Takes a small amount off a number of two bytes, lowest first.
pub fn mut_arith16_sub(buf: &mut Vec<u8>, rng: &mut ThreadRng)
    ensures
        exists|at: int| #[trigger] arith_done(old(buf)@, final(buf)@, 2, false, true, at),
{
    arith(buf, None, rng, 2, false, true);
}

/// Adds a small amount to a number of two bytes, lowest first.
pub fn mut_arith16_add(buf: &mut Vec<u8>, rng: &mut ThreadRng)
    ensures
        exists|at: int| #[trigger] arith_done(old(buf)@, final(buf)@, 2, false, false, at),
{
    arith(buf, None, rng, 2, false, false);
}

/// Takes a small amount off a number of two bytes, highest first.
pub fn mut_arith16_sub_be(buf: &mut Vec<u8>, rng: &mut ThreadRng)
    ensures
        exists|at: int| #[trigger] arith_done(old(buf)@, final(buf)@, 2, true, true, at),
{
    arith(buf, None, rng, 2, true, true);
}

/// Adds a small amount to a number of two bytes, highest first.
pub fn mut_arith16_add_be(buf: &mut Vec<u8>, rng: &mut ThreadRng)
    ensures
        exists|at: int| #[trigger] arith_done(old(buf)@, final(buf)@, 2, true, false, at),
{
    arith(buf, None, rng, 2, true, false);
}

/// Takes a small amount off a number of four bytes, lowest first.
pub fn mut_arith32_sub(buf: &mut Vec<u8>, rng: &mut ThreadRng)
    ensures
        exists|at: int| #[trigger] arith_done(old(buf)@, final(buf)@, 4, false, true, at),
{
    arith(buf, None, rng, 4, false, true);
}

/// Adds a small amount to a number of four bytes, lowest first.
pub fn mut_arith32_add(buf: &mut Vec<u8>, rng: &mut ThreadRng)
    ensures
        exists|at: int| #[trigger] arith_done(old(buf)@, final(buf)@, 4, false, false, at),
{
    arith(buf, None, rng, 4, false, false);
}

/// Takes a small amount off a number of four bytes, highest first.
pub fn mut_arith32_sub_be(buf: &mut Vec<u8>, rng: &mut ThreadRng)
    ensures
        exists|at: int| #[trigger] arith_done(old(buf)@, final(buf)@, 4, true, true, at),
{
    arith(buf, None, rng, 4, true, true);
}

/// Adds a small amount to a number of four bytes, highest first.
pub fn mut_arith32_add_be(buf: &mut Vec<u8>, rng: &mut ThreadRng)
    ensures
        exists|at: int| #[trigger] arith_done(old(buf)@, final(buf)@, 4, true, false, at),
{
    arith(buf, None, rng, 4, true, false);
}

/// Changes the byte at `at`.
pub(crate) fn change_byte_at(buf: &mut Vec<u8>, at: usize, rng: &mut ThreadRng)
    requires
        at < old(buf)@.len(),
    ensures
        byte_changed(old(buf)@, final(buf)@, at as int),
{
    let item: u8 = 1 + below_u32(rng, 255) as u8;
    flip_at(buf, at, item);
}

/// Changes a byte.
pub fn mut_rand8(buf: &mut Vec<u8>, rng: &mut ThreadRng)
    ensures
        exists|at: int| #[trigger] byte_changed(old(buf)@, final(buf)@, at),
{
    if buf.len() == 0 {
        assert(byte_changed(buf@, buf@, 0));
        return;
    }
    let at: usize = below(rng, buf.len());
    change_byte_at(buf, at, rng);
}

/// Inserts a copy of a block at `at`. `tmp_buf` gets the input as it was.
pub(crate) fn clone_copy_at(
    buf: &mut Vec<u8>,
    at: usize,
    rng: &mut ThreadRng,
    tmp_buf: &mut Vec<u8>,
)
    requires
        at < old(buf)@.len(),
    ensures
        block_cloned(old(buf)@, final(buf)@, at as int),
        final(tmp_buf)@ == if is_long(old(buf)@) {
            old(tmp_buf)@
        } else {
            old(buf)@
        },
{
    if buf.len() >= MAX_INPUT_LEN - HAVOC_BLK_XL as usize {
        return;
    }
    let n: usize = choose_block_len(rng, buf.len());
    let from: usize = below(rng, buf.len() - n + 1);
    let block: Vec<u8> = copy_of(buf, from, n);
    *tmp_buf = buf.clone();
    assert(tmp_buf@ =~= buf@);
    replace(buf, at, at, &block);
    assert(buf@ == copied_in(old(buf)@, from as int, at as int, n as int));
}

/// Inserts a copy of a block. `tmp_buf` gets the input as it was.
pub fn mut_clone_copy(buf: &mut Vec<u8>, rng: &mut ThreadRng, tmp_buf: &mut Vec<u8>)
    requires
        old(buf)@.len() > 0,
    ensures
        exists|at: int| #[trigger] block_cloned(old(buf)@, final(buf)@, at),
        final(tmp_buf)@ == if is_long(old(buf)@) {
            old(tmp_buf)@
        } else {
            old(buf)@
        },
{
    let at: usize = below(rng, buf.len());
    clone_copy_at(buf, at, rng, tmp_buf);
}

/// Inserts a block of one byte's value at `at`. `tmp_buf` gets the input as it
/// was.
pub(crate) fn clone_fixed_at(
    buf: &mut Vec<u8>,
    at: usize,
    rng: &mut ThreadRng,
    tmp_buf: &mut Vec<u8>,
)
    requires
        at < old(buf)@.len(),
    ensures
        block_filled_in(old(buf)@, final(buf)@, at as int),
        final(tmp_buf)@ == if is_long(old(buf)@) {
            old(tmp_buf)@
        } else {
            old(buf)@
        },
{
    if buf.len() >= MAX_INPUT_LEN - HAVOC_BLK_XL as usize {
        return;
    }
    let n: usize = choose_block_len(rng, HAVOC_BLK_XL as usize);
    let item: u8 = choose_item(buf, at, rng);
    let block: Vec<u8> = fill(item, n);
    *tmp_buf = buf.clone();
    assert(tmp_buf@ =~= buf@);
    replace(buf, at, at, &block);
    assert(buf@ == fill_inserted(old(buf)@, at as int, item, n as int));
}

/// Inserts a block of one byte's value. `tmp_buf` gets the input as it was.
pub fn mut_clone_fixed(buf: &mut Vec<u8>, rng: &mut ThreadRng, tmp_buf: &mut Vec<u8>)
    requires
        old(buf)@.len() > 0,
    ensures
        exists|at: int| #[trigger] block_filled_in(old(buf)@, final(buf)@, at),
        final(tmp_buf)@ == if is_long(old(buf)@) {
            old(tmp_buf)@
        } else {
            old(buf)@
        },
{
    let at: usize = below(rng, buf.len());
    clone_fixed_at(buf, at, rng, tmp_buf);
}

/// The byte before `to`, or the first.
pub open spec fn neighbor(buf: Seq<u8>, to: int) -> u8 {
    buf[if to > 0 {
        to - 1
    } else {
        0
    }]
}

/// The value to fill a block at `to` with: the one that was drawn, or else
/// that of the byte before it.
pub fn item_for(buf: &Vec<u8>, to: usize, drawn: Option<u8>) -> (r: u8)
    requires
        to <= buf@.len(),
        buf@.len() > 0,
    ensures
        r == match drawn {
            Some(item) => item,
            None => neighbor(buf@, to as int),
        },
{
    match drawn {
        Some(item) => item,
        None => if to > 0 {
            buf[to - 1]
        } else {
            buf[0]
        },
    }
}

/// Any byte, or the one before `to`. As any byte can be drawn, the result is
/// open.
fn choose_item(buf: &Vec<u8>, to: usize, rng: &mut ThreadRng) -> (r: u8)
    requires
        to <= buf@.len(),
        buf@.len() > 0,
{
    let drawn: Option<u8> = if coin(rng) {
        Some(any_byte(rng))
    } else {
        None
    };
    item_for(buf, to, drawn)
}

/// Copies a block over the one at the place that is given, or at any.
pub(crate) fn overwrite_copy(buf: &mut Vec<u8>, at: Option<usize>, rng: &mut ThreadRng)
    requires
        old(buf)@.len() <= u32::MAX,
        at matches Some(q) ==> q < old(buf)@.len(),
    ensures
        exists|p: int|
            is_place(at, p) && #[trigger] block_copied_over(old(buf)@, final(buf)@, p),
{
    if buf.len() < 2 {
        assert(block_copied_over(buf@, buf@, place_or(at, 0)));
        return;
    }
    let n: usize = part_len(at, buf.len(), rng);
    let to: usize = place_for(at, buf.len(), n, rng);
    let mut from: usize = below(rng, buf.len() - n);
    if from >= to {
        from = from + 1;
    }
    copy_over_at(buf, from, to, n);
    assert(block_copied_over(old(buf)@, buf@, to as int));
}

/// Copies a block over another.
pub fn mut_overwrite_copy(buf: &mut Vec<u8>, rng: &mut ThreadRng)
    requires
        old(buf)@.len() <= u32::MAX,
    ensures
        exists|at: int| #[trigger] block_copied_over(old(buf)@, final(buf)@, at),
{
    overwrite_copy(buf, None, rng);
}

/// Fills the block at the place that is given, or at any, with one byte's
/// value.
pub(crate) fn overwrite_fixed(buf: &mut Vec<u8>, at: Option<usize>, rng: &mut ThreadRng)
    requires
        old(buf)@.len() <= u32::MAX,
        at matches Some(q) ==> q < old(buf)@.len(),
    ensures
        exists|p: int| is_place(at, p) && #[trigger] block_filled(old(buf)@, final(buf)@, p),
{
    if buf.len() < 2 {
        assert(block_filled(buf@, buf@, place_or(at, 0)));
        return;
    }
    let n: usize = part_len(at, buf.len(), rng);
    let to: usize = place_for(at, buf.len(), n, rng);
    let item: u8 = choose_item(buf, to, rng);
    let block: Vec<u8> = fill(item, n);
    replace(buf, to, to + n, &block);
    assert(buf@ == fill_written(old(buf)@, to as int, item, n as int));
    assert(block_filled(old(buf)@, buf@, to as int));
}

/// Fills a block with one byte's value.
pub fn mut_overwrite_fixed(buf: &mut Vec<u8>, rng: &mut ThreadRng)
    requires
        old(buf)@.len() <= u32::MAX,
    ensures
        exists|at: int| #[trigger] block_filled(old(buf)@, final(buf)@, at),
{
    overwrite_fixed(buf, None, rng);
}

/// Adds one to a byte.
pub fn mut_byte_add(buf: &mut Vec<u8>, rng: &mut ThreadRng)
    ensures
        exists|at: int| #[trigger] byte_added(old(buf)@, final(buf)@, 1, at),
{
    if buf.len() == 0 {
        assert(byte_added(buf@, buf@, 1, 0));
        return;
    }
    let at: usize = below(rng, buf.len());
    shift_at(buf, at, 1, false, 1, false);
    assert(byte_added(old(buf)@, buf@, 1, at as int));
}

/// Takes one off a byte.
pub fn mut_byte_sub(buf: &mut Vec<u8>, rng: &mut ThreadRng)
    ensures
        exists|at: int| #[trigger] byte_added(old(buf)@, final(buf)@, -1, at),
{
    if buf.len() == 0 {
        assert(byte_added(buf@, buf@, -1, 0));
        return;
    }
    let at: usize = below(rng, buf.len());
    shift_at(buf, at, 1, false, 1, true);
    assert(byte_added(old(buf)@, buf@, -1, at as int));
}

/// Flips all bits of a byte.
pub fn mut_bitflip8(buf: &mut Vec<u8>, rng: &mut ThreadRng)
    ensures
        exists|at: int| #[trigger] byte_flipped(old(buf)@, final(buf)@, at),
{
    if buf.len() == 0 {
        assert(byte_flipped(buf@, buf@, 0));
        return;
    }
    let at: usize = below(rng, buf.len());
    flip_at(buf, at, 0xff);
    assert(byte_flipped(old(buf)@, buf@, at as int));
}

/// Switches the block at `at` with another. `tmp_buf` gets a block as it was.
pub(crate) fn switch_from(
    buf: &mut Vec<u8>,
    at: usize,
    rng: &mut ThreadRng,
    tmp_buf: &mut Vec<u8>,
)
    requires
        at < old(buf)@.len() <= u32::MAX,
    ensures
        blocks_switched(old(buf)@, final(buf)@, at as int),
        old(buf)@.len() < 4 ==> final(tmp_buf)@ == old(tmp_buf)@,
        old(buf)@.len() >= 4 ==> exists|lo: int, hi: int|
            0 <= lo < hi <= old(buf)@.len() && final(tmp_buf)@ == #[trigger] old(buf)@.subrange(
                lo,
                hi,
            ),
{
    if buf.len() < 4 {
        return;
    }
    let mut b: usize = below(rng, buf.len() - 1);
    if b >= at {
        b = b + 1;
    }
    let (gap, to_end) = if at < b {
        (b - at, buf.len() - b)
    } else {
        (at - b, buf.len() - at)
    };
    let n: usize = choose_block_len(
        rng,
        if gap < to_end {
            gap
        } else {
            to_end
        },
    );
    switch_at(buf, at, b, n, tmp_buf);
    assert(can_switch(old(buf)@.len() as int, at as int, b as int, n as int));
}

/// Switches two blocks. `tmp_buf` gets a block as it was.
pub fn mut_switch(buf: &mut Vec<u8>, rng: &mut ThreadRng, tmp_buf: &mut Vec<u8>)
    requires
        old(buf)@.len() <= u32::MAX,
    ensures
        exists|at: int| #[trigger] blocks_switched(old(buf)@, final(buf)@, at),
        old(buf)@.len() < 4 ==> final(tmp_buf)@ == old(tmp_buf)@,
        old(buf)@.len() >= 4 ==> exists|lo: int, hi: int|
            0 <= lo < hi <= old(buf)@.len() && final(tmp_buf)@ == #[trigger] old(buf)@.subrange(
                lo,
                hi,
            ),
{
    if buf.len() < 4 {
        assert(blocks_switched(buf@, buf@, 0));
        return;
    }
    let at: usize = below(rng, buf.len());
    switch_from(buf, at, rng, tmp_buf);
}

/// Removes the block at the place that is given, or at any.
pub(crate) fn remove_block(buf: &mut Vec<u8>, at: Option<usize>, rng: &mut ThreadRng)
    requires
        old(buf)@.len() <= u32::MAX,
        at matches Some(q) ==> q < old(buf)@.len(),
    ensures
        exists|p: int| is_place(at, p) && #[trigger] block_removed(old(buf)@, final(buf)@, p),
{
    if buf.len() < 2 {
        assert(block_removed(buf@, buf@, place_or(at, 0)));
        return;
    }
    let n: usize = part_len(at, buf.len(), rng);
    let from: usize = place_for(at, buf.len(), n, rng);
    remove_at(buf, from, n);
    assert(block_removed(old(buf)@, buf@, from as int));
}

/// Removes a block.
pub fn mut_del(buf: &mut Vec<u8>, rng: &mut ThreadRng)
    requires
        old(buf)@.len() <= u32::MAX,
    ensures
        exists|at: int| #[trigger] block_removed(old(buf)@, final(buf)@, at),
{
    remove_block(buf, None, rng);
}

/// Removes the `n` bytes at `from`.
pub fn remove_at(buf: &mut Vec<u8>, from: usize, n: usize)
    requires
        from + n <= old(buf)@.len(),
    ensures
        final(buf)@ == without(old(buf)@, from as int, n as int),
{
    let none: Vec<u8> = Vec::new();
    assert(buf.len() == buf@.len());
    replace(buf, from, from + n, &none);
    assert(none@ =~= Seq::empty());
}

/// Shuffles the block at the place that is given, or at any.
pub(crate) fn shuffle_block(buf: &mut Vec<u8>, at: Option<usize>, rng: &mut ThreadRng)
    requires
        old(buf)@.len() <= u32::MAX,
        at matches Some(q) ==> q < old(buf)@.len(),
    ensures
        exists|p: int| is_place(at, p) && #[trigger] block_shuffled(old(buf)@, final(buf)@, p),
{
    if buf.len() < 4 {
        assert(block_shuffled(buf@, buf@, place_or(at, 0)));
        return;
    }
    let n: usize = part_len(at, buf.len(), rng);
    let pos: usize = place_for(at, buf.len(), n, rng);
    let mut picks: Vec<usize> = Vec::new();
    while picks.len() < n - 1
        invariant
            1 <= n,
            picks@.len() <= n - 1,
            picks_fit(picks@),
        decreases n - picks@.len(),
    {
        let j: usize = below(rng, picks.len() + 1);
        picks.push(j);
    }
    shuffle_at(buf, pos, &picks);
    assert(block_shuffled(old(buf)@, buf@, pos as int));
}

/// Shuffles a block.
pub fn mut_shuffle(buf: &mut Vec<u8>, rng: &mut ThreadRng)
    requires
        old(buf)@.len() <= u32::MAX,
    ensures
        exists|at: int| #[trigger] block_shuffled(old(buf)@, final(buf)@, at),
{
    shuffle_block(buf, None, rng);
}

/// Removes the byte at `at`; something is left.
pub(crate) fn remove_byte_at(buf: &mut Vec<u8>, at: usize)
    requires
        at < old(buf)@.len(),
    ensures
        byte_removed(old(buf)@, final(buf)@, at as int),
{
    if buf.len() >= 2 {
        remove_at(buf, at, 1);
    }
}

/// Removes a byte.
pub fn mut_del_one(buf: &mut Vec<u8>, rng: &mut ThreadRng)
    ensures
        exists|at: int| #[trigger] byte_removed(old(buf)@, final(buf)@, at),
{
    if buf.len() < 2 {
        assert(byte_removed(buf@, buf@, 0));
        return;
    }
    let at: usize = below(rng, buf.len());
    remove_byte_at(buf, at);
}

/// Inserts a byte at `at`.
pub(crate) fn insert_byte_at(buf: &mut Vec<u8>, at: usize, rng: &mut ThreadRng)
    requires
        at <= old(buf)@.len() < usize::MAX,
    ensures
        byte_inserted(old(buf)@, final(buf)@, at as int),
{
    if buf.len() < 2 {
        return;
    }
    let item: u8 = choose_item(buf, at, rng);
    buf.insert(at, item);
    assert(buf@ =~= fill_inserted(old(buf)@, at as int, item, 1));
}

/// Inserts a byte.
pub fn mut_insert_one(buf: &mut Vec<u8>, rng: &mut ThreadRng)
    requires
        old(buf)@.len() < usize::MAX,
    ensures
        exists|at: int| #[trigger] byte_inserted(old(buf)@, final(buf)@, at),
{
    let at: usize = below(rng, buf.len() + 1);
    insert_byte_at(buf, at, rng);
}

/// Changes the decimal number that is found from `at` on. If its length
/// changes, `tmp_buf` gets the input as it was.
pub(crate) fn change_number_from(
    buf: &mut Vec<u8>,
    at: usize,
    rng: &mut ThreadRng,
    tmp_buf: &mut Vec<u8>,
)
    requires
        at < old(buf)@.len(),
    ensures
        number_changed(old(buf)@, final(buf)@, at as int),
        final(tmp_buf)@ == if final(buf)@.len() == old(buf)@.len() {
            old(tmp_buf)@
        } else {
            old(buf)@
        },
        final(buf)@.len() <= old(buf)@.len() + 21,
        final(buf)@.len() > 0,
{
    if buf.len() < 4 {
        return;
    }
    let op: u8 = below_u32(rng, 8) as u8;
    let wide: u64 = gen_u64(rng);
    let small: u8 = any_byte(rng);
    let before: Vec<u8> = buf.clone();
    assert(before@ =~= buf@);
    change_number_at(buf, at, op, wide, small);
    if buf.len() != before.len() {
        *tmp_buf = before;
    }
}

/// Changes a decimal number. If its length changes, `tmp_buf` gets the input
/// as it was.
pub fn mut_ascii_num(buf: &mut Vec<u8>, rng: &mut ThreadRng, tmp_buf: &mut Vec<u8>)
    ensures
        exists|at: int| #[trigger] number_changed(old(buf)@, final(buf)@, at),
        final(tmp_buf)@ == if final(buf)@.len() == old(buf)@.len() {
            old(tmp_buf)@
        } else {
            old(buf)@
        },
        final(buf)@.len() <= old(buf)@.len() + 21,
        old(buf)@.len() > 0 ==> final(buf)@.len() > 0,
{
    if buf.len() < 4 {
        assert(number_changed(buf@, buf@, 0));
        return;
    }
    let at: usize = below(rng, buf.len());
    change_number_from(buf, at, rng, tmp_buf);
}

/// Writes the first digits of a number at the place that is given, or at any.
pub(crate) fn write_digits(buf: &mut Vec<u8>, at: Option<usize>, rng: &mut ThreadRng)
    requires
        at matches Some(q) ==> q < old(buf)@.len(),
    ensures
        exists|p: int| is_place(at, p) && #[trigger] number_written(old(buf)@, final(buf)@, p),
        final(buf)@.len() == old(buf)@.len(),
{
    let n: usize = 1 + below(rng, 8);
    if buf.len() < n {
        let ghost p = place_or(at, 0);
        assert(digits_put(buf@, buf@, p, 0, n as int));
        assert(number_written(buf@, buf@, p));
        return;
    }
    let pos: usize = place_for(at, buf.len(), n, rng);
    let x: u64 = gen_u64(rng);
    write_digits_at(buf, pos, x, n);
    let ghost p = place_or(at, pos as int);
    assert(digits_put(old(buf)@, buf@, p, x, n as int));
    assert(number_written(old(buf)@, buf@, p));
}

/// Writes the first digits of a number.
pub fn mut_insert_ascii_num(buf: &mut Vec<u8>, rng: &mut ThreadRng)
    ensures
        exists|at: int| #[trigger] number_written(old(buf)@, final(buf)@, at),
        final(buf)@.len() == old(buf)@.len(),
{
    write_digits(buf, None, rng);
}

/// Writes the first digits of `x`, at most `n`.
pub fn write_digits_at(buf: &mut Vec<u8>, pos: usize, x: u64, n: usize)
    requires
        pos + n <= old(buf)@.len(),
    ensures
        final(buf)@ == digits_written(old(buf)@, pos as int, x, n as int),
        final(buf)@.len() == old(buf)@.len(),
{
    let d: Vec<u8> = print_digits(x);
    let k: usize = if n < d.len() {
        n
    } else {
        d.len()
    };
    let first: Vec<u8> = copy_of(&d, 0, k);
    assert(first@ =~= d@.take(k as int));
    assert(buf.len() == buf@.len());
    replace(buf, pos, pos + k, &first);
}

/// Writes a block of another input over the one at the place that is given,
/// or at any. At a given place it may reach up to the end.
pub(crate) fn overwrite_splice(
    buf: &mut Vec<u8>,
    at: Option<usize>,
    splice_buf: &Vec<u8>,
    rng: &mut ThreadRng,
)
    requires
        splice_buf@.len() < u32::MAX,
        old(buf)@.len() < usize::MAX,
        at matches Some(q) ==> q < old(buf)@.len(),
    ensures
        exists|p: int|
            is_place(at, p) && #[trigger] splice_overwritten(
                old(buf)@,
                final(buf)@,
                splice_buf@,
                p,
            ),
{
    if splice_buf.len() < 4 {
        assert(splice_overwritten(buf@, buf@, splice_buf@, place_or(at, 0)));
        return;
    }
    let room: usize = match at {
        Some(q) => buf.len() - q,
        None => buf.len(),
    };
    let mut n: usize = choose_block_len(rng, splice_buf.len() - 1);
    if n > room {
        n = room;
    }
    let from: usize = below(rng, splice_buf.len() - n + 1);
    let to: usize = place_for(at, buf.len(), n, rng);
    let block: Vec<u8> = copy_of(splice_buf, from, n);
    replace(buf, to, to + n, &block);
    assert(buf@ == splice_written(old(buf)@, splice_buf@, from as int, to as int, n as int));
    assert(splice_overwritten(old(buf)@, buf@, splice_buf@, to as int));
}

/// Writes a block of another input over a block.
pub fn mut_splice_overwrite(buf: &mut Vec<u8>, splice_buf: &Vec<u8>, rng: &mut ThreadRng)
    requires
        splice_buf@.len() < u32::MAX,
        old(buf)@.len() < usize::MAX,
    ensures
        exists|at: int| #[trigger]
            splice_overwritten(old(buf)@, final(buf)@, splice_buf@, at),
{
    overwrite_splice(buf, None, splice_buf, rng);
}

/// Inserts the `n` bytes at `from` of another input. The result is one byte
/// longer than that: its last byte is the one that `tmp_buf` held there, or
/// zero. `tmp_buf` gets the input as it was.
pub fn insert_splice_at(
    buf: &mut Vec<u8>,
    splice_buf: &Vec<u8>,
    from: usize,
    to: usize,
    n: usize,
    tmp_buf: &mut Vec<u8>,
)
    requires
        from + n <= splice_buf@.len(),
        to <= old(buf)@.len(),
        old(buf)@.len() + n <= usize::MAX,
    ensures
        final(buf)@ == splice_inserted(
            old(buf)@,
            splice_buf@,
            from as int,
            to as int,
            n as int,
            if old(buf)@.len() + n < old(tmp_buf)@.len() {
                old(tmp_buf)@[old(buf)@.len() + n]
            } else {
                0
            },
        ),
        final(tmp_buf)@ == old(buf)@,
{
    assert(buf.len() == buf@.len());
    let end: usize = buf.len() + n;
    let last: u8 = if end < tmp_buf.len() {
        tmp_buf[end]
    } else {
        0
    };
    let block: Vec<u8> = copy_of(splice_buf, from, n);
    *tmp_buf = buf.clone();
    assert(tmp_buf@ =~= buf@);
    replace(buf, to, to, &block);
    buf.push(last);
}

/// Inserts a block of another input at `at`, and one byte behind the end.
pub(crate) fn splice_in_at(
    buf: &mut Vec<u8>,
    at: usize,
    splice_buf: &Vec<u8>,
    rng: &mut ThreadRng,
    tmp_buf: &mut Vec<u8>,
)
    requires
        splice_buf@.len() <= u32::MAX,
        at <= old(buf)@.len(),
    ensures
        splice_put_in(old(buf)@, final(buf)@, splice_buf@, at as int),
        final(tmp_buf)@ == if is_long(old(buf)@) || splice_buf@.len() < 4 {
            old(tmp_buf)@
        } else {
            old(buf)@
        },
{
    if buf.len() >= MAX_INPUT_LEN - HAVOC_BLK_XL as usize {
        return;
    }
    if splice_buf.len() < 4 {
        return;
    }
    let n: usize = choose_block_len(rng, splice_buf.len());
    let from: usize = below(rng, splice_buf.len() - n + 1);
    insert_splice_at(buf, splice_buf, from, at, n, tmp_buf);
}

/// Inserts a block of another input, and one byte behind the end.
pub fn mut_splice_insert(
    buf: &mut Vec<u8>,
    splice_buf: &Vec<u8>,
    rng: &mut ThreadRng,
    tmp_buf: &mut Vec<u8>,
)
    requires
        splice_buf@.len() <= u32::MAX,
    ensures
        exists|at: int| #[trigger] splice_put_in(old(buf)@, final(buf)@, splice_buf@, at),
        final(tmp_buf)@ == if is_long(old(buf)@) || splice_buf@.len() < 4 {
            old(tmp_buf)@
        } else {
            old(buf)@
        },
{
    if buf.len() >= MAX_INPUT_LEN - HAVOC_BLK_XL as usize {
        assert(splice_put_in(buf@, buf@, splice_buf@, 0));
        return;
    }
    let at: usize = below(rng, buf.len() + 1);
    splice_in_at(buf, at, splice_buf, rng, tmp_buf);
}

/// Inserts a token at the place that is given, or at any.
pub(crate) fn insert_token(
    buf: &mut Vec<u8>,
    at: Option<usize>,
    all: &Vec<ExtraData>,
    rng: &mut ThreadRng,
)
    requires
        all_wf(all@),
        at matches Some(q) ==> q < old(buf)@.len(),
    ensures
        exists|p: int|
            is_place(at, p) && #[trigger] token_inserted(
                old(buf)@,
                final(buf)@,
                tokens(all@),
                p,
            ),
{
    if all.len() == 0 {
        assert(token_inserted(buf@, buf@, tokens(all@), place_or(at, 0)));
        return;
    }
    let k: usize = below(rng, all.len());
    let extra = &all[k];
    assert(extra.wf());
    assert(tokens(all@)[k as int] == extra.data@);
    if extra.len >= MAX_INPUT_LEN || buf.len() >= MAX_INPUT_LEN - extra.len {
        assert(token_inserted(buf@, buf@, tokens(all@), place_or(at, 0)));
        return;
    }
    let to: usize = place_for(at, buf.len(), 0, rng);
    replace(buf, to, to, &extra.data);
    assert(buf@ == token_put_in(old(buf)@, tokens(all@)[k as int], to as int));
    assert(token_inserted(old(buf)@, buf@, tokens(all@), to as int));
}

/// Writes a token over the block at the place that is given, or at any.
pub(crate) fn overwrite_token(
    buf: &mut Vec<u8>,
    at: Option<usize>,
    all: &Vec<ExtraData>,
    rng: &mut ThreadRng,
)
    requires
        all_wf(all@),
        old(buf)@.len() < usize::MAX,
        at matches Some(q) ==> q < old(buf)@.len(),
    ensures
        exists|p: int|
            is_place(at, p) && #[trigger] token_overwritten(
                old(buf)@,
                final(buf)@,
                tokens(all@),
                p,
            ),
{
    if all.len() == 0 {
        assert(token_overwritten(buf@, buf@, tokens(all@), place_or(at, 0)));
        return;
    }
    let k: usize = below(rng, all.len());
    let extra = &all[k];
    assert(extra.wf());
    assert(tokens(all@)[k as int] == extra.data@);
    if extra.len > buf.len() {
        assert(token_overwritten(buf@, buf@, tokens(all@), place_or(at, 0)));
        return;
    }
    let to: usize = place_for(at, buf.len(), extra.len, rng);
    replace(buf, to, to + extra.len, &extra.data);
    assert(buf@ == token_written(old(buf)@, tokens(all@)[k as int], to as int));
    assert(token_overwritten(old(buf)@, buf@, tokens(all@), place_or(at, to as int)));
}

/// Writes a constant over the block at the place that is given, or at any.
pub(crate) fn write_constant(
    buf: &mut Vec<u8>,
    at: Option<usize>,
    all: &Vec<(u64, usize)>,
    big: bool,
    rng: &mut ThreadRng,
)
    requires
        forall|i: int| 0 <= i < all@.len() ==> 1 <= (#[trigger] all@[i]).1 <= 8,
        at matches Some(q) ==> q < old(buf)@.len(),
    ensures
        exists|p: int|
            is_place(at, p) && #[trigger] constant_written(
                old(buf)@,
                final(buf)@,
                all@,
                big,
                p,
            ),
{
    if all.len() == 0 {
        assert(constant_written(buf@, buf@, all@, big, place_or(at, 0)));
        return;
    }
    let k: usize = below(rng, all.len());
    let (x, width) = all[k];
    assert(all@[k as int].0 == x && all@[k as int].1 == width);
    if buf.len() < width {
        assert(constant_written(buf@, buf@, all@, big, place_or(at, 0)));
        return;
    }
    let pos: usize = place_for(at, buf.len(), width, rng);
    write_number_at(buf, pos, x, width as u32, big);
    assert(constant_written(old(buf)@, buf@, all@, big, place_or(at, pos as int)));
}

/// Inserts a token of the dictionary.
pub fn mut_extra_insert(buf: &mut Vec<u8>, extra_data: &Vec<ExtraData>, rng: &mut ThreadRng)
    requires
        all_wf(extra_data@),
    ensures
        exists|at: int| #[trigger]
            token_inserted(old(buf)@, final(buf)@, tokens(extra_data@), at),
{
    insert_token(buf, None, extra_data, rng);
}

/// Writes a token of the dictionary over a block.
pub fn mut_extra_overwrite(buf: &mut Vec<u8>, extra_data: &Vec<ExtraData>, rng: &mut ThreadRng)
    requires
        all_wf(extra_data@),
        old(buf)@.len() < usize::MAX,
    ensures
        exists|at: int| #[trigger]
            token_overwritten(old(buf)@, final(buf)@, tokens(extra_data@), at),
{
    overwrite_token(buf, None, extra_data, rng);
}

/// Inserts a string that the target compared with.
pub fn mut_const_strcmp_insert(
    buf: &mut Vec<u8>,
    handler: &SearchHandler,
    rng: &mut ThreadRng,
)
    requires
        handler.operands.wf(),
    ensures
        exists|at: int| #[trigger]
            token_inserted(old(buf)@, final(buf)@, handler.operands@.strings, at),
{
    assert(handler.operands@.strings == tokens(handler.operands.const_strings@));
    insert_token(buf, None, &handler.operands.const_strings, rng);
}

/// Writes a string that the target compared with over a block.
pub fn mut_const_strcmp_overwrite(
    buf: &mut Vec<u8>,
    handler: &SearchHandler,
    rng: &mut ThreadRng,
)
    requires
        handler.operands.wf(),
        old(buf)@.len() < usize::MAX,
    ensures
        exists|at: int| #[trigger]
            token_overwritten(old(buf)@, final(buf)@, handler.operands@.strings, at),
{
    assert(handler.operands@.strings == tokens(handler.operands.const_strings@));
    overwrite_token(buf, None, &handler.operands.const_strings, rng);
}

/// Writes a constant that the target compared with, highest byte first.
pub fn mut_const_cmp_data_be(buf: &mut Vec<u8>, handler: &SearchHandler, rng: &mut ThreadRng)
    requires
        handler.operands.wf(),
    ensures
        exists|at: int| #[trigger]
            constant_written(old(buf)@, final(buf)@, handler.operands@.numbers, true, at),
{
    assert(handler.operands@.numbers == handler.operands.const_numbers@);
    write_constant(buf, None, &handler.operands.const_numbers, true, rng);
}

/// Writes a constant that the target compared with, lowest byte first.
pub fn mut_const_cmp_data(buf: &mut Vec<u8>, handler: &SearchHandler, rng: &mut ThreadRng)
    requires
        handler.operands.wf(),
    ensures
        exists|at: int| #[trigger]
            constant_written(old(buf)@, final(buf)@, handler.operands@.numbers, false, at),
{
    assert(handler.operands@.numbers == handler.operands.const_numbers@);
    write_constant(buf, None, &handler.operands.const_numbers, false, rng);
}

/// The bytes at `pos` are those of `b`.
fn is_at(buf: &Vec<u8>, pos: usize, b: &Vec<u8>) -> (r: bool)
    requires
        pos + b@.len() <= buf@.len(),
    ensures
        r == (buf@.subrange(pos as int, pos + b@.len()) == b@),
{
    let ghost there = buf@.subrange(pos as int, pos + b@.len());
    assert(buf.len() == buf@.len());
    let mut k: usize = 0;
    while k < b.len()
        invariant
            k <= b@.len(),
            pos + b@.len() <= buf@.len() <= usize::MAX,
            there == buf@.subrange(pos as int, pos + b@.len()),
            forall|i: int| 0 <= i < k ==> there[i] == #[trigger] b@[i],
        decreases b@.len() - k,
    {
        if buf[pos + k] != b[k] {
            assert(there[k as int] != b@[k as int]);
            return false;
        }
        k = k + 1;
    }
    assert(there =~= b@);
    true
}

/// Replaces the first of two operands that is found from `pos` on by the
/// other, and tells whether there is one. At each place the operands are
/// tried highest byte first, then as they are.
pub fn swap_operands_at(buf: &mut Vec<u8>, pos: usize, a: &Vec<u8>, b: &Vec<u8>) -> (found: bool)
    requires
        a@.len() > 0,
        b@.len() > 0,
    ensures
        found == operand_is_found(old(buf)@, pos as int, a@, b@),
        final(buf)@ == operands_swapped(old(buf)@, pos as int, a@, b@),
        final(buf)@.len() <= old(buf)@.len() + a@.len() + b@.len(),
        old(buf)@.len() > 0 ==> final(buf)@.len() > 0,
{
    let ra: Vec<u8> = reversed(a);
    let rb: Vec<u8> = reversed(b);
    let max: usize = if a.len() >= b.len() {
        a.len()
    } else {
        b.len()
    };
    let mut p: usize = pos;
    assert(buf.len() == buf@.len());
    while max <= buf.len() && p <= buf.len() - max
        invariant
            buf@ == old(buf)@,
            a@.len() > 0,
            b@.len() > 0,
            max == longer(a@, b@),
            ra@ == a@.reverse(),
            rb@ == b@.reverse(),
            buf@.len() <= usize::MAX,
            operands_swapped(old(buf)@, p as int, a@, b@) == operands_swapped(
                old(buf)@,
                pos as int,
                a@,
                b@,
            ),
            operand_is_found(old(buf)@, p as int, a@, b@) == operand_is_found(
                old(buf)@,
                pos as int,
                a@,
                b@,
            ),
        decreases buf@.len() - p,
    {
        if is_at(buf, p, &ra) {
            replace(buf, p, p + a.len(), &rb);
            return true;
        }
        if is_at(buf, p, &rb) {
            replace(buf, p, p + b.len(), &ra);
            return true;
        }
        if is_at(buf, p, a) {
            replace(buf, p, p + a.len(), b);
            return true;
        }
        if is_at(buf, p, b) {
            replace(buf, p, p + b.len(), a);
            return true;
        }
        p = p + 1;
    }
    false
}

/// Replaces an operand of a comparison by the one it was compared with.
pub fn mut_trace_cmp_data(buf: &mut Vec<u8>, handler: &SearchHandler, rng: &mut ThreadRng)
    requires
        handler.operands.wf(),
        old(buf)@.len() < usize::MAX,
    ensures
        exists|at: int| #[trigger]
            operand_replaced(old(buf)@, final(buf)@, handler.operands@.pairs, at),
{
    swap_operands(buf, None, &handler.operands.direct_copy_pairs, rng);
}

/// Replaces an operand that is found from the place that is given on, or from
/// any, by the one it was compared with.
pub(crate) fn swap_operands(
    buf: &mut Vec<u8>,
    at: Option<usize>,
    pairs: &Vec<(Vec<u8>, Vec<u8>)>,
    rng: &mut ThreadRng,
)
    requires
        forall|i: int|
            #![trigger pair_bytes(pairs@)[i]]
            0 <= i < pairs@.len() ==> pair_bytes(pairs@)[i].0.len() > 0 && pair_bytes(
                pairs@,
            )[i].1.len() > 0,
        old(buf)@.len() < usize::MAX,
        at matches Some(q) ==> q < old(buf)@.len(),
    ensures
        exists|p: int|
            is_place(at, p) && #[trigger] operand_replaced(
                old(buf)@,
                final(buf)@,
                pair_bytes(pairs@),
                p,
            ),
{
    let ghost all = pair_bytes(pairs@);
    if pairs.len() == 0 {
        assert(operand_replaced(buf@, buf@, all, place_or(at, 0)));
        return;
    }
    let k: usize = below(rng, pairs.len());
    let (a, b) = &pairs[k];
    assert(all[k as int].0 == a@ && all[k as int].1 == b@);
    let max: usize = if a.len() >= b.len() {
        a.len()
    } else {
        b.len()
    };
    if buf.len() < max {
        let ghost p = place_or(at, 0);
        assert(operand_replaced_from(buf@, buf@, p, all[k as int].0, all[k as int].1));
        assert(operand_replaced(buf@, buf@, all, p));
        return;
    }
    let pos: usize = place_for(at, buf.len(), max, rng);
    swap_operands_at(buf, pos, a, b);
    let ghost p = place_or(at, pos as int);
    assert(operand_replaced_from(old(buf)@, buf@, p, all[k as int].0, all[k as int].1));
    assert(operand_replaced(old(buf)@, buf@, all, p));
}


/// Blocks of the four kinds begin where those of the next smaller kind end, at
/// 1, 32, 128 and 1500 bytes, and the largest end at 32768. If they may not be
/// that long they begin at one byte, and none is longer than it may be.
pub proof fn kinds_of_blocks_follow_one_another(kind: u32, limit: u32)
    requires
        kind < 4,
        limit >= 1,
    ensures
        ({
            let marks = seq![1int, 32, 128, 1500, 32768];
            let (lo, hi) = block_range(kind, limit);
            &&& marks[kind as int] < limit ==> lo == marks[kind as int]
            &&& marks[kind as int] >= limit ==> lo == 1
            &&& marks[kind + 1] <= limit ==> hi == marks[kind + 1]
            &&& marks[kind + 1] >= limit ==> hi == limit
        }),
{
}

/// Two draws tell the kind of a block. The first of them tells small and medium
/// blocks; of the others, those are the largest for which the second is zero.
pub proof fn draws_tell_the_kind(first: u32, second: u32)
    ensures
        first <= 1 ==> kind_of(first, second) == first,
        first >= 2 && second == 0 ==> kind_of(first, second) == 3,
        first >= 2 && second != 0 ==> kind_of(first, second) == 2,
{
}

} // verus!
