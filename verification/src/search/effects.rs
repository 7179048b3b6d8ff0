//! What the havoc operators do to an input, told by its bytes.
//!
//! The operators' names stand for a width, a byte order and a sign. Here they
//! are tied to the bytes before and after.

use super::afl::{
    havoc_done, is_chain, material, mutates_at, mutates_by, position_of, splice_for, splices_in,
    takes_splice, Material,
};
use super::afl_mutators::{
    can_switch, complement, digits_put, either_stands_at, fill_inserted, fill_written, fitted,
    interesting, interesting_16, interesting_32, interesting_8, is_block_len, is_single_bit,
    lemma_swap_goes_on, longer, nothing_is_swapped_unless_found, number_written,
    operand_replaced_from, operands_swapped, splice_inserted, splice_written, stands_at,
    swaps_take_out_what_was_found, token_inserted, token_overwritten, token_put_in,
    token_written, without, AFLMutator,
};
use super::ascii::{
    becomes, decimal, digits, digits_are_decimal, is_decimal, is_found_from, numbers_give_way,
    reads_as, signed_value, texts_without_numbers_get_one, with_changed_number,
};
use super::edits::{
    copied_in, copied_over, encoded, flipped, modulus, number_at, picks_fit, shifted,
    shifts_are_undone, shuffled, shuffles_keep_bytes, switched, with_number,
};
use super::handler::SearchHandler;
use crate::extras::ExtraData;
use crate::trace_data::low_bytes;
use crate::utils::start_point_range;
use vstd::arithmetic::power::pow;
use vstd::prelude::*;

verus! {

/// The number that bytes stand for, lowest byte first.
pub open spec fn little(b: Seq<u8>) -> int
    decreases b.len(),
{
    if b.len() == 0 {
        0
    } else {
        b[0] + 0x100 * little(b.skip(1))
    }
}

/// The number that bytes stand for, highest byte first.
pub open spec fn big(b: Seq<u8>) -> int
    decreases b.len(),
{
    if b.len() == 0 {
        0
    } else {
        0x100 * big(b.drop_last()) + b.last()
    }
}

/// The number in the `w` bytes at `p`.
pub open spec fn value_at(s: Seq<u8>, p: int, w: int, highest_first: bool) -> int {
    if highest_first {
        big(s.subrange(p, p + w))
    } else {
        little(s.subrange(p, p + w))
    }
}

/// Nothing is changed but the `n` bytes at `p`, which lie in the input.
pub open spec fn only_there(s: Seq<u8>, r: Seq<u8>, p: int, n: int) -> bool {
    &&& 0 <= p && p + n <= s.len()
    &&& r.len() == s.len()
    &&& forall|i: int| 0 <= i < s.len() && !(p <= i < p + n) ==> #[trigger] r[i] == s[i]
}

/// The place `at`, moved back where `n` bytes do not fit in.
pub open spec fn place_of(s: Seq<u8>, at: int, n: int) -> int {
    if at + n <= s.len() {
        at
    } else {
        s.len() - n
    }
}

proof fn lemma_reversed(b: Seq<u8>)
    ensures
        big(b.reverse()) == little(b),
    decreases b.len(),
{
    if b.len() > 0 {
        lemma_reversed(b.skip(1));
        assert(b.reverse().drop_last() =~= b.skip(1).reverse());
        assert(b.reverse().last() == b[0]);
    }
}

proof fn lemma_low_bytes(x: u64, n: nat)
    ensures
        little(low_bytes(x, n as int)) == x as int % pow(256, n),
        low_bytes(x, n as int).len() == n,
    decreases n,
{
    reveal(pow);
    if n == 0 {
        assert(pow(256, 0) == 1);
    } else {
        let m = (n - 1) as nat;
        lemma_low_bytes(x / 256, m);
        let b = low_bytes(x, n as int);
        assert(b.skip(1) =~= low_bytes(x / 256, m as int));
        assert(b[0] == x % 256);
        vstd::arithmetic::power::lemma_pow_positive(256, m);
        vstd::arithmetic::div_mod::lemma_mod_breakdown(x as int, 256, pow(256, m));
        assert(pow(256, n) == 256 * pow(256, m));
    }
}

/// The low bytes of a number are its value up to the width, in the order that
/// is asked for.
pub proof fn encodings_have_values(x: u64, w: nat, highest_first: bool)
    ensures
        ({
            let b = encoded(x, w as int, highest_first);
            &&& b.len() == w
            &&& (if highest_first {
                big(b)
            } else {
                little(b)
            }) == x as int % pow(256, w)
        }),
{
    lemma_low_bytes(x, w);
    lemma_reversed(low_bytes(x, w as int));
}

proof fn lemma_number_is_written(s: Seq<u8>, p: int, x: u64, w: nat, highest_first: bool)
    requires
        0 <= p,
        p + w <= s.len(),
    ensures
        ({
            let r = with_number(s, p, x, w as int, highest_first);
            &&& only_there(s, r, p, w as int)
            &&& value_at(r, p, w as int, highest_first) == x as int % pow(256, w)
        }),
{
    encodings_have_values(x, w, highest_first);
    let r = with_number(s, p, x, w as int, highest_first);
    assert(r.subrange(p, p + w) =~= encoded(x, w as int, highest_first));
}

proof fn lemma_powers()
    ensures
        pow(256, 1) == 0x100,
        pow(256, 2) == 0x1_0000,
        pow(256, 4) == 0x1_0000_0000,
{
    reveal_with_fuel(pow, 5);
}

/// A number that often matters: the bounds of small types, what lies next to
/// them, and some round ones.
pub open spec fn often_matters(x: int, w: int) -> bool {
    ||| x == -128 || x == -1 || x == 0 || x == 1 || x == 16 || x == 32 || x == 64 || x == 100 || x
        == 127
    ||| w >= 2 && (x == -32768 || x == -129 || x == 128 || x == 255 || x == 256 || x == 512 || x
        == 1000 || x == 1024 || x == 4096 || x == 32767)
    ||| w >= 4 && (x == -2147483648 || x == -100663046 || x == -32769 || x == 32768 || x == 65535
        || x == 65536 || x == 100663045 || x == 2147483647)
}

/// Writing an interesting number: in one, two or four bytes, lowest first or,
/// for the operators with `Be`, highest first.
pub proof fn interesting_numbers_are_written(
    m: AFLMutator,
    material: Material,
    other: Seq<u8>,
    s: Seq<u8>,
    r: Seq<u8>,
    at: int,
    w: int,
    highest_first: bool,
)
    requires
        mutates_at(m, material, other, s, r, at),
        (m == AFLMutator::Int8 && w == 1 && !highest_first) || (m == AFLMutator::Int16 && w == 2
            && !highest_first) || (m == AFLMutator::Int16Be && w == 2 && highest_first) || (m
            == AFLMutator::Int32 && w == 4 && !highest_first) || (m == AFLMutator::Int32Be && w
            == 4 && highest_first),
    ensures
        s.len() < w ==> r == s,
        s.len() >= w ==> 0 <= at < s.len() && only_there(s, r, place_of(s, at, w), w) && exists|
            x: int,
        | #[trigger]
            often_matters(x, w) && value_at(r, place_of(s, at, w), w, highest_first) == x % pow(
                256,
                w as nat,
            ),
{
    if s.len() >= w {
        let p = place_of(s, at, w);
        assert(p == fitted(at, s.len() as int, w));
        let i = choose|i: int|
            0 <= i < interesting(w).len() && r == #[trigger] with_number(
                s,
                p,
                complement(interesting(w)[i]),
                w,
                highest_first,
            );
        let x = interesting(w)[i];
        assert(often_matters(x, w) && -0x8000_0000 <= x <= 0x7fff_ffff) by {
            if w == 1 {
                assert(interesting_8().contains(x));
            } else if w == 2 {
                if i >= 9 {
                    assert(interesting_16()[i] == seq![
                        -32768int,
                        -129,
                        128,
                        255,
                        256,
                        512,
                        1000,
                        1024,
                        4096,
                        32767,
                    ][i - 9]);
                }
            } else {
                if i >= 19 {
                    assert(interesting_32()[i] == seq![
                        -2147483648int,
                        -100663046,
                        -32769,
                        32768,
                        65535,
                        65536,
                        100663045,
                        2147483647,
                    ][i - 19]);
                } else if i >= 9 {
                    assert(interesting_16()[i] == seq![
                        -32768int,
                        -129,
                        128,
                        255,
                        256,
                        512,
                        1000,
                        1024,
                        4096,
                        32767,
                    ][i - 9]);
                }
            }
        }
        lemma_number_is_written(s, p, complement(x), w as nat, highest_first);
        lemma_powers();
        assert(complement(x) as int % pow(256, w as nat) == x % pow(256, w as nat));
    }
}

proof fn lemma_values(s: Seq<u8>, p: int, w: int, highest_first: bool)
    requires
        w == 1 || w == 2 || w == 4,
        0 <= p,
        p + w <= s.len(),
    ensures
        value_at(s, p, w, highest_first) == number_at(s, p, w, highest_first),
        0 <= value_at(s, p, w, highest_first) < pow(256, w as nat),
        modulus(w) == pow(256, w as nat),
{
    let b = s.subrange(p, p + w);
    lemma_powers();
    reveal_with_fuel(little, 5);
    reveal_with_fuel(big, 5);
    if highest_first {
        let b3 = b.drop_last();
        let b2 = b3.drop_last();
        let b1 = b2.drop_last();
        if w == 4 {
            assert(b1.drop_last() =~= Seq::empty());
        } else if w == 2 {
            assert(b2 =~= Seq::empty());
        } else {
            assert(b3 =~= Seq::empty());
        }
    } else {
        let b3 = b.skip(1);
        let b2 = b3.skip(1);
        let b1 = b2.skip(1);
        if w == 4 {
            assert(b1.skip(1) =~= Seq::empty());
        } else if w == 2 {
            assert(b2 =~= Seq::empty());
        } else {
            assert(b3 =~= Seq::empty());
        }
    }
}

proof fn lemma_shift(s: Seq<u8>, p: int, w: int, highest_first: bool, delta: int)
    requires
        w == 1 || w == 2 || w == 4,
        0 <= p,
        p + w <= s.len(),
    ensures
        ({
            let r = shifted(s, p, w, highest_first, delta);
            &&& only_there(s, r, p, w)
            &&& value_at(r, p, w, highest_first) == (value_at(s, p, w, highest_first) + delta)
                % pow(256, w as nat)
        }),
{
    let r = shifted(s, p, w, highest_first, delta);
    lemma_values(s, p, w, highest_first);
    shifts_are_undone(s, p, w, highest_first, delta);
    let x = ((number_at(s, p, w, highest_first) + delta) % modulus(w)) as u64;
    encodings_have_values(x, w as nat, highest_first);
    assert(only_there(s, r, p, w));
    lemma_values(r, p, w, highest_first);
}

/// Arithmetic on a number of one, two or four bytes, lowest first or, for the
/// operators with `Be`, highest first: between one and thirty-five is added,
/// or taken off by the operators with `Sub`.
pub proof fn small_amounts_are_added(
    m: AFLMutator,
    material: Material,
    other: Seq<u8>,
    s: Seq<u8>,
    r: Seq<u8>,
    at: int,
    w: int,
    highest_first: bool,
    sign: int,
)
    requires
        mutates_at(m, material, other, s, r, at),
        (m == AFLMutator::Arith8Add && w == 1 && !highest_first && sign == 1) || (m
            == AFLMutator::Arith8Sub && w == 1 && !highest_first && sign == -1) || (m
            == AFLMutator::Arith16Add && w == 2 && !highest_first && sign == 1) || (m
            == AFLMutator::Arith16AddBe && w == 2 && highest_first && sign == 1) || (m
            == AFLMutator::Arith16Sub && w == 2 && !highest_first && sign == -1) || (m
            == AFLMutator::Arith16SubBe && w == 2 && highest_first && sign == -1) || (m
            == AFLMutator::Arith32Add && w == 4 && !highest_first && sign == 1) || (m
            == AFLMutator::Arith32AddBe && w == 4 && highest_first && sign == 1) || (m
            == AFLMutator::Arith32Sub && w == 4 && !highest_first && sign == -1) || (m
            == AFLMutator::Arith32SubBe && w == 4 && highest_first && sign == -1),
    ensures
        s.len() < w ==> r == s,
        s.len() >= w ==> 0 <= at < s.len() && only_there(s, r, place_of(s, at, w), w) && exists|
            x: int,
        |
            1 <= x <= 35 && value_at(r, place_of(s, at, w), w, highest_first) == (value_at(
                s,
                place_of(s, at, w),
                w,
                highest_first,
            ) + #[trigger] (sign * x)) % pow(256, w as nat),
{
    if s.len() >= w {
        let p = place_of(s, at, w);
        assert(p == fitted(at, s.len() as int, w));
        let delta = choose|delta: int|
            1 <= (if sign == -1 {
                -delta
            } else {
                delta
            }) <= 35 && r == #[trigger] shifted(s, p, w, highest_first, delta);
        lemma_shift(s, p, w, highest_first, delta);
        let x = sign * delta;
        assert(1 <= x <= 35 && sign * x == delta);
    }
}

/// Operators on one byte: one bit of it is flipped, or all of them; it is
/// changed in any way; or one is added to it, or taken off.
pub proof fn one_byte_is_changed(
    m: AFLMutator,
    material: Material,
    other: Seq<u8>,
    s: Seq<u8>,
    r: Seq<u8>,
    at: int,
)
    requires
        mutates_at(m, material, other, s, r, at),
        m == AFLMutator::BitFilp || m == AFLMutator::BitFilp8 || m == AFLMutator::Rand8 || m
            == AFLMutator::ByteAdd || m == AFLMutator::ByteSub,
    ensures
        s.len() == 0 ==> r == s,
        s.len() > 0 ==> only_there(s, r, at, 1) && r[at] != s[at],
        s.len() > 0 && m == AFLMutator::BitFilp ==> {
            let x = s[at] ^ r[at];
            x == 1 || x == 2 || x == 4 || x == 8 || x == 16 || x == 32 || x == 64 || x == 128
        },
        s.len() > 0 && m == AFLMutator::BitFilp8 ==> r[at] == 255 - s[at],
        s.len() > 0 && m == AFLMutator::ByteAdd ==> r[at] == (s[at] + 1) % 256,
        s.len() > 0 && m == AFLMutator::ByteSub ==> r[at] == (s[at] + 255) % 256,
{
    if s.len() > 0 {
        let x = s[at];
        let y = r[at];
        if m == AFLMutator::BitFilp || m == AFLMutator::Rand8 {
            let mask = if m == AFLMutator::BitFilp {
                choose|mask: u8|
                    is_single_bit(mask) && r
                        == #[trigger] flipped(s, at, mask)
            } else {
                choose|mask: u8| mask != 0 && r == #[trigger] flipped(s, at, mask)
            };
            assert(y == x ^ mask);
            assert(y == x ^ mask ==> x ^ y == mask) by (bit_vector);
            assert(mask != 0 && y == x ^ mask ==> y != x) by (bit_vector);
            assert(only_there(s, r, at, 1) && y != x);
        } else if m == AFLMutator::BitFilp8 {
            assert(y == x ^ 0xff);
            assert(x ^ 0xff == 255 - x) by (bit_vector);
            assert(only_there(s, r, at, 1) && y != x);
        } else {
            let delta = if m == AFLMutator::ByteAdd {
                1int
            } else {
                -1
            };
            lemma_shift(s, at, 1, false, delta);
            lemma_values(s, at, 1, false);
            lemma_values(r, at, 1, false);
            lemma_powers();
            assert(r == shifted(s, at, 1, false, delta));
            assert(only_there(s, r, at, 1));
            assert(y == (x + delta) % 256);
            assert(0 <= x < 256 ==> (x + 1) % 256 != x && (x - 1) % 256 != x);
        }
    }
}

/// A constant that the target compared with is written in its width, lowest
/// byte first or, by the operator with `Be`, highest byte first, if it fits
/// in.
pub proof fn constants_are_written(
    m: AFLMutator,
    material: Material,
    other: Seq<u8>,
    s: Seq<u8>,
    r: Seq<u8>,
    at: int,
    highest_first: bool,
)
    requires
        mutates_at(m, material, other, s, r, at),
        (m == AFLMutator::ConstCmpData && !highest_first) || (m == AFLMutator::ConstCmpDataBe
            && highest_first),
    ensures
        material.numbers.len() == 0 ==> r == s,
        material.numbers.len() > 0 ==> exists|k: int|
            #![trigger material.numbers[k]]
            0 <= k < material.numbers.len() && ({
                let (x, w) = material.numbers[k];
                let p = place_of(s, at, w as int);
                if w > s.len() {
                    r == s
                } else {
                    &&& 0 <= at <= s.len()
                    &&& only_there(s, r, p, w as int)
                    &&& value_at(r, p, w as int, highest_first) == x as int % pow(256, w as nat)
                }
            }),
{
    let all = material.numbers;
    if all.len() > 0 {
        let k = choose|k: int|
            #![trigger all[k]]
            0 <= k < all.len() && (if all[k].1 > s.len() {
                r == s
            } else {
                0 <= at <= s.len() && r == with_number(
                    s,
                    fitted(at, s.len() as int, all[k].1 as int),
                    all[k].0,
                    all[k].1 as int,
                    highest_first,
                )
            });
        let (x, w) = all[k];
        if w <= s.len() {
            let p = place_of(s, at, w as int);
            assert(p == fitted(at, s.len() as int, w as int));
            lemma_number_is_written(s, p, x, w as nat, highest_first);
        }
        assert(material.numbers[k] == all[k]);
    }
}

/// The input with `n` of its bytes from `lo` on taken out.
pub open spec fn cut_out(s: Seq<u8>, lo: int, n: int) -> Seq<u8> {
    s.take(lo) + s.skip(lo + n)
}

/// The input with `b` put in before the byte at `lo`.
pub open spec fn put_in(s: Seq<u8>, lo: int, b: Seq<u8>) -> Seq<u8> {
    s.take(lo) + b + s.skip(lo)
}

/// The bytes of `b` stand at `p`, and nothing else was changed.
pub open spec fn written_there(s: Seq<u8>, r: Seq<u8>, p: int, b: Seq<u8>) -> bool {
    only_there(s, r, p, b.len() as int) && r.subrange(p, p + b.len()) == b
}

/// The same byte `n` times.
pub open spec fn many(x: u8, n: nat) -> Seq<u8> {
    Seq::new(n, |i: int| x)
}

/// A length that a block can have: no more than 32768.
pub open spec fn can_be_long(n: int) -> bool {
    1 <= n <= 32768
}

/// Copying a block, or one byte's value many times: it is inserted before a
/// byte, or written over others. Inputs of a million bytes or so are not made
/// longer.
pub proof fn blocks_are_copied(
    m: AFLMutator,
    material: Material,
    other: Seq<u8>,
    s: Seq<u8>,
    r: Seq<u8>,
    at: int,
)
    requires
        mutates_at(m, material, other, s, r, at),
    ensures
        m == AFLMutator::CloneCopy || m == AFLMutator::CloneFixed ==> (if s.len() + 32768
            >= 1048576 {
            r == s
        } else {
            0 <= at < s.len() && r.len() > s.len() && can_be_long(r.len() - s.len())
        }),
        m == AFLMutator::CloneCopy && s.len() + 32768 < 1048576 ==> exists|from: int, n: int|
            n == r.len() - s.len() && 0 <= from <= s.len() - n && r == put_in(
                s,
                at,
                #[trigger] s.subrange(from, from + n),
            ),
        m == AFLMutator::CloneFixed && s.len() + 32768 < 1048576 ==> exists|x: u8, n: nat|
            n == r.len() - s.len() && r == put_in(s, at, #[trigger] many(x, n)),
        m == AFLMutator::OverWriteCopy || m == AFLMutator::OverWriteFixed ==> s.len() < 2 ==> r
            == s,
        m == AFLMutator::OverWriteCopy && s.len() >= 2 ==> exists|from: int, n: int|
            can_be_long(n) && n < s.len() && 0 <= from <= s.len() - n && from != at
                && written_there(s, r, at, #[trigger] s.subrange(from, from + n)),
        m == AFLMutator::OverWriteFixed && s.len() >= 2 ==> exists|x: u8, n: nat|
            can_be_long(n as int) && n < s.len() && written_there(
                s,
                r,
                at,
                #[trigger] many(x, n),
            ),
{
    if m == AFLMutator::CloneCopy && s.len() + 32768 < 1048576 {
        let (from, n) = choose|from: int, n: int|
            is_block_len(s.len() as int, n) && 0 <= from <= s.len() - n && r
                == #[trigger] copied_in(s, from, at, n);
        assert(r.len() == s.len() + n);
        assert(r =~= put_in(s, at, s.subrange(from, from + n)));
    }
    if m == AFLMutator::CloneFixed && s.len() + 32768 < 1048576 {
        let (x, n) = choose|x: u8, n: int|
            is_block_len(32768, n) && r == #[trigger] fill_inserted(s, at, x, n);
        let b = many(x, n as nat);
        assert(r.len() == s.len() + n);
        assert(r =~= put_in(s, at, b));
    }
    if m == AFLMutator::OverWriteCopy && s.len() >= 2 {
        let (from, n) = choose|from: int, n: int|
            is_block_len(s.len() - 1, n) && 0 <= from <= s.len() - n && at <= s.len() - n && from
                != at && r == #[trigger] copied_over(s, from, at, n);
        let b = s.subrange(from, from + n);
        assert(r.subrange(at, at + n) =~= b);
        assert(written_there(s, r, at, b));
    }
    if m == AFLMutator::OverWriteFixed && s.len() >= 2 {
        let (x, n) = choose|x: u8, n: int|
            is_block_len(s.len() - 1, n) && at <= s.len() - n && r == #[trigger] fill_written(
                s,
                at,
                x,
                n,
            );
        let b = many(x, n as nat);
        assert(r.subrange(at, at + n) =~= b);
        assert(written_there(s, r, at, b));
    }
}

/// Moving and removing: two blocks that do not overlap change places; the
/// bytes of a block are put in another order; a block or a byte is taken out,
/// but never all; a byte is put in.
pub proof fn blocks_are_moved(
    m: AFLMutator,
    material: Material,
    other: Seq<u8>,
    s: Seq<u8>,
    r: Seq<u8>,
    at: int,
)
    requires
        mutates_at(m, material, other, s, r, at),
    ensures
        m == AFLMutator::Switch || m == AFLMutator::Shuffle ==> s.len() < 4 ==> r == s,
        m == AFLMutator::Del || m == AFLMutator::DelOne || m == AFLMutator::InsertOne ==> s.len()
            < 2 ==> r == s,
        m == AFLMutator::Switch && s.len() >= 4 ==> exists|b: int, n: int| #[trigger]
            can_be_long(n) && 0 <= at && 0 <= b && at + n <= s.len() && b + n <= s.len() && (at + n
                <= b || b + n <= at) && #[trigger] change_places(s, r, at, b, n),
        m == AFLMutator::Shuffle && s.len() >= 4 ==> exists|n: int| #[trigger]
            can_be_long(n) && n < s.len() && only_there(s, r, at, n) && r.subrange(
                at,
                at + n,
            ).to_multiset() == s.subrange(at, at + n).to_multiset(),
        m == AFLMutator::Del && s.len() >= 2 ==> 0 <= at && 0 < r.len() < s.len() && can_be_long(
            s.len() - r.len(),
        ) && at + (s.len() - r.len()) <= s.len() && r == cut_out(s, at, s.len() - r.len()),
        m == AFLMutator::DelOne && s.len() >= 2 ==> 0 <= at < s.len() && r == cut_out(s, at, 1),
        m == AFLMutator::InsertOne && s.len() >= 2 ==> 0 <= at <= s.len() && r.len() == s.len() + 1
            && r == put_in(s, at, seq![r[at]]),
{
    if m == AFLMutator::Switch && s.len() >= 4 {
        let (b, n) = choose|b: int, n: int|
            can_switch(s.len() as int, at, b, n) && r == #[trigger] switched(s, at, b, n);
        assert(r.subrange(at, at + n) =~= s.subrange(b, b + n));
        assert(r.subrange(b, b + n) =~= s.subrange(at, at + n));
        assert(change_places(s, r, at, b, n));
        assert(can_be_long(n));
    }
    if m == AFLMutator::Shuffle && s.len() >= 4 {
        let picks = choose|picks: Seq<usize>|
            picks_fit(picks) && is_block_len(s.len() - 1, 1 + picks.len() as int) && at <= s.len()
                - picks.len() - 1 && r == #[trigger] shuffled(s, at, picks);
        shuffles_keep_bytes(s, at, picks);
        let n = 1 + picks.len() as int;
        lemma_same_inside(s, r, at, n);
        assert(can_be_long(n));
    }
    if m == AFLMutator::Del && s.len() >= 2 {
        let n = choose|n: int|
            is_block_len(s.len() - 1, n) && at <= s.len() - n && r == #[trigger] without(s, at, n);
        assert(r.len() == s.len() - n);
        assert(r =~= cut_out(s, at, n));
    }
    if m == AFLMutator::DelOne && s.len() >= 2 {
        assert(r =~= cut_out(s, at, 1));
    }
    if m == AFLMutator::InsertOne && s.len() >= 2 {
        let x = choose|x: u8| r == #[trigger] fill_inserted(s, at, x, 1);
        assert(r =~= put_in(s, at, seq![x]));
        assert(r[at] == x);
    }
}

/// The `n` bytes at `a` and those at `b` have changed places.
pub open spec fn change_places(s: Seq<u8>, r: Seq<u8>, a: int, b: int, n: int) -> bool {
    &&& r.len() == s.len()
    &&& r.subrange(a, a + n) == s.subrange(b, b + n)
    &&& r.subrange(b, b + n) == s.subrange(a, a + n)
    &&& forall|i: int|
        0 <= i < s.len() && !(a <= i < a + n) && !(b <= i < b + n) ==> #[trigger] r[i] == s[i]
}

/// If an input keeps all its bytes in some order, and those around a block in
/// their places, the block keeps its bytes.
proof fn lemma_same_inside(s: Seq<u8>, r: Seq<u8>, p: int, n: int)
    requires
        only_there(s, r, p, n),
        0 <= n,
        r.to_multiset() =~= s.to_multiset(),
    ensures
        r.subrange(p, p + n).to_multiset() == s.subrange(p, p + n).to_multiset(),
{
    broadcast use vstd::seq_lib::group_to_multiset_ensures;

    let (a, b, c) = (s.take(p), s.subrange(p, p + n), s.skip(p + n));
    let (d, e, f) = (r.take(p), r.subrange(p, p + n), r.skip(p + n));
    assert(a =~= d);
    assert(c =~= f);
    assert(s =~= a + b + c);
    assert(r =~= d + e + f);
    vstd::seq_lib::lemma_multiset_commutative(a, b);
    vstd::seq_lib::lemma_multiset_commutative(a + b, c);
    vstd::seq_lib::lemma_multiset_commutative(d, e);
    vstd::seq_lib::lemma_multiset_commutative(d + e, f);
    assert forall|x: u8| e.to_multiset().count(x) == b.to_multiset().count(x) by {
        assert(r.to_multiset().count(x) == s.to_multiset().count(x));
    }
    assert(e.to_multiset() =~= b.to_multiset());
}

/// A block of another input is written over a block, or inserted. Where it is
/// inserted, one more byte comes behind the end.
pub proof fn splices_bring_other_bytes(
    m: AFLMutator,
    material: Material,
    other: Seq<u8>,
    s: Seq<u8>,
    r: Seq<u8>,
    at: int,
)
    requires
        mutates_at(m, material, other, s, r, at),
    ensures
        m == AFLMutator::SpliceOverwrite || m == AFLMutator::SpliceInsert ==> other.len() < 4 ==> r
            == s,
        m == AFLMutator::SpliceInsert && s.len() + 32768 >= 1048576 ==> r == s,
        m == AFLMutator::SpliceOverwrite && other.len() >= 4 ==> exists|from: int, n: int|
            0 <= n <= 32768 && (n > 0 || s.len() == 0) && n < other.len() && 0 <= from
                <= other.len() - n && written_there(
                s,
                r,
                at,
                #[trigger] other.subrange(from, from + n),
            ),
        m == AFLMutator::SpliceInsert && other.len() >= 4 && s.len() + 32768 < 1048576 ==> exists|
            from: int,
            n: int,
        |
            can_be_long(n) && 0 <= from <= other.len() - n && 0 <= at <= s.len() && r.len()
                == s.len() + n + 1 && r.drop_last() == put_in(
                s,
                at,
                #[trigger] other.subrange(from, from + n),
            ),
{
    if m == AFLMutator::SpliceOverwrite && other.len() >= 4 {
        let (from, n) = choose|from: int, n: int|
            (n == s.len() || is_block_len(other.len() - 1, n)) && n <= 32768 && n <= other.len()
                - 1 && 0 <= n && 0 <= from <= other.len() - n && at <= s.len() - n && r
                == #[trigger] splice_written(s, other, from, at, n);
        let b = other.subrange(from, from + n);
        assert(r.subrange(at, at + n) =~= b);
        assert(written_there(s, r, at, b));
    }
    if m == AFLMutator::SpliceInsert && other.len() >= 4 && s.len() + 32768 < 1048576 {
        let (from, n, last) = choose|from: int, n: int, last: u8|
            is_block_len(other.len() as int, n) && 0 <= from <= other.len() - n && r
                == #[trigger] splice_inserted(s, other, from, at, n, last);
        let b = other.subrange(from, from + n);
        assert(r.drop_last() =~= put_in(s, at, b));
    }
}

/// Tokens of a list: one is inserted, unless the input would reach a million
/// bytes or so by it, or written over others, if it fits in.
pub open spec fn token_used(
    s: Seq<u8>,
    r: Seq<u8>,
    at: int,
    all: Seq<Seq<u8>>,
    inserts: bool,
) -> bool {
    if all.len() == 0 {
        r == s
    } else {
        exists|k: int|
            #![trigger all[k]]
            0 <= k < all.len() && (if inserts {
                if s.len() + all[k].len() >= 1048576 {
                    r == s
                } else {
                    0 <= at <= s.len() && r == put_in(s, at, all[k])
                }
            } else {
                if all[k].len() > s.len() {
                    r == s
                } else {
                    written_there(s, r, token_place(s, at, all[k]), all[k])
                }
            })
    }
}

/// Where a token is written.
pub open spec fn token_place(s: Seq<u8>, at: int, token: Seq<u8>) -> int {
    place_of(s, at, token.len() as int)
}

proof fn lemma_token_inserted(s: Seq<u8>, r: Seq<u8>, at: int, all: Seq<Seq<u8>>)
    requires
        token_inserted(s, r, all, at),
    ensures
        token_used(s, r, at, all, true),
{
    if all.len() > 0 {
        let k = choose|k: int|
            #![trigger all[k]]
            0 <= k < all.len() && (if s.len() + all[k].len() >= 1048576 {
                r == s
            } else {
                0 <= at <= s.len() && r == token_put_in(s, all[k], at)
            });
        if s.len() + all[k].len() < 1048576 {
            assert(r =~= put_in(s, at, all[k]));
        }
    }
}

proof fn lemma_token_written(s: Seq<u8>, r: Seq<u8>, at: int, all: Seq<Seq<u8>>)
    requires
        token_overwritten(s, r, all, at),
    ensures
        token_used(s, r, at, all, false),
{
    if all.len() > 0 {
        let k = choose|k: int|
            #![trigger all[k]]
            0 <= k < all.len() && (if all[k].len() > s.len() {
                r == s
            } else {
                0 <= at <= s.len() && r == token_written(
                    s,
                    all[k],
                    fitted(at, s.len() as int, all[k].len() as int),
                )
            });
        if all[k].len() <= s.len() {
            let p = token_place(s, at, all[k]);
            assert(r.subrange(p, p + all[k].len()) =~= all[k]);
        }
    }
}

/// The operators for tokens take them from the dictionary, or from the strings
/// that the target compared with, and insert them or write them over others.
pub proof fn tokens_are_used(
    m: AFLMutator,
    material: Material,
    other: Seq<u8>,
    s: Seq<u8>,
    r: Seq<u8>,
    at: int,
)
    requires
        mutates_at(m, material, other, s, r, at),
    ensures
        m == AFLMutator::ExtraInsert ==> token_used(s, r, at, material.extras, true),
        m == AFLMutator::ExtraOverwrite ==> token_used(s, r, at, material.extras, false),
        m == AFLMutator::ConstStrcmpInsert ==> token_used(s, r, at, material.strings, true),
        m == AFLMutator::ConstStrcmpOverwrite ==> token_used(s, r, at, material.strings, false),
{
    match m {
        AFLMutator::ExtraInsert => lemma_token_inserted(s, r, at, material.extras),
        AFLMutator::ExtraOverwrite => lemma_token_written(s, r, at, material.extras),
        AFLMutator::ConstStrcmpInsert => lemma_token_inserted(s, r, at, material.strings),
        AFLMutator::ConstStrcmpOverwrite => lemma_token_written(s, r, at, material.strings),
        _ => {},
    }
}

/// What is put into an input for a seed comes from the seed's own trace, and
/// from the dictionary.
pub proof fn material_is_that_of_the_seed(handler: SearchHandler, extra_data: Seq<ExtraData>)
    ensures
        ({
            let all = material(handler, extra_data);
            &&& all.pairs.len() == handler.operands.direct_copy_pairs@.len()
            &&& forall|i: int|
                #![trigger all.pairs[i]]
                0 <= i < all.pairs.len() ==> all.pairs[i].0
                    == handler.operands.direct_copy_pairs@[i].0@ && all.pairs[i].1
                    == handler.operands.direct_copy_pairs@[i].1@
            &&& all.numbers == handler.operands.const_numbers@
            &&& all.strings.len() == handler.operands.const_strings@.len()
            &&& forall|i: int|
                #![trigger all.strings[i]]
                0 <= i < all.strings.len() ==> all.strings[i]
                    == handler.operands.const_strings@[i].data@
            &&& all.extras.len() == extra_data.len()
            &&& forall|i: int|
                #![trigger all.extras[i]]
                0 <= i < all.extras.len() ==> all.extras[i] == extra_data[i].data@
        }),
{
}

/// An operand of some comparison gives way to the one it was compared with,
/// see [`swaps_take_out_what_was_found`]; nothing is changed where neither is
/// found.
pub proof fn recorded_operands_give_way(
    material: Material,
    other: Seq<u8>,
    s: Seq<u8>,
    r: Seq<u8>,
    at: int,
)
    requires
        mutates_at(AFLMutator::TraceCmpData, material, other, s, r, at),
        material.is_sized(),
    ensures
        r == s || exists|k: int, p: int, x: Seq<u8>, y: Seq<u8>|
            0 <= k < material.pairs.len() && #[trigger] are_operands(x, y, material.pairs[k])
                && #[trigger] stands_at(s, p, x) && r == s.take(p) + y + s.skip(p + x.len()),
{
    let all = material.pairs;
    if all.len() > 0 {
        let k = choose|k: int|
            0 <= k < all.len() && #[trigger] operand_replaced_from(
                s,
                r,
                at,
                all[k].0,
                all[k].1,
            );
        let (a, b) = all[k];
        assert(material.pairs[k] == all[k]);
        let n = longer(a, b);
        if n <= s.len() {
            let pos = fitted(at, s.len() as int, n);
            lemma_swap_is_an_exchange(s, pos, a, b);
        }
    }
}

/// The two are the operands of the pair, in one order or the other and with
/// the same byte order.
pub open spec fn are_operands(x: Seq<u8>, y: Seq<u8>, pair: (Seq<u8>, Seq<u8>)) -> bool {
    ||| x == pair.0 && y == pair.1
    ||| x == pair.1 && y == pair.0
    ||| x == pair.0.reverse() && y == pair.1.reverse()
    ||| x == pair.1.reverse() && y == pair.0.reverse()
}

proof fn lemma_swap_is_an_exchange(s: Seq<u8>, pos: int, a: Seq<u8>, b: Seq<u8>)
    requires
        0 <= pos,
        a.len() > 0,
        b.len() > 0,
    ensures
        ({
            let r = operands_swapped(s, pos, a, b);
            r == s || exists|p: int, x: Seq<u8>, y: Seq<u8>| #[trigger]
                are_operands(x, y, (a, b)) && #[trigger] stands_at(s, p, x) && r == s.take(p) + y
                    + s.skip(p + x.len())
        }),
    decreases s.len() - pos,
{
    let r = operands_swapped(s, pos, a, b);
    if pos + a.len() <= s.len() && pos + b.len() <= s.len() {
        if either_stands_at(s, pos, a, b) {
            swaps_take_out_what_was_found(s, pos, pos, a, b);
            assert(a.reverse().len() == a.len() && b.reverse().len() == b.len());
            if stands_at(s, pos, a.reverse()) {
                assert(are_operands(a.reverse(), b.reverse(), (a, b)));
            } else if stands_at(s, pos, b.reverse()) {
                assert(are_operands(b.reverse(), a.reverse(), (a, b)));
            } else if stands_at(s, pos, a) {
                assert(are_operands(a, b, (a, b)));
            } else {
                assert(are_operands(b, a, (a, b)));
            }
        } else {
            lemma_swap_is_an_exchange(s, pos + 1, a, b);
            lemma_swap_goes_on(s, pos, a, b);
        }
    }
}

/// Digits of a number are written, as many as are wanted or as there are, if
/// there is room for as many as are wanted.
pub proof fn digits_are_written(
    material: Material,
    other: Seq<u8>,
    s: Seq<u8>,
    r: Seq<u8>,
    at: int,
)
    requires
        mutates_at(AFLMutator::InsertAsciiNum, material, other, s, r, at),
    ensures
        (r == s && s.len() < 8) || exists|n: int, text: Seq<u8>|
            1 <= n <= 8 && 0 <= at < s.len() && text.len() <= n <= s.len()
                && #[trigger] written_there(s, r, place_of(s, at, n), text) && is_decimal(
                text,
                decimal(text),
            ),
{
    assert(number_written(s, r, at));
    let (x, n) = choose|x: u64, n: int| #[trigger] digits_put(s, r, at, x, n);
    let d = digits(x as nat);
    let k = if n < d.len() {
        n
    } else {
        d.len() as int
    };
    let text = d.take(k);
    digits_are_decimal(x as nat);
    assert forall|i: int| 0 <= i < text.len() implies 48 <= #[trigger] text[i] <= 57 by {
        assert(text[i] == d[i]);
    }
    assert(is_decimal(text, decimal(text)));
    let p = place_of(s, at, n);
    if s.len() >= n {
        assert(r.subrange(p, p + text.len()) =~= text);
        assert(written_there(s, r, p, text));
    }
}

/// A decimal number in the input is changed, see [`numbers_give_way`].
pub proof fn decimal_numbers_are_changed(
    material: Material,
    other: Seq<u8>,
    s: Seq<u8>,
    r: Seq<u8>,
    at: int,
    p: int,
    e: int,
)
    requires
        mutates_at(AFLMutator::AsciiNum, material, other, s, r, at),
        s.len() >= 4,
        is_found_from(s, at, p, e),
        decimal(s.subrange(p, e)) < 0x4000_0000_0000_0000,
    ensures
        0 <= at < s.len(),
        exists|n: int, text: Seq<u8>, op: u8, wide: u64, small: u8| #[trigger]
            reads_as(text, n) && op < 8 && r == s.take(p) + text + s.skip(e) && #[trigger] becomes(
                signed_value(s, p, e),
                n,
                op,
                wide,
                small,
            ),
{
    let (op, wide, small) = choose|op: u8, wide: u64, small: u8|
        op < 8 && r == #[trigger] with_changed_number(s, at, op, wide, small);
    numbers_give_way(s, at, p, e, op, wide, small);
}

proof fn lemma_splices_of_start(plan: Seq<AFLMutator>, i: int)
    requires
        0 <= i < plan.len(),
    ensures
        splices_in(plan.drop_last(), i) == splices_in(plan, i),
        0 <= splices_in(plan, i),
    decreases i,
{
    if i > 0 {
        lemma_splices_of_start(plan, i - 1);
        assert(plan.drop_last()[i - 1] == plan[i - 1]);
    }
}

proof fn lemma_splices_rise(plan: Seq<AFLMutator>, i: int, j: int)
    requires
        0 <= i < j <= plan.len(),
        takes_splice(plan[i]),
    ensures
        splices_in(plan, i) < splices_in(plan, j),
    decreases j,
{
    if i + 1 < j {
        lemma_splices_rise(plan, i, j - 1);
    }
}

/// The operator takes a block of another input.
pub open spec fn is_splicing(m: AFLMutator) -> bool {
    m == AFLMutator::SpliceInsert || m == AFLMutator::SpliceOverwrite
}

/// The place lies in a tenth of an input of the given length, counted from
/// zero; the last tenth takes what is left over. An input of less than ten
/// bytes is not divided.
pub open spec fn lies_in_tenth(len: int, position: int, at: int) -> bool {
    let tenth = len / 10;
    if tenth == 0 {
        0 <= at < len
    } else {
        tenth * position <= at && (if position == 9 {
            at < len
        } else {
            at < tenth * (position + 1)
        })
    }
}

/// The other input that the last operator takes a block of.
pub open spec fn last_other(plan: Seq<AFLMutator>, splices: Seq<Vec<u8>>) -> Seq<u8> {
    if is_splicing(plan.last()) {
        splices.last()@
    } else {
        Seq::empty()
    }
}

/// The other inputs that are left for the operators before the last.
pub open spec fn others_before(plan: Seq<AFLMutator>, splices: Seq<Vec<u8>>) -> Seq<Vec<u8>> {
    if is_splicing(plan.last()) {
        splices.drop_last()
    } else {
        splices
    }
}

/// The position ranges of the operators before the last.
pub open spec fn positions_before(positions: Option<Seq<usize>>) -> Option<Seq<usize>> {
    match positions {
        Some(p) => Some(p.drop_last()),
        None => None,
    }
}

/// Operators are stacked: none leaves the input as it is, and the last of
/// several works on what the others made of it. It works in the tenth of that
/// input which was picked with it, if any was; and it takes the last of the
/// other inputs, if it takes one.
pub proof fn operators_are_stacked(
    plan: Seq<AFLMutator>,
    positions: Option<Seq<usize>>,
    material: Material,
    splices: Seq<Vec<u8>>,
    s: Seq<u8>,
    r: Seq<u8>,
)
    requires
        havoc_done(plan, positions, material, splices, s, r),
        positions matches Some(p) ==> p.len() == plan.len(),
        splices.len() == splices_in(plan, plan.len() as int),
    ensures
        plan.len() == 0 ==> r == s,
        plan.len() > 0 ==> exists|mid: Seq<u8>, at: int| #[trigger]
            mutates_at(plan.last(), material, last_other(plan, splices), mid, r, at) && (
            positions matches Some(p) ==> lies_in_tenth(mid.len() as int, p.last() as int, at))
                && havoc_done(
                plan.drop_last(),
                positions_before(positions),
                material,
                others_before(plan, splices),
                s,
                mid,
            ),
{
    let steps = choose|steps: Seq<Seq<u8>>| #[trigger]
        is_chain(plan, positions, material, splices, steps) && steps[0] == s && steps.last() == r;
    if plan.len() > 0 {
        let n = plan.len() - 1;
        let mid = steps[n];
        let m = plan[n];
        let start = plan.drop_last();
        let others = others_before(plan, splices);
        let before = positions_before(positions);
        assert(m == plan.last());
        assert(steps[n + 1] == r);
        lemma_splices_of_start(plan, n);
        assert(splice_for(plan, splices, n) == last_other(plan, splices));
        let other = last_other(plan, splices);
        assert(mutates_by(m, position_of(positions, n), material, other, mid, r));
        let at = match positions {
            Some(p) => choose|at: int|
                start_point_range(mid.len() as int, p[n] as int).0 <= at < start_point_range(
                    mid.len() as int,
                    p[n] as int,
                ).1 && #[trigger] mutates_at(m, material, other, mid, r, at),
            None => choose|at: int| #[trigger] mutates_at(m, material, other, mid, r, at),
        };
        assert(mutates_at(plan.last(), material, last_other(plan, splices), mid, r, at));
        let first = steps.drop_last();
        assert forall|i: int|
            #![trigger start[i]]
            0 <= i < start.len() implies mutates_by(
            start[i],
            position_of(before, i),
            material,
            splice_for(start, others, i),
            first[i],
            first[i + 1],
        ) by {
            assert(start[i] == plan[i]);
            lemma_splices_of_start(plan, i);
            if takes_splice(plan[i]) {
                lemma_splices_rise(plan, i, n);
            }
            assert(splice_for(start, others, i) == splice_for(plan, splices, i));
            assert(first[i] == steps[i] && first[i + 1] == steps[i + 1]);
        }
        assert(is_chain(start, before, material, others, first));
        assert(first[0] == s && first.last() == mid);
    }
}


/// What an input becomes when the operand that stands at `p` gives way to the
/// other. The first is looked for before the second, and reversed bytes before
/// the others.
pub open spec fn given_way(s: Seq<u8>, p: int, a: Seq<u8>, b: Seq<u8>) -> Seq<u8> {
    if stands_at(s, p, a.reverse()) {
        s.take(p) + b.reverse() + s.skip(p + a.len())
    } else if stands_at(s, p, b.reverse()) {
        s.take(p) + a.reverse() + s.skip(p + b.len())
    } else if stands_at(s, p, a) {
        s.take(p) + b + s.skip(p + a.len())
    } else {
        s.take(p) + a + s.skip(p + b.len())
    }
}

/// Both operands fit in at `p`.
pub open spec fn both_fit(s: Seq<u8>, p: int, a: Seq<u8>, b: Seq<u8>) -> bool {
    p + a.len() <= s.len() && p + b.len() <= s.len()
}

/// No operand stands from `lo` up to `hi`, at places where both fit in.
pub open spec fn none_stands(s: Seq<u8>, lo: int, hi: int, a: Seq<u8>, b: Seq<u8>) -> bool {
    forall|k: int|
        lo <= k < hi && both_fit(s, k, a, b) ==> !#[trigger] either_stands_at(s, k, a, b)
}

/// The first place from `start` on is `p` at which an operand stands.
pub open spec fn first_stands(s: Seq<u8>, start: int, p: int, a: Seq<u8>, b: Seq<u8>) -> bool {
    &&& start <= p
    &&& both_fit(s, p, a, b)
    &&& either_stands_at(s, p, a, b)
    &&& none_stands(s, start, p, a, b)
}

/// The first operand that stands from `start` on gave way to the other, or
/// nothing was changed since none does.
pub open spec fn first_gives_way(
    s: Seq<u8>,
    r: Seq<u8>,
    start: int,
    a: Seq<u8>,
    b: Seq<u8>,
) -> bool {
    ||| r == s && none_stands(s, start, s.len() as int, a, b)
    ||| exists|p: int| #[trigger] first_stands(s, start, p, a, b) && r == given_way(s, p, a, b)
}

proof fn lemma_first_gives_way(s: Seq<u8>, start: int, p: int, a: Seq<u8>, b: Seq<u8>)
    requires
        0 <= start <= p,
        p <= s.len(),
        a.len() > 0,
        b.len() > 0,
        none_stands(s, start, p, a, b),
    ensures
        first_gives_way(s, operands_swapped(s, start, a, b), start, a, b),
    decreases s.len() - p,
{
    if !both_fit(s, p, a, b) {
        assert forall|k: int|
            start <= k && k + a.len() <= s.len() && k + b.len()
                <= s.len() implies !#[trigger] either_stands_at(s, k, a, b) by {
            assert(k < p && both_fit(s, k, a, b));
        }
        nothing_is_swapped_unless_found(s, start, a, b);
    } else if either_stands_at(s, p, a, b) {
        assert forall|k: int| start <= k < p implies !#[trigger] either_stands_at(s, k, a, b) by {
            assert(both_fit(s, k, a, b));
        }
        swaps_take_out_what_was_found(s, start, p, a, b);
        assert(first_stands(s, start, p, a, b));
    } else {
        lemma_first_gives_way(s, start, p + 1, a, b);
    }
}

/// Without pairs of operands nothing is changed. Otherwise one pair is looked
/// for, from the place that the operator is set to on or from the last place
/// where it fits in, and what is found first gives way; an input that the pair
/// does not fit in stays as it is.
pub proof fn pairs_are_looked_for(
    material: Material,
    other: Seq<u8>,
    s: Seq<u8>,
    r: Seq<u8>,
    at: int,
)
    requires
        mutates_at(AFLMutator::TraceCmpData, material, other, s, r, at),
        material.is_sized(),
    ensures
        material.pairs.len() == 0 ==> r == s,
        material.pairs.len() > 0 ==> exists|k: int|
            #![trigger material.pairs[k]]
            0 <= k < material.pairs.len() && ({
                let (a, b) = material.pairs[k];
                if both_fit(s, 0, a, b) {
                    0 <= at <= s.len() && first_gives_way(
                        s,
                        r,
                        if a.len() >= b.len() {
                            place_of(s, at, a.len() as int)
                        } else {
                            place_of(s, at, b.len() as int)
                        },
                        a,
                        b,
                    )
                } else {
                    r == s
                }
            }),
{
    let all = material.pairs;
    if all.len() > 0 {
        let k = choose|k: int|
            0 <= k < all.len() && #[trigger] operand_replaced_from(
                s,
                r,
                at,
                all[k].0,
                all[k].1,
            );
        let (a, b) = all[k];
        assert(material.pairs[k] == all[k]);
        let n = longer(a, b);
        if n <= s.len() {
            let pos = fitted(at, s.len() as int, n);
            lemma_first_gives_way(s, pos, pos, a, b);
        }
    }
}

/// The operator for decimal numbers leaves an input without one as it is if it
/// has less than eight bytes, and else makes one up, see
/// [`texts_without_numbers_get_one`].
pub proof fn numbers_are_made_up(
    material: Material,
    other: Seq<u8>,
    s: Seq<u8>,
    r: Seq<u8>,
    at: int,
)
    requires
        mutates_at(AFLMutator::AsciiNum, material, other, s, r, at),
        forall|i: int| 0 <= i < s.len() ==> !(48 <= #[trigger] s[i] <= 57),
    ensures
        s.len() < 8 ==> r == s,
        s.len() >= 8 ==> 0 <= at < s.len() && exists|
            n: int,
            text: Seq<u8>,
            op: u8,
            wide: u64,
            small: u8,
        | #[trigger]
            reads_as(text, n) && op < 8 && r == s.take(at) + text + s.skip(at + 1)
                && #[trigger] becomes(0, n, op, wide, small),
{
    if s.len() >= 4 {
        let (op, wide, small) = choose|op: u8, wide: u64, small: u8|
            op < 8 && r == #[trigger] with_changed_number(s, at, op, wide, small);
        texts_without_numbers_get_one(s, at, op, wide, small);
    }
}

/// Inputs of less than four bytes are not looked through for numbers.
pub proof fn short_inputs_keep_their_numbers(
    material: Material,
    other: Seq<u8>,
    s: Seq<u8>,
    r: Seq<u8>,
    at: int,
)
    requires
        mutates_at(AFLMutator::AsciiNum, material, other, s, r, at),
        s.len() < 4,
    ensures
        r == s,
{
}

} // verus!
