//! Edits of byte buffers.

use crate::trace_data::{low_bytes, number_bytes};
use vstd::prelude::*;

verus! {

/// `s` with the bytes from `lo` up to `hi` replaced by `b`.
pub open spec fn replaced(s: Seq<u8>, lo: int, hi: int, b: Seq<u8>) -> Seq<u8> {
    s.subrange(0, lo) + b + s.subrange(hi, s.len() as int)
}

/// `n` times the byte `x`.
pub open spec fn filled(x: u8, n: int) -> Seq<u8> {
    Seq::new(n as nat, |i: int| x)
}

/// `s` with the bits of `mask` flipped at `pos`.
pub open spec fn flipped(s: Seq<u8>, pos: int, mask: u8) -> Seq<u8> {
    s.update(pos, s[pos] ^ mask)
}

/// How many values fit in `width` bytes.
pub open spec fn modulus(width: int) -> int {
    if width == 1 {
        0x100
    } else if width == 2 {
        0x1_0000
    } else {
        0x1_0000_0000
    }
}

/// The number of `width` bytes at `pos`.
pub open spec fn number_at(s: Seq<u8>, pos: int, width: int, big: bool) -> int {
    if width == 1 {
        s[pos] as int
    } else if width == 2 {
        if big {
            s[pos] * 0x100 + s[pos + 1]
        } else {
            s[pos] + s[pos + 1] * 0x100
        }
    } else if big {
        s[pos] * 0x100_0000 + s[pos + 1] * 0x1_0000 + s[pos + 2] * 0x100 + s[pos + 3]
    } else {
        s[pos] + s[pos + 1] * 0x100 + s[pos + 2] * 0x1_0000 + s[pos + 3] * 0x100_0000
    }
}

/// The low `width` bytes of `x`, lowest first unless `big`.
pub open spec fn encoded(x: u64, width: int, big: bool) -> Seq<u8> {
    if big {
        low_bytes(x, width).reverse()
    } else {
        low_bytes(x, width)
    }
}

/// `s` with `delta` added to the number at `pos`, wrapping around.
pub open spec fn shifted(s: Seq<u8>, pos: int, width: int, big: bool, delta: int) -> Seq<u8> {
    replaced(
        s,
        pos,
        pos + width,
        encoded(
            ((number_at(s, pos, width, big) + delta) % modulus(width)) as u64,
            width,
            big,
        ),
    )
}

/// `s` with the low bytes of `x` written at `pos`.
pub open spec fn with_number(s: Seq<u8>, pos: int, x: u64, width: int, big: bool) -> Seq<u8> {
    replaced(s, pos, pos + width, encoded(x, width, big))
}

/// `s` with the `n` bytes at `from` written over those at `to`.
pub open spec fn copied_over(s: Seq<u8>, from: int, to: int, n: int) -> Seq<u8> {
    replaced(s, to, to + n, s.subrange(from, from + n))
}

/// `s` with the `n` bytes at `from` inserted at `to`.
pub open spec fn copied_in(s: Seq<u8>, from: int, to: int, n: int) -> Seq<u8> {
    replaced(s, to, to, s.subrange(from, from + n))
}

/// `s` with the `n` bytes at `a` and at `b` exchanged.
pub open spec fn switched(s: Seq<u8>, a: int, b: int, n: int) -> Seq<u8> {
    replaced(copied_over(s, b, a, n), b, b + n, s.subrange(a, a + n))
}

/// `s` with the bytes at `i` and `j` exchanged.
pub open spec fn exchanged(s: Seq<u8>, i: int, j: int) -> Seq<u8> {
    s.update(i, s[j]).update(j, s[i])
}

/// `s` after a shuffle of the bytes from `pos` on. From the last of them down
/// to the second, each is exchanged with an earlier one: `picks` tells which,
/// counted from `pos`, the pick for the second byte being the first.
pub open spec fn shuffled(s: Seq<u8>, pos: int, picks: Seq<usize>) -> Seq<u8>
    decreases picks.len(),
{
    if picks.len() == 0 {
        s
    } else {
        shuffled(
            exchanged(s, pos + picks.len(), pos + picks.last()),
            pos,
            picks.drop_last(),
        )
    }
}

/// Every pick is for an earlier byte.
pub open spec fn picks_fit(picks: Seq<usize>) -> bool {
    forall|i: int| 0 <= i < picks.len() ==> #[trigger] picks[i] <= i
}

/// The bytes of a number are as many as were asked for.
pub proof fn encodings_have_width(x: u64, width: int, big: bool)
    requires
        0 <= width,
    ensures
        encoded(x, width, big).len() == width,
    decreases width,
{
    if width > 0 {
        encodings_have_width(x / 256, width - 1, false);
    }
}

/// Flipping the same bits again gives back what was there.
pub proof fn flips_are_undone(s: Seq<u8>, pos: int, mask: u8)
    requires
        0 <= pos < s.len(),
    ensures
        flipped(flipped(s, pos, mask), pos, mask) == s,
{
    let x = s[pos];
    assert((x ^ mask) ^ mask == x) by (bit_vector);
    assert(flipped(flipped(s, pos, mask), pos, mask) =~= s);
}

/// Switching the same blocks again gives back what was there.
pub proof fn switches_are_undone(s: Seq<u8>, a: int, b: int, n: int)
    requires
        0 <= n,
        0 <= a,
        0 <= b,
        a + n <= b || b + n <= a,
        a + n <= s.len(),
        b + n <= s.len(),
    ensures
        switched(switched(s, a, b, n), a, b, n) == s,
{
    assert(switched(switched(s, a, b, n), a, b, n) =~= s);
}

proof fn lemma_encoded(x: u64, width: int, big: bool)
    requires
        width == 1 || width == 2 || width == 4,
        x < modulus(width),
    ensures
        encoded(x, width, big).len() == width,
        number_at(encoded(x, width, big), 0, width, big) == x,
{
    reveal_with_fuel(low_bytes, 5);
    let b = low_bytes(x, width);
    assert(b.len() == width);
    assert(b[0] == (x % 256) as u8);
    if width >= 2 {
        assert(b[1] == ((x / 256) % 256) as u8);
    }
    if width == 4 {
        assert(b[2] == ((x / 256 / 256) % 256) as u8);
        assert(b[3] == ((x / 256 / 256 / 256) % 256) as u8);
    }
}

proof fn lemma_four_digits(s: Seq<int>, t: Seq<int>)
    requires
        s.len() == 4,
        t.len() == 4,
        forall|i: int| 0 <= i < 4 ==> 0 <= #[trigger] s[i] < 0x100,
        forall|i: int| 0 <= i < 4 ==> 0 <= #[trigger] t[i] < 0x100,
        s[0] + s[1] * 0x100 + s[2] * 0x1_0000 + s[3] * 0x100_0000 == t[0] + t[1] * 0x100 + t[2]
            * 0x1_0000 + t[3] * 0x100_0000,
    ensures
        s[0] == t[0] && s[1] == t[1] && s[2] == t[2] && s[3] == t[3],
{
    let (a, b, c, d) = (s[0], s[1], s[2], s[3]);
    let (e, f, g, h) = (t[0], t[1], t[2], t[3]);
    let x = a + b * 0x100 + c * 0x1_0000;
    let y = e + f * 0x100 + g * 0x1_0000;
    assert(0 <= x < 0x100_0000 && 0 <= y < 0x100_0000);
    assert(d == h);
    assert(0 <= a + b * 0x100 < 0x1_0000 && 0 <= e + f * 0x100 < 0x1_0000);
    assert(c == g);
    assert(b == f);
}

proof fn lemma_number_fixes_bytes(s: Seq<u8>, t: Seq<u8>, width: int, big: bool)
    requires
        width == 1 || width == 2 || width == 4,
        s.len() == width,
        t.len() == width,
        number_at(s, 0, width, big) == number_at(t, 0, width, big),
    ensures
        s == t,
{
    if width == 4 {
        if big {
            lemma_four_digits(
                seq![s[3] as int, s[2] as int, s[1] as int, s[0] as int],
                seq![t[3] as int, t[2] as int, t[1] as int, t[0] as int],
            );
        } else {
            lemma_four_digits(
                seq![s[0] as int, s[1] as int, s[2] as int, s[3] as int],
                seq![t[0] as int, t[1] as int, t[2] as int, t[3] as int],
            );
        }
    }
    assert(s =~= t);
}

/// Numbers that are written can be read back, and adding and then taking off
/// the same amount gives back what was there.
pub proof fn shifts_are_undone(s: Seq<u8>, pos: int, width: int, big: bool, delta: int)
    requires
        width == 1 || width == 2 || width == 4,
        0 <= pos <= s.len() - width,
    ensures
        number_at(shifted(s, pos, width, big, delta), pos, width, big) == (number_at(
            s,
            pos,
            width,
            big,
        ) + delta) % modulus(width),
        shifted(shifted(s, pos, width, big, delta), pos, width, big, -delta) == s,
{
    let m = modulus(width);
    let v = number_at(s, pos, width, big);
    let old_bytes = s.subrange(pos, pos + width);
    assert(number_at(old_bytes, 0, width, big) == v);
    assert(0 <= v < m);
    let w = (v + delta) % m;
    assert(0 <= w < m);
    lemma_encoded(w as u64, width, big);
    let t = shifted(s, pos, width, big, delta);
    let new_bytes = encoded(w as u64, width, big);
    assert(t.subrange(pos, pos + width) =~= new_bytes);
    assert(number_at(t, pos, width, big) == number_at(new_bytes, 0, width, big)) by {
        assert(forall|i: int| 0 <= i < width ==> t[pos + i] == #[trigger] new_bytes[i]);
        assert(t[pos + 0] == new_bytes[0]);
        if width >= 2 {
            assert(t[pos + 1] == new_bytes[1]);
        }
        if width == 4 {
            assert(t[pos + 2] == new_bytes[2]);
            assert(t[pos + 3] == new_bytes[3]);
        }
    }
    let back = (w - delta) % m;
    assert(back == v) by {
        vstd::arithmetic::div_mod::lemma_fundamental_div_mod(v + delta, m);
        let q = (v + delta) / m;
        assert(w - delta == v - m * q);
        vstd::arithmetic::div_mod::lemma_mod_multiples_vanish(-q, v, m);
        assert(m * (-q) + v == v - m * q) by (nonlinear_arith);
        vstd::arithmetic::div_mod::lemma_small_mod(v as nat, m as nat);
    }
    lemma_encoded(v as u64, width, big);
    lemma_number_fixes_bytes(encoded(v as u64, width, big), old_bytes, width, big);
    assert(shifted(t, pos, width, big, -delta) =~= s);
}

/// A shuffle moves bytes within the block and changes none.
pub proof fn shuffles_keep_bytes(s: Seq<u8>, pos: int, picks: Seq<usize>)
    requires
        picks_fit(picks),
        0 <= pos,
        pos + picks.len() < s.len(),
    ensures
        shuffled(s, pos, picks).to_multiset() =~= s.to_multiset(),
        shuffled(s, pos, picks).len() == s.len(),
        forall|i: int|
            0 <= i < pos || pos + picks.len() < i < s.len() ==> #[trigger] shuffled(
                s,
                pos,
                picks,
            )[i] == s[i],
    decreases picks.len(),
{
    if picks.len() > 0 {
        let i = pos + picks.len();
        let j = pos + picks.last();
        assert(picks[picks.len() - 1] <= picks.len() - 1);
        let t = exchanged(s, i, j);
        assert(picks_fit(picks.drop_last())) by {
            assert forall|k: int| 0 <= k < picks.drop_last().len() implies #[trigger] picks.drop_last()[k] <= k by {
                assert(picks[k] <= k);
            }
        }
        shuffles_keep_bytes(t, pos, picks.drop_last());
        vstd::seq_lib::to_multiset_update(s, i, s[j]);
        vstd::seq_lib::to_multiset_update(s.update(i, s[j]), j, s[i]);
        s.to_multiset_ensures();
        assert(s.contains(s[i]));
        assert(s.update(i, s[j])[j] == s[j]);
        assert(t.to_multiset() =~= s.to_multiset());
    }
}

/// Replaces the bytes from `lo` up to `hi` by `b`.
pub fn replace(buf: &mut Vec<u8>, lo: usize, hi: usize, b: &[u8])
    requires
        lo <= hi <= old(buf)@.len(),
    ensures
        final(buf)@ == replaced(old(buf)@, lo as int, hi as int, b@),
{
    let mut tail: Vec<u8> = buf.split_off(hi);
    buf.truncate(lo);
    buf.extend_from_slice(b);
    assert(buf@ =~= old(buf)@.subrange(0, lo as int) + b@);
    buf.append(&mut tail);
}

/// `n` times the byte `x`.
pub fn fill(x: u8, n: usize) -> (r: Vec<u8>)
    ensures
        r@ == filled(x, n as int),
{
    let mut r: Vec<u8> = Vec::new();
    let mut k: usize = 0;
    while k < n
        invariant
            k <= n,
            r@ == filled(x, k as int),
        decreases n - k,
    {
        r.push(x);
        k = k + 1;
        assert(r@ =~= filled(x, k as int));
    }
    r
}

/// The `n` bytes at `from`.
pub fn copy_of(s: &[u8], from: usize, n: usize) -> (r: Vec<u8>)
    requires
        from + n <= s@.len(),
    ensures
        r@ == s@.subrange(from as int, from + n),
{
    crate::trace_data::copy_bytes(s, from, n)
}

/// The bytes in reverse order.
pub fn reversed(s: &Vec<u8>) -> (r: Vec<u8>)
    ensures
        r@ == s@.reverse(),
{
    let mut r: Vec<u8> = Vec::new();
    let mut k: usize = s.len();
    while k > 0
        invariant
            k <= s@.len(),
            r@.len() == s@.len() - k,
            forall|i: int| 0 <= i < r@.len() ==> r@[i] == s@[s@.len() - 1 - i],
        decreases k,
    {
        k = k - 1;
        r.push(s[k]);
    }
    assert(r@ =~= s@.reverse());
    r
}

/// The low `width` bytes of `x`, lowest first unless `big`.
pub fn encode(x: u64, width: u32, big: bool) -> (r: Vec<u8>)
    ensures
        r@ == encoded(x, width as int, big),
        r@.len() == width,
{
    let r: Vec<u8> = number_bytes(x, width);
    if big {
        reversed(&r)
    } else {
        r
    }
}

/// Flips the bits of `mask` at `pos`.
pub fn flip_at(buf: &mut Vec<u8>, pos: usize, mask: u8)
    requires
        pos < old(buf)@.len(),
    ensures
        final(buf)@ == flipped(old(buf)@, pos as int, mask),
{
    let x: u8 = buf[pos];
    buf[pos] = x ^ mask;
}

/// Writes the low bytes of `x` at `pos`.
pub fn write_number_at(buf: &mut Vec<u8>, pos: usize, x: u64, width: u32, big: bool)
    requires
        pos + width <= old(buf)@.len(),
    ensures
        final(buf)@ == with_number(old(buf)@, pos as int, x, width as int, big),
{
    let b: Vec<u8> = encode(x, width, big);
    assert(buf.len() == buf@.len());
    replace(buf, pos, pos + width as usize, &b);
}

fn read_number_at(buf: &Vec<u8>, pos: usize, width: u32, big: bool) -> (r: u64)
    requires
        width == 1 || width == 2 || width == 4,
        pos + width <= buf@.len(),
    ensures
        r == number_at(buf@, pos as int, width as int, big),
        r < modulus(width as int),
{
    assert(buf.len() == buf@.len());
    if width == 1 {
        return buf[pos] as u64;
    }
    if width == 2 {
        let a: u64 = buf[pos] as u64;
        let b: u64 = buf[pos + 1] as u64;
        return if big {
            a * 0x100 + b
        } else {
            a + b * 0x100
        };
    }
    let a: u64 = buf[pos] as u64;
    let b: u64 = buf[pos + 1] as u64;
    let c: u64 = buf[pos + 2] as u64;
    let d: u64 = buf[pos + 3] as u64;
    if big {
        a * 0x100_0000 + b * 0x1_0000 + c * 0x100 + d
    } else {
        a + b * 0x100 + c * 0x1_0000 + d * 0x100_0000
    }
}

/// Adds `item` to the number at `pos`, or takes it off if `sub` holds,
/// wrapping around.
pub fn shift_at(buf: &mut Vec<u8>, pos: usize, width: u32, big: bool, item: u8, sub: bool)
    requires
        width == 1 || width == 2 || width == 4,
        pos + width <= old(buf)@.len(),
    ensures
        final(buf)@ == shifted(
            old(buf)@,
            pos as int,
            width as int,
            big,
            if sub {
                -(item as int)
            } else {
                item as int
            },
        ),
{
    let m: u64 = if width == 1 {
        0x100
    } else if width == 2 {
        0x1_0000
    } else {
        0x1_0000_0000
    };
    let x: u64 = read_number_at(buf, pos, width, big);
    let y: u64 = if sub {
        (x + m - item as u64) % m
    } else {
        (x + item as u64) % m
    };
    proof {
        if sub {
            assert(y == (x - item) % m as int);
        }
    }
    write_number_at(buf, pos, y, width, big);
}

/// Writes the `n` bytes at `from` over those at `to`.
pub fn copy_over_at(buf: &mut Vec<u8>, from: usize, to: usize, n: usize)
    requires
        from + n <= old(buf)@.len(),
        to + n <= old(buf)@.len(),
    ensures
        final(buf)@ == copied_over(old(buf)@, from as int, to as int, n as int),
{
    let b: Vec<u8> = copy_of(buf, from, n);
    assert(buf.len() == buf@.len());
    replace(buf, to, to + n, &b);
}

/// Exchanges the `n` bytes at `a` with those at `b`.
pub fn switch_at(buf: &mut Vec<u8>, a: usize, b: usize, n: usize, tmp_buf: &mut Vec<u8>)
    requires
        a + n <= b || b + n <= a,
        a + n <= old(buf)@.len(),
        b + n <= old(buf)@.len(),
    ensures
        final(buf)@ == switched(old(buf)@, a as int, b as int, n as int),
        final(tmp_buf)@ == old(buf)@.subrange(a as int, a + n),
{
    assert(buf.len() == buf@.len());
    *tmp_buf = copy_of(buf, a, n);
    copy_over_at(buf, b, a, n);
    replace(buf, b, b + n, tmp_buf);
    assert(buf@ =~= switched(old(buf)@, a as int, b as int, n as int));
}

/// Shuffles the bytes from `pos` on, see [`shuffled`].
pub fn shuffle_at(buf: &mut Vec<u8>, pos: usize, picks: &Vec<usize>)
    requires
        picks_fit(picks@),
        pos + picks@.len() < old(buf)@.len(),
    ensures
        final(buf)@ == shuffled(old(buf)@, pos as int, picks@),
{
    let mut k: usize = picks.len();
    assert(picks@.take(k as int) =~= picks@);
    assert(buf.len() == buf@.len());
    while k > 0
        invariant
            k <= picks@.len(),
            picks_fit(picks@),
            pos + picks@.len() < buf@.len() <= usize::MAX,
            shuffled(buf@, pos as int, picks@.take(k as int)) == shuffled(
                old(buf)@,
                pos as int,
                picks@,
            ),
        decreases k,
    {
        let i: usize = pos + k;
        k = k - 1;
        assert(picks@[k as int] <= k);
        let j: usize = pos + picks[k];
        proof {
            let p = picks@.take(k + 1);
            assert(p.last() == picks@[k as int]);
            assert(p.drop_last() =~= picks@.take(k as int));
        }
        let x: u8 = buf[i];
        let y: u8 = buf[j];
        buf[i] = y;
        buf[j] = x;
    }
    assert(picks@.take(0).len() == 0);
}

} // verus!
