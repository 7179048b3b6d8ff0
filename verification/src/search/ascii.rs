//! Decimal numbers within inputs.

use super::edits::{replace, replaced};
use vstd::prelude::*;

verus! {

/// The byte is an ASCII digit.
pub open spec fn is_digit(b: u8) -> bool {
    48 <= b <= 57
}

/// The first place with a digit, from `lo` on; `hi` if there is none before
/// it.
pub open spec fn first_digit(s: Seq<u8>, lo: int, hi: int) -> int
    decreases hi - lo,
{
    if lo >= hi || is_digit(s[lo]) {
        lo
    } else {
        first_digit(s, lo + 1, hi)
    }
}

/// The first place without a digit, from `i` on.
pub open spec fn run_end(s: Seq<u8>, i: int) -> int
    decreases s.len() - i,
{
    if i >= s.len() || !is_digit(s[i]) {
        i
    } else {
        run_end(s, i + 1)
    }
}

/// Where the number to change begins, for a search from `start` on that
/// wraps around. If there is no number, a short input is left alone and in
/// others the byte at `start` takes the number's place.
pub open spec fn number_place(s: Seq<u8>, start: int) -> Option<int> {
    let n = s.len() as int;
    if first_digit(s, start, n) < n {
        Some(first_digit(s, start, n))
    } else if first_digit(s, 0, start) < start || n >= 8 {
        Some(first_digit(s, 0, start))
    } else {
        None
    }
}

/// The value of a run of digits.
pub open spec fn value_of(s: Seq<u8>) -> nat
    decreases s.len(),
{
    if s.len() == 0 {
        0
    } else {
        value_of(s.drop_last()) * 10 + (s.last() - 48) as nat
    }
}

/// The number at `off`: zero if there is none there or it is too large for
/// 64 bits with a sign; negative behind a minus.
pub open spec fn number_in(s: Seq<u8>, off: int) -> int {
    let text = s.subrange(off, run_end(s, off + 1));
    let v = if is_digit(s[off]) && value_of(text) <= i64::MAX {
        value_of(text) as int
    } else {
        0
    };
    if off > 0 && s[off - 1] == 45 {
        -v
    } else {
        v
    }
}

/// `x` reduced to 64 bits with a sign.
pub open spec fn wrapped(x: int) -> int {
    (x + 0x8000_0000_0000_0000) % 0x1_0000_0000_0000_0000 - 0x8000_0000_0000_0000
}

/// `v` changed in the way `op`, with a large and a small random number.
pub open spec fn changed(v: int, op: u8, wide: u64, small: u8) -> int {
    if op == 0 {
        wrapped(v + 1)
    } else if op == 1 {
        wrapped(v - 1)
    } else if op == 2 {
        wrapped(v * 2)
    } else if op == 3 {
        if v >= 0 {
            v / 2
        } else {
            -((-v) / 2)
        }
    } else if op == 4 {
        if 0 < v < 0x1999_9999 {
            wide as int % (v * 10)
        } else {
            small as int
        }
    } else if op == 5 {
        wrapped(v + small)
    } else if op == 6 {
        wrapped(v - small)
    } else {
        -1 - v
    }
}

/// The digits of `x`.
pub open spec fn digits(x: nat) -> Seq<u8>
    decreases x,
{
    if x < 10 {
        seq![(48 + x) as u8]
    } else {
        digits(x / 10).push((48 + x % 10) as u8)
    }
}

/// `v` in decimal.
pub open spec fn signed_digits(v: int) -> Seq<u8> {
    if v < 0 {
        seq![45u8] + digits((-v) as nat)
    } else {
        digits(v as nat)
    }
}

/// `s` with the number at `off` changed.
pub open spec fn with_changed_number(
    s: Seq<u8>,
    start: int,
    op: u8,
    wide: u64,
    small: u8,
) -> Seq<u8> {
    match number_place(s, start) {
        Some(off) => replaced(
            s,
            off,
            run_end(s, off + 1),
            signed_digits(changed(number_in(s, off), op, wide, small)),
        ),
        None => s,
    }
}

/// What is written in decimal reads back as the same number.
pub proof fn digits_read_back(x: nat)
    ensures
        value_of(digits(x)) == x,
        digits(x).len() > 0,
        forall|i: int| 0 <= i < digits(x).len() ==> is_digit(#[trigger] digits(x)[i]),
    decreases x,
{
    if x < 10 {
        let s = digits(x);
        assert(s.drop_last() =~= Seq::empty());
        assert(value_of(s.drop_last()) == 0);
    } else {
        digits_read_back(x / 10);
        let s = digits(x);
        assert(s.drop_last() =~= digits(x / 10));
    }
}

proof fn lemma_digits_len(x: nat, bound: nat, n: nat)
    requires
        x < bound,
        n >= 1,
        bound == vstd::arithmetic::power::pow(10, n),
    ensures
        digits(x).len() <= n,
    decreases n,
{
    reveal(vstd::arithmetic::power::pow);
    if x >= 10 {
        if n == 1 {
            vstd::arithmetic::power::lemma_pow1(10);
        } else {
            let b = vstd::arithmetic::power::pow(10, (n - 1) as nat);
            assert(bound == 10 * b);
            lemma_digits_len(x / 10, b as nat, (n - 1) as nat);
        }
    }
}

/// Numbers of 64 bits have one to twenty digits.
pub proof fn digits_are_few(x: u64)
    ensures
        1 <= digits(x as nat).len() <= 20,
{
    assert(vstd::arithmetic::power::pow(10, 20) == 100000000000000000000) by {
        reveal_with_fuel(vstd::arithmetic::power::pow, 21);
    }
    lemma_digits_len(x as nat, 100000000000000000000, 20);
    digits_read_back(x as nat);
}

proof fn lemma_run_end(s: Seq<u8>, i: int)
    requires
        0 <= i <= s.len(),
    ensures
        i <= run_end(s, i) <= s.len(),
        forall|k: int| i <= k < run_end(s, i) ==> is_digit(#[trigger] s[k]),
    decreases s.len() - i,
{
    if i < s.len() && is_digit(s[i]) {
        lemma_run_end(s, i + 1);
    }
}

/// A changed number takes at most twenty-one bytes, and at least one.
pub proof fn changed_numbers_are_short(s: Seq<u8>, start: int, op: u8, wide: u64, small: u8)
    requires
        0 <= start < s.len(),
    ensures
        1 <= with_changed_number(s, start, op, wide, small).len() <= s.len() + 21,
{
    lemma_first_digit(s, start, s.len() as int);
    lemma_first_digit(s, 0, start);
    if let Some(off) = number_place(s, start) {
        lemma_run_end(s, off + 1);
        let v = number_in(s, off);
        assert(-i64::MAX <= v <= i64::MAX);
        let c = changed(v, op, wide, small);
        assert(i64::MIN <= c <= i64::MAX) by {
            if op == 4 && 0 < v < 0x1999_9999 {
                let m = v * 10;
                vstd::arithmetic::div_mod::lemma_mod_bound(wide as int, m);
            }
        }
        let size = if c < 0 {
            -c
        } else {
            c
        };
        digits_are_few(size as u64);
    }
}

proof fn lemma_first_digit(s: Seq<u8>, lo: int, hi: int)
    requires
        0 <= lo <= hi <= s.len(),
    ensures
        lo <= first_digit(s, lo, hi) <= hi,
    decreases hi - lo,
{
    if lo < hi && !is_digit(s[lo]) {
        lemma_first_digit(s, lo + 1, hi);
    }
}

fn find_digit(s: &Vec<u8>, lo: usize, hi: usize) -> (r: usize)
    requires
        lo <= hi <= s@.len(),
    ensures
        r == first_digit(s@, lo as int, hi as int),
        lo <= r <= hi,
{
    let mut i: usize = lo;
    while i < hi && !(48 <= s[i] && s[i] <= 57)
        invariant
            lo <= i <= hi <= s@.len(),
            first_digit(s@, i as int, hi as int) == first_digit(s@, lo as int, hi as int),
        decreases hi - i,
    {
        i = i + 1;
    }
    i
}

fn find_run_end(s: &Vec<u8>, i: usize) -> (r: usize)
    requires
        i <= s@.len(),
    ensures
        r == run_end(s@, i as int),
        i <= r <= s@.len(),
{
    let mut j: usize = i;
    while j < s.len() && 48 <= s[j] && s[j] <= 57
        invariant
            i <= j <= s@.len(),
            run_end(s@, j as int) == run_end(s@, i as int),
        decreases s@.len() - j,
    {
        j = j + 1;
    }
    j
}

proof fn lemma_value_grows(s: Seq<u8>, n: int)
    requires
        0 <= n <= s.len(),
        forall|i: int| 0 <= i < s.len() ==> is_digit(#[trigger] s[i]),
    ensures
        value_of(s.take(n)) <= value_of(s),
    decreases s.len() - n,
{
    if n < s.len() {
        lemma_value_grows(s.drop_last(), n);
        assert(s.drop_last().take(n) =~= s.take(n));
    } else {
        assert(s.take(n) =~= s);
    }
}

/// The value of a run of digits, if it fits.
fn read_value(s: &Vec<u8>, lo: usize, hi: usize) -> (r: Option<i64>)
    requires
        lo <= hi <= s@.len(),
        forall|i: int| lo <= i < hi ==> is_digit(#[trigger] s@[i]),
    ensures
        match r {
            Some(v) => v == value_of(s@.subrange(lo as int, hi as int)),
            None => value_of(s@.subrange(lo as int, hi as int)) > i64::MAX,
        },
{
    let ghost text = s@.subrange(lo as int, hi as int);
    let mut v: i64 = 0;
    let mut i: usize = lo;
    assert(text.take(0) =~= Seq::empty());
    while i < hi
        invariant
            lo <= i <= hi <= s@.len(),
            text == s@.subrange(lo as int, hi as int),
            forall|k: int| lo <= k < hi ==> is_digit(#[trigger] s@[k]),
            v >= 0,
            v == value_of(text.take(i - lo)),
        decreases hi - i,
    {
        let ghost more = text.take(i - lo + 1);
        assert(is_digit(s@[i as int]));
        let d: i64 = (s[i] - 48) as i64;
        assert(more.drop_last() =~= text.take(i - lo));
        assert(more.last() == s@[i as int]);
        assert(value_of(more) == v * 10 + d);
        if v > 922337203685477580 || (v == 922337203685477580 && d > 7) {
            proof {
                lemma_value_grows(text, i - lo + 1);
            }
            return None;
        }
        v = v * 10 + d;
        i = i + 1;
    }
    assert(text.take(i - lo) =~= text);
    Some(v)
}

fn wrap(x: i128) -> (r: i64)
    requires
        -0x1_0000_0000_0000_0000 < x < 0x1_0000_0000_0000_0000,
    ensures
        r == wrapped(x as int),
{
    if x > 0x7fff_ffff_ffff_ffff {
        (x - 0x1_0000_0000_0000_0000) as i64
    } else if x < -0x8000_0000_0000_0000 {
        (x + 0x1_0000_0000_0000_0000) as i64
    } else {
        x as i64
    }
}

/// `v` changed in the way `op`, with a large and a small random number.
pub fn change_number(v: i64, op: u8, wide: u64, small: u8) -> (r: i64)
    requires
        v > i64::MIN,
    ensures
        r == changed(v as int, op, wide, small),
{
    let w: i128 = v as i128;
    if op == 0 {
        wrap(w + 1)
    } else if op == 1 {
        wrap(w - 1)
    } else if op == 2 {
        wrap(w * 2)
    } else if op == 3 {
        if v >= 0 {
            ((v as u64) / 2) as i64
        } else {
            let m: u64 = (-v) as u64;
            -((m / 2) as i64)
        }
    } else if op == 4 {
        if v > 0 && v < 0x1999_9999 {
            let m: u64 = (v as u64) * 10;
            let r: u64 = wide % m;
            r as i64
        } else {
            small as i64
        }
    } else if op == 5 {
        wrap(w + small as i128)
    } else if op == 6 {
        wrap(w - small as i128)
    } else {
        -1 - v
    }
}

/// The digits of `x`.
pub fn print_digits(x: u64) -> (r: Vec<u8>)
    ensures
        r@ == digits(x as nat),
        1 <= r@.len() <= 20,
    decreases x,
{
    proof {
        digits_are_few(x);
    }
    if x < 10 {
        let mut r: Vec<u8> = Vec::new();
        r.push(48 + x as u8);
        assert(r@ =~= digits(x as nat));
        r
    } else {
        let mut r: Vec<u8> = print_digits(x / 10);
        r.push(48 + (x % 10) as u8);
        r
    }
}

fn print_signed(v: i64) -> (r: Vec<u8>)
    ensures
        r@ == signed_digits(v as int),
        1 <= r@.len() <= 21,
{
    if v < 0 {
        let mut r: Vec<u8> = Vec::new();
        r.push(45);
        let m: u64 = (-(v as i128)) as u64;
        let mut d: Vec<u8> = print_digits(m);
        r.append(&mut d);
        assert(r@ =~= signed_digits(v as int));
        r
    } else {
        print_digits(v as u64)
    }
}

/// Changes the number that a search from `start` on finds.
pub fn change_number_at(buf: &mut Vec<u8>, start: usize, op: u8, wide: u64, small: u8)
    requires
        start < old(buf)@.len(),
    ensures
        final(buf)@ == with_changed_number(old(buf)@, start as int, op, wide, small),
        final(buf)@.len() <= old(buf)@.len() + 21,
        1 <= final(buf)@.len(),
{
    let mut off: usize = find_digit(buf, start, buf.len());
    if off == buf.len() {
        off = find_digit(buf, 0, start);
        if off == start && buf.len() < 8 {
            return;
        }
    }
    assert(number_place(buf@, start as int) == Some(off as int));
    let end: usize = find_run_end(buf, off + 1);
    let mut v: i64 = 0;
    if 48 <= buf[off] && buf[off] <= 57 {
        proof {
            lemma_run_end(buf@, off + 1);
        }
        if let Some(x) = read_value(buf, off, end) {
            v = x;
        }
    }
    if off > 0 && buf[off - 1] == 45 {
        v = -v;
    }
    assert(v == number_in(buf@, off as int));
    let text: Vec<u8> = print_signed(change_number(v, op, wide, small));
    replace(buf, off, end, &text);
}

/// The number that digits stand for: each counts ten times as much as the next.
pub open spec fn decimal(b: Seq<u8>) -> int
    decreases b.len(),
{
    if b.len() == 0 {
        0
    } else {
        (b[0] - 48) * vstd::arithmetic::power::pow(10, (b.len() - 1) as nat) + decimal(b.skip(1))
    }
}

proof fn lemma_decimal(b: Seq<u8>)
    requires
        b.len() > 0,
    ensures
        decimal(b) == decimal(b.drop_last()) * 10 + (b.last() - 48),
    decreases b.len(),
{
    reveal(vstd::arithmetic::power::pow);
    if b.len() == 1 {
        assert(b.skip(1) =~= Seq::empty());
        assert(b.drop_last() =~= Seq::empty());
        let q = vstd::arithmetic::power::pow(10, 0);
        let x = b[0] - 48;
        assert(q == 1);
        assert(decimal(b.skip(1)) == 0 && decimal(b.drop_last()) == 0);
        assert(x * q == x) by (nonlinear_arith)
            requires
                q == 1,
        ;
    } else {
        lemma_decimal(b.skip(1));
        assert(b.skip(1).drop_last() =~= b.drop_last().skip(1));
        let n = (b.len() - 2) as nat;
        let x = b[0] - 48;
        let q = vstd::arithmetic::power::pow(10, n);
        assert(vstd::arithmetic::power::pow(10, n + 1) == 10 * q);
        assert(x * (10 * q) == (x * q) * 10) by (nonlinear_arith);
        assert(b.drop_last()[0] == b[0]);
        assert(decimal(b.drop_last()) == x * q + decimal(b.drop_last().skip(1)));
    }
}

proof fn lemma_values_are_decimal(b: Seq<u8>)
    requires
        forall|i: int| 0 <= i < b.len() ==> 48 <= #[trigger] b[i] <= 57,
    ensures
        value_of(b) == decimal(b),
        decimal(b) >= 0,
    decreases b.len(),
{
    if b.len() > 0 {
        assert forall|i: int| 0 <= i < b.drop_last().len() implies 48 <= #[trigger] b.drop_last()[i]
            <= 57 by {
            assert(b.drop_last()[i] == b[i]);
        }
        lemma_values_are_decimal(b.drop_last());
        lemma_decimal(b);
        assert(48 <= b[b.len() - 1] <= 57);
    }
}

/// The text is a number in decimal: digits, of which the first is not zero if
/// there are more, behind a minus if it is negative.
pub open spec fn reads_as(text: Seq<u8>, n: int) -> bool {
    if n < 0 {
        text.len() > 1 && text[0] == 45 && is_decimal(text.skip(1), -n)
    } else {
        is_decimal(text, n)
    }
}

/// Digits that stand for the number, without needless zeros.
pub open spec fn is_decimal(text: Seq<u8>, n: int) -> bool {
    &&& text.len() > 0
    &&& forall|i: int| 0 <= i < text.len() ==> 48 <= #[trigger] text[i] <= 57
    &&& text.len() > 1 ==> text[0] != 48
    &&& decimal(text) == n
}

/// Numbers are written in decimal.
pub proof fn digits_are_decimal(x: nat)
    ensures
        is_decimal(digits(x), x as int),
    decreases x,
{
    digits_read_back(x);
    assert forall|i: int| 0 <= i < digits(x).len() implies 48 <= #[trigger] digits(x)[i] <= 57 by {
        assert(is_digit(digits(x)[i]));
    }
    lemma_values_are_decimal(digits(x));
    if x >= 10 {
        digits_are_decimal(x / 10);
        assert(digits(x)[0] == digits(x / 10)[0]);
        if x / 10 < 10 {
            assert(digits(x / 10)[0] == (48 + x / 10) as u8);
        } else {
            assert(digits(x / 10 / 10).len() > 0) by {
                digits_read_back(x / 10 / 10);
            }
            assert(digits(x / 10).len() > 1);
        }
    }
}

proof fn lemma_first_digit_is(s: Seq<u8>, lo: int, p: int, hi: int)
    requires
        0 <= lo <= p <= hi <= s.len(),
        forall|i: int| lo <= i < p ==> !(48 <= #[trigger] s[i] <= 57),
        p < hi ==> 48 <= s[p] <= 57,
    ensures
        first_digit(s, lo, hi) == p,
    decreases p - lo,
{
    if lo < p {
        assert(!(48 <= s[lo] <= 57));
        lemma_first_digit_is(s, lo + 1, p, hi);
    }
}

proof fn lemma_run_end_is(s: Seq<u8>, i: int, e: int)
    requires
        0 <= i <= e <= s.len(),
        forall|k: int| i <= k < e ==> 48 <= #[trigger] s[k] <= 57,
        e < s.len() ==> !(48 <= s[e] <= 57),
    ensures
        run_end(s, i) == e,
    decreases e - i,
{
    if i < e {
        assert(48 <= s[i] <= 57);
        lemma_run_end_is(s, i + 1, e);
    }
}

/// The number from `p` up to `e` is the first that is found from `start` on,
/// where the search goes on at the start behind the end.
pub open spec fn is_found_from(s: Seq<u8>, start: int, p: int, e: int) -> bool {
    &&& 0 <= p < e <= s.len()
    &&& forall|i: int| p <= i < e ==> 48 <= #[trigger] s[i] <= 57
    &&& e < s.len() ==> !(48 <= s[e] <= 57)
    &&& if p >= start {
        forall|i: int| start <= i < p ==> !(48 <= #[trigger] s[i] <= 57)
    } else {
        forall|i: int|
            0 <= i < p || start <= i < s.len() ==> !(48 <= #[trigger] s[i] <= 57)
    }
}

/// What becomes of a number, by the way of changing it: one more or less,
/// twice or half as much, some more or less, its complement, or any.
pub open spec fn becomes(v: int, n: int, op: u8, wide: u64, small: u8) -> bool {
    &&& op == 0 ==> n == v + 1
    &&& op == 1 ==> n == v - 1
    &&& op == 2 ==> n == v + v
    &&& op == 3 ==> (v >= 0 ==> v - 1 <= n + n <= v) && (v < 0 ==> v <= n + n <= v + 1)
    &&& op == 4 ==> if 0 < v < 0x1999_9999 {
        0 <= n < 10 * v && exists|k: int| wide == n + #[trigger] (k * (10 * v))
    } else {
        n == small
    }
    &&& op == 5 ==> n == v + small
    &&& op == 6 ==> n == v - small
    &&& op == 7 ==> n == -v - 1
}

/// The number from `p` up to `e`, negative behind a minus.
pub open spec fn signed_value(s: Seq<u8>, p: int, e: int) -> int {
    if p > 0 && s[p - 1] == 45 {
        -decimal(s.subrange(p, e))
    } else {
        decimal(s.subrange(p, e))
    }
}

/// The number that is found gives way to what becomes of it, in decimal; all
/// around it stays. A minus before it counts, and stays too.
pub proof fn numbers_give_way(
    s: Seq<u8>,
    start: int,
    p: int,
    e: int,
    op: u8,
    wide: u64,
    small: u8,
)
    requires
        0 <= start < s.len(),
        is_found_from(s, start, p, e),
        op < 8,
        decimal(s.subrange(p, e)) < 0x4000_0000_0000_0000,
    ensures
        exists|n: int, text: Seq<u8>| #[trigger]
            reads_as(text, n) && with_changed_number(s, start, op, wide, small) == s.take(p) + text
                + s.skip(e) && #[trigger] becomes(
                signed_value(s, p, e),
                n,
                op,
                wide,
                small,
            ),
{
    let len = s.len() as int;
    let t = s.subrange(p, e);
    assert forall|i: int| 0 <= i < t.len() implies 48 <= #[trigger] t[i] <= 57 by {
        assert(t[i] == s[p + i]);
    }
    lemma_values_are_decimal(t);
    assert(48 <= s[p] <= 57);
    if p >= start {
        lemma_first_digit_is(s, start, p, len);
    } else {
        lemma_first_digit_is(s, start, len, len);
        lemma_first_digit_is(s, 0, p, start);
    }
    assert(number_place(s, start) == Some(p));
    lemma_run_end_is(s, p + 1, e);
    let d = decimal(t);
    let v = signed_value(s, p, e);
    assert(number_in(s, p) == v);
    let n = changed(v, op, wide, small);
    if op == 4 && 0 < v < 0x1999_9999 {
        let m = v * 10;
        vstd::arithmetic::div_mod::lemma_fundamental_div_mod(wide as int, m);
        vstd::arithmetic::div_mod::lemma_mod_bound(wide as int, m);
        let k = wide as int / m;
        assert(m * k == k * (10 * v)) by (nonlinear_arith)
            requires
                m == v * 10,
        ;
        assert(wide == n + k * (10 * v));
    }
    assert(becomes(v, n, op, wide, small));
    let text = signed_digits(n);
    if n < 0 {
        digits_are_decimal((-n) as nat);
        assert(text.skip(1) =~= digits((-n) as nat));
    } else {
        digits_are_decimal(n as nat);
    }
    assert(reads_as(text, n));
    assert(with_changed_number(s, start, op, wide, small) =~= s.take(p) + text + s.skip(e));
}


/// Where there is no digit, the byte at the start of the search gives way to
/// what becomes of zero, if the input has eight bytes; a shorter one stays.
pub proof fn texts_without_numbers_get_one(
    s: Seq<u8>,
    start: int,
    op: u8,
    wide: u64,
    small: u8,
)
    requires
        0 <= start < s.len(),
        forall|i: int| 0 <= i < s.len() ==> !(48 <= #[trigger] s[i] <= 57),
        op < 8,
    ensures
        s.len() < 8 ==> with_changed_number(s, start, op, wide, small) == s,
        s.len() >= 8 ==> exists|n: int, text: Seq<u8>| #[trigger]
            reads_as(text, n) && with_changed_number(s, start, op, wide, small) == s.take(start)
                + text + s.skip(start + 1) && #[trigger] becomes(0, n, op, wide, small),
{
    let len = s.len() as int;
    lemma_first_digit_is(s, start, len, len);
    lemma_first_digit_is(s, 0, start, start);
    if len >= 8 {
        assert(!(48 <= s[start] <= 57));
        assert(start + 1 < len ==> !(48 <= s[start + 1] <= 57));
        lemma_run_end_is(s, start + 1, start + 1);
        assert(number_in(s, start) == 0);
        let n = changed(0, op, wide, small);
        assert(becomes(0, n, op, wide, small));
        let text = signed_digits(n);
        if n < 0 {
            digits_are_decimal((-n) as nat);
            assert(text.skip(1) =~= digits((-n) as nat));
        } else {
            digits_are_decimal(n as nat);
        }
        assert(reads_as(text, n));
        assert(with_changed_number(s, start, op, wide, small) =~= s.take(start) + text + s.skip(
            start + 1,
        ));
    }
}

/// A number that 64 bits with a sign cannot hold counts as zero. What becomes
/// of one that they can hold is the exact result, less or plus 2^64 if they
/// cannot hold that.
pub proof fn large_numbers_wrap_around(s: Seq<u8>, p: int, e: int, v: int, small: u8)
    requires
        0 <= p < e <= s.len(),
        forall|i: int| p <= i < e ==> 48 <= #[trigger] s[i] <= 57,
        e < s.len() ==> !(48 <= s[e] <= 57),
        -0x7fff_ffff_ffff_ffff <= v <= 0x7fff_ffff_ffff_ffff,
    ensures
        decimal(s.subrange(p, e)) > 0x7fff_ffff_ffff_ffff ==> number_in(s, p) == 0,
        decimal(s.subrange(p, e)) <= 0x7fff_ffff_ffff_ffff ==> number_in(s, p) == signed_value(
            s,
            p,
            e,
        ),
        is_held(v + 1, changed(v, 0, 0, small)),
        is_held(v - 1, changed(v, 1, 0, small)),
        is_held(v + v, changed(v, 2, 0, small)),
        is_held(v + small, changed(v, 5, 0, small)),
        is_held(v - small, changed(v, 6, 0, small)),
{
    let t = s.subrange(p, e);
    assert forall|i: int| 0 <= i < t.len() implies 48 <= #[trigger] t[i] <= 57 by {
        assert(t[i] == s[p + i]);
    }
    lemma_values_are_decimal(t);
    assert(48 <= s[p] <= 57);
    lemma_run_end_is(s, p + 1, e);
}

/// `n` is `x` in 64 bits with a sign.
pub open spec fn is_held(x: int, n: int) -> bool {
    &&& -0x8000_0000_0000_0000 <= n < 0x8000_0000_0000_0000
    &&& n == x || n == x - 0x1_0000_0000_0000_0000 || n == x + 0x1_0000_0000_0000_0000
}

} // verus!
