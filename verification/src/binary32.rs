//! Numbers in single precision, by their bits, compared with products in
//! double precision.

use crate::binary64::{product, product_parts, products_keep_order, shifted};
use vstd::arithmetic::power2::pow2;
use vstd::prelude::*;

verus! {

/// The bits without the sign.
pub open spec fn magnitude_bits(bits: u32) -> u32 {
    bits % 0x8000_0000
}

/// The bits stand for no number.
pub open spec fn is_nan(bits: u32) -> bool {
    magnitude_bits(bits) > 0x7f80_0000
}

/// The bits stand for a number below zero.
pub open spec fn is_negative(bits: u32) -> bool {
    bits > 0x8000_0000
}

/// The significant bits of a number and the exponent above the smallest.
pub open spec fn parts(bits: u32) -> (nat, nat) {
    let m = magnitude_bits(bits);
    if m < 0x80_0000 {
        (m as nat, 0)
    } else {
        ((0x80_0000 + m % 0x80_0000) as nat, (m / 0x80_0000 - 1) as nat)
    }
}

/// The absolute value, scaled by 2^149. Infinity is taken for 2^128, which is
/// beyond all numbers.
pub open spec fn magnitude(bits: u32) -> nat {
    parts(bits).0 * pow2(parts(bits).1)
}

/// The product of `x` and the constant `c / 2^k`, in double precision, is
/// greater than the number.
pub open spec fn product_above(x: nat, c: nat, k: nat, bits: u32) -> bool {
    !is_nan(bits) && (is_negative(bits) || product(x, c) * pow2(149) > magnitude(bits) * pow2(k))
}

/// The product of `x` and the constant `c / 2^k`, in double precision, is less
/// than the number.
pub open spec fn product_below(x: nat, c: nat, k: nat, bits: u32) -> bool {
    !is_nan(bits) && !is_negative(bits) && product(x, c) * pow2(149) < magnitude(bits) * pow2(k)
}

/// The greater of two integers has the greater product.
pub proof fn greater_integers_stay_above(x: nat, y: nat, c: nat, k: nat, bits: u32)
    requires
        x <= y,
    ensures
        product_above(x, c, k, bits) ==> product_above(y, c, k, bits),
        product_below(y, c, k, bits) ==> product_below(x, c, k, bits),
{
    products_keep_order(x, y, c);
    let a = product(x, c);
    let b = product(y, c);
    let p = pow2(149);
    assert(a * p <= b * p) by (nonlinear_arith)
        requires
            a <= b,
            p >= 0,
    ;
}

proof fn lemma_scales_cancel(a: nat, x: nat, b: nat, y: nat)
    requires
        x >= y,
    ensures
        (a * pow2(x) > b * pow2(y)) == (a * pow2((x - y) as nat) > b),
        (a * pow2(x) < b * pow2(y)) == (a * pow2((x - y) as nat) < b),
        pow2((x - y) as nat) >= 1,
{
    let d = (x - y) as nat;
    vstd::arithmetic::power2::lemma_pow2_adds(y, d);
    vstd::arithmetic::power2::lemma_pow2_pos(y);
    vstd::arithmetic::power2::lemma_pow2_pos(d);
    let p = pow2(y) as int;
    let q = pow2(d) as int;
    let n = a * q;
    assert(a * (p * q) == n * p) by (nonlinear_arith)
        requires
            n == a * q,
    ;
    assert((n * p > b * p) == (n > b) && (n * p < b * p) == (n < b)) by (nonlinear_arith)
        requires
            p > 0,
    ;
}

/// Powers of two that are at most `2^k` or at least that.
proof fn lemma_power_bounds(a: nat, d: nat, k: nat)
    ensures
        d <= k ==> a * pow2(d) <= a * pow2(k),
        d >= k && a >= 1 ==> a * pow2(d) >= pow2(k),
{
    if d < k {
        vstd::arithmetic::power2::lemma_pow2_strictly_increases(d, k);
    } else if d > k {
        vstd::arithmetic::power2::lemma_pow2_strictly_increases(k, d);
    }
    let p = pow2(d);
    let q = pow2(k);
    assert(p <= q ==> a * p <= a * q) by (nonlinear_arith);
    assert(p >= q && a >= 1 ==> a * p >= q) by (nonlinear_arith);
}

/// Whether `a * 2^d` is greater than `b`, and whether it is less.
fn weigh(a: u64, d: u32, b: u64) -> (r: (bool, bool))
    requires
        a <= 0x20_0000_0000_0000,
        b <= 0x20_0000_0000_0000,
    ensures
        r.0 == (a * pow2(d as nat) > b),
        r.1 == (a * pow2(d as nat) < b),
{
    if a == 0 {
        assert(0 * pow2(d as nat) == 0);
        return (false, b > 0);
    }
    proof {
        vstd::arithmetic::power2::lemma2_to64();
        vstd::arithmetic::power2::lemma2_to64_rest();
    }
    if d >= 54 {
        proof {
            lemma_power_bounds(a as nat, d as nat, 54);
        }
        return (true, false);
    }
    proof {
        lemma_power_bounds(a as nat, d as nat, 53);
        assert(a * 0x20_0000_0000_0000 <= 0x20_0000_0000_0000 * 0x20_0000_0000_0000);
    }
    let n: u128 = shifted(a, d);
    (n > b as u128, n < b as u128)
}

/// Compares the product of `x` and the constant `c / 2^k` with a number: is it
/// greater, and is it less?
pub fn compare_product(x: usize, c: u64, k: u32, bits: u32) -> (r: (bool, bool))
    requires
        c <= 0x20_0000_0000_0000,
        k <= 64,
    ensures
        r.0 == product_above(x as nat, c as nat, k as nat, bits),
        r.1 == product_below(x as nat, c as nat, k as nat, bits),
{
    let m: u32 = bits % 0x8000_0000;
    if m > 0x7f80_0000 {
        return (false, false);
    }
    if bits > 0x8000_0000 {
        return (true, false);
    }
    let (b, e): (u64, u32) = if m < 0x80_0000 {
        (m as u64, 0)
    } else {
        (0x80_0000 + (m % 0x80_0000) as u64, m / 0x80_0000 - 1)
    };
    let (a, h) = product_parts(x as u64, c);
    let ghost p = product(x as nat, c as nat);
    let ghost q = magnitude(bits);
    let left: u32 = h + 149;
    let right: u32 = e + k;
    proof {
        vstd::arithmetic::power2::lemma_pow2_adds(h as nat, 149);
        vstd::arithmetic::power2::lemma_pow2_adds(e as nat, k as nat);
        vstd::arithmetic::mul::lemma_mul_is_associative(
            a as int,
            pow2(h as nat) as int,
            pow2(149) as int,
        );
        vstd::arithmetic::mul::lemma_mul_is_associative(
            b as int,
            pow2(e as nat) as int,
            pow2(k as nat) as int,
        );
        assert(p * pow2(149) == a * pow2(left as nat));
        assert(q * pow2(k as nat) == b * pow2(right as nat));
    }
    if left >= right {
        proof {
            lemma_scales_cancel(a as nat, left as nat, b as nat, right as nat);
        }
        weigh(a, left - right, b)
    } else {
        proof {
            lemma_scales_cancel(b as nat, right as nat, a as nat, left as nat);
        }
        let (less, greater) = weigh(b, right - left, a);
        (greater, less)
    }
}


/// The bits count the numbers from zero on: between each two that follow one
/// another lies a power of two, which doubles every 2^23 numbers. The topmost
/// bit is the sign and changes nothing else.
pub proof fn numbers_are_spaced_by_powers(bits: u32)
    requires
        bits < 0x7f80_0000,
    ensures
        magnitude(0) == 0,
        magnitude((bits + 1) as u32) == magnitude(bits) + pow2(
            if bits < 0x100_0000 {
                0
            } else {
                (bits / 0x80_0000 - 1) as nat
            },
        ),
        magnitude((bits + 0x8000_0000) as u32) == magnitude(bits),
        magnitude(0x3f80_0000) == pow2(149),
        !is_nan(bits) && !is_nan((bits + 0x8000_0000) as u32),
        !is_negative(bits),
        is_negative((bits + 0x8000_0000) as u32) <==> bits > 0,
{
    vstd::arithmetic::power2::lemma2_to64();
    vstd::arithmetic::power2::lemma_pow2_adds(23, 126);
    assert(0 * pow2(0) == 0);
    let next = (bits + 1) as u32;
    let (f, e) = parts(bits);
    let (g, h) = parts(next);
    let p = pow2(e);
    if e == h {
        assert(g == f + 1);
        assert((f + 1) * p == f * p + p) by (nonlinear_arith);
    } else {
        assert(h == e + 1 && f == 0xff_ffff && g == 0x80_0000);
        vstd::arithmetic::power2::lemma_pow2_unfold(h);
    }
}

/// With a factor of a few bits and an integer of a common size, a product is
/// exact, and so is its comparison with a number.
pub proof fn small_products_are_exact(x: nat, c: nat, k: nat, bits: u32)
    requires
        x < 0x1_0000_0000_0000,
        c <= 4,
        bits <= 0x7f80_0000,
    ensures
        product_above(x, c, k, bits) <==> (x * c) * pow2(149) > magnitude(bits) * pow2(k),
        product_below(x, c, k, bits) <==> (x * c) * pow2(149) < magnitude(bits) * pow2(k),
{
    assert(x * c < 0x20_0000_0000_0000) by (nonlinear_arith)
        requires
            x < 0x1_0000_0000_0000,
            c <= 4,
    ;
    crate::binary64::small_integers_convert(x);
    crate::binary64::small_integers_convert(x * c);
}

} // verus!
