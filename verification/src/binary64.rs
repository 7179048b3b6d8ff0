//! The few binary64 computations that the fuzzer's decisions rest on, done on
//! integers.
//!
//! All numbers here are nonnegative and far from the ends of the exponent
//! range, so a binary64 operation gives the exact result, rounded to 53
//! significant bits, ties to even. Rounding to significant bits commutes with
//! scaling by a power of two; results with a fraction are therefore described
//! as integers, scaled by a fixed power of two.

use vstd::arithmetic::power2::pow2;
use vstd::prelude::*;

verus! {

/// Where `quotient` and what rests on it put the binary point: 2^128.
pub open spec fn scale() -> nat {
    pow2(128)
}

/// The integer nearest to `n / d`, the even one of two.
pub open spec fn round_even(n: nat, d: nat) -> nat {
    let q = n / d;
    let r = n % d;
    if 2 * r < d || (2 * r == d && q % 2 == 0) {
        q
    } else {
        q + 1
    }
}

/// `n / d`, rounded to 53 significant bits. Bits below the units are lost, so
/// this is the binary64 result where `n / d` is at least 2^52 or an integer.
pub open spec fn nearest(n: nat, d: nat) -> nat
    decreases n - d,
{
    if d == 0 || n < 0x20_0000_0000_0000 * d {
        round_even(n, d)
    } else {
        2 * nearest(n, 2 * d)
    }
}

/// The conversion of an integer.
pub open spec fn from_int(x: nat) -> nat {
    nearest(x, 1)
}

/// The quotient of two integers, converted and then divided, scaled by
/// [`scale`].
pub open spec fn quotient(a: nat, b: nat) -> nat {
    nearest(from_int(a) * scale(), from_int(b))
}

/// The product of an integer and the constant `c / 2^k`, scaled by 2^k.
pub open spec fn product(x: nat, c: nat) -> nat {
    nearest(from_int(x) * c, 1)
}

proof fn lemma_round_scaled(n: nat, d: nat)
    requires
        d > 0,
    ensures
        round_even(2 * n, 2 * d) == round_even(n, d),
{
    let q = n / d;
    let r = n % d;
    vstd::arithmetic::div_mod::lemma_fundamental_div_mod(n as int, d as int);
    vstd::arithmetic::div_mod::lemma_mod_bound(n as int, d as int);
    assert(2 * n == q * (2 * d) + 2 * r) by (nonlinear_arith)
        requires
            n == d * q + r,
    ;
    vstd::arithmetic::div_mod::lemma_fundamental_div_mod_converse(
        (2 * n) as int,
        (2 * d) as int,
        q as int,
        (2 * r) as int,
    );
}

proof fn lemma_nearest_scaled(n: nat, d: nat)
    requires
        d > 0,
    ensures
        nearest(2 * n, 2 * d) == nearest(n, d),
    decreases n - d,
{
    if n < 0x20_0000_0000_0000 * d {
        lemma_round_scaled(n, d);
    } else {
        lemma_nearest_scaled(n, 2 * d);
    }
}

proof fn lemma_round_ratio(n: nat, d: nat, k: nat)
    requires
        d > 0,
        k > 0,
    ensures
        round_even(n * k, d * k) == round_even(n, d),
{
    let q = n / d;
    let r = n % d;
    vstd::arithmetic::div_mod::lemma_fundamental_div_mod(n as int, d as int);
    vstd::arithmetic::div_mod::lemma_mod_bound(n as int, d as int);
    assert(n * k == q * (d * k) + r * k && 0 <= r * k < d * k && d * k > 0) by (nonlinear_arith)
        requires
            n == d * q + r,
            0 <= r < d,
            k > 0,
    ;
    vstd::arithmetic::div_mod::lemma_fundamental_div_mod_converse(
        (n * k) as int,
        (d * k) as int,
        q as int,
        (r * k) as int,
    );
    let x = r * k;
    let y = d * k;
    assert((2 * x < y) == (2 * r < d) && (2 * x == y) == (2 * r == d)) by (nonlinear_arith)
        requires
            x == r * k,
            y == d * k,
            k > 0,
    ;
}

/// Rounding depends on the ratio alone.
pub proof fn rounding_takes_ratios(n: nat, d: nat, k: nat)
    requires
        d > 0,
        k > 0,
    ensures
        nearest(n * k, d * k) == nearest(n, d),
    decreases n - d,
{
    let x = n * k;
    let y = d * k;
    assert(y > 0 && (x < 0x20_0000_0000_0000 * y) == (n < 0x20_0000_0000_0000 * d))
        by (nonlinear_arith)
        requires
            x == n * k,
            y == d * k,
            k > 0,
            d > 0,
    ;
    if n < 0x20_0000_0000_0000 * d {
        lemma_round_ratio(n, d, k);
    } else {
        rounding_takes_ratios(n, 2 * d, k);
        assert((2 * d) * k == 2 * (d * k)) by (nonlinear_arith);
    }
}

/// Rounding keeps the order of ratios.
pub proof fn rounding_orders_ratios(a: nat, b: nat, c: nat, d: nat)
    requires
        b > 0,
        d > 0,
        a * d <= c * b,
    ensures
        nearest(a, b) <= nearest(c, d),
{
    rounding_takes_ratios(a, b, d);
    rounding_takes_ratios(c, d, b);
    assert(d * b == b * d) by (nonlinear_arith);
    assert(b * d > 0) by (nonlinear_arith)
        requires
            b > 0,
            d > 0,
    ;
    rounding_keeps_order(a * d, c * b, b * d);
}

/// What rounding takes off or adds is at most one part in 2^53 of a number
/// that has so many bits.
pub proof fn rounding_errs_little(n: nat, d: nat)
    requires
        d > 0,
        2 * n >= 0x20_0000_0000_0000 * d,
    ensures
        0x20_0000_0000_0000 * (nearest(n, d) * d - n) <= n,
        0x20_0000_0000_0000 * (n - nearest(n, d) * d) <= n,
    decreases n - d,
{
    if n < 0x20_0000_0000_0000 * d {
        let q = (n / d) as int;
        let r = (n % d) as int;
        vstd::arithmetic::div_mod::lemma_fundamental_div_mod(n as int, d as int);
        vstd::arithmetic::div_mod::lemma_mod_bound(n as int, d as int);
        let v = round_even(n, d) as int;
        assert(v * d - n == -r || v * d - n == d - r) by (nonlinear_arith)
            requires
                v == q || v == q + 1,
                n == d * q + r,
        ;
        if v == q {
            assert(v * d - n == -r) by (nonlinear_arith)
                requires
                    v == q,
                    n == d * q + r,
            ;
        } else {
            assert(v * d - n == d - r) by (nonlinear_arith)
                requires
                    v == q + 1,
                    n == d * q + r,
            ;
        }
    } else {
        rounding_errs_little(n, 2 * d);
        let h = nearest(n, 2 * d);
        assert((2 * h) * d == h * (2 * d)) by (nonlinear_arith);
    }
}

/// An integer is converted with an error of at most one part in 2^53.
pub proof fn conversions_err_little(x: nat)
    ensures
        0x20_0000_0000_0000 * (from_int(x) - x) <= x,
        0x20_0000_0000_0000 * (x - from_int(x)) <= x,
        x > 0 ==> from_int(x) > 0,
{
    if x < 0x20_0000_0000_0000 {
        small_integers_convert(x);
    } else {
        rounding_errs_little(x, 1);
        let v = nearest(x, 1);
        assert(v * 1 == v);
    }
}

/// Rounding commutes with scaling by a power of two.
pub proof fn rounding_scales(n: nat, d: nat, j: nat)
    requires
        d > 0,
        2 * n >= 0x20_0000_0000_0000 * d,
    ensures
        nearest(n * pow2(j), d) == nearest(n, d) * pow2(j),
    decreases j,
{
    vstd::arithmetic::power2::lemma2_to64();
    if j > 0 {
        let i = (j - 1) as nat;
        rounding_scales(n, d, i);
        vstd::arithmetic::power2::lemma_pow2_unfold(j);
        vstd::arithmetic::power2::lemma_pow2_pos(i);
        let p = pow2(i);
        let m = n * p;
        assert(n * (2 * p) == 2 * m) by (nonlinear_arith)
            requires
                m == n * p,
        ;
        assert(m >= n) by (nonlinear_arith)
            requires
                m == n * p,
                p >= 1,
        ;
        lemma_nearest_scaled(m, d);
        let x = nearest(n, d);
        assert(x * (2 * p) == 2 * (x * p)) by (nonlinear_arith);
    } else {
        let x = nearest(n, d);
        assert(n * 1 == n && x * 1 == x) by (nonlinear_arith);
    }
}

/// Integers of up to 53 bits convert to themselves.
pub proof fn small_integers_convert(x: nat)
    requires
        x < 0x20_0000_0000_0000,
    ensures
        from_int(x) == x,
{
}

/// Rounding keeps the order of what is rounded.
pub proof fn rounding_keeps_order(n: nat, m: nat, d: nat)
    requires
        d > 0,
        n <= m,
    ensures
        nearest(n, d) <= nearest(m, d),
    decreases m - d,
{
    if m < 0x20_0000_0000_0000 * d {
        lemma_round_ordered(n, m, d);
    } else if n < 0x20_0000_0000_0000 * d {
        lemma_round_bounds(n, d);
        lemma_nearest_normal(m, 2 * d);
    } else {
        rounding_keeps_order(n, m, 2 * d);
    }
}

proof fn lemma_round_ordered(n: nat, m: nat, d: nat)
    requires
        d > 0,
        n <= m,
    ensures
        round_even(n, d) <= round_even(m, d),
{
    let di = d as int;
    vstd::arithmetic::div_mod::lemma_fundamental_div_mod(n as int, di);
    vstd::arithmetic::div_mod::lemma_fundamental_div_mod(m as int, di);
    vstd::arithmetic::div_mod::lemma_div_is_ordered(n as int, m as int, di);
}

/// All 53 bits are used where there are as many.
proof fn lemma_nearest_normal(n: nat, d: nat)
    requires
        d > 0,
        2 * n >= 0x20_0000_0000_0000 * d,
    ensures
        2 * nearest(n, d) >= 0x20_0000_0000_0000,
    decreases n - d,
{
    if n < 0x20_0000_0000_0000 * d {
        lemma_round_bounds(n, d);
    } else {
        lemma_nearest_normal(n, 2 * d);
    }
}

/// Integers of 53 bits, scaled by a power of two, are not rounded.
pub proof fn short_integers_are_exact(x: nat, j: nat)
    requires
        x < 0x20_0000_0000_0000,
    ensures
        nearest(x * pow2(j), 1) == x * pow2(j),
    decreases j,
{
    vstd::arithmetic::power2::lemma2_to64();
    let n = x * pow2(j);
    if n < 0x20_0000_0000_0000 {
    } else {
        if j == 0 {
            assert(n == x) by (nonlinear_arith)
                requires
                    n == x * 1,
            ;
        }
        let i = (j - 1) as nat;
        let h = x * pow2(i);
        vstd::arithmetic::power2::lemma_pow2_unfold(j);
        let p = pow2(i);
        assert(n == 2 * h) by (nonlinear_arith)
            requires
                n == x * (2 * p),
                h == x * p,
        ;
        short_integers_are_exact(x, i);
        lemma_nearest_scaled(h as nat, 1);
    }
}

proof fn lemma_round_bounds(n: nat, d: nat)
    requires
        d > 0,
        n < 0x20_0000_0000_0000 * d,
    ensures
        round_even(n, d) <= 0x20_0000_0000_0000,
        2 * n >= 0x20_0000_0000_0000 * d ==> 2 * round_even(n, d) >= 0x20_0000_0000_0000,
{
    let q = (n / d) as int;
    let di = d as int;
    vstd::arithmetic::div_mod::lemma_fundamental_div_mod(n as int, di);
    vstd::arithmetic::div_mod::lemma_mod_bound(n as int, di);
    let r = (n % d) as int;
    assert(q < 0x20_0000_0000_0000) by (nonlinear_arith)
        requires
            n == di * q + r,
            r >= 0,
            n < 0x20_0000_0000_0000 * di,
            di > 0,
    ;
    if 2 * n >= 0x20_0000_0000_0000 * d {
        assert(2 * q + 2 > 0x20_0000_0000_0000) by (nonlinear_arith)
            requires
                n == di * q + r,
                r < di,
                2 * n >= 0x20_0000_0000_0000 * di,
                di > 0,
        ;
    }
}

proof fn lemma_big_powers(h: nat)
    requires
        pow2(h) <= u128::MAX,
    ensures
        h < 128,
{
    if h >= 128 {
        vstd::arithmetic::power2::lemma2_to64();
        vstd::arithmetic::power2::lemma2_to64_rest();
        vstd::arithmetic::power2::lemma_pow2_adds(64, 64);
        if h > 128 {
            vstd::arithmetic::power2::lemma_pow2_strictly_increases(128, h);
        }
    }
}

fn round_even_exec(n: u128, d: u128) -> (r: u128)
    requires
        0 < d,
        n < 0x20_0000_0000_0000 * d,
    ensures
        r == round_even(n as nat, d as nat),
        r <= 0x20_0000_0000_0000,
        2 * n >= 0x20_0000_0000_0000 * d ==> 2 * r >= 0x20_0000_0000_0000,
{
    proof {
        lemma_round_bounds(n as nat, d as nat);
        vstd::arithmetic::div_mod::lemma_mod_bound(n as int, d as int);
    }
    let q: u128 = n / d;
    let r: u128 = n % d;
    if r < d - r || (r == d - r && q % 2 == 0) {
        q
    } else {
        q + 1
    }
}

/// `nearest(n, d)` as significant bits and exponent.
fn nearest_parts(n: u128, d: u128) -> (r: (u64, u32))
    requires
        0 < d,
    ensures
        nearest(n as nat, d as nat) == r.0 * pow2(r.1 as nat),
        r.0 <= 0x20_0000_0000_0000,
        2 * n >= 0x20_0000_0000_0000 * d ==> 2 * r.0 >= 0x20_0000_0000_0000,
        r.1 < 128,
        n < 0x20_0000_0000_0000 * d ==> r.1 == 0,
{
    let mut e: u128 = d;
    let mut h: u32 = 0;
    proof {
        vstd::arithmetic::power2::lemma2_to64();
    }
    while n / 0x20_0000_0000_0000 >= e
        invariant
            0 < d <= e,
            h == 0 ==> e == d,
            h > 0 ==> 2 * n >= 0x20_0000_0000_0000 * e && n >= 0x20_0000_0000_0000 * d,
            pow2(h as nat) <= e,
            nearest(n as nat, d as nat) == nearest(n as nat, e as nat) * pow2(h as nat),
        decreases n - e,
    {
        proof {
            lemma_big_powers(h as nat);
            vstd::arithmetic::power2::lemma_pow2_unfold((h + 1) as nat);
            let p = pow2(h as nat);
            let x = nearest(n as nat, (2 * e) as nat);
            assert((2 * x) * p == x * (2 * p)) by (nonlinear_arith);
        }
        e = e * 2;
        h = h + 1;
    }
    proof {
        lemma_big_powers(h as nat);
    }
    let m: u128 = round_even_exec(n, e);
    (m as u64, h)
}

/// A binary64 number between 2^-128 and 2^128, or zero: `bits * 2^(exp - 128)`
/// with 53 bits, or no bits at all.
#[derive(Clone, Copy, Debug)]
pub struct Binary64 {
    bits: u64,
    exp: u32,
}

impl Binary64 {
    /// The number, scaled by [`scale`].
    pub closed spec fn scaled(self) -> nat {
        self.bits as nat * pow2(self.exp as nat)
    }

    /// The bits are normalised.
    pub closed spec fn wf(self) -> bool {
        &&& self.bits <= 0x20_0000_0000_0000
        &&& self.bits == 0 || 2 * self.bits >= 0x20_0000_0000_0000
        &&& self.exp < 256
    }

    /// `a / b`, in binary64.
    pub fn quotient_of(a: u64, b: u64) -> (r: Self)
        requires
            b > 0,
        ensures
            r.wf(),
            r.scaled() == quotient(a as nat, b as nat),
    {
        let x: u128 = from_int_exec(a);
        let y: u128 = from_int_exec(b);
        proof {
            lemma_from_int_positive(a as nat);
            lemma_from_int_positive(b as nat);
        }
        Self::divided(x, y)
    }

    /// The quotient of two binary64 integers.
    fn divided(x: u128, y: u128) -> (r: Self)
        requires
            x <= 0x1_0000_0000_0000_0000,
            0 < y <= 0x1_0000_0000_0000_0000,
        ensures
            r.wf(),
            r.scaled() == nearest(x as nat * scale(), y as nat),
    {
        if x == 0 {
            assert(0 * scale() == 0) by (nonlinear_arith);
            assert(nearest(0, y as nat) == 0) by {
                vstd::arithmetic::div_mod::lemma_small_mod(0, y as nat);
                vstd::arithmetic::div_mod::lemma_div_of0(y as int);
            }
            assert(0 * pow2(0) == 0) by (nonlinear_arith);
            return Binary64 { bits: 0, exp: 0 };
        }
        let mut z: u128 = x;
        let mut t: u32 = 0;
        proof {
            vstd::arithmetic::power2::lemma2_to64();
            vstd::arithmetic::power2::lemma_pow2_pos(0);
        }
        while z < 0x10_0000_0000_0000 * y
            invariant
                0 < x,
                0 < y <= 0x1_0000_0000_0000_0000,
                t > 0 ==> z < 0x20_0000_0000_0000 * y,
                z == x * pow2(t as nat),
                pow2(t as nat) <= z,
                t <= 117,
            decreases 117 - t,
        {
            proof {
                let p = pow2(t as nat);
                vstd::arithmetic::power2::lemma_pow2_unfold((t + 1) as nat);
                assert(x * (2 * p) == 2 * (x * p)) by (nonlinear_arith);
                if t >= 117 {
                    lemma_pow2_117();
                }
            }
            z = z * 2;
            t = t + 1;
        }
        let (bits, h) = nearest_parts(z, y);
        proof {
            let j = (128 - t) as nat;
            rounding_scales(z as nat, y as nat, j);
            vstd::arithmetic::power2::lemma_pow2_adds(t as nat, j);
            vstd::arithmetic::power2::lemma_pow2_adds(h as nat, j);
            let p = pow2(t as nat);
            let q = pow2(j);
            assert((x * p) * q == x * (p * q)) by (nonlinear_arith);
            let u = pow2(h as nat);
            assert((bits * u) * q == bits * (u * q)) by (nonlinear_arith);
        }
        Binary64 { bits, exp: h + 128 - t }
    }

    /// Compares two numbers.
    pub fn less(&self, other: &Self) -> (r: bool)
        requires
            self.wf(),
            other.wf(),
        ensures
            r == (self.scaled() < other.scaled()),
    {
        proof {
            vstd::arithmetic::power2::lemma_pow2_pos(self.exp as nat);
            vstd::arithmetic::power2::lemma_pow2_pos(other.exp as nat);
            let p = pow2(self.exp as nat);
            let q = pow2(other.exp as nat);
            let a = self.bits as nat;
            let b = other.bits as nat;
            assert(0 * p == 0 && 0 * q == 0) by (nonlinear_arith);
            if a > 0 {
                assert(a * p > 0) by (nonlinear_arith)
                    requires
                        a > 0,
                        p > 0,
                ;
            }
            if b > 0 {
                assert(b * q > 0) by (nonlinear_arith)
                    requires
                        b > 0,
                        q > 0,
                ;
            }
            if a > 0 && b > 0 {
                if self.exp == other.exp {
                    assert((a * p < b * p) == (a < b)) by (nonlinear_arith)
                        requires
                            p > 0,
                    ;
                } else if self.exp < other.exp {
                    lemma_less(a, self.exp as nat, b, other.exp as nat);
                } else {
                    lemma_less(b, other.exp as nat, a, self.exp as nat);
                }
            }
        }
        if self.bits == 0 {
            other.bits > 0
        } else if other.bits == 0 {
            false
        } else if self.exp == other.exp {
            self.bits < other.bits
        } else if self.exp < other.exp {
            self.exp + 1 < other.exp || self.bits < 2 * other.bits
        } else {
            false
        }
    }

    /// Whether the number is more than `bound / 2^57`, for bounds in the upper
    /// half of the unit interval.
    pub fn exceeds(&self, bound: u64) -> (r: bool)
        requires
            self.wf(),
            0x100_0000_0000_0000 <= bound < 0x200_0000_0000_0000,
        ensures
            r == (self.scaled() > bound * pow2(71)),
    {
        proof {
            let a = self.bits as int;
            let p = pow2(self.exp as nat) as int;
            let u = pow2(71) as int;
            vstd::arithmetic::power2::lemma2_to64();
            vstd::arithmetic::power2::lemma_pow2_pos(71);
            vstd::arithmetic::power2::lemma_pow2_pos(self.exp as nat);
            if self.exp == 75 {
                vstd::arithmetic::power2::lemma_pow2_adds(71, 4);
                assert((a * (u * 16) > bound * u) == (a * 16 > bound)) by (nonlinear_arith)
                    requires
                        u > 0,
                ;
            } else if self.exp > 75 {
                let k = (self.exp - 71) as nat;
                vstd::arithmetic::power2::lemma_pow2_adds(71, k);
                if k > 5 {
                    vstd::arithmetic::power2::lemma_pow2_strictly_increases(5, k);
                }
                let w = pow2(k) as int;
                if a == 0 {
                    assert(a * p <= bound * u) by (nonlinear_arith)
                        requires
                            a == 0,
                            bound >= 0,
                            u > 0,
                    ;
                } else {
                    assert(a * (u * w) > bound * u) by (nonlinear_arith)
                        requires
                            2 * a >= 0x20_0000_0000_0000,
                            w >= 32,
                            bound < 0x200_0000_0000_0000,
                            u > 0,
                    ;
                }
            } else {
                let k = (75 - self.exp) as nat;
                vstd::arithmetic::power2::lemma_pow2_adds(self.exp as nat, k);
                vstd::arithmetic::power2::lemma_pow2_adds(71, 4);
                if k > 1 {
                    vstd::arithmetic::power2::lemma_pow2_strictly_increases(1, k);
                }
                let w = pow2(k) as int;
                assert(a * p <= bound * u) by (nonlinear_arith)
                    requires
                        0 <= a <= 0x20_0000_0000_0000,
                        p * w == u * 16,
                        w >= 2,
                        p > 0,
                        bound >= 0x100_0000_0000_0000,
                        u > 0,
                ;
            }
        }
        if self.exp == 75 {
            self.bits as u128 * 16 > bound as u128
        } else {
            self.exp > 75 && self.bits > 0
        }
    }
}

proof fn lemma_pow2_117()
    ensures
        pow2(117) == 0x20_0000_0000_0000 * 0x1_0000_0000_0000_0000,
{
    vstd::arithmetic::power2::lemma2_to64();
    vstd::arithmetic::power2::lemma2_to64_rest();
    vstd::arithmetic::power2::lemma_pow2_adds(53, 64);
}

/// With normalised bits, the larger exponent wins unless the bits just meet.
proof fn lemma_less(a: nat, x: nat, b: nat, y: nat)
    requires
        x < y,
        0 < a <= 0x20_0000_0000_0000,
        2 * b >= 0x20_0000_0000_0000,
    ensures
        (a * pow2(x) < b * pow2(y)) == (x + 1 < y || a < 2 * b),
        a * pow2(x) <= b * pow2(y),
{
    let d = (y - x) as nat;
    vstd::arithmetic::power2::lemma2_to64();
    vstd::arithmetic::power2::lemma_pow2_adds(x, d);
    vstd::arithmetic::power2::lemma_pow2_pos(x);
    if d > 1 {
        vstd::arithmetic::power2::lemma_pow2_strictly_increases(1, d);
    }
    let p = pow2(x) as int;
    let q = pow2(d) as int;
    if d == 1 {
        assert((a * p < b * (p * 2)) == (a < 2 * b)) by (nonlinear_arith)
            requires
                p > 0,
        ;
        assert(a * p <= b * (p * 2)) by (nonlinear_arith)
            requires
                p > 0,
                a <= 2 * b,
        ;
    } else {
        assert(a * p < b * (p * q)) by (nonlinear_arith)
            requires
                p > 0,
                q > 2,
                a <= 2 * b,
                b > 0,
        ;
    }
}

proof fn lemma_from_int_positive(x: nat)
    ensures
        x > 0 ==> from_int(x) > 0,
        x <= u64::MAX ==> from_int(x) <= 0x1_0000_0000_0000_0000,
{
    if x > 0 {
        lemma_nearest_bounds(x, 1);
    }
    vstd::arithmetic::power2::lemma2_to64();
    if x <= u64::MAX {
        lemma_nearest_below(x, 1, 11);
    }
}

proof fn lemma_nearest_bounds(n: nat, d: nat)
    requires
        d > 0,
        n >= d,
    ensures
        nearest(n, d) > 0,
    decreases n - d,
{
    if n < 0x20_0000_0000_0000 * d {
        let q = (n / d) as int;
        assert(q >= 1) by {
            vstd::arithmetic::div_mod::lemma_div_is_ordered(d as int, n as int, d as int);
            vstd::arithmetic::div_mod::lemma_div_by_self(d as int);
        }
    } else {
        lemma_nearest_bounds(n, 2 * d);
    }
}

proof fn lemma_nearest_below(n: nat, d: nat, k: nat)
    requires
        d > 0,
        n < 0x20_0000_0000_0000 * (d * pow2(k)),
    ensures
        nearest(n, d) <= 0x20_0000_0000_0000 * pow2(k),
    decreases k,
{
    vstd::arithmetic::power2::lemma2_to64();
    vstd::arithmetic::power2::lemma_pow2_pos(k);
    if n < 0x20_0000_0000_0000 * d {
        lemma_round_bounds(n, d);
        let p = pow2(k);
        assert(0x20_0000_0000_0000 <= 0x20_0000_0000_0000 * p) by (nonlinear_arith)
            requires
                p >= 1,
        ;
    } else {
        if k == 0 {
            assert(d * 1 == d);
        } else {
            vstd::arithmetic::power2::lemma_pow2_unfold(k);
            let p = pow2((k - 1) as nat);
            assert(d * (2 * p) == (2 * d) * p) by (nonlinear_arith);
            lemma_nearest_below(n, 2 * d, (k - 1) as nat);
        }
    }
}

proof fn lemma_scaled_is_long(x: nat, d: nat)
    requires
        x > 0,
        0 < d <= 0x1_0000_0000_0000_0000,
    ensures
        2 * (x * scale()) >= 0x20_0000_0000_0000 * d,
        x * scale() >= d,
{
    vstd::arithmetic::power2::lemma2_to64();
    vstd::arithmetic::power2::lemma2_to64_rest();
    vstd::arithmetic::power2::lemma_pow2_adds(64, 64);
    let b = scale();
    assert(x * b >= b) by (nonlinear_arith)
        requires
            x >= 1,
            b >= 0,
    ;
}

proof fn lemma_margin_is_kept(a: int, b: int, c: int, d: int, e: int)
    requires
        e == 0x20_0000_0000_0000,
        0 < a,
        0 < b,
        0 < c,
        0 < d,
        e * (c * b - a * d) > 8 * (c * b),
    ensures
        a * d * ((e + 1) * (e + 1) * (e + 1)) < c * b * ((e - 1) * (e - 1) * (e - 1)),
{
    let p = a * d;
    let q = c * b;
    assert(q > 0) by (nonlinear_arith)
        requires
            q == c * b,
            b > 0,
            c > 0,
    ;
    assert(e * (q - p) == e * q - e * p) by (nonlinear_arith);
    assert(e * p < (e - 8) * q) by (nonlinear_arith)
        requires
            e * q - e * p > 8 * q,
    ;
    let k = (e + 1) * (e + 1) * (e + 1);
    let m = (e - 1) * (e - 1) * (e - 1);
    assert(k > 0 && (e - 8) * k < e * m) by (nonlinear_arith)
        requires
            e == 0x20_0000_0000_0000,
            k == (e + 1) * (e + 1) * (e + 1),
            m == (e - 1) * (e - 1) * (e - 1),
    ;
    assert((e * p) * k < ((e - 8) * q) * k) by (nonlinear_arith)
        requires
            e * p < (e - 8) * q,
            k > 0,
    ;
    assert(((e - 8) * q) * k == q * ((e - 8) * k)) by (nonlinear_arith);
    assert(q * ((e - 8) * k) < q * (e * m)) by (nonlinear_arith)
        requires
            (e - 8) * k < e * m,
            q > 0,
    ;
    assert((e * p) * k == e * (p * k) && q * (e * m) == e * (q * m)) by (nonlinear_arith);
    assert(p * k < q * m) by (nonlinear_arith)
        requires
            e * (p * k) < e * (q * m),
            e > 0,
    ;
}

/// Four numbers whose products are apart stay apart when each is off by no
/// more than one part in `e`, and so are the products.
proof fn lemma_apart(x: int, y: int, a: int, b: int, c: int, d: int, e: int, s: int)
    requires
        e > 1,
        s > 0,
        a >= 0,
        b > 0,
        c > 0,
        d > 0,
        x >= y >= 0,
        e * (x * b - a * s) <= a * s,
        e * (c * s - y * d) <= c * s,
    ensures
        (e - 1) * (c * b) <= (e + 1) * (a * d),
{
    assert(e * (x * b) <= (e + 1) * (a * s)) by (nonlinear_arith)
        requires
            e * (x * b - a * s) <= a * s,
    ;
    assert((e - 1) * (c * s) <= e * (y * d)) by (nonlinear_arith)
        requires
            e * (c * s - y * d) <= c * s,
    ;
    let left = (e - 1) * (c * s);
    let mid1 = e * (y * d);
    let mid2 = e * (x * b);
    let right = (e + 1) * (a * s);
    assert(left * b <= mid1 * b) by (nonlinear_arith)
        requires
            left <= mid1,
            b > 0,
    ;
    assert(mid2 * d <= right * d) by (nonlinear_arith)
        requires
            mid2 <= right,
            d > 0,
    ;
    assert(mid1 * b <= mid2 * d) by (nonlinear_arith)
        requires
            mid1 == e * (y * d),
            mid2 == e * (x * b),
            x >= y,
            e > 0,
            b > 0,
            d > 0,
    ;
    assert(left * b == ((e - 1) * (c * b)) * s) by (nonlinear_arith)
        requires
            left == (e - 1) * (c * s),
    ;
    assert(right * d == ((e + 1) * (a * d)) * s) by (nonlinear_arith)
        requires
            right == (e + 1) * (a * s),
    ;
    let u = (e - 1) * (c * b);
    let v = (e + 1) * (a * d);
    assert(u <= v) by (nonlinear_arith)
        requires
            u * s <= v * s,
            s > 0,
    ;
}

proof fn lemma_unconverted(
    a: int,
    b: int,
    c: int,
    d: int,
    x: int,
    y: int,
    z: int,
    w: int,
    e: int,
)
    requires
        e > 1,
        a >= 0,
        b > 0,
        c > 0,
        d > 0,
        x >= 0,
        y > 0,
        z > 0,
        w > 0,
        e * (x - a) <= a,
        e * (b - y) <= b,
        e * (c - z) <= c,
        e * (w - d) <= d,
        (e - 1) * (z * y) <= (e + 1) * (x * w),
    ensures
        c * b * ((e - 1) * (e - 1) * (e - 1)) <= a * d * ((e + 1) * (e + 1) * (e + 1)),
{
    let m = e - 1;
    let k = e + 1;
    assert(e * x <= k * a && m * b <= e * y && m * c <= e * z && e * w <= k * d)
        by (nonlinear_arith)
        requires
            m == e - 1,
            k == e + 1,
            e * (x - a) <= a,
            e * (b - y) <= b,
            e * (c - z) <= c,
            e * (w - d) <= d,
    ;
    assert((m * c) * (m * b) <= (e * z) * (e * y)) by (nonlinear_arith)
        requires
            0 <= m * c <= e * z,
            0 <= m * b <= e * y,
    ;
    assert((e * x) * (e * w) <= (k * a) * (k * d)) by (nonlinear_arith)
        requires
            0 <= e * x <= k * a,
            0 <= e * w <= k * d,
    ;
    let f = e * e;
    assert((e * z) * (e * y) == f * (z * y) && (e * x) * (e * w) == f * (x * w))
        by (nonlinear_arith)
        requires
            f == e * e,
    ;
    assert(m * (f * (z * y)) <= k * (f * (x * w))) by (nonlinear_arith)
        requires
            m * (z * y) <= k * (x * w),
            f >= 0,
    ;
    let g = (m * c) * (m * b);
    let h = (k * a) * (k * d);
    assert(m * g <= m * (f * (z * y))) by (nonlinear_arith)
        requires
            g <= f * (z * y),
            m > 0,
    ;
    assert(k * (f * (x * w)) <= k * h) by (nonlinear_arith)
        requires
            f * (x * w) <= h,
            k > 0,
    ;
    assert(m * g == c * b * (m * m * m)) by (nonlinear_arith)
        requires
            g == (m * c) * (m * b),
    ;
    assert(k * h == a * d * (k * k * k)) by (nonlinear_arith)
        requires
            h == (k * a) * (k * d),
    ;
}

/// Quotients compare as the ratios do. Of two ratios that differ by more than
/// eight parts in 2^53 the smaller has the smaller quotient; of short numbers
/// the smaller quotient stands for the smaller ratio; and a quotient never
/// grows when less is divided, or by more.
pub proof fn quotients_tell_ratios(a: nat, b: nat, c: nat, d: nat)
    requires
        0 < b <= u64::MAX,
        0 < d <= u64::MAX,
    ensures
        0x20_0000_0000_0000 * (c * b - a * d) > 8 * (c * b) ==> quotient(a, b) < quotient(c, d),
        a < 0x20_0000_0000_0000 && b < 0x20_0000_0000_0000 && c < 0x20_0000_0000_0000 && d
            < 0x20_0000_0000_0000 && quotient(a, b) < quotient(c, d) ==> a * d < c * b,
        a <= c && d <= b ==> quotient(a, b) <= quotient(c, d),
{
    let e = 0x20_0000_0000_0000int;
    let (x, y, z, w) = (from_int(a), from_int(b), from_int(c), from_int(d));
    let s = scale();
    vstd::arithmetic::power2::lemma_pow2_pos(128);
    conversions_err_little(a);
    conversions_err_little(b);
    conversions_err_little(c);
    conversions_err_little(d);
    lemma_from_int_positive(b);
    lemma_from_int_positive(d);
    if e * (c * b - a * d) > 8 * (c * b) && quotient(a, b) >= quotient(c, d) {
        assert(c > 0) by {
            if c == 0 {
                assert(0 * b == 0);
                assert(a * d >= 0) by (nonlinear_arith)
                    requires
                        a >= 0,
                        d >= 0,
                ;
            }
        }
        lemma_scaled_is_long(z, w);
        if a == 0 {
            assert(0 * s == 0);
            assert(quotient(a, b) == 0);
            lemma_nearest_bounds(z * s, w);
        } else {
            lemma_scaled_is_long(x, y);
            rounding_errs_little(x * s, y);
            rounding_errs_little(z * s, w);
            lemma_apart(
                quotient(a, b) as int,
                quotient(c, d) as int,
                x as int,
                y as int,
                z as int,
                w as int,
                e,
                s as int,
            );
            lemma_unconverted(
                a as int,
                b as int,
                c as int,
                d as int,
                x as int,
                y as int,
                z as int,
                w as int,
                e,
            );
            lemma_margin_is_kept(a as int, b as int, c as int, d as int, e);
        }
    }
    if a < e && b < e && c < e && d < e && a * d >= c * b {
        small_integers_convert(a);
        small_integers_convert(b);
        small_integers_convert(c);
        small_integers_convert(d);
        assert((c * s) * b <= (a * s) * d) by (nonlinear_arith)
            requires
                c * b <= a * d,
                s >= 0,
        ;
        rounding_orders_ratios(c * s, d, a * s, b);
    }
    if a <= c && d <= b {
        rounding_keeps_order(a, c, 1);
        rounding_keeps_order(d, b, 1);
        assert((x * s) * w <= (z * s) * y) by (nonlinear_arith)
            requires
                x <= z,
                w <= y,
                s >= 0,
                x >= 0,
                w >= 0,
        ;
        rounding_orders_ratios(x * s, y, z * s, w);
    }
}

fn from_int_exec(x: u64) -> (r: u128)
    ensures
        r == from_int(x as nat),
        r <= 0x1_0000_0000_0000_0000,
{
    let (m, h) = nearest_parts(x as u128, 1);
    proof {
        lemma_from_int_positive(x as nat);
    }
    shifted(m, h)
}

/// `m * 2^h`, where that is at most 2^110.
pub(crate) fn shifted(m: u64, h: u32) -> (r: u128)
    requires
        m * pow2(h as nat) <= 0x4000_0000_0000_0000_0000_0000_0000,
        h < 128,
    ensures
        r == m * pow2(h as nat),
{
    let mut r: u128 = m as u128;
    let mut k: u32 = 0;
    proof {
        vstd::arithmetic::power2::lemma2_to64();
    }
    while k < h
        invariant
            k <= h < 128,
            r == m * pow2(k as nat),
            m * pow2(h as nat) <= 0x4000_0000_0000_0000_0000_0000_0000,
        decreases h - k,
    {
        proof {
            vstd::arithmetic::power2::lemma_pow2_unfold((k + 1) as nat);
            let p = pow2(k as nat);
            assert(m * (2 * p) == 2 * (m * p)) by (nonlinear_arith);
            if k + 1 < h {
                vstd::arithmetic::power2::lemma_pow2_strictly_increases(
                    (k + 1) as nat,
                    h as nat,
                );
            }
            let q = pow2((k + 1) as nat);
            let t = pow2(h as nat);
            assert(m * q <= m * t) by (nonlinear_arith)
                requires
                    q <= t,
                    m >= 0,
            ;
        }
        r = r * 2;
        k = k + 1;
    }
    r
}

/// The constant 1.2, scaled by 2^52.
pub const SIX_FIFTHS: u64 = 0x13_3333_3333_3333;

/// The constant 0.99, scaled by 2^53.
pub const NINETY_NINE_HUNDREDTHS: u64 = 0x1f_ae14_7ae1_47ae;

/// `x * (c / 2^k)` in binary64, converted back to an integer: the fraction is
/// dropped, and what is too large becomes the largest integer.
pub open spec fn truncated_product(x: usize, c: u64, k: nat) -> usize {
    let v = product(x as nat, c as nat) / pow2(k);
    if v > usize::MAX {
        usize::MAX
    } else {
        v as usize
    }
}

/// `m * 2^h / 2^k` drops the lowest bits of `m`.
proof fn lemma_drop_bits(m: nat, h: nat, k: nat)
    ensures
        h <= k ==> (m * pow2(h)) / pow2(k) == m / pow2((k - h) as nat),
        h >= k ==> (m * pow2(h)) / pow2(k) == m * pow2((h - k) as nat),
{
    vstd::arithmetic::power2::lemma_pow2_pos(h);
    vstd::arithmetic::power2::lemma_pow2_pos(k);
    if h <= k {
        let d = (k - h) as nat;
        vstd::arithmetic::power2::lemma_pow2_pos(d);
        vstd::arithmetic::power2::lemma_pow2_adds(h, d);
        vstd::arithmetic::div_mod::lemma_truncate_middle(m as int, pow2(h) as int, pow2(d) as int);
        vstd::arithmetic::mul::lemma_mul_is_commutative(m as int, pow2(h) as int);
        vstd::arithmetic::div_mod::lemma_div_denominator(
            (pow2(h) * m) as int,
            pow2(h) as int,
            pow2(d) as int,
        );
        vstd::arithmetic::div_mod::lemma_div_by_multiple(m as int, pow2(h) as int);
    }
    if h >= k {
        let d = (h - k) as nat;
        vstd::arithmetic::power2::lemma_pow2_adds(k, d);
        let a = pow2(k) as int;
        let b = pow2(d) as int;
        assert(m * (a * b) == (m * b) * a) by (nonlinear_arith);
        vstd::arithmetic::div_mod::lemma_div_by_multiple(m * b, a);
    }
}

proof fn lemma_product_fits(x: nat, c: nat)
    requires
        x <= 0x1_0000_0000_0000_0000,
        c <= 0x20_0000_0000_0000,
    ensures
        nearest(x * c, 1) <= 0x20_0000_0000_0000 * 0x2_0000_0000_0000_0000,
        x * c < u128::MAX,
{
    vstd::arithmetic::power2::lemma2_to64();
    vstd::arithmetic::power2::lemma2_to64_rest();
    vstd::arithmetic::power2::lemma_pow2_adds(64, 1);
    assert(x * c <= 0x1_0000_0000_0000_0000 * 0x20_0000_0000_0000) by (nonlinear_arith)
        requires
            0 <= x <= 0x1_0000_0000_0000_0000,
            0 <= c <= 0x20_0000_0000_0000,
    ;
    lemma_nearest_below(x * c, 1, 65);
}

/// The product of an integer and a constant as significant bits and exponent.
pub(crate) fn product_parts(x: u64, c: u64) -> (r: (u64, u32))
    requires
        c <= 0x20_0000_0000_0000,
    ensures
        product(x as nat, c as nat) == r.0 * pow2(r.1 as nat),
        r.0 <= 0x20_0000_0000_0000,
        r.1 < 128,
{
    let y: u128 = from_int_exec(x);
    proof {
        lemma_product_fits(y as nat, c as nat);
    }
    nearest_parts(y * c as u128, 1)
}

/// Products grow with the integer.
pub proof fn products_keep_order(x: nat, y: nat, c: nat)
    requires
        x <= y,
    ensures
        product(x, c) <= product(y, c),
{
    rounding_keeps_order(x, y, 1);
    let a = from_int(x);
    let b = from_int(y);
    assert(a * c <= b * c) by (nonlinear_arith)
        requires
            a <= b,
            c >= 0,
    ;
    rounding_keeps_order(a * c, b * c, 1);
}

/// Scales `x` by a binary64 constant between zero and two.
pub fn scaled_by(x: usize, c: u64, k: u32) -> (r: usize)
    requires
        c <= 0x20_0000_0000_0000,
        52 <= k <= 53,
    ensures
        r == truncated_product(x, c, k as nat),
{
    let (m, h) = product_parts(x as u64, c);
    proof {
        lemma_from_int_positive(x as nat);
        lemma_product_fits(from_int(x as nat), c as nat);
        lemma_drop_bits(m as nat, h as nat, k as nat);
    }
    let v: u128 = if h >= k {
        proof {
            vstd::arithmetic::power2::lemma2_to64();
            vstd::arithmetic::power2::lemma2_to64_rest();
            vstd::arithmetic::power2::lemma_pow2_pos(k as nat);
            assert(pow2(k as nat) == 0x10_0000_0000_0000 || pow2(k as nat) == 0x20_0000_0000_0000);
            vstd::arithmetic::div_mod::lemma_div_is_ordered(
                m * pow2(h as nat),
                (0x20_0000_0000_0000 * 0x2_0000_0000_0000_0000) as int,
                pow2(k as nat) as int,
            );
        }
        shifted(m, h - k)
    } else {
        dropped(m, k - h) as u128
    };
    if v > usize::MAX as u128 {
        usize::MAX
    } else {
        v as usize
    }
}

/// `m / 2^k`.
fn dropped(m: u64, k: u32) -> (r: u64)
    requires
        k < 64,
    ensures
        r == m as nat / pow2(k as nat),
{
    proof {
        vstd::bits::lemma_u64_shr_is_div(m, k as u64);
    }
    m >> (k as u64)
}

/// A time of `us` microseconds, times 1.2, divided by 1000 and rounded to an
/// integer, halves away from zero.
pub open spec fn timeout_ms(us: nat) -> nat {
    let v = nearest(product(us, SIX_FIFTHS as nat) * scale(), 1000);
    (2 * v + pow2(180)) / pow2(181)
}

proof fn lemma_timeout_fits(p: nat)
    requires
        p <= 0x20_0000_0000_0000 * 0x2_0000_0000_0000_0000,
    ensures
        nearest(p * scale(), 1000) <= 0x20_0000_0000_0000 * pow2(184),
        0x20_0000_0000_0000 * pow2(184) == pow2(57) * pow2(180),
{
    vstd::arithmetic::power2::lemma2_to64();
    vstd::arithmetic::power2::lemma2_to64_rest();
    vstd::arithmetic::power2::lemma_pow2_adds(53, 65);
    vstd::arithmetic::power2::lemma_pow2_adds(64, 1);
    vstd::arithmetic::power2::lemma_pow2_adds(118, 128);
    vstd::arithmetic::power2::lemma_pow2_adds(53, 184);
    vstd::arithmetic::power2::lemma_pow2_adds(57, 180);
    vstd::arithmetic::power2::lemma_pow2_adds(9, 237);
    let a = pow2(118);
    let b = pow2(128);
    let c = pow2(184);
    assert(p * b <= a * b) by (nonlinear_arith)
        requires
            p <= a,
            b >= 0,
    ;
    vstd::arithmetic::power2::lemma_pow2_pos(237);
    assert(0x20_0000_0000_0000 * (1000 * c) == 1000 * (0x20_0000_0000_0000 * c));
    lemma_nearest_below(p * b, 1000, 184);
}

/// The time limit derived from the slowest run, in milliseconds.
pub fn timeout_of(us: usize) -> (r: u64)
    ensures
        r == timeout_ms(us as nat),
{
    let y: u128 = from_int_exec(us as u64);
    proof {
        lemma_product_fits(y as nat, SIX_FIFTHS as nat);
    }
    let (m, h) = nearest_parts(y * SIX_FIFTHS as u128, 1);
    let ghost p = m * pow2(h as nat);
    let q = Binary64::divided(m as u128, 1000);
    let e: u32 = q.exp + h;
    let ghost v = nearest((p * scale()) as nat, 1000);
    proof {
        vstd::arithmetic::power2::lemma2_to64();
        vstd::arithmetic::power2::lemma2_to64_rest();
        vstd::arithmetic::power2::lemma_pow2_pos(181);
        vstd::arithmetic::power2::lemma_pow2_adds(64, 64);
        let t = pow2(h as nat);
        vstd::arithmetic::power2::lemma_pow2_pos(h as nat);
        assert((m * t) * scale() == (m * scale()) * t) by (nonlinear_arith);
        lemma_timeout_fits(p as nat);
        if m == 0 {
            assert(0 * scale() == 0 && 0 * scale() * t == 0) by (nonlinear_arith);
            assert(nearest(0, 1000) == 0);
            vstd::arithmetic::power2::lemma_pow2_adds(180, 1);
            vstd::arithmetic::div_mod::lemma_basic_div(pow2(180) as int, pow2(181) as int);
        } else {
            let b = scale();
            assert(m * b >= b) by (nonlinear_arith)
                requires
                    m >= 1,
                    b >= 0,
            ;
            rounding_scales((m * b) as nat, 1000, h as nat);
            vstd::arithmetic::power2::lemma_pow2_adds(q.exp as nat, h as nat);
            let x = pow2(q.exp as nat);
            assert((q.bits * x) * t == q.bits * (x * t)) by (nonlinear_arith);
        }
    }
    if m == 0 {
        return 0;
    }
    assert(v == q.bits * pow2(e as nat));
    assert(q.bits > 0) by {
        let t = pow2(h as nat);
        let b = scale();
        assert(p * b >= b) by (nonlinear_arith)
            requires
                p == m * t,
                m >= 1,
                t >= 1,
                b >= 0,
        ;
        lemma_nearest_bounds((p * b) as nat, 1000);
        assert(0 * pow2(e as nat) == 0) by (nonlinear_arith);
    }
    if e >= 180 {
        proof {
            let d = (e - 180) as nat;
            vstd::arithmetic::power2::lemma_pow2_adds(180, d);
            vstd::arithmetic::power2::lemma_pow2_adds(180, 1);
            let a = pow2(180) as int;
            let b = pow2(d) as int;
            let n = q.bits * b;
            assert(q.bits * (a * b) == n * a) by (nonlinear_arith)
                requires
                    n == q.bits * b,
            ;
            assert(2 * (n * a) + a == n * (a * 2) + a) by (nonlinear_arith);
            vstd::arithmetic::power2::lemma_pow2_pos(180);
            vstd::arithmetic::div_mod::lemma_fundamental_div_mod_converse(
                (2 * v + pow2(180)) as int,
                pow2(181) as int,
                n,
                a,
            );
            let c = pow2(57) as int;
            assert(n <= c) by (nonlinear_arith)
                requires
                    n * a <= c * a,
                    a > 0,
            ;
            assert(b <= n) by (nonlinear_arith)
                requires
                    n == q.bits * b,
                    q.bits >= 1,
                    b >= 0,
            ;
            lemma_big_powers(d);
        }
        shifted(q.bits, e - 180) as u64
    } else {
        let s: u32 = 180 - e;
        proof {
            vstd::arithmetic::power2::lemma_pow2_adds((s - 1) as nat, (e + 1) as nat);
            vstd::arithmetic::power2::lemma_pow2_adds(e as nat, 1);
            vstd::arithmetic::power2::lemma_pow2_pos((s - 1) as nat);
            let a = pow2(e as nat) as int;
            let b = pow2((s - 1) as nat) as int;
            let n = q.bits + b;
            assert(2 * (q.bits * a) + b * (a * 2) == n * (a * 2)) by (nonlinear_arith)
                requires
                    n == q.bits + b,
            ;
            lemma_drop_bits(n as nat, (e + 1) as nat, 181);
            if s > 54 {
                vstd::arithmetic::power2::lemma_pow2_adds((s - 1) as nat, 1);
                vstd::arithmetic::power2::lemma_pow2_strictly_increases(53, (s - 1) as nat);
                vstd::arithmetic::div_mod::lemma_basic_div(n, pow2(s as nat) as int);
            }
        }
        if s > 54 {
            0
        } else {
            let half: u128 = shifted(1, s - 1);
            dropped(q.bits + half as u64, s)
        }
    }
}

proof fn lemma_product_is_close(x: nat, c: nat)
    requires
        x < 0x100_0000_0000,
        c <= 0x20_0000_0000_0000,
    ensures
        x * c <= product(x, c) + 0x100_0000_0000,
        product(x, c) <= x * c + 0x100_0000_0000,
{
    small_integers_convert(x);
    let p = x * c;
    assert(p <= 0x100_0000_0000 * 0x20_0000_0000_0000) by (nonlinear_arith)
        requires
            p == x * c,
            0 <= x < 0x100_0000_0000,
            0 <= c <= 0x20_0000_0000_0000,
    ;
    if p >= 0x20_0000_0000_0000 {
        rounding_errs_little(p, 1);
        let v = nearest(p, 1);
        assert(v * 1 == v);
    } else {
        small_integers_convert(p);
    }
}

/// Scaling by a constant gives the product, up to what is dropped and a tiny
/// error.
pub proof fn scaling_is_close(x: usize, c: u64, k: nat)
    requires
        x < 0x100_0000_0000,
        c <= 0x20_0000_0000_0000,
        k == 52 || k == 53,
        2 * x < usize::MAX,
    ensures
        truncated_product(x, c, k) * pow2(k) <= x * c + 0x100_0000_0000,
        x * c < (truncated_product(x, c, k) + 1) * pow2(k) + 0x100_0000_0000,
        pow2(52) == 0x10_0000_0000_0000,
        pow2(53) == 0x20_0000_0000_0000,
{
    vstd::arithmetic::power2::lemma2_to64();
    vstd::arithmetic::power2::lemma2_to64_rest();
    lemma_product_is_close(x as nat, c as nat);
    let p = product(x as nat, c as nat) as int;
    let m = pow2(k) as int;
    let q = p / m;
    vstd::arithmetic::div_mod::lemma_fundamental_div_mod(p, m);
    vstd::arithmetic::div_mod::lemma_mod_bound(p, m);
    assert(x * c <= 0xff_ffff_ffff * 0x20_0000_0000_0000) by (nonlinear_arith)
        requires
            0 <= x <= 0xff_ffff_ffff,
            0 <= c <= 0x20_0000_0000_0000,
    ;
    assert(m * q == q * m && (q + 1) * m == q * m + m) by (nonlinear_arith);
    assert(x * c <= x * (2 * m)) by (nonlinear_arith)
        requires
            c <= 2 * m,
            x >= 0,
    ;
    assert(x * (2 * m) == (2 * x) * m) by (nonlinear_arith);
    assert(q <= 2 * x) by (nonlinear_arith)
        requires
            q * m <= (2 * x) * m + 0x100_0000_0000,
            m > 0x100_0000_0000,
    ;
}

proof fn lemma_halves(v: int, y: int, s: int)
    requires
        2 * v + 0x10_0000_0000_0000 * s >= 0x20_0000_0000_0000 * y,
        2 * v + 0x10_0000_0000_0000 * s < 0x20_0000_0000_0000 * y + 0x20_0000_0000_0000 * s,
    ensures
        1000 * v <= 1000 * (0x10_0000_0000_0000 * y) + 1000 * (0x8_0000_0000_0000 * s),
        1000 * v >= 1000 * (0x10_0000_0000_0000 * y) - 1000 * (0x8_0000_0000_0000 * s),
{
}

/// The time limit is a fifth more than the time, in milliseconds and rounded to
/// the nearest.
pub proof fn limits_are_a_fifth_longer(us: nat)
    requires
        us < 0x100_0000_0000,
    ensures
        -2500 <= 6 * us - 5000 * timeout_ms(us) <= 2500,
{
    vstd::arithmetic::power2::lemma2_to64();
    vstd::arithmetic::power2::lemma2_to64_rest();
    vstd::arithmetic::power2::lemma_pow2_adds(52, 128);
    vstd::arithmetic::power2::lemma_pow2_adds(53, 128);
    vstd::arithmetic::power2::lemma_pow2_pos(128);
    let s = pow2(128) as int;
    let c = SIX_FIFTHS as nat;
    let p = product(us, c) as int;
    lemma_product_is_close(us, c);
    let x = p * s;
    let v = nearest((p * s) as nat, 1000) as int;
    let t = timeout_ms(us) as int;
    let n = 2 * v + pow2(180);
    let m = pow2(181) as int;
    vstd::arithmetic::div_mod::lemma_fundamental_div_mod(n, m);
    vstd::arithmetic::div_mod::lemma_mod_bound(n, m);
    let y = t * s;
    assert(m == 0x20_0000_0000_0000 * s);
    assert(n == 2 * v + 0x10_0000_0000_0000 * s);
    assert(t == n / m);
    assert(m * t <= n < m * t + m);
    assert(m * t == 0x20_0000_0000_0000 * y) by (nonlinear_arith)
        requires
            m == 0x20_0000_0000_0000 * s,
            y == t * s,
    ;
    assert(x >= 0) by (nonlinear_arith)
        requires
            x == p * s,
            p >= 0,
            s > 0,
    ;
    assert(0x20_0000_0000_0000 * (1000 * v - x) <= x && 0x20_0000_0000_0000 * (x - 1000 * v) <= x)
        by {
        if p > 0 {
            lemma_scaled_is_long(p as nat, 1000);
            rounding_errs_little((p * s) as nat, 1000);
        } else {
            assert(0 * s == 0);
            assert(nearest(0, 1000) == 0);
        }
    }
    assert(us * c < 0x100_0000_0000 * 0x14_0000_0000_0000) by (nonlinear_arith)
        requires
            0 <= us < 0x100_0000_0000,
            c == 0x13_3333_3333_3333,
    ;
    assert(p <= 0x200_0000_0000 * 0x20_0000_0000_0000);
    assert(x <= 0x20_0000_0000_0000 * (0x200_0000_0000 * s)) by (nonlinear_arith)
        requires
            x == p * s,
            p <= 0x200_0000_0000 * 0x20_0000_0000_0000,
            s > 0,
    ;
    let a = 1000 * (0x10_0000_0000_0000 * y);
    let e = 1000 * (0x8_0000_0000_0000 * s) + 0x200_0000_0000 * s;
    assert(x - 1000 * v <= 0x200_0000_0000 * s && 1000 * v - x <= 0x200_0000_0000 * s);
    assert(2 * v + 0x10_0000_0000_0000 * s >= 0x20_0000_0000_0000 * y);
    assert(2 * v + 0x10_0000_0000_0000 * s < 0x20_0000_0000_0000 * y + 0x20_0000_0000_0000 * s);
    lemma_halves(v, y, s);
    let k = 1000 * (0x10_0000_0000_0000 * t);
    assert(a == k * s) by (nonlinear_arith)
        requires
            a == 1000 * (0x10_0000_0000_0000 * y),
            y == t * s,
            k == 1000 * (0x10_0000_0000_0000 * t),
    ;
    let d = 1000 * 0x8_0000_0000_0000 + 0x200_0000_0000;
    assert(k - d <= p <= k + d) by (nonlinear_arith)
        requires
            x == p * s,
            a == k * s,
            e == 1000 * (0x8_0000_0000_0000 * s) + 0x200_0000_0000 * s,
            d == 1000 * 0x8_0000_0000_0000 + 0x200_0000_0000,
            a - e <= x <= a + e,
            s > 0,
    ;
    assert(5 * (us * c) == us * (6 * 0x10_0000_0000_0000 - 1)) by (nonlinear_arith)
        requires
            5 * c == 6 * 0x10_0000_0000_0000 - 1,
    ;
    assert(us * (6 * 0x10_0000_0000_0000 - 1) == 0x10_0000_0000_0000 * (6 * us) - us)
        by (nonlinear_arith);
}

/// A quotient is the ratio, up to a few parts in 2^50.
pub proof fn quotients_are_close(a: nat, b: nat)
    requires
        0 < b <= u64::MAX,
        a <= u64::MAX,
    ensures
        0x4_0000_0000_0000 * (quotient(a, b) * b - a * scale()) <= a * scale(),
        0x4_0000_0000_0000 * (a * scale() - quotient(a, b) * b) <= a * scale(),
{
    let e = 0x20_0000_0000_0000int;
    let s = scale() as int;
    let (x, y) = (from_int(a) as int, from_int(b) as int);
    let q = quotient(a, b) as int;
    vstd::arithmetic::power2::lemma_pow2_pos(128);
    conversions_err_little(a);
    conversions_err_little(b);
    lemma_from_int_positive(b);
    if a == 0 {
        assert(0 * scale() == 0);
        assert(q == 0);
        assert(0 * b == 0);
    } else {
        lemma_scaled_is_long(x as nat, y as nat);
        rounding_errs_little((x * s) as nat, y as nat);
        lemma_quotient_bounds(a as int, b as int, x, y, q, s, e);
    }
}

proof fn lemma_quotient_bounds(a: int, b: int, x: int, y: int, q: int, s: int, e: int)
    requires
        e == 0x20_0000_0000_0000,
        s > 0,
        a > 0,
        b > 0,
        q >= 0,
        e * (x - a) <= a,
        e * (a - x) <= a,
        e * (y - b) <= b,
        e * (b - y) <= b,
        e * (q * y - x * s) <= x * s,
        e * (x * s - q * y) <= x * s,
    ensures
        e * (q * b - a * s) <= 8 * (a * s),
        e * (a * s - q * b) <= 8 * (a * s),
{
    let k = e + 1;
    let m = e - 1;
    let w = x * s;
    let r = q * y;
    let big_a = a * s;
    let big_q = q * b;
    assert(m * big_a <= e * w <= k * big_a) by (nonlinear_arith)
        requires
            e * (x - a) <= a,
            e * (a - x) <= a,
            k == e + 1,
            m == e - 1,
            w == x * s,
            big_a == a * s,
            s > 0,
    ;
    assert(m * big_q <= e * r <= k * big_q) by (nonlinear_arith)
        requires
            e * (y - b) <= b,
            e * (b - y) <= b,
            k == e + 1,
            m == e - 1,
            r == q * y,
            big_q == q * b,
            q >= 0,
    ;
    assert(m * w <= e * r <= k * w) by (nonlinear_arith)
        requires
            e * (r - w) <= w,
            e * (w - r) <= w,
            k == e + 1,
            m == e - 1,
    ;
    assert(e * (m * big_q) <= k * (k * big_a)) by (nonlinear_arith)
        requires
            m * big_q <= k * w,
            e * w <= k * big_a,
            e > 0,
            k > 0,
    ;
    assert(m * (m * big_a) <= e * (k * big_q)) by (nonlinear_arith)
        requires
            m * w <= k * big_q,
            m * big_a <= e * w,
            e > 0,
            m > 0,
    ;
    assert(big_a > 0) by (nonlinear_arith)
        requires
            big_a == a * s,
            a > 0,
            s > 0,
    ;
    assert(k * (k * big_a) <= m * ((e + 8) * big_a)) by (nonlinear_arith)
        requires
            k == e + 1,
            m == e - 1,
            e == 0x20_0000_0000_0000,
            big_a > 0,
    ;
    assert(k * ((e - 8) * big_a) <= m * (m * big_a)) by (nonlinear_arith)
        requires
            k == e + 1,
            m == e - 1,
            e == 0x20_0000_0000_0000,
            big_a > 0,
    ;
    assert(e * big_q <= (e + 8) * big_a) by (nonlinear_arith)
        requires
            e * (m * big_q) <= m * ((e + 8) * big_a),
            m > 0,
    ;
    assert((e - 8) * big_a <= e * big_q) by (nonlinear_arith)
        requires
            k * ((e - 8) * big_a) <= e * (k * big_q),
            k > 0,
    ;
    assert(e * (big_q - big_a) <= 8 * big_a && e * (big_a - big_q) <= 8 * big_a)
        by (nonlinear_arith)
        requires
            e * big_q <= (e + 8) * big_a,
            (e - 8) * big_a <= e * big_q,
    ;
}

} // verus!
