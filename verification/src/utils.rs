//! Small numeric helpers shared by the stages.

use crate::config::POSITION_NUM;
use crate::rng::below;
use rand::rngs::ThreadRng;
use vstd::prelude::*;

verus! {

/// Powers of two, the values `next_p2` can return.
pub open spec fn is_p2(x: nat) -> bool {
    exists|k: nat| x == #[trigger] vstd::arithmetic::power2::pow2(k)
}

/// The smallest power of two that is at least `val` (and at least one).
pub fn next_p2(val: usize) -> (ret: usize)
    requires
        val <= usize::MAX / 2 + 1,
    ensures
        is_p2(ret as nat),
        val <= ret,
        ret == 1 || ret < 2 * val,
        forall|q: nat| is_p2(q) && val <= q ==> ret <= q,
{
    proof {
        vstd::arithmetic::power2::lemma2_to64();
    }
    if val <= 1 {
        assert forall|q: nat| is_p2(q) implies 1 <= q by {
            let k = choose|k: nat| q == #[trigger] vstd::arithmetic::power2::pow2(k);
            vstd::arithmetic::power2::lemma_pow2_pos(k);
        }
        return 1;
    }
    let mut ret: usize = 1;
    let ghost mut k: nat = 0;
    while val > ret
        invariant
            val <= usize::MAX / 2 + 1,
            ret == vstd::arithmetic::power2::pow2(k),
            1 <= ret,
            ret == 1 || ret < 2 * val,
            k > 0 ==> vstd::arithmetic::power2::pow2((k - 1) as nat) < val,
            val > 1,
        decreases 2 * val - ret,
    {
        proof {
            vstd::arithmetic::power2::lemma_pow2_unfold(k + 1);
            k = k + 1;
        }
        ret = ret * 2;
    }
    assert forall|q: nat| is_p2(q) && val <= q implies ret <= q by {
        let j = choose|j: nat| q == #[trigger] vstd::arithmetic::power2::pow2(j);
        if j < k {
            if j < (k - 1) as nat {
                vstd::arithmetic::power2::lemma_pow2_strictly_increases(j, (k - 1) as nat);
            }
        } else if j > k {
            vstd::arithmetic::power2::lemma_pow2_strictly_increases(k, j);
        }
    }
    ret
}

/// The range of start points for one of the position ranges: the input is cut
/// in `POSITION_NUM` equal chunks and the last takes what is left over; an
/// input too short to be cut is one range.
pub open spec fn start_point_range(length: int, position: int) -> (int, int) {
    let chunk = length / POSITION_NUM as int;
    if chunk == 0 {
        (0, length)
    } else if position == POSITION_NUM - 1 {
        (chunk * position, length)
    } else {
        (chunk * position, chunk * (position + 1))
    }
}

/// The bounds between which a start point is drawn, see [`start_point_range`].
pub fn start_point_bounds(length: usize, position: usize) -> (r: (usize, usize))
    requires
        start_point_range(length as int, position as int).1 <= length,
    ensures
        (r.0 as int, r.1 as int) == start_point_range(length as int, position as int),
        0 < length ==> r.0 < r.1,
{
    let chunk: usize = length / POSITION_NUM;
    if chunk == 0 {
        (0, length)
    } else {
        assert(chunk * position + chunk == chunk * (position + 1)) by (nonlinear_arith);
        if position == POSITION_NUM - 1 {
            assert(chunk * position == chunk * 9) by (nonlinear_arith)
                requires
                    position == 9,
            ;
            (chunk * position, length)
        } else {
            assert(position + 1 <= chunk * (position + 1)) by (nonlinear_arith)
                requires
                    chunk > 0,
            ;
            (chunk * position, chunk * (position + 1))
        }
    }
}

/// A mutation start point in one of the position ranges.
pub fn choose_start_point(length: usize, position: usize, rng: &mut ThreadRng) -> (r: usize)
    requires
        0 < length,
        start_point_range(length as int, position as int).1 <= length,
    ensures
        start_point_range(length as int, position as int).0 <= r,
        r < start_point_range(length as int, position as int).1,
{
    let (start, end) = start_point_bounds(length, position);
    start + below(rng, end - start)
}

/// Every position range of every input lies inside the input.
pub proof fn start_points_are_inside(length: nat, position: nat)
    requires
        position < POSITION_NUM,
    ensures
        0 <= start_point_range(length as int, position as int).0,
        start_point_range(length as int, position as int).1 <= length,
{
    let chunk = length as int / 10;
    assert(0 <= chunk * (position as int)) by (nonlinear_arith)
        requires
            chunk >= 0,
            position >= 0,
    ;
    assert(chunk * (position as int + 1) <= chunk * 10) by (nonlinear_arith)
        requires
            chunk >= 0,
            position + 1 <= 10,
    ;
}


/// The position ranges lie one behind the other and fill the input. All but the
/// last have the same length, and the last has up to nine bytes more. An input
/// of less than ten bytes is one range.
pub proof fn ranges_fill_the_input(length: nat, position: nat)
    requires
        position < 10,
    ensures
        ({
            let (lo, hi) = start_point_range(length as int, position as int);
            let next = start_point_range(length as int, position as int + 1);
            let part = length as int / 10;
            &&& length < 10 ==> lo == 0 && hi == length
            &&& length >= 10 ==> {
                &&& position == 0 ==> lo == 0
                &&& position < 9 ==> hi == next.0 && hi - lo == part
                &&& position == 9 ==> hi == length && part <= hi - lo < part + 10
            }
        }),
{
    let part = length as int / 10;
    assert(part * (position + 1) == part * position + part) by (nonlinear_arith);
    assert(part * 0 == 0);
    if position == 9 {
        assert(part * position == 9 * part) by (nonlinear_arith)
            requires
                position == 9,
        ;
    }
}

} // verus!
