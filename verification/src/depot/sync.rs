//! Running the initial seeds.

use crate::config::MAX_INPUT_LEN;
use vstd::prelude::*;

verus! {

/// Cuts an initial seed to the length that inputs may have. Tells whether
/// something was cut off.
pub fn clip_seed(buf: &mut Vec<u8>) -> (r: bool)
    ensures
        r == (old(buf)@.len() > MAX_INPUT_LEN),
        final(buf)@ == if r {
            old(buf)@.take(MAX_INPUT_LEN as int)
        } else {
            old(buf)@
        },
{
    if buf.len() > MAX_INPUT_LEN {
        buf.truncate(MAX_INPUT_LEN);
        assert(buf@ =~= old(buf)@.take(MAX_INPUT_LEN as int));
        true
    } else {
        false
    }
}

/// How many of the runs were normal.
pub open spec fn normal_runs(runs: Seq<(bool, usize)>) -> nat
    decreases runs.len(),
{
    if runs.len() == 0 {
        0
    } else {
        normal_runs(runs.drop_last()) + if runs.last().0 {
            1nat
        } else {
            0nat
        }
    }
}

/// The time that the normal runs took together.
pub open spec fn total_us(runs: Seq<(bool, usize)>) -> nat
    decreases runs.len(),
{
    if runs.len() == 0 {
        0
    } else {
        total_us(runs.drop_last()) + if runs.last().0 {
            runs.last().1 as nat
        } else {
            0
        }
    }
}

/// The time of the slowest normal run.
pub open spec fn slowest_us(runs: Seq<(bool, usize)>) -> nat
    decreases runs.len(),
{
    if runs.len() == 0 {
        0
    } else {
        let rest = slowest_us(runs.drop_last());
        if runs.last().0 && runs.last().1 > rest {
            runs.last().1 as nat
        } else {
            rest
        }
    }
}

proof fn lemma_total_grows(runs: Seq<(bool, usize)>, k: int)
    requires
        0 <= k <= runs.len(),
    ensures
        total_us(runs.take(k)) <= total_us(runs),
    decreases runs.len(),
{
    if k == runs.len() {
        assert(runs.take(k) =~= runs);
    } else {
        lemma_total_grows(runs.drop_last(), k);
        assert(runs.drop_last().take(k) =~= runs.take(k));
    }
}

/// The slowest and the average execution time of the initial seeds, in
/// microseconds, from their runs: whether each was normal and how long it
/// took. Both are zero if no run was normal.
pub fn sync_depot(runs: &Vec<(bool, usize)>) -> (r: (usize, usize))
    requires
        total_us(runs@) <= usize::MAX,
    ensures
        r.0 == slowest_us(runs@),
        r.1 == if normal_runs(runs@) == 0 {
            0
        } else {
            total_us(runs@) / normal_runs(runs@)
        },
{
    let mut max_us: usize = 0;
    let mut total: usize = 0;
    let mut num: usize = 0;
    let mut i: usize = 0;
    while i < runs.len()
        invariant
            i <= runs@.len(),
            num <= i,
            total_us(runs@) <= usize::MAX,
            max_us == slowest_us(runs@.take(i as int)),
            total == total_us(runs@.take(i as int)),
            num == normal_runs(runs@.take(i as int)),
            num == 0 ==> max_us == 0,
        decreases runs@.len() - i,
    {
        proof {
            assert(runs@.take(i + 1).drop_last() =~= runs@.take(i as int));
            lemma_total_grows(runs@, i + 1);
        }
        let (normal, us) = runs[i];
        if normal {
            total = total + us;
            if us > max_us {
                max_us = us;
            }
            num = num + 1;
        }
        i = i + 1;
    }
    assert(runs@.take(i as int) =~= runs@);
    if num == 0 {
        (0, 0)
    } else {
        (max_us, total / num)
    }
}

/// The slowest time is that of a normal run that took no less than any other.
pub proof fn the_slowest_is_found(runs: Seq<(bool, usize)>)
    ensures
        forall|i: int| 0 <= i < runs.len() && (#[trigger] runs[i]).0 ==> runs[i].1 <= slowest_us(runs),
        slowest_us(runs) == 0 || exists|i: int|
            0 <= i < runs.len() && (#[trigger] runs[i]).0 && runs[i].1 == slowest_us(runs),
    decreases runs.len(),
{
    if runs.len() > 0 {
        let rest = runs.drop_last();
        the_slowest_is_found(rest);
        assert forall|i: int| 0 <= i < runs.len() && (#[trigger] runs[i]).0 implies runs[i].1
            <= slowest_us(runs) by {
            if i < rest.len() {
                assert(rest[i] == runs[i]);
            }
        }
        if runs.last().0 && runs.last().1 > slowest_us(rest) {
            assert(runs[runs.len() - 1].1 == slowest_us(runs));
        } else if slowest_us(runs) != 0 {
            let i = choose|i: int|
                0 <= i < rest.len() && (#[trigger] rest[i]).0 && rest[i].1 == slowest_us(rest);
            assert(runs[i] == rest[i]);
        }
    }
}

/// Times and counts of runs add up, and only normal runs count.
pub proof fn runs_add_up(a: Seq<(bool, usize)>, b: Seq<(bool, usize)>, us: usize)
    ensures
        total_us(a + b) == total_us(a) + total_us(b),
        normal_runs(a + b) == normal_runs(a) + normal_runs(b),
        total_us(seq![(true, us)]) == us,
        total_us(seq![(false, us)]) == 0,
        normal_runs(seq![(true, us)]) == 1,
        normal_runs(seq![(false, us)]) == 0,
    decreases b.len(),
{
    let x = seq![(true, us)];
    let y = seq![(false, us)];
    assert(x.drop_last() =~= Seq::empty());
    assert(y.drop_last() =~= Seq::empty());
    reveal_with_fuel(total_us, 2);
    reveal_with_fuel(normal_runs, 2);
    if b.len() == 0 {
        assert(a + b =~= a);
    } else {
        runs_add_up(a, b.drop_last(), us);
        assert((a + b).drop_last() =~= a + b.drop_last());
    }
}

} // verus!
