//! Finding processors that are free.

use crate::binary64::{
    quotient, quotients_are_close, quotients_tell_ratios, scale, Binary64,
};
use crate::text::{
    chars_of, parse_unsigned, places, slice_of, split_words, unsigned, words,
};
use vstd::arithmetic::power2::pow2;
use vstd::prelude::*;

verus! {

/// The times of a processor since it was started, in ticks.
#[derive(Clone, Copy, Debug, PartialEq, Eq, Structural)]
pub struct CpuStat {
    pub idle: u64,
    pub total: u64,
}

/// What a line of the statistics tells.
#[derive(Clone, Copy, Debug, PartialEq, Eq, Structural)]
pub enum CpuLine {
    /// Nothing of a single processor.
    Other,
    /// The times of a processor.
    Stat { stat: CpuStat },
    /// Times of a processor whose sum is too large.
    Overflow,
}

/// The line speaks of a single processor.
pub open spec fn names_cpu(s: Seq<char>) -> bool {
    s.len() >= 4 && s[0] == 'c' && s[1] == 'p' && s[2] == 'u' && '0' <= s[3] <= '9'
}

/// Word `i` of a line as a number.
pub open spec fn number_word(s: Seq<char>, i: int) -> Option<nat> {
    let w = words(s, 0)[i];
    unsigned(s.subrange(w.0, w.1), u64::MAX as nat)
}

/// The sum of the numbers from word `i` on, up to the first word that is
/// none.
pub open spec fn numbers_sum(s: Seq<char>, i: int) -> nat
    decreases words(s, 0).len() - i,
{
    if i >= words(s, 0).len() {
        0
    } else {
        match number_word(s, i) {
            Some(v) => v + numbers_sum(s, i + 1),
            None => 0,
        }
    }
}

/// What a line tells.
pub open spec fn cpu_line(s: Seq<char>) -> CpuLine {
    if !names_cpu(s) || words(s, 0).len() < 5 {
        CpuLine::Other
    } else if numbers_sum(s, 1) > u64::MAX {
        CpuLine::Overflow
    } else {
        CpuLine::Stat {
            stat: CpuStat {
                idle: match number_word(s, 4) {
                    Some(v) => v as u64,
                    None => 0,
                },
                total: numbers_sum(s, 1) as u64,
            },
        }
    }
}

fn read_word(s: &Vec<char>, w: &Vec<(usize, usize)>, i: usize) -> (r: Option<u64>)
    requires
        places(w@) == words(s@, 0),
        i < w@.len(),
        forall|k: int| 0 <= k < w@.len() ==> (#[trigger] w@[k]).0 <= w@[k].1 <= s@.len(),
    ensures
        match r {
            Some(v) => number_word(s@, i as int) == Some(v as nat),
            None => number_word(s@, i as int) is None,
        },
{
    let (lo, hi) = w[i];
    assert(w@[i as int].0 <= w@[i as int].1);
    assert(words(s@, 0)[i as int] == (lo as int, hi as int));
    let t: Vec<char> = slice_of(s, lo, hi);
    parse_unsigned(&t, u64::MAX)
}

/// Reads a line of the statistics.
pub fn read_cpu_line(line: &str) -> (r: CpuLine)
    ensures
        r == cpu_line(line@),
{
    let s: Vec<char> = chars_of(line);
    if s.len() < 4 || s[0] != 'c' || s[1] != 'p' || s[2] != 'u' || s[3] < '0' || s[3] > '9' {
        return CpuLine::Other;
    }
    let w: Vec<(usize, usize)> = split_words(&s);
    assert(places(w@).len() == w@.len());
    if w.len() < 5 {
        return CpuLine::Other;
    }
    let idle: u64 = match read_word(&s, &w, 4) {
        Some(v) => v,
        None => 0,
    };
    let mut total: u64 = 0;
    let mut i: usize = 1;
    while i < w.len()
        invariant
            1 <= i <= w@.len(),
            places(w@) == words(s@, 0),
            places(w@).len() == w@.len(),
            forall|k: int| 0 <= k < w@.len() ==> (#[trigger] w@[k]).0 <= w@[k].1 <= s@.len(),
            s@ == line@,
            names_cpu(line@),
            w@.len() >= 5,
            numbers_sum(line@, 1) == total + numbers_sum(line@, i as int),
            idle == match number_word(line@, 4) {
                Some(v) => v as u64,
                None => 0,
            },
        decreases w@.len() - i,
    {
        match read_word(&s, &w, i) {
            Some(v) => {
                if v > u64::MAX - total {
                    return CpuLine::Overflow;
                }
                total = total + v;
            },
            None => {
                return CpuLine::Stat { stat: CpuStat { idle, total } };
            },
        }
        i = i + 1;
    }
    CpuLine::Stat { stat: CpuStat { idle, total } }
}

/// 0.05 in double precision, scaled by 2^57, taken off 2^57.
pub const FREE_BOUND: u64 = 0x1e6_6666_6666_6666;

/// The processor did next to nothing: one less the share of idle time, which
/// is computed in double precision, is below 0.05.
pub open spec fn is_free(before: CpuStat, after: CpuStat) -> bool {
    let total = (after.total - before.total) as nat;
    let idle = (after.idle - before.idle) as nat;
    total == 0 || quotient(idle, total) > FREE_BOUND * vstd::arithmetic::power2::pow2(71)
}

/// The times of the processors that are in both readings grow.
pub open spec fn times_grow(a: Seq<CpuStat>, b: Seq<CpuStat>) -> bool {
    forall|i: int|
        0 <= i < a.len() && i < b.len() ==> (#[trigger] a[i]).total <= b[i].total && a[i].idle
            <= b[i].idle
}

/// Tells whether the times grow.
pub fn can_compare(usage1: &Vec<CpuStat>, usage2: &Vec<CpuStat>) -> (r: bool)
    ensures
        r == times_grow(usage1@, usage2@),
{
    let mut i: usize = 0;
    while i < usage1.len() && i < usage2.len()
        invariant
            i <= usage1@.len(),
            i <= usage2@.len(),
            forall|k: int|
                0 <= k < i ==> (#[trigger] usage1@[k]).total <= usage2@[k].total
                    && usage1@[k].idle <= usage2@[k].idle,
        decreases usage1@.len() - i,
    {
        if usage1[i].total > usage2[i].total || usage1[i].idle > usage2[i].idle {
            assert(!(usage1@[i as int].total <= usage2@[i as int].total
                && usage1@[i as int].idle <= usage2@[i as int].idle));
            return false;
        }
        i = i + 1;
    }
    true
}

/// The free ones of the first `n` processors, at most `ask` of them.
pub open spec fn free_among(a: Seq<CpuStat>, b: Seq<CpuStat>, n: int, ask: int) -> Seq<usize>
    decreases n,
{
    if n <= 0 {
        Seq::empty()
    } else {
        let before = free_among(a, b, n - 1, ask);
        if before.len() < ask && is_free(a[n - 1], b[n - 1]) {
            before.push((n - 1) as usize)
        } else {
            before
        }
    }
}

/// The first `ask_num` processors that are free, by two readings of their
/// times. None is looked for if that is switched off.
pub fn find_free_cpus(
    disabled: bool,
    usage1: &Vec<CpuStat>,
    usage2: &Vec<CpuStat>,
    ask_num: usize,
) -> (r: Vec<usize>)
    requires
        times_grow(usage1@, usage2@),
    ensures
        r@ == if disabled {
            Seq::empty()
        } else {
            free_among(
                usage1@,
                usage2@,
                if usage1@.len() <= usage2@.len() {
                    usage1@.len() as int
                } else {
                    usage2@.len() as int
                },
                ask_num as int,
            )
        },
{
    let mut r: Vec<usize> = Vec::new();
    if disabled {
        return r;
    }
    let n: usize = if usage1.len() <= usage2.len() {
        usage1.len()
    } else {
        usage2.len()
    };
    let mut i: usize = 0;
    while i < n
        invariant
            i <= n,
            n <= usage1@.len(),
            n <= usage2@.len(),
            times_grow(usage1@, usage2@),
            r@ == free_among(usage1@, usage2@, i as int, ask_num as int),
        decreases n - i,
    {
        let a = usage1[i];
        let b = usage2[i];
        assert(usage1@[i as int].total <= usage2@[i as int].total);
        let total: u64 = b.total - a.total;
        let idle: u64 = b.idle - a.idle;
        let free = if total == 0 {
            true
        } else {
            Binary64::quotient_of(idle, total).exceeds(FREE_BOUND)
        };
        if r.len() < ask_num && free {
            r.push(i);
        }
        i = i + 1;
    }
    r
}

/// How workers are bound to processors.
#[derive(Debug)]
pub enum Binding {
    /// Not at all.
    Unbound,
    /// Worker `i` to the processor at place `i`.
    Bound { cpus: Vec<usize> },
}

/// Decides how workers are bound to the free processors. None is bound if
/// that is switched off or there are fewer processors than workers.
pub fn plan_binding(free_cpus: Vec<usize>, num_jobs: usize, disabled: bool) -> (r: Binding)
    ensures
        disabled || free_cpus@.len() < num_jobs ==> r is Unbound,
        !disabled && free_cpus@.len() >= num_jobs ==> r == (Binding::Bound { cpus: free_cpus }),
{
    if disabled || free_cpus.len() < num_jobs {
        Binding::Unbound
    } else {
        Binding::Bound { cpus: free_cpus }
    }
}

/// A processor counts as free if it did nothing at all, or was busy for less than
/// a twentieth of the time: for sure below four hundredths, and for sure not
/// above six. More idle time never makes it less free.
pub proof fn idle_processors_are_free(before: CpuStat, after: CpuStat, later: CpuStat)
    requires
        before.total <= after.total,
        before.idle <= after.idle,
        after.idle <= later.idle,
        later.total == after.total,
    ensures
        ({
            let total = after.total - before.total;
            let idle = after.idle - before.idle;
            &&& total == 0 ==> is_free(before, after)
            &&& total > 0 && 100 * idle >= 96 * total ==> is_free(before, after)
            &&& total > 0 && 100 * idle <= 94 * total ==> !is_free(before, after)
            &&& is_free(before, after) ==> is_free(before, later)
        }),
{
    let total = (after.total - before.total) as nat;
    let idle = (after.idle - before.idle) as nat;
    let more = (later.idle - before.idle) as nat;
    if total > 0 {
        quotients_tell_ratios(idle, total, more, total);
        quotients_are_close(idle, total);
        let s = scale() as int;
        vstd::arithmetic::power2::lemma2_to64();
        vstd::arithmetic::power2::lemma2_to64_rest();
        vstd::arithmetic::power2::lemma_pow2_adds(57, 71);
        vstd::arithmetic::power2::lemma_pow2_pos(71);
        let q = quotient(idle, total) as int;
        let u = pow2(71) as int;
        let b = FREE_BOUND * u;
        let n = total as int;
        assert(s == 0x200_0000_0000_0000 * u);
        let x = idle * s;
        assert(100 * idle >= 96 * total ==> 100 * x >= 96 * (n * s)) by (nonlinear_arith)
            requires
                x == idle * s,
                n == total,
                s > 0,
        ;
        assert(100 * idle <= 94 * total ==> 100 * x <= 94 * (n * s)) by (nonlinear_arith)
            requires
                x == idle * s,
                n == total,
                s > 0,
        ;
        let v = n * u;
        assert(n * s == 0x200_0000_0000_0000 * v) by (nonlinear_arith)
            requires
                s == 0x200_0000_0000_0000 * u,
                v == n * u,
        ;
        assert(b * n == FREE_BOUND * v) by (nonlinear_arith)
            requires
                b == FREE_BOUND * u,
                v == n * u,
        ;
        assert(v > 0) by (nonlinear_arith)
            requires
                v == n * u,
                n > 0,
                u > 0,
        ;
        assert((q > b) == (q * n > b * n)) by (nonlinear_arith)
            requires
                n > 0,
        ;
    }
}

/// The processors that are found are free, in their order and no more than are
/// asked for; and none that is free is passed over while there is need.
pub proof fn free_processors_are_found_first(
    a: Seq<CpuStat>,
    b: Seq<CpuStat>,
    n: int,
    ask: int,
)
    requires
        0 <= n <= usize::MAX,
        0 <= ask,
    ensures
        ({
            let r = free_among(a, b, n, ask);
            &&& r.len() <= ask
            &&& forall|i: int| 0 <= i < r.len() ==> (#[trigger] r[i]) < n && is_free(
                a[r[i] as int],
                b[r[i] as int],
            )
            &&& forall|i: int, j: int| 0 <= i < j < r.len() ==> (#[trigger] r[i]) < (#[trigger] r[j])
            &&& forall|k: int|
                #![trigger a[k]]
                0 <= k < n && is_free(a[k], b[k]) && !r.contains(k as usize) ==> r.len() == ask
                    && forall|i: int| 0 <= i < r.len() ==> #[trigger] r[i] < k
        }),
    decreases n,
{
    if n > 0 {
        free_processors_are_found_first(a, b, n - 1, ask);
        let rest = free_among(a, b, n - 1, ask);
        let r = free_among(a, b, n, ask);
        assert forall|k: int|
            #![trigger a[k]]
            0 <= k < n && is_free(a[k], b[k]) && !r.contains(k as usize) implies r.len() == ask
            && forall|i: int| 0 <= i < r.len() ==> #[trigger] r[i] < k by {
            if rest.contains(k as usize) {
                let i = choose|i: int| 0 <= i < rest.len() && rest[i] == k as usize;
                assert(r[i] == k as usize);
            }
            if r.len() > rest.len() {
                assert(r[rest.len() as int] == (n - 1) as usize);
            }
        }
    }
}


/// The sum of some numbers.
pub open spec fn sum_of(values: Seq<nat>) -> nat
    decreases values.len(),
{
    if values.len() == 0 {
        0
    } else {
        sum_of(values.drop_last()) + values.last()
    }
}

proof fn lemma_numbers_sum(s: Seq<char>, values: Seq<nat>, i: int)
    requires
        0 <= i <= values.len(),
        values.len() < words(s, 0).len(),
        forall|k: int| 0 <= k < values.len() ==> number_word(s, k + 1) == Some(#[trigger] values[k]),
        values.len() + 1 < words(s, 0).len() ==> number_word(s, values.len() as int + 1) is None,
    ensures
        sum_of(values) == sum_of(values.take(i)) + numbers_sum(s, i + 1),
    decreases values.len() - i,
{
    if i < values.len() {
        lemma_numbers_sum(s, values, i + 1);
        assert(values.take(i + 1).drop_last() =~= values.take(i));
        assert(number_word(s, i + 1) == Some(values[i]));
    } else {
        assert(values.take(i) =~= values);
    }
}

/// A line that begins with `cpu` and a digit tells the times of a processor if
/// it has four words more. The fourth of the numbers behind the first word is
/// the time without work, and all of them together, up to a word that is no
/// number, are the time that has passed.
pub proof fn times_are_added_up(s: Seq<char>, values: Seq<nat>, rest: Seq<char>, c: char)
    requires
        s == seq!['c', 'p', 'u', c] + rest,
        '0' <= c <= '9',
        4 <= values.len() < words(s, 0).len(),
        forall|k: int|
            0 <= k < values.len() ==> unsigned(
                s.subrange(words(s, 0)[k + 1].0, words(s, 0)[k + 1].1),
                u64::MAX as nat,
            ) == Some(#[trigger] values[k]),
        values.len() + 1 < words(s, 0).len() ==> unsigned(
            s.subrange(words(s, 0)[values.len() as int + 1].0, words(s, 0)[values.len() as int + 1].1),
            u64::MAX as nat,
        ) is None,
    ensures
        sum_of(values) > u64::MAX ==> cpu_line(s) == CpuLine::Overflow,
        sum_of(values) <= u64::MAX ==> (cpu_line(s) matches CpuLine::Stat { stat } && stat.total
            == sum_of(values) && stat.idle == values[3]),
{
    assert forall|k: int| 0 <= k < values.len() implies number_word(s, k + 1) == Some(
        #[trigger] values[k],
    ) by {}
    assert(values.take(0) =~= Seq::empty());
    lemma_numbers_sum(s, values, 0);
    lemma_one_of_sum(values, 3);
    assert(number_word(s, 3int + 1) == Some(values[3]));
}

proof fn lemma_one_of_sum(values: Seq<nat>, i: int)
    requires
        0 <= i < values.len(),
    ensures
        values[i] <= sum_of(values),
    decreases values.len(),
{
    if i < values.len() - 1 {
        lemma_one_of_sum(values.drop_last(), i);
        assert(values.drop_last()[i] == values[i]);
    }
}

/// Other lines tell nothing of a processor: those that begin otherwise, and
/// those with fewer words.
pub proof fn other_lines_tell_nothing(s: Seq<char>)
    ensures
        cpu_line(s) == CpuLine::Other <==> s.len() < 4 || s.take(3) != seq!['c', 'p', 'u'] || !('0'
            <= s[3] <= '9') || words(s, 0).len() < 5,
{
    if s.len() >= 4 {
        assert(s.take(3) =~= seq![s[0], s[1], s[2]]);
        if s[0] == 'c' && s[1] == 'p' && s[2] == 'u' {
            assert(s.take(3) =~= seq!['c', 'p', 'u']);
        } else {
            assert(s.take(3)[0] == s[0] && s.take(3)[1] == s[1] && s.take(3)[2] == s[2]);
            assert(seq!['c', 'p', 'u'][0] == 'c' && seq!['c', 'p', 'u'][1] == 'p'
                && seq!['c', 'p', 'u'][2] == 'u');
        }
    }
}

} // verus!
