//! What is collected of a trace, told by the bytes that were recorded.

use super::operands::{record_fits, trace_fits, units_fit, OperandsView};
use crate::branches::tracker::{has_trace_type, trace_type};
use crate::branches::{BranchType, GlobalBranches};
use crate::bytes::le_u64;
use crate::trace_data::{
    is_number_unit, is_string_unit, low_bytes, match_at, number_1, number_2, number_len, string_1,
    string_2, unit_offset,
};
use vstd::prelude::*;

verus! {

/// The first byte of a unit: a record of 2242 bytes begins with two bytes of
/// its own, and a unit has 70. Unit `u` is the one with number `u % 32` of the
/// record of branch `u / 32`.
pub open spec fn first_byte(u: int) -> int {
    (u / 32) * 2242 + 2 + (u % 32) * 70
}

/// Something was recorded in the unit and in all before it of the same
/// record.
pub open spec fn is_used(raw: Seq<u8>, u: int) -> bool {
    forall|v: int|
        #![trigger first_byte(v)]
        u - u % 32 <= v <= u ==> raw[first_byte(v) + 4] != 0 || raw[first_byte(v) + 5] != 0
}

/// The number in the eight bytes at `o`, lowest byte first.
pub open spec fn eight_bytes(raw: Seq<u8>, o: int) -> int {
    raw[o] + 0x100 * raw[o + 1] + 0x1_0000 * raw[o + 2] + 0x100_0000 * raw[o + 3]
        + 0x1_0000_0000 * raw[o + 4] + 0x100_0000_0000 * raw[o + 5] + 0x1_0000_0000_0000 * raw[o
        + 6] + 0x100_0000_0000_0000 * raw[o + 7]
}

/// The type of a branch, by the table of the trace target; a cell behind the
/// last branch counts as a comparison of numbers.
pub open spec fn type_by_table(g: &GlobalBranches, id: usize, kind: BranchType) -> bool {
    let sizes = g.trace_map_size_data;
    if sizes.real_branch_map_size <= id < sizes.used_branch_map_size {
        kind == BranchType::Cmp
    } else {
        g.trace_branch_type_dict@.contains_key(id) && g.trace_branch_type_dict@[id] == kind
    }
}

/// The four bytes at `o` hold a length of one, two, four or eight.
pub open spec fn has_width(raw: Seq<u8>, o: int, w: int) -> bool {
    &&& w == 1 || w == 2 || w == 4 || w == 8
    &&& raw[o] == w && raw[o + 1] == 0 && raw[o + 2] == 0 && raw[o + 3] == 0
}

proof fn lemma_low_byte(x: u64, b: u8, y: u64, n: int)
    requires
        x == b + 0x100 * y,
        n > 0,
    ensures
        low_bytes(x, n) == seq![b] + low_bytes(y, n - 1),
{
}

/// The bytes of a number that is made of them.
proof fn lemma_low_bytes(s: Seq<u8>, x: u64, n: int)
    requires
        s.len() == 8,
        0 <= n <= 8,
        x == eight_bytes(s, 0),
    ensures
        low_bytes(x, n) == s.take(n),
{
    let y7 = s[7] as u64;
    let y6 = (s[6] + 0x100 * y7) as u64;
    let y5 = (s[5] + 0x100 * y6) as u64;
    let y4 = (s[4] + 0x100 * y5) as u64;
    let y3 = (s[3] + 0x100 * y4) as u64;
    let y2 = (s[2] + 0x100 * y3) as u64;
    let y1 = (s[1] + 0x100 * y2) as u64;
    assert(x == s[0] + 0x100 * y1);
    lemma_low_byte(y7, s[7], 0, 1);
    if n >= 1 {
        lemma_low_byte(x, s[0], y1, n);
    }
    if n >= 2 {
        lemma_low_byte(y1, s[1], y2, n - 1);
    }
    if n >= 3 {
        lemma_low_byte(y2, s[2], y3, n - 2);
    }
    if n >= 4 {
        lemma_low_byte(y3, s[3], y4, n - 3);
    }
    if n >= 5 {
        lemma_low_byte(y4, s[4], y5, n - 4);
    }
    if n >= 6 {
        lemma_low_byte(y5, s[5], y6, n - 5);
    }
    if n >= 7 {
        lemma_low_byte(y6, s[6], y7, n - 6);
    }
    if n >= 8 {
        lemma_low_byte(y7, s[7], 0, n - 7);
    }
    assert(low_bytes(x, n) =~= s.take(n));
}

/// A number is read lowest byte first, and its low bytes are those that were
/// read.
pub proof fn numbers_keep_their_bytes(raw: Seq<u8>, o: int, w: int)
    requires
        w == 1 || w == 2 || w == 4 || w == 8,
        0 <= o,
        o + 8 <= raw.len(),
    ensures
        le_u64(raw, o) == eight_bytes(raw, o),
        low_bytes(le_u64(raw, o), w) == raw.subrange(o, o + w),
{
    let s = raw.subrange(o, o + 8);
    assert(eight_bytes(s, 0) == eight_bytes(raw, o));
    lemma_low_bytes(s, le_u64(raw, o), w);
    assert(s.take(w) =~= raw.subrange(o, o + w));
}

/// What was collected before stays where it is.
pub open spec fn goes_on(v: OperandsView, r: OperandsView) -> bool {
    &&& v.pairs.is_prefix_of(r.pairs)
    &&& v.branches.is_prefix_of(r.branches)
    &&& v.numbers.is_prefix_of(r.numbers)
    &&& v.lens.is_prefix_of(r.lens)
    &&& v.strings.is_prefix_of(r.strings)
}

proof fn lemma_goes_on(a: OperandsView, b: OperandsView, c: OperandsView)
    requires
        goes_on(a, b),
        goes_on(b, c),
    ensures
        goes_on(a, c),
{
    assert(a.pairs =~= c.pairs.subrange(0, a.pairs.len() as int));
    assert(a.branches =~= c.branches.subrange(0, a.branches.len() as int));
    assert(a.numbers =~= c.numbers.subrange(0, a.numbers.len() as int));
    assert(a.lens =~= c.lens.subrange(0, a.lens.len() as int));
    assert(a.strings =~= c.strings.subrange(0, a.strings.len() as int));
}

/// What is collected of one unit.
spec fn with_unit(
    v: OperandsView,
    raw: Seq<u8>,
    branch: usize,
    i: int,
    kind: BranchType,
    buf_len: usize,
) -> OperandsView {
    let o = unit_offset(branch as int, i);
    if kind.spec_has_numbers() {
        v.with_numbers(raw, o, branch, kind.spec_has_const(), buf_len)
    } else {
        v.with_strings(raw, o, branch, kind)
    }
}

proof fn lemma_unit_goes_on(
    v: OperandsView,
    raw: Seq<u8>,
    branch: usize,
    i: int,
    kind: BranchType,
    buf_len: usize,
)
    requires
        v.is_paired(),
    ensures
        goes_on(v, with_unit(v, raw, branch, i, kind, buf_len)),
        with_unit(v, raw, branch, i, kind, buf_len).is_paired(),
{
    let r = with_unit(v, raw, branch, i, kind, buf_len);
    assert(v.pairs =~= r.pairs.subrange(0, v.pairs.len() as int));
    assert(v.branches =~= r.branches.subrange(0, v.branches.len() as int));
    assert(v.numbers =~= r.numbers.subrange(0, v.numbers.len() as int));
    assert(v.lens =~= r.lens.subrange(0, v.lens.len() as int));
    assert(v.strings =~= r.strings.subrange(0, v.strings.len() as int));
}

proof fn lemma_units_go_on(
    v: OperandsView,
    raw: Seq<u8>,
    branch: usize,
    i: int,
    kind: BranchType,
    buf_len: usize,
)
    requires
        v.is_paired(),
    ensures
        goes_on(v, v.with_units(raw, branch, i, kind, buf_len)),
        v.with_units(raw, branch, i, kind, buf_len).is_paired(),
    decreases 32 - i,
{
    let o = unit_offset(branch as int, i);
    if i >= 32 || match_at(raw, o) == 0 {
        lemma_unit_is_kept(v);
    } else {
        let w = with_unit(v, raw, branch, i, kind, buf_len);
        lemma_unit_goes_on(v, raw, branch, i, kind, buf_len);
        lemma_units_go_on(w, raw, branch, i + 1, kind, buf_len);
        lemma_goes_on(v, w, w.with_units(raw, branch, i + 1, kind, buf_len));
    }
}

proof fn lemma_unit_is_kept(v: OperandsView)
    ensures
        goes_on(v, v),
{
    assert(v.pairs =~= v.pairs.subrange(0, v.pairs.len() as int));
    assert(v.branches =~= v.branches.subrange(0, v.branches.len() as int));
    assert(v.numbers =~= v.numbers.subrange(0, v.numbers.len() as int));
    assert(v.lens =~= v.lens.subrange(0, v.lens.len() as int));
    assert(v.strings =~= v.strings.subrange(0, v.strings.len() as int));
}

proof fn lemma_records_go_on(
    v: OperandsView,
    raw: Seq<u8>,
    g: &GlobalBranches,
    m: int,
    n: int,
    buf_len: usize,
)
    requires
        v.is_paired(),
        0 <= m <= n,
    ensures
        goes_on(v.with_records(raw, g, m, buf_len), v.with_records(raw, g, n, buf_len)),
        v.with_records(raw, g, n, buf_len).is_paired(),
    decreases n,
{
    if n == 0 {
        lemma_unit_is_kept(v);
    } else {
        let w = v.with_records(raw, g, n - 1, buf_len);
        let r = v.with_records(raw, g, n, buf_len);
        lemma_records_go_on(v, raw, g, if m < n {
            m
        } else {
            n - 1
        }, n - 1, buf_len);
        lemma_unit_is_kept(w);
        lemma_unit_is_kept(r);
        lemma_units_go_on(
            w,
            raw,
            (n - 1) as usize,
            0,
            trace_type(g, (n - 1) as usize),
            buf_len,
        );
        if m < n {
            lemma_goes_on(v.with_records(raw, g, m, buf_len), w, r);
        }
    }
}

/// What was collected when unit `j` is reached.
proof fn lemma_unit_is_reached(
    v: OperandsView,
    raw: Seq<u8>,
    branch: usize,
    i: int,
    j: int,
    kind: BranchType,
    buf_len: usize,
) -> (w: OperandsView)
    requires
        v.is_paired(),
        0 <= i <= j < 32,
        forall|k: int| i <= k < j ==> match_at(raw, #[trigger] unit_offset(branch as int, k)) != 0,
    ensures
        goes_on(v, w),
        w.is_paired(),
        v.with_units(raw, branch, i, kind, buf_len) == w.with_units(
            raw,
            branch,
            j,
            kind,
            buf_len,
        ),
    decreases j - i,
{
    if i == j {
        lemma_unit_is_kept(v);
        v
    } else {
        assert(match_at(raw, unit_offset(branch as int, i)) != 0);
        let u = with_unit(v, raw, branch, i, kind, buf_len);
        lemma_unit_goes_on(v, raw, branch, i, kind, buf_len);
        let w = lemma_unit_is_reached(u, raw, branch, i + 1, j, kind, buf_len);
        lemma_goes_on(v, u, w);
        w
    }
}

/// What was collected before unit `u`, and what comes of it.
proof fn lemma_unit_is_collected(
    v: OperandsView,
    raw: Seq<u8>,
    g: &GlobalBranches,
    u: int,
    kind: BranchType,
    buf_len: usize,
) -> (w: OperandsView)
    requires
        v.is_paired(),
        raw.len() <= usize::MAX,
        0 <= u < 32 * (raw.len() / 2242),
        is_used(raw, u),
        type_by_table(g, (u / 32) as usize, kind),
    ensures
        w.is_paired(),
        goes_on(v, w),
        goes_on(
            with_unit(w, raw, (u / 32) as usize, u % 32, kind, buf_len),
            v.with_records(raw, g, raw.len() as int / 2242, buf_len),
        ),
        unit_offset(u / 32, u % 32) == first_byte(u),
        0 <= first_byte(u),
        first_byte(u) + 70 <= raw.len(),
{
    let id = u / 32;
    let j = u % 32;
    let n = raw.len() as int / 2242;
    let start = v.with_records(raw, g, id, buf_len);
    let branch = id as usize;
    assert forall|k: int| 0 <= k <= j implies match_at(
        raw,
        #[trigger] unit_offset(id, k),
    ) != 0 by {
        let x = id * 32 + k;
        assert(x / 32 == id && x % 32 == k);
        assert(first_byte(x) == unit_offset(id, k));
        assert(u - u % 32 <= x <= u);
    }
    assert(trace_type(g, branch) == kind);
    assert(match_at(raw, unit_offset(id, 0)) != 0);
    lemma_records_go_on(v, raw, g, 0, id, buf_len);
    lemma_records_go_on(v, raw, g, id + 1, n, buf_len);
    assert(v.with_records(raw, g, id + 1, buf_len) == start.with_units(
        raw,
        branch,
        0,
        kind,
        buf_len,
    ));
    let w = lemma_unit_is_reached(start, raw, branch, 0, j, kind, buf_len);
    assert(v.with_records(raw, g, 0, buf_len) == v);
    lemma_goes_on(v, start, w);
    let x = with_unit(w, raw, branch, j, kind, buf_len);
    lemma_unit_goes_on(w, raw, branch, j, kind, buf_len);
    assert(match_at(raw, unit_offset(id, j)) != 0);
    lemma_units_go_on(x, raw, branch, j + 1, kind, buf_len);
    lemma_goes_on(
        x,
        x.with_units(raw, branch, j + 1, kind, buf_len),
        v.with_records(raw, g, n, buf_len),
    );
    w
}

/// Nothing that was collected before is lost.
pub proof fn records_add_up(v: OperandsView, raw: Seq<u8>, g: &GlobalBranches, buf_len: usize)
    requires
        v.is_paired(),
    ensures
        goes_on(v, v.with_records(raw, g, raw.len() as int / 2242, buf_len)),
{
    lemma_records_go_on(v, raw, g, 0, raw.len() as int / 2242, buf_len);
}

/// Every pair of numbers that the trace target recorded is collected, whatever
/// the branch compares them for: the bytes of both, and the branch. Whether
/// one of them is a constant decides only on the list of constants. A number
/// that is compared with the length of the input is a length to try.
pub proof fn recorded_numbers_are_collected(
    v: OperandsView,
    raw: Seq<u8>,
    g: &GlobalBranches,
    u: int,
    kind: BranchType,
    w: int,
    buf_len: usize,
)
    requires
        v.is_paired(),
        raw.len() <= usize::MAX,
        0 <= u < 32 * (raw.len() / 2242),
        is_used(raw, u),
        type_by_table(g, (u / 32) as usize, kind),
        kind == BranchType::Cmp || kind == BranchType::ConstCmp || kind == BranchType::Switch,
        has_width(raw, first_byte(u), w),
    ensures
        ({
            let r = v.with_records(raw, g, raw.len() as int / 2242, buf_len);
            let o = first_byte(u);
            let a = eight_bytes(raw, o + 6);
            let b = eight_bytes(raw, o + 14);
            &&& a != buf_len && b != buf_len ==> (exists|k: int|
                #![trigger r.pairs[k]]
                v.pairs.len() <= k < r.pairs.len() && r.pairs[k].0 == raw.subrange(
                    o + 6,
                    o + 6 + w,
                ) && r.pairs[k].1 == raw.subrange(o + 14, o + 14 + w) && r.branches[k] == u / 32)
            &&& a != buf_len && b != buf_len && kind != BranchType::Cmp ==> r.numbers.contains(
                (a as u64, w as usize),
            )
            &&& a == buf_len && 1 <= b <= 2 * buf_len && b <= 1048576 ==> r.lens.contains(
                b as usize,
            )
            &&& b == buf_len && 1 <= a <= 2 * buf_len && a <= 1048576 ==> r.lens.contains(
                a as usize,
            )
        }),
{
    let r = v.with_records(raw, g, raw.len() as int / 2242, buf_len);
    let o = first_byte(u);
    let branch = (u / 32) as usize;
    let before = lemma_unit_is_collected(v, raw, g, u, kind, buf_len);
    let x = with_unit(before, raw, branch, u % 32, kind, buf_len);
    numbers_keep_their_bytes(raw, o + 6, w);
    numbers_keep_their_bytes(raw, o + 14, w);
    assert(number_len(raw, o) == w);
    let a = eight_bytes(raw, o + 6);
    let b = eight_bytes(raw, o + 14);
    assert(number_1(raw, o) == a && number_2(raw, o) == b);
    if a != buf_len && b != buf_len {
        let k = before.pairs.len() as int;
        assert(x.pairs[k] == r.pairs[k]);
        assert(x.branches[k] == r.branches[k]);
        if kind != BranchType::Cmp {
            let m = before.numbers.len() as int;
            assert(x.numbers[m] == (a as u64, w as usize));
            assert(r.numbers[m] == x.numbers[m]);
        }
    }
    if a == buf_len && 1 <= b <= 2 * buf_len && b <= 1048576 {
        let m = before.lens.len() as int;
        assert(x.lens[m] == b as usize);
        assert(r.lens[m] == x.lens[m]);
    }
    if b == buf_len && 1 <= a <= 2 * buf_len && a <= 1048576 {
        let m = x.lens.len() - 1;
        assert(x.lens[m] == a as usize);
        assert(r.lens[m] == x.lens[m]);
    }
}

/// The smaller of two bytes.
pub open spec fn least(a: u8, b: u8) -> int {
    if a < b {
        a as int
    } else {
        b as int
    }
}

/// The branch compares two strings of the program.
pub open spec fn are_strings(kind: BranchType) -> bool {
    kind == BranchType::Strcmp || kind == BranchType::StrcmpNonTerm
}

/// The branch compares a string with a literal.
pub open spec fn are_literals(kind: BranchType) -> bool {
    kind == BranchType::ConstStrcmp || kind == BranchType::ConstStrcmpNonTerm
}

/// Every pair of strings that the trace target recorded is collected, as far
/// as they were to be compared, unless one is empty. Of strings that were
/// compared both are tokens to try; of one that was compared with a literal
/// the first is.
pub proof fn recorded_strings_are_collected(
    v: OperandsView,
    raw: Seq<u8>,
    g: &GlobalBranches,
    u: int,
    kind: BranchType,
    buf_len: usize,
)
    requires
        v.is_paired(),
        raw.len() <= usize::MAX,
        0 <= u < 32 * (raw.len() / 2242),
        is_used(raw, u),
        type_by_table(g, (u / 32) as usize, kind),
        are_strings(kind) || are_literals(kind),
        raw[first_byte(u)] <= 32,
        raw[first_byte(u) + 1] <= 32,
        raw[first_byte(u) + 2] <= 32,
    ensures
        ({
            let r = v.with_records(raw, g, raw.len() as int / 2242, buf_len);
            let o = first_byte(u);
            let m = least(raw[o], raw[o + 2]);
            let n = least(raw[o + 1], raw[o + 2]);
            let s = raw.subrange(o + 6, o + 6 + m);
            let t = raw.subrange(o + 38, o + 38 + n);
            &&& m > 0 && n > 0 ==> (exists|k: int|
                #![trigger r.pairs[k]]
                v.pairs.len() <= k < r.pairs.len() && r.pairs[k].0 == s && r.pairs[k].1 == t
                    && r.branches[k] == u / 32)
            &&& m > 0 ==> r.strings.contains(s)
            &&& n > 0 && are_strings(kind) ==> r.strings.contains(t)
        }),
{
    let r = v.with_records(raw, g, raw.len() as int / 2242, buf_len);
    let o = first_byte(u);
    let branch = (u / 32) as usize;
    let before = lemma_unit_is_collected(v, raw, g, u, kind, buf_len);
    let x = with_unit(before, raw, branch, u % 32, kind, buf_len);
    let m = least(raw[o], raw[o + 2]);
    let n = least(raw[o + 1], raw[o + 2]);
    let s = raw.subrange(o + 6, o + 6 + m);
    let t = raw.subrange(o + 38, o + 38 + n);
    assert(string_1(raw, o) == s && string_2(raw, o) == t);
    if m > 0 && n > 0 {
        let k = before.pairs.len() as int;
        assert(x.pairs[k] == r.pairs[k]);
        assert(x.branches[k] == r.branches[k]);
    }
    if m > 0 {
        let k = before.strings.len() as int;
        assert(x.strings[k] == s);
        assert(r.strings[k] == x.strings[k]);
    }
    if n > 0 && are_strings(kind) {
        let k = x.strings.len() - 1;
        assert(x.strings[k] == t);
        assert(r.strings[k] == x.strings[k]);
    }
}

/// The branch compares numbers.
pub open spec fn are_numbers(g: &GlobalBranches, id: usize) -> bool {
    type_by_table(g, id, BranchType::Cmp) || type_by_table(g, id, BranchType::ConstCmp)
        || type_by_table(g, id, BranchType::Switch)
}

/// The pair is what was recorded in unit `u`: two numbers of which neither is
/// the length of the input, or two strings that are not empty.
pub open spec fn is_pair_of(
    raw: Seq<u8>,
    g: &GlobalBranches,
    u: int,
    pair: (Seq<u8>, Seq<u8>),
    buf_len: usize,
) -> bool {
    let o = first_byte(u);
    &&& 0 <= u < 32 * (raw.len() / 2242)
    &&& is_used(raw, u)
    &&& if are_numbers(g, (u / 32) as usize) {
        &&& has_width(raw, o, raw[o] as int)
        &&& eight_bytes(raw, o + 6) != buf_len
        &&& eight_bytes(raw, o + 14) != buf_len
        &&& pair.0 == raw.subrange(o + 6, o + 6 + raw[o])
        &&& pair.1 == raw.subrange(o + 14, o + 14 + raw[o])
    } else {
        let m = least(raw[o], raw[o + 2]);
        let n = least(raw[o + 1], raw[o + 2]);
        &&& m > 0 && n > 0
        &&& pair.0 == raw.subrange(o + 6, o + 6 + m)
        &&& pair.1 == raw.subrange(o + 38, o + 38 + n)
    }
}

/// The constant was recorded in unit `u`: the first number of a comparison
/// with a constant, where neither is the length of the input.
pub open spec fn is_constant_of(
    raw: Seq<u8>,
    g: &GlobalBranches,
    u: int,
    x: (u64, usize),
    buf_len: usize,
) -> bool {
    let o = first_byte(u);
    &&& 0 <= u < 32 * (raw.len() / 2242)
    &&& is_used(raw, u)
    &&& type_by_table(g, (u / 32) as usize, BranchType::ConstCmp) || type_by_table(
        g,
        (u / 32) as usize,
        BranchType::Switch,
    )
    &&& has_width(raw, o, x.1 as int)
    &&& x.0 == eight_bytes(raw, o + 6)
    &&& eight_bytes(raw, o + 6) != buf_len
    &&& eight_bytes(raw, o + 14) != buf_len
}

/// The length was recorded in unit `u`: it was compared with that of the
/// input, and is at most twice as large.
pub open spec fn is_len_of(
    raw: Seq<u8>,
    g: &GlobalBranches,
    u: int,
    x: usize,
    buf_len: usize,
) -> bool {
    let a = eight_bytes(raw, first_byte(u) + 6);
    let b = eight_bytes(raw, first_byte(u) + 14);
    &&& 0 <= u < 32 * (raw.len() / 2242)
    &&& is_used(raw, u)
    &&& are_numbers(g, (u / 32) as usize)
    &&& (a == buf_len && b == x) || (b == buf_len && a == x)
    &&& 1 <= x <= 2 * buf_len
    &&& x <= 1048576
}

/// The string was recorded in unit `u`, and is not empty.
pub open spec fn is_string_of(
    raw: Seq<u8>,
    g: &GlobalBranches,
    u: int,
    x: Seq<u8>,
) -> bool {
    let o = first_byte(u);
    &&& 0 <= u < 32 * (raw.len() / 2242)
    &&& is_used(raw, u)
    &&& !are_numbers(g, (u / 32) as usize)
    &&& x.len() > 0
    &&& x == raw.subrange(o + 6, o + 6 + least(raw[o], raw[o + 2])) || x == raw.subrange(
        o + 38,
        o + 38 + least(raw[o + 1], raw[o + 2]),
    )
}

/// The constant was recorded in some unit.
pub open spec fn was_constant(
    raw: Seq<u8>,
    g: &GlobalBranches,
    x: (u64, usize),
    buf_len: usize,
) -> bool {
    exists|u: int| #[trigger] is_constant_of(raw, g, u, x, buf_len)
}

/// The length was recorded in some unit.
pub open spec fn was_len(raw: Seq<u8>, g: &GlobalBranches, x: usize, buf_len: usize) -> bool {
    exists|u: int| #[trigger] is_len_of(raw, g, u, x, buf_len)
}

/// The string was recorded in some unit.
pub open spec fn was_string(raw: Seq<u8>, g: &GlobalBranches, x: Seq<u8>) -> bool {
    exists|u: int| #[trigger] is_string_of(raw, g, u, x)
}

/// Constants, lengths and strings were there before or are recorded.
spec fn are_recorded(
    v: OperandsView,
    r: OperandsView,
    raw: Seq<u8>,
    g: &GlobalBranches,
    buf_len: usize,
) -> bool {
    &&& forall|k: int|
        #![trigger r.numbers[k]]
        v.numbers.len() <= k < r.numbers.len() ==> was_constant(
            raw,
            g,
            r.numbers[k],
            buf_len,
        )
    &&& forall|k: int|
        #![trigger r.lens[k]]
        v.lens.len() <= k < r.lens.len() ==> was_len(
            raw,
            g,
            r.lens[k],
            buf_len,
        )
    &&& forall|k: int|
        #![trigger r.strings[k]]
        v.strings.len() <= k < r.strings.len() ==> was_string(raw, g, r.strings[k])
}

/// The units that pairs were recorded in rise, and lie from `lo` up to `hi`.
pub open spec fn rise(places: Seq<int>, lo: int, hi: int) -> bool {
    &&& forall|i: int, j: int|
        0 <= i < j < places.len() ==> (#[trigger] places[i]) < (#[trigger] places[j])
    &&& forall|i: int| 0 <= i < places.len() ==> lo <= #[trigger] places[i] < hi
}

/// The pairs of `r` behind those of `v` are those of the units in `places`.
spec fn pairs_are_of(
    v: OperandsView,
    r: OperandsView,
    places: Seq<int>,
    raw: Seq<u8>,
    g: &GlobalBranches,
    buf_len: usize,
) -> bool {
    &&& r.pairs.len() == v.pairs.len() + places.len()
    &&& forall|k: int|
        #![trigger places[k]]
        0 <= k < places.len() ==> is_pair_of(
            raw,
            g,
            places[k],
            r.pairs[v.pairs.len() + k],
            buf_len,
        ) && r.branches[v.pairs.len() + k] == places[k] / 32
}

proof fn lemma_unit_is_recorded(
    v: OperandsView,
    raw: Seq<u8>,
    g: &GlobalBranches,
    u: int,
    kind: BranchType,
    buf_len: usize,
) -> (places: Seq<int>)
    requires
        v.is_paired(),
        raw.len() <= usize::MAX,
        0 <= u < 32 * (raw.len() / 2242),
        is_used(raw, u),
        has_trace_type(g, (u / 32) as usize),
        kind == trace_type(g, (u / 32) as usize),
        kind.spec_has_numbers() ==> is_number_unit(raw, unit_offset(u / 32, u % 32)),
        !kind.spec_has_numbers() ==> is_string_unit(raw, unit_offset(u / 32, u % 32)),
    ensures
        ({
            let r = with_unit(v, raw, (u / 32) as usize, u % 32, kind, buf_len);
            &&& pairs_are_of(v, r, places, raw, g, buf_len)
            &&& rise(places, u, u + 1)
            &&& are_recorded(v, r, raw, g, buf_len)
        }),
{
    let o = first_byte(u);
    let branch = (u / 32) as usize;
    let r = with_unit(v, raw, branch, u % 32, kind, buf_len);
    assert(unit_offset(u / 32, u % 32) == o);
    assert(0 <= o && o + 70 <= raw.len());
    assert(type_by_table(g, branch, kind));
    assert(are_numbers(g, branch) == kind.spec_has_numbers());
    if kind.spec_has_numbers() {
        let w = number_len(raw, o) as int;
        assert(has_width(raw, o, w));
        numbers_keep_their_bytes(raw, o + 6, w);
        numbers_keep_their_bytes(raw, o + 14, w);
        let a = eight_bytes(raw, o + 6);
        let b = eight_bytes(raw, o + 14);
        assert(number_1(raw, o) == a && number_2(raw, o) == b);
        if a != buf_len && b != buf_len {
            if kind.spec_has_const() {
                let x = (a as u64, w as usize);
                assert(is_constant_of(raw, g, u, x, buf_len));
            }
            assert(is_pair_of(raw, g, u, r.pairs[v.pairs.len() as int], buf_len));
            seq![u]
        } else {
            if 1 <= b <= 2 * buf_len && b <= 1048576 && a == buf_len {
                assert(is_len_of(raw, g, u, b as usize, buf_len));
            }
            if 1 <= a <= 2 * buf_len && a <= 1048576 && b == buf_len {
                assert(is_len_of(raw, g, u, a as usize, buf_len));
            }
            Seq::empty()
        }
    } else {
        let s = string_1(raw, o);
        let t = string_2(raw, o);
        if s.len() > 0 {
            assert(is_string_of(raw, g, u, s));
        }
        if t.len() > 0 {
            assert(is_string_of(raw, g, u, t));
        }
        if s.len() > 0 && t.len() > 0 {
            assert(is_pair_of(raw, g, u, r.pairs[v.pairs.len() as int], buf_len));
            seq![u]
        } else {
            Seq::empty()
        }
    }
}

proof fn lemma_recorded_adds_up(
    a: OperandsView,
    b: OperandsView,
    c: OperandsView,
    p: Seq<int>,
    q: Seq<int>,
    lo: int,
    mid: int,
    hi: int,
    raw: Seq<u8>,
    g: &GlobalBranches,
    buf_len: usize,
)
    requires
        a.is_paired(),
        b.is_paired(),
        goes_on(a, b),
        goes_on(b, c),
        are_recorded(a, b, raw, g, buf_len),
        are_recorded(b, c, raw, g, buf_len),
        pairs_are_of(a, b, p, raw, g, buf_len),
        pairs_are_of(b, c, q, raw, g, buf_len),
        rise(p, lo, mid),
        rise(q, mid, hi),
        lo <= mid <= hi,
    ensures
        are_recorded(a, c, raw, g, buf_len),
        pairs_are_of(a, c, p + q, raw, g, buf_len),
        rise(p + q, lo, hi),
{
    assert forall|k: int|
        #![trigger c.numbers[k]]
        a.numbers.len() <= k < c.numbers.len() implies was_constant(
            raw,
            g,
            c.numbers[k],
            buf_len,
        ) by {
        if k < b.numbers.len() {
            assert(b.numbers[k] == c.numbers[k]);
        }
    }
    assert forall|k: int|
        #![trigger c.lens[k]]
        a.lens.len() <= k < c.lens.len() implies was_len(
            raw,
            g,
            c.lens[k],
            buf_len,
        ) by {
        if k < b.lens.len() {
            assert(b.lens[k] == c.lens[k]);
        }
    }
    assert forall|k: int|
        #![trigger c.strings[k]]
        a.strings.len() <= k < c.strings.len() implies was_string(raw, g, c.strings[k]) by {
        if k < b.strings.len() {
            assert(b.strings[k] == c.strings[k]);
        }
    }
    let all = p + q;
    assert forall|k: int| #![trigger all[k]] 0 <= k < all.len() implies is_pair_of(
        raw,
        g,
        all[k],
        c.pairs[a.pairs.len() + k],
        buf_len,
    ) && c.branches[a.pairs.len() + k] == all[k] / 32 by {
        let at = a.pairs.len() + k;
        if k < p.len() {
            assert(all[k] == p[k]);
            assert(b.pairs[at] == c.pairs[at] && b.branches[at] == c.branches[at]);
        } else {
            assert(all[k] == q[k - p.len()]);
        }
    }
    assert forall|i: int, j: int| 0 <= i < j < all.len() implies (#[trigger] all[i]) < (
    #[trigger] all[j]) by {
        if j < p.len() {
            assert(all[i] == p[i] && all[j] == p[j]);
        } else if i >= p.len() {
            assert(all[i] == q[i - p.len()] && all[j] == q[j - p.len()]);
        } else {
            assert(all[i] == p[i] && all[j] == q[j - p.len()]);
        }
    }
    assert forall|i: int| 0 <= i < all.len() implies lo <= #[trigger] all[i] < hi by {
        if i < p.len() {
            assert(all[i] == p[i]);
        } else {
            assert(all[i] == q[i - p.len()]);
        }
    }
}

proof fn lemma_nothing_is_recorded(
    v: OperandsView,
    lo: int,
    hi: int,
    raw: Seq<u8>,
    g: &GlobalBranches,
    buf_len: usize,
)
    ensures
        goes_on(v, v),
        are_recorded(v, v, raw, g, buf_len),
        pairs_are_of(v, v, Seq::empty(), raw, g, buf_len),
        rise(Seq::empty(), lo, hi),
{
    lemma_unit_is_kept(v);
}

proof fn lemma_units_are_recorded(
    v: OperandsView,
    raw: Seq<u8>,
    g: &GlobalBranches,
    branch: usize,
    i: int,
    buf_len: usize,
) -> (places: Seq<int>)
    requires
        v.is_paired(),
        raw.len() <= usize::MAX,
        branch < raw.len() / 2242,
        0 <= i <= 32,
        has_trace_type(g, branch),
        units_fit(raw, branch as int, i, trace_type(g, branch).spec_has_numbers()),
        i > 0 ==> is_used(raw, branch * 32 + i - 1),
    ensures
        ({
            let r = v.with_units(raw, branch, i, trace_type(g, branch), buf_len);
            &&& r.is_paired()
            &&& goes_on(v, r)
            &&& pairs_are_of(v, r, places, raw, g, buf_len)
            &&& rise(places, branch * 32 + i, branch * 32 + 32)
            &&& are_recorded(v, r, raw, g, buf_len)
        }),
    decreases 32 - i,
{
    let kind = trace_type(g, branch);
    let u = branch * 32 + i;
    let o = unit_offset(branch as int, i);
    if i >= 32 || match_at(raw, o) == 0 {
        lemma_nothing_is_recorded(v, u, branch * 32 + 32, raw, g, buf_len);
        Seq::empty()
    } else {
        assert(u / 32 == branch && u % 32 == i);
        assert(first_byte(u) == o);
        assert(raw[o + 4] != 0 || raw[o + 5] != 0);
        assert(is_used(raw, u)) by {
            assert forall|x: int|
                #![trigger first_byte(x)]
                u - u % 32 <= x <= u implies raw[first_byte(x) + 4] != 0 || raw[first_byte(x) + 5]
                != 0 by {
                if x < u {
                    assert((u - 1) / 32 == branch && (u - 1) % 32 == i - 1);
                    assert((u - 1) - (u - 1) % 32 <= x <= u - 1);
                }
            }
        }
        let w = with_unit(v, raw, branch, i, kind, buf_len);
        let p = lemma_unit_is_recorded(v, raw, g, u, kind, buf_len);
        lemma_unit_goes_on(v, raw, branch, i, kind, buf_len);
        let q = lemma_units_are_recorded(w, raw, g, branch, i + 1, buf_len);
        let r = w.with_units(raw, branch, i + 1, kind, buf_len);
        assert(v.with_units(raw, branch, i, kind, buf_len) == r);
        lemma_goes_on(v, w, r);
        lemma_recorded_adds_up(v, w, r, p, q, u, u + 1, branch * 32 + 32, raw, g, buf_len);
        p + q
    }
}

proof fn lemma_records_are_recorded(
    v: OperandsView,
    raw: Seq<u8>,
    g: &GlobalBranches,
    n: int,
    buf_len: usize,
) -> (places: Seq<int>)
    requires
        v.is_paired(),
        raw.len() <= usize::MAX,
        trace_fits(raw, g),
        0 <= n <= raw.len() / 2242,
    ensures
        ({
            let r = v.with_records(raw, g, n, buf_len);
            &&& r.is_paired()
            &&& goes_on(v, r)
            &&& pairs_are_of(v, r, places, raw, g, buf_len)
            &&& rise(places, 0, n * 32)
            &&& are_recorded(v, r, raw, g, buf_len)
        }),
    decreases n,
{
    if n == 0 {
        lemma_nothing_is_recorded(v, 0, 0, raw, g, buf_len);
        Seq::empty()
    } else {
        let id = (n - 1) as usize;
        let w = v.with_records(raw, g, n - 1, buf_len);
        let p = lemma_records_are_recorded(v, raw, g, n - 1, buf_len);
        assert(record_fits(raw, g, id));
        if match_at(raw, unit_offset(id as int, 0)) == 0 {
            p
        } else {
            let q = lemma_units_are_recorded(w, raw, g, id, 0, buf_len);
            let r = v.with_records(raw, g, n, buf_len);
            lemma_goes_on(v, w, r);
            lemma_recorded_adds_up(v, w, r, p, q, 0, id * 32, n * 32, raw, g, buf_len);
            p + q
        }
    }
}

/// Nothing is collected but what was recorded: behind what was there, the pairs
/// are those of some units, in the order of these and each once, with their
/// branches; and every constant, length and string comes from a unit that
/// recorded it.
pub proof fn only_what_was_recorded_is_collected(
    v: OperandsView,
    raw: Seq<u8>,
    g: &GlobalBranches,
    buf_len: usize,
) -> (places: Seq<int>)
    requires
        v.is_paired(),
        raw.len() <= usize::MAX,
        trace_fits(raw, g),
    ensures
        ({
            let r = v.with_records(raw, g, raw.len() as int / 2242, buf_len);
            let n = v.pairs.len() as int;
            &&& rise(places, 0, 32 * (raw.len() as int / 2242))
            &&& r.pairs.len() == r.branches.len() == n + places.len()
            &&& forall|k: int|
                #![trigger places[k]]
                0 <= k < places.len() ==> is_pair_of(raw, g, places[k], r.pairs[n + k], buf_len)
                    && r.branches[n + k] == places[k] / 32
            &&& forall|k: int|
                #![trigger r.numbers[k]]
                v.numbers.len() <= k < r.numbers.len() ==> was_constant(
                    raw,
                    g,
                    r.numbers[k],
                    buf_len,
                )
            &&& forall|k: int|
                #![trigger r.lens[k]]
                v.lens.len() <= k < r.lens.len() ==> was_len(
                    raw,
                    g,
                    r.lens[k],
                    buf_len,
                )
            &&& forall|k: int|
                #![trigger r.strings[k]]
                v.strings.len() <= k < r.strings.len() ==> was_string(raw, g, r.strings[k])
        }),
{
    lemma_records_are_recorded(v, raw, g, raw.len() as int / 2242, buf_len)
}

} // verus!
