//! Operands of comparisons that are worth trying in the input.

use crate::branches::tracker::{has_trace_type, trace_type};
use crate::branches::{BranchType, GlobalBranches};
use crate::config::MAX_INPUT_LEN;
use crate::extras::{
    all_wf, dedup_extras, deunicode_extras, ordering_keeps_tokens, prepared, sort_extras, tokens,
    ExtraData,
};
use crate::trace_data::{
    is_number_unit, is_string_unit, low_bytes, match_at, number_1, number_2, number_bytes,
    number_len, read_numbers, read_strings, string_1, string_2, unit_offset, RECORD_SIZE,
    UNIT_SIZE,
};
use vstd::prelude::*;

verus! {

/// Operands of comparisons that are worth trying in the input.
#[derive(Debug)]
pub struct Operands {
    /// Lengths that the input was compared with.
    pub len_vec: Vec<usize>,
    /// Operands that were compared with each other.
    pub direct_copy_pairs: Vec<(Vec<u8>, Vec<u8>)>,
    /// The branch that each pair comes from.
    pub index_to_branch_dict: Vec<usize>,
    /// Constants, with their lengths.
    pub const_numbers: Vec<(u64, usize)>,
    /// Strings.
    pub const_strings: Vec<ExtraData>,
}

/// The model of [`Operands`].
#[verifier::ext_equal]
pub ghost struct OperandsView {
    pub lens: Seq<usize>,
    pub pairs: Seq<(Seq<u8>, Seq<u8>)>,
    pub branches: Seq<usize>,
    pub numbers: Seq<(u64, usize)>,
    pub strings: Seq<Seq<u8>>,
}

/// The bytes of the pairs.
pub open spec fn pair_bytes(pairs: Seq<(Vec<u8>, Vec<u8>)>) -> Seq<(Seq<u8>, Seq<u8>)> {
    Seq::new(pairs.len(), |i: int| (pairs[i].0@, pairs[i].1@))
}

impl View for Operands {
    type V = OperandsView;

    open spec fn view(&self) -> OperandsView {
        OperandsView {
            lens: self.len_vec@,
            pairs: pair_bytes(self.direct_copy_pairs@),
            branches: self.index_to_branch_dict@,
            numbers: self.const_numbers@,
            strings: tokens(self.const_strings@),
        }
    }
}

/// A length that the input could be given.
pub open spec fn is_len(x: u64, buf_len: usize) -> bool {
    1 <= x <= 2 * buf_len && x <= MAX_INPUT_LEN
}

impl OperandsView {
    /// Adds a length.
    pub open spec fn with_len(self, x: u64, buf_len: usize) -> OperandsView {
        if is_len(x, buf_len) {
            OperandsView { lens: self.lens.push(x as usize), ..self }
        } else {
            self
        }
    }

    /// Adds the numbers of the unit at `o`. A number that is compared with
    /// the length of the input is a length; others are operands.
    pub open spec fn with_numbers(
        self,
        raw: Seq<u8>,
        o: int,
        branch: usize,
        is_const: bool,
        buf_len: usize,
    ) -> OperandsView {
        let a = number_1(raw, o);
        let b = number_2(raw, o);
        let n = number_len(raw, o);
        if a == buf_len || b == buf_len {
            let v = if a == buf_len {
                self.with_len(b, buf_len)
            } else {
                self
            };
            if b == buf_len {
                v.with_len(a, buf_len)
            } else {
                v
            }
        } else {
            OperandsView {
                numbers: if is_const {
                    self.numbers.push((a, n as usize))
                } else {
                    self.numbers
                },
                pairs: self.pairs.push((low_bytes(a, n as int), low_bytes(b, n as int))),
                branches: self.branches.push(branch),
                ..self
            }
        }
    }

    /// Adds a string, unless it is empty.
    pub open spec fn with_string(self, s: Seq<u8>) -> OperandsView {
        if s.len() > 0 {
            OperandsView { strings: self.strings.push(s), ..self }
        } else {
            self
        }
    }

    /// Adds the strings of the unit at `o`.
    pub open spec fn with_strings(
        self,
        raw: Seq<u8>,
        o: int,
        branch: usize,
        kind: BranchType,
    ) -> OperandsView {
        let s = string_1(raw, o);
        let t = string_2(raw, o);
        let v = if s.len() > 0 && t.len() > 0 {
            OperandsView {
                pairs: self.pairs.push((s, t)),
                branches: self.branches.push(branch),
                ..self
            }
        } else {
            self
        };
        let w = if kind.spec_keeps_first() {
            v.with_string(s)
        } else {
            v
        };
        if kind.spec_keeps_second() {
            w.with_string(t)
        } else {
            w
        }
    }

    /// Adds the units of a record, from unit `i` to the last that was used.
    pub open spec fn with_units(
        self,
        raw: Seq<u8>,
        branch: usize,
        i: int,
        kind: BranchType,
        buf_len: usize,
    ) -> OperandsView
        decreases 32 - i,
    {
        let o = unit_offset(branch as int, i);
        if i >= 32 || match_at(raw, o) == 0 {
            self
        } else if kind.spec_has_numbers() {
            self.with_numbers(raw, o, branch, kind.spec_has_const(), buf_len).with_units(
                raw,
                branch,
                i + 1,
                kind,
                buf_len,
            )
        } else {
            self.with_strings(raw, o, branch, kind).with_units(raw, branch, i + 1, kind, buf_len)
        }
    }

    /// Adds the records of the first `n` branches.
    pub open spec fn with_records(
        self,
        raw: Seq<u8>,
        g: &GlobalBranches,
        n: int,
        buf_len: usize,
    ) -> OperandsView
        decreases n,
    {
        if n <= 0 {
            self
        } else {
            let v = self.with_records(raw, g, n - 1, buf_len);
            if match_at(raw, unit_offset(n - 1, 0)) == 0 {
                v
            } else {
                v.with_units(
                    raw,
                    (n - 1) as usize,
                    0,
                    trace_type(g, (n - 1) as usize),
                    buf_len,
                )
            }
        }
    }

    /// Every pair has its branch.
    pub open spec fn is_paired(self) -> bool {
        self.pairs.len() == self.branches.len()
    }

    /// The operands of pairs are short and not empty, and the constants fill
    /// one to eight bytes.
    pub open spec fn is_sized(self) -> bool {
        &&& forall|i: int|
            #![trigger self.pairs[i]]
            0 <= i < self.pairs.len() ==> 1 <= self.pairs[i].0.len() <= 32 && 1
                <= self.pairs[i].1.len() <= 32
        &&& forall|i: int|
            #![trigger self.numbers[i]]
            0 <= i < self.numbers.len() ==> 1 <= self.numbers[i].1 <= 8
    }
}

/// The units of a record are sound, from unit `i` to the last that was used;
/// for strings, the one behind it too.
pub open spec fn units_fit(raw: Seq<u8>, branch: int, i: int, has_numbers: bool) -> bool
    decreases 32 - i,
{
    let o = unit_offset(branch, i);
    if i >= 32 {
        true
    } else if has_numbers {
        match_at(raw, o) == 0 || (is_number_unit(raw, o) && units_fit(
            raw,
            branch,
            i + 1,
            has_numbers,
        ))
    } else {
        is_string_unit(raw, o) && (match_at(raw, o) == 0 || units_fit(
            raw,
            branch,
            i + 1,
            has_numbers,
        ))
    }
}

/// The record of branch `id` is sound: nothing is recorded, or the type of
/// the branch is known and its units are sound.
pub open spec fn record_fits(raw: Seq<u8>, g: &GlobalBranches, id: usize) -> bool {
    match_at(raw, unit_offset(id as int, 0)) == 0 || (has_trace_type(g, id) && units_fit(
        raw,
        id as int,
        0,
        trace_type(g, id).spec_has_numbers(),
    ))
}

/// What the trace target recorded is sound.
pub open spec fn trace_fits(raw: Seq<u8>, g: &GlobalBranches) -> bool {
    &&& raw.len() % 2242 == 0
    &&& forall|id: usize| id < raw.len() / 2242 ==> #[trigger] record_fits(raw, g, id)
}

proof fn lemma_offset(len: int, id: int, i: int)
    requires
        len % 2242 == 0,
        0 <= id < len / 2242,
        0 <= i < 32,
    ensures
        0 <= unit_offset(id, i),
        unit_offset(id, i) + 70 <= len,
{
}

fn check_units(raw: &[u8], branch: usize, has_numbers: bool) -> (r: bool)
    requires
        raw@.len() % 2242 == 0,
        branch < raw@.len() / 2242,
    ensures
        r == units_fit(raw@, branch as int, 0, has_numbers),
{
    assert(raw.len() == raw@.len());
    let mut i: usize = 0;
    while i < 32
        invariant
            i <= 32,
            raw@.len() % 2242 == 0,
            raw@.len() <= usize::MAX,
            branch < raw@.len() / 2242,
            units_fit(raw@, branch as int, 0, has_numbers) == units_fit(
                raw@,
                branch as int,
                i as int,
                has_numbers,
            ),
        decreases 32 - i,
    {
        proof {
            lemma_offset(raw@.len() as int, branch as int, i as int);
        }
        let o: usize = branch * RECORD_SIZE + 2 + i * UNIT_SIZE;
        let unit = read_numbers(raw, o);
        if has_numbers {
            if unit.match_num == 0 {
                return true;
            }
            if unit.len != 1 && unit.len != 2 && unit.len != 4 && unit.len != 8 {
                return false;
            }
        } else {
            if raw[o] > 32 || raw[o + 1] > 32 || raw[o + 2] > 32 || raw[o + 3] != 0 {
                return false;
            }
            if unit.match_num == 0 {
                return true;
            }
        }
        i = i + 1;
    }
    true
}

/// Tells whether what the trace target recorded is sound, see [`trace_fits`].
pub fn check_trace(raw: &[u8], global: &GlobalBranches) -> (r: bool)
    ensures
        r == trace_fits(raw@, global),
{
    if raw.len() % RECORD_SIZE != 0 {
        return false;
    }
    let n: usize = raw.len() / RECORD_SIZE;
    let mut id: usize = 0;
    while id < n
        invariant
            id <= n,
            n == raw@.len() / 2242,
            raw@.len() % 2242 == 0,
            raw@.len() <= usize::MAX,
            forall|b: usize| b < id ==> #[trigger] record_fits(raw@, global, b),
        decreases n - id,
    {
        proof {
            lemma_offset(raw@.len() as int, id as int, 0);
        }
        let unit = read_numbers(raw, id * RECORD_SIZE + 2);
        if unit.match_num != 0 {
            match known_type(global, id) {
                Some(kind) => {
                    if !check_units(raw, id, kind.has_numbers()) {
                        assert(!record_fits(raw@, global, id));
                        return false;
                    }
                },
                None => {
                    assert(!record_fits(raw@, global, id));
                    return false;
                },
            }
        }
        id = id + 1;
    }
    true
}

fn known_type(global: &GlobalBranches, id: usize) -> (r: Option<BranchType>)
    ensures
        r == if has_trace_type(global, id) {
            Some(trace_type(global, id))
        } else {
            None
        },
{
    broadcast use vstd::std_specs::hash::group_hash_axioms;

    let trace = &global.trace_map_size_data;
    if id >= trace.real_branch_map_size && id < trace.used_branch_map_size {
        return Some(BranchType::Cmp);
    }
    match global.trace_branch_type_dict.get(&id) {
        Some(t) => Some(*t),
        None => None,
    }
}

impl Operands {
    /// No operands.
    pub fn new() -> (r: Self)
        ensures
            r.wf(),
            r@ == (OperandsView {
                lens: Seq::empty(),
                pairs: Seq::empty(),
                branches: Seq::empty(),
                numbers: Seq::empty(),
                strings: Seq::empty(),
            }),
    {
        let r = Operands {
            len_vec: Vec::new(),
            direct_copy_pairs: Vec::new(),
            index_to_branch_dict: Vec::new(),
            const_numbers: Vec::new(),
            const_strings: Vec::new(),
        };
        assert(r@.pairs =~= Seq::empty());
        assert(r@.strings =~= Seq::empty());
        r
    }

    /// The strings' lengths are right, every pair has its branch, and the
    /// operands have the lengths that a trace gives.
    pub open spec fn wf(&self) -> bool {
        &&& all_wf(self.const_strings@)
        &&& self@.is_paired()
        &&& self@.is_sized()
    }

    fn add_len(&mut self, x: u64, buf_len: usize)
        requires
            old(self).wf(),
        ensures
            final(self).wf(),
            final(self)@ == old(self)@.with_len(x, buf_len),
    {
        if x >= 1 && x <= MAX_INPUT_LEN as u64 && (x as usize) / 2 + (x as usize) % 2 <= buf_len {
            self.len_vec.push(x as usize);
        }
        assert(self@ =~= old(self)@.with_len(x, buf_len));
    }

    fn add_pair(&mut self, a: Vec<u8>, b: Vec<u8>, branch: usize)
        requires
            old(self).wf(),
            1 <= a@.len() <= 32,
            1 <= b@.len() <= 32,
        ensures
            final(self).wf(),
            final(self)@ == (OperandsView {
                pairs: old(self)@.pairs.push((a@, b@)),
                branches: old(self)@.branches.push(branch),
                ..old(self)@
            }),
    {
        self.direct_copy_pairs.push((a, b));
        self.index_to_branch_dict.push(branch);
        assert(self@.pairs =~= old(self)@.pairs.push((a@, b@)));
    }

    fn add_string(&mut self, s: Vec<u8>)
        requires
            old(self).wf(),
        ensures
            final(self).wf(),
            final(self)@ == old(self)@.with_string(s@),
    {
        if s.len() > 0 {
            self.const_strings.push(ExtraData::new(s));
            assert(self@.strings =~= old(self)@.strings.push(s@));
        }
    }

    fn add_numbers(
        &mut self,
        raw: &[u8],
        o: usize,
        branch: usize,
        is_const: bool,
        buf_len: usize,
    )
        requires
            old(self).wf(),
            o + 70 <= raw@.len(),
            is_number_unit(raw@, o as int),
        ensures
            final(self).wf(),
            final(self)@ == old(self)@.with_numbers(
                raw@,
                o as int,
                branch,
                is_const,
                buf_len,
            ),
    {
        let unit = read_numbers(raw, o);
        let mut is_length = false;
        if unit.op1 == buf_len as u64 {
            self.add_len(unit.op2, buf_len);
            is_length = true;
        }
        if unit.op2 == buf_len as u64 {
            self.add_len(unit.op1, buf_len);
            is_length = true;
        }
        if is_length {
            return;
        }
        if is_const {
            let ghost before = self@;
            self.const_numbers.push((unit.op1, unit.len as usize));
            assert(self@.numbers =~= before.numbers.push((unit.op1, unit.len as usize)));
            assert(self@.pairs == before.pairs);
        }
        self.add_pair(number_bytes(unit.op1, unit.len), number_bytes(unit.op2, unit.len), branch);
    }

    fn add_strings(&mut self, raw: &[u8], o: usize, branch: usize, kind: BranchType)
        requires
            old(self).wf(),
            o + 70 <= raw@.len(),
            is_string_unit(raw@, o as int),
        ensures
            final(self).wf(),
            final(self)@ == old(self)@.with_strings(raw@, o as int, branch, kind),
    {
        let (s, t) = read_strings(raw, o);
        if s.len() > 0 && t.len() > 0 {
            let a: Vec<u8> = s.clone();
            let b: Vec<u8> = t.clone();
            assert(a@ =~= s@);
            assert(b@ =~= t@);
            self.add_pair(a, b, branch);
        }
        if kind.keeps_first() {
            self.add_string(s);
        }
        if kind.keeps_second() {
            self.add_string(t);
        }
    }

    fn add_units(&mut self, raw: &[u8], branch: usize, kind: BranchType, buf_len: usize)
        requires
            old(self).wf(),
            raw@.len() % 2242 == 0,
            branch < raw@.len() / 2242,
            units_fit(raw@, branch as int, 0, kind.spec_has_numbers()),
        ensures
            final(self).wf(),
            final(self)@ == old(self)@.with_units(raw@, branch, 0, kind, buf_len),
    {
        assert(raw.len() == raw@.len());
        let has_numbers = kind.has_numbers();
        let is_const = kind.has_const();
        let ghost target = self@.with_units(raw@, branch, 0, kind, buf_len);
        let mut i: usize = 0;
        while i < 32
            invariant
                i <= 32,
                self.wf(),
                has_numbers == kind.spec_has_numbers(),
                is_const == kind.spec_has_const(),
                raw@.len() % 2242 == 0,
                raw@.len() <= usize::MAX,
                branch < raw@.len() / 2242,
                units_fit(raw@, branch as int, i as int, has_numbers),
                target == old(self)@.with_units(raw@, branch, 0, kind, buf_len),
                target == self@.with_units(raw@, branch, i as int, kind, buf_len),
            decreases 32 - i,
        {
            proof {
                lemma_offset(raw@.len() as int, branch as int, i as int);
            }
            let o: usize = branch * RECORD_SIZE + 2 + i * UNIT_SIZE;
            if read_numbers(raw, o).match_num == 0 {
                return;
            }
            if has_numbers {
                self.add_numbers(raw, o, branch, is_const, buf_len);
            } else {
                self.add_strings(raw, o, branch, kind);
            }
            i = i + 1;
        }
    }

    /// Adds what the trace target recorded.
    pub fn add_records(&mut self, raw: &[u8], global: &GlobalBranches, buf_len: usize)
        requires
            old(self).wf(),
            trace_fits(raw@, global),
        ensures
            final(self).wf(),
            final(self)@ == old(self)@.with_records(
                raw@,
                global,
                raw@.len() as int / 2242,
                buf_len,
            ),
    {
        let n: usize = raw.len() / RECORD_SIZE;
        let ghost v0 = self@;
        let mut id: usize = 0;
        while id < n
            invariant
                id <= n,
                n == raw@.len() / 2242,
                raw@.len() <= usize::MAX,
                trace_fits(raw@, global),
                self.wf(),
                self@ == v0.with_records(raw@, global, id as int, buf_len),
            decreases n - id,
        {
            proof {
                lemma_offset(raw@.len() as int, id as int, 0);
                assert(record_fits(raw@, global, id));
            }
            if read_numbers(raw, id * RECORD_SIZE + 2).match_num != 0 {
                if let Some(kind) = known_type(global, id) {
                    self.add_units(raw, id, kind, buf_len);
                }
            }
            id = id + 1;
        }
    }
}

/// `out` holds the lengths of `v` in increasing order, each once.
pub open spec fn is_len_set(v: Seq<usize>, out: Seq<usize>) -> bool {
    &&& forall|i: int, j: int| 0 <= i < j < out.len() ==> out[i] < out[j]
    &&& forall|x: usize| #[trigger] out.contains(x) <==> v.contains(x)
}

/// The order of constants: by value, then by length.
pub open spec fn number_less(a: (u64, usize), b: (u64, usize)) -> bool {
    a.0 < b.0 || (a.0 == b.0 && a.1 < b.1)
}

/// `out` holds the constants of `v` in increasing order, each once.
pub open spec fn is_number_set(v: Seq<(u64, usize)>, out: Seq<(u64, usize)>) -> bool {
    &&& forall|i: int, j: int| 0 <= i < j < out.len() ==> number_less(out[i], out[j])
    &&& forall|x: (u64, usize)| #[trigger] out.contains(x) <==> v.contains(x)
}

fn len_set(v: &Vec<usize>) -> (out: Vec<usize>)
    ensures
        is_len_set(v@, out@),
{
    let mut out: Vec<usize> = Vec::new();
    let mut k: usize = 0;
    assert(v@.take(0) =~= Seq::empty());
    while k < v.len()
        invariant
            k <= v@.len(),
            is_len_set(v@.take(k as int), out@),
        decreases v@.len() - k,
    {
        let x: usize = v[k];
        let ghost before = out@;
        let ghost seen = v@.take(k as int);
        let ghost more = v@.take(k + 1);
        let mut p: usize = out.len();
        while p > 0 && out[p - 1] > x
            invariant
                p <= out@.len(),
                out@ == before,
                forall|i: int| p <= i < out@.len() ==> out@[i] > x,
            decreases p,
        {
            p = p - 1;
        }
        let found = p > 0 && out[p - 1] == x;
        if !found {
            out.insert(p, x);
        }
        proof {
            assert(more =~= seen.push(x));
            assert forall|y: usize| #[trigger] out@.contains(y) <==> more.contains(y) by {
                assert(more.contains(y) <==> seen.contains(y) || y == x) by {
                    if seen.contains(y) {
                        let i = choose|i: int| 0 <= i < seen.len() && seen[i] == y;
                        assert(more[i] == y);
                    }
                    assert(more[k as int] == x);
                }
                assert(before.contains(y) <==> seen.contains(y));
                if found {
                    assert(before[p - 1] == x);
                } else {
                    assert(out@ == before.insert(p as int, x));
                    if before.contains(y) {
                        let i = choose|i: int| 0 <= i < before.len() && before[i] == y;
                        if i < p {
                            assert(out@[i] == y);
                        } else {
                            assert(out@[i + 1] == y);
                        }
                    }
                    assert(out@[p as int] == x);
                    if out@.contains(y) && y != x {
                        let i = choose|i: int| 0 <= i < out@.len() && out@[i] == y;
                        if i < p {
                            assert(before[i] == y);
                        } else {
                            assert(before[i - 1] == y);
                        }
                    }
                }
            }
        }
        k = k + 1;
    }
    assert(v@.take(k as int) =~= v@);
    out
}

fn number_set(v: &Vec<(u64, usize)>) -> (out: Vec<(u64, usize)>)
    ensures
        is_number_set(v@, out@),
{
    let mut out: Vec<(u64, usize)> = Vec::new();
    let mut k: usize = 0;
    assert(v@.take(0) =~= Seq::empty());
    while k < v.len()
        invariant
            k <= v@.len(),
            is_number_set(v@.take(k as int), out@),
        decreases v@.len() - k,
    {
        let x: (u64, usize) = v[k];
        let ghost before = out@;
        let ghost seen = v@.take(k as int);
        let ghost more = v@.take(k + 1);
        let mut p: usize = out.len();
        while p > 0 && (out[p - 1].0 > x.0 || (out[p - 1].0 == x.0 && out[p - 1].1 > x.1))
            invariant
                p <= out@.len(),
                out@ == before,
                forall|i: int| p <= i < out@.len() ==> number_less(x, #[trigger] out@[i]),
            decreases p,
        {
            p = p - 1;
        }
        let found = p > 0 && out[p - 1].0 == x.0 && out[p - 1].1 == x.1;
        if !found {
            out.insert(p, x);
        }
        proof {
            assert(more =~= seen.push(x));
            assert forall|y: (u64, usize)| #[trigger] out@.contains(y) <==> more.contains(y) by {
                assert(more.contains(y) <==> seen.contains(y) || y == x) by {
                    if seen.contains(y) {
                        let i = choose|i: int| 0 <= i < seen.len() && seen[i] == y;
                        assert(more[i] == y);
                    }
                    assert(more[k as int] == x);
                }
                assert(before.contains(y) <==> seen.contains(y));
                if found {
                    assert(before[p - 1] == x);
                } else {
                    assert(out@ == before.insert(p as int, x));
                    if before.contains(y) {
                        let i = choose|i: int| 0 <= i < before.len() && before[i] == y;
                        if i < p {
                            assert(out@[i] == y);
                        } else {
                            assert(out@[i + 1] == y);
                        }
                    }
                    assert(out@[p as int] == x);
                    if out@.contains(y) && y != x {
                        let i = choose|i: int| 0 <= i < out@.len() && out@[i] == y;
                        if i < p {
                            assert(before[i] == y);
                        } else {
                            assert(before[i - 1] == y);
                        }
                    }
                }
            }
            if !found && p > 0 {
                assert(number_less(before[p - 1], x));
            }
            assert forall|i: int, j: int| 0 <= i < j < out@.len() implies number_less(
                out@[i],
                out@[j],
            ) by {
                if !found {
                    if i < p && j == p {
                        if i < p - 1 {
                            assert(number_less(before[i], before[p - 1]));
                        }
                    } else if i == p {
                        assert(number_less(x, before[j - 1]));
                    } else if i < p && j < p {
                        assert(number_less(before[i], before[j]));
                    } else if i < p {
                        assert(number_less(before[i], before[j - 1]));
                    } else {
                        assert(number_less(before[i - 1], before[j - 1]));
                    }
                }
            }
        }
        k = k + 1;
    }
    assert(v@.take(k as int) =~= v@);
    out
}

impl Operands {
    /// Puts the lengths, constants and strings in order and drops doubles.
    pub fn tidy(&mut self)
        requires
            old(self).wf(),
        ensures
            final(self).wf(),
            is_len_set(old(self)@.lens, final(self)@.lens),
            is_number_set(old(self)@.numbers, final(self)@.numbers),
            final(self)@.strings == prepared(old(self)@.strings),
            final(self)@.pairs == old(self)@.pairs,
            final(self)@.branches == old(self)@.branches,
    {
        let ghost s = tokens(self.const_strings@);
        sort_extras(&mut self.const_strings);
        proof {
            ordering_keeps_tokens(s);
            assert(tokens(self.const_strings@).len() == self.const_strings@.len());
        }
        deunicode_extras(&mut self.const_strings);
        dedup_extras(&mut self.const_strings);
        self.len_vec = len_set(&self.len_vec);
        let ghost numbers = self.const_numbers@;
        self.const_numbers = number_set(&self.const_numbers);
        proof {
            assert forall|i: int| 0 <= i < self.const_numbers@.len() implies 1 <= (
            #[trigger] self.const_numbers@[i]).1 <= 8 by {
                assert(self.const_numbers@.contains(self.const_numbers@[i]));
                let j = choose|j: int|
                    0 <= j < numbers.len() && numbers[j] == self.const_numbers@[i];
                assert(1 <= old(self)@.numbers[j].1 <= 8);
            }
            if s.len() == 0 {
                assert(s =~= Seq::empty());
                assert(tokens(self.const_strings@) =~= prepared(s));
            }
        }
    }
}

} // verus!
