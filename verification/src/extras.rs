//! Dictionary tokens: reading them, ordering them, and dropping doubles.

use crate::text::{
    chars_of, code_of, parse_unsigned, skip, skip_from, slice_of, trim, trimmed,
    unsigned, Class,
};
use vstd::prelude::*;

verus! {

/// The longest token that is kept, in bytes.
pub const MAX_DICT_FILE: usize = 128;

/// A dictionary token.
#[derive(Debug, Clone, PartialEq, Eq)]
pub struct ExtraData {
    pub data: Vec<u8>,
    pub len: usize,
}

impl ExtraData {
    /// `len` is the length of the token.
    pub open spec fn wf(&self) -> bool {
        self.len == self.data@.len()
    }

    pub fn new(data: Vec<u8>) -> (r: Self)
        ensures
            r.wf(),
            r.data@ == data@,
    {
        let len: usize = data.len();
        ExtraData { data, len }
    }
}

/// Tokens are ordered by length.
impl PartialOrd for ExtraData {
    fn partial_cmp(&self, other: &Self) -> (r: Option<core::cmp::Ordering>) {
        if self.len < other.len {
            Some(core::cmp::Ordering::Less)
        } else if self.len > other.len {
            Some(core::cmp::Ordering::Greater)
        } else {
            Some(core::cmp::Ordering::Equal)
        }
    }
}

impl vstd::std_specs::cmp::PartialOrdSpecImpl for ExtraData {
    open spec fn obeys_partial_cmp_spec() -> bool {
        true
    }

    open spec fn partial_cmp_spec(&self, other: &Self) -> Option<core::cmp::Ordering> {
        if self.len < other.len {
            Some(core::cmp::Ordering::Less)
        } else if self.len > other.len {
            Some(core::cmp::Ordering::Greater)
        } else {
            Some(core::cmp::Ordering::Equal)
        }
    }
}

/// The tokens' bytes.
pub open spec fn tokens(extras: Seq<ExtraData>) -> Seq<Seq<u8>> {
    Seq::new(extras.len(), |i: int| extras[i].data@)
}

/// All lengths are right.
pub open spec fn all_wf(extras: Seq<ExtraData>) -> bool {
    forall|i: int| 0 <= i < extras.len() ==> (#[trigger] extras[i]).wf()
}

// Dictionary lines.

/// What a line of a dictionary file holds.
#[derive(Debug, Clone)]
pub enum DictLine {
    /// An empty line, a comment, or a token above the wanted level.
    Skipped,
    /// Not a `name="value"` pair.
    Malformed,
    /// A pair with nothing between the quotes.
    Empty,
    /// A token of more than [`MAX_DICT_FILE`] bytes.
    TooBig(usize),
    /// A token.
    Token(Vec<u8>),
}

/// The model of a [`DictLine`].
pub ghost enum LineView {
    Skipped,
    Malformed,
    Empty,
    TooBig(nat),
    Token(Seq<u8>),
}

impl View for DictLine {
    type V = LineView;

    open spec fn view(&self) -> LineView {
        match self {
            DictLine::Skipped => LineView::Skipped,
            DictLine::Malformed => LineView::Malformed,
            DictLine::Empty => LineView::Empty,
            DictLine::TooBig(n) => LineView::TooBig(*n as nat),
            DictLine::Token(data) => LineView::Token(data@),
        }
    }
}

/// The value of a hexadecimal digit.
pub open spec fn hex_value(c: char) -> Option<int> {
    if '0' <= c <= '9' {
        Some(c as int - '0' as int)
    } else if 'a' <= c <= 'f' {
        Some(c as int - 'a' as int + 10)
    } else if 'A' <= c <= 'F' {
        Some(c as int - 'A' as int + 10)
    } else {
        None
    }
}

/// The bytes that the text between the quotes stands for, from character `i`
/// on. A backslash escapes itself and the quote, and `\xNN` is a byte; other
/// escapes and characters that are not printable are left out.
pub open spec fn decode(s: Seq<char>, i: int) -> Seq<u8>
    decreases s.len() - i,
{
    if i < 0 || i >= s.len() {
        Seq::empty()
    } else if s[i] == '\\' {
        if i + 1 >= s.len() {
            Seq::empty()
        } else if s[i + 1] == '\\' {
            seq![92u8] + decode(s, i + 2)
        } else if s[i + 1] == '"' {
            seq![34u8] + decode(s, i + 2)
        } else if s[i + 1] == 'x' {
            if i + 3 >= s.len() {
                Seq::empty()
            } else if hex_value(s[i + 2]) is Some && hex_value(s[i + 3]) is Some {
                seq![(hex_value(s[i + 2])->0 * 16 + hex_value(s[i + 3])->0) as u8] + decode(
                    s,
                    i + 4,
                )
            } else {
                decode(s, i + 4)
            }
        } else {
            decode(s, i + 2)
        }
    } else {
        let byte = s[i] as int % 256;
        if byte < 32 || byte > 127 {
            decode(s, i + 1)
        } else {
            seq![byte as u8] + decode(s, i + 1)
        }
    }
}

/// The level that digits write; zero if there are none or too many.
pub open spec fn level_of(s: Seq<char>) -> nat {
    match unsigned(s, u32::MAX as nat) {
        Some(v) => v,
        None => 0,
    }
}

/// Where the text goes on after an optional `[..]` at `i`.
pub open spec fn after_brackets(t: Seq<char>, i: int) -> int {
    if i < t.len() && t[i] == '[' && skip(t, i + 1, Class::Except(']')) < t.len() {
        skip(t, i + 1, Class::Except(']')) + 1
    } else {
        i
    }
}

/// What follows the name and the level, from `i` on: an equals sign and the
/// opening quote of the token.
pub open spec fn value_at(t: Seq<char>, i: int) -> LineView {
    let g = skip(t, after_brackets(t, i), Class::Assign);
    if !(g < t.len() && t[g] == '"') {
        LineView::Malformed
    } else if g + 1 == t.len() {
        LineView::Empty
    } else {
        let data = decode(t.subrange(g + 1, t.len() as int), 0);
        if data.len() > MAX_DICT_FILE {
            LineView::TooBig(data.len())
        } else {
            LineView::Token(data)
        }
    }
}

/// What a line holds: `name@level [..] = "token"`, where all but the token is
/// optional.
pub open spec fn dict_line(line: Seq<char>, dict_level: nat) -> LineView {
    let s = trim(line);
    if s.len() == 0 || s[0] == '#' {
        LineView::Skipped
    } else if s.last() != '"' {
        LineView::Malformed
    } else {
        let t = s.drop_last();
        let b = skip(t, skip(t, 0, Class::Word), Class::Space);
        if b < t.len() && t[b] == '@' {
            let e = skip(t, b + 1, Class::Digit);
            if level_of(t.subrange(b + 1, e)) > dict_level {
                LineView::Skipped
            } else {
                value_at(t, e)
            }
        } else {
            value_at(t, b)
        }
    }
}

fn hex_digit(c: char) -> (r: Option<u8>)
    ensures
        match r {
            Some(v) => hex_value(c) == Some(v as int) && v < 16,
            None => hex_value(c) is None,
        },
{
    if '0' <= c && c <= '9' {
        Some((c as u32 - '0' as u32) as u8)
    } else if 'a' <= c && c <= 'f' {
        Some((c as u32 - 'a' as u32) as u8 + 10)
    } else if 'A' <= c && c <= 'F' {
        Some((c as u32 - 'A' as u32) as u8 + 10)
    } else {
        None
    }
}

/// Decodes the text between the quotes, see [`decode`].
pub fn decode_token(s: &[char]) -> (r: Vec<u8>)
    ensures
        r@ == decode(s@, 0),
{
    let mut r: Vec<u8> = Vec::new();
    let mut i: usize = 0;
    while i < s.len()
        invariant
            r@ + decode(s@, i as int) =~= decode(s@, 0),
        decreases s@.len() - i,
    {
        let ghost before = r@;
        let ghost from = i as int;
        let c: char = s[i];
        if c == '\\' {
            if i + 1 >= s.len() {
                i = s.len();
            } else if s[i + 1] == '\\' {
                r.push(92);
                i = i + 2;
            } else if s[i + 1] == '"' {
                r.push(34);
                i = i + 2;
            } else if s[i + 1] == 'x' {
                if s.len() - i > 3 {
                    let h1 = hex_digit(s[i + 2]);
                    let h2 = hex_digit(s[i + 3]);
                    if let (Some(a), Some(b)) = (h1, h2) {
                        r.push(a * 16 + b);
                    }
                    i = i + 4;
                } else {
                    i = s.len();
                }
            } else {
                i = i + 2;
            }
        } else {
            let byte: u32 = code_of(c) % 256;
            if byte >= 32 && byte <= 127 {
                r.push(byte as u8);
            }
            i = i + 1;
        }
        assert(before + decode(s@, from) =~= r@ + decode(s@, i as int));
    }
    assert(decode(s@, i as int) =~= Seq::empty());
    r
}

fn parse_value(t: &[char], i: usize) -> (r: DictLine)
    requires
        i <= t@.len(),
    ensures
        r@ == value_at(t@, i as int),
{
    let mut from: usize = i;
    if i < t.len() && t[i] == '[' {
        let e: usize = skip_from(t, i + 1, Class::Except(']'));
        if e < t.len() {
            from = e + 1;
        }
    }
    let g: usize = skip_from(t, from, Class::Assign);
    if !(g < t.len() && t[g] == '"') {
        return DictLine::Malformed;
    }
    if g + 1 == t.len() {
        return DictLine::Empty;
    }
    let body: Vec<char> = slice_of(t, g + 1, t.len());
    let data: Vec<u8> = decode_token(body.as_slice());
    if data.len() > MAX_DICT_FILE {
        DictLine::TooBig(data.len())
    } else {
        DictLine::Token(data)
    }
}

/// Reads one line of a dictionary file.
pub fn parse_dict_line(line: &str, dict_level: u32) -> (r: DictLine)
    ensures
        r@ == dict_line(line@, dict_level as nat),
{
    let all: Vec<char> = chars_of(line);
    let s: Vec<char> = trimmed(all.as_slice());
    if s.len() == 0 || s[0] == '#' {
        return DictLine::Skipped;
    }
    if s[s.len() - 1] != '"' {
        return DictLine::Malformed;
    }
    let t: Vec<char> = slice_of(s.as_slice(), 0, s.len() - 1);
    assert(t@ =~= s@.drop_last());
    let a: usize = skip_from(t.as_slice(), 0, Class::Word);
    let b: usize = skip_from(t.as_slice(), a, Class::Space);
    if b < t.len() && t[b] == '@' {
        let e: usize = skip_from(t.as_slice(), b + 1, Class::Digit);
        let digits: Vec<char> = slice_of(t.as_slice(), b + 1, e);
        let level: u64 = match parse_unsigned(digits.as_slice(), u32::MAX as u64) {
            Some(v) => v,
            None => 0,
        };
        if level > dict_level as u64 {
            DictLine::Skipped
        } else {
            parse_value(t.as_slice(), e)
        }
    } else {
        parse_value(t.as_slice(), b)
    }
}

/// The path and the level of a dictionary argument `path@level`. The level is
/// zero if there is none or it is no number.
pub open spec fn path_and_level(arg: Seq<char>) -> (Seq<char>, nat) {
    let at = skip(arg, 0, Class::Except('@'));
    if at < arg.len() {
        (arg.take(at), level_of(arg.subrange(at + 1, arg.len() as int)))
    } else {
        (arg, 0)
    }
}

/// Splits a dictionary argument, see [`path_and_level`].
pub fn split_level(arg: &str) -> (r: (String, u32))
    ensures
        r.0@ == path_and_level(arg@).0,
        r.1 == path_and_level(arg@).1,
{
    let s: Vec<char> = chars_of(arg);
    let at: usize = skip_from(s.as_slice(), 0, Class::Except('@'));
    let path = arg.substring_char(0, at).to_owned();
    if at < s.len() {
        let digits: Vec<char> = slice_of(s.as_slice(), at + 1, s.len());
        let level: u64 = match parse_unsigned(digits.as_slice(), u32::MAX as u64) {
            Some(v) => v,
            None => 0,
        };
        (path, level as u32)
    } else {
        assert(arg@.take(at as int) =~= arg@);
        (path, 0)
    }
}

// Ordering.

/// Puts `x` behind the tokens of `s` that are no longer than it.
pub open spec fn placed(s: Seq<Seq<u8>>, x: Seq<u8>) -> Seq<Seq<u8>>
    decreases s.len(),
{
    if s.len() == 0 || s.last().len() <= x.len() {
        s.push(x)
    } else {
        placed(s.drop_last(), x).push(s.last())
    }
}

/// The tokens by increasing length; tokens of one length keep their order.
pub open spec fn by_len(s: Seq<Seq<u8>>) -> Seq<Seq<u8>>
    decreases s.len(),
{
    if s.len() == 0 {
        s
    } else {
        placed(by_len(s.drop_last()), s.last())
    }
}

/// No token is longer than one behind it.
pub open spec fn is_by_len(s: Seq<Seq<u8>>) -> bool {
    forall|i: int, j: int| 0 <= i <= j < s.len() ==> s[i].len() <= s[j].len()
}

proof fn lemma_placed(s: Seq<Seq<u8>>, x: Seq<u8>)
    requires
        is_by_len(s),
    ensures
        is_by_len(placed(s, x)),
        placed(s, x).len() == s.len() + 1,
        placed(s, x).to_multiset() == s.to_multiset().insert(x),
        placed(s, x).last().len() == x.len() || (s.len() > 0 && placed(s, x).last() == s.last()),
    decreases s.len(),
{
    broadcast use vstd::seq_lib::group_to_multiset_ensures;

    if s.len() == 0 || s.last().len() <= x.len() {
    } else {
        lemma_placed(s.drop_last(), x);
        let p = placed(s.drop_last(), x);
        assert(s.drop_last().push(s.last()) =~= s);
        assert(s.to_multiset() =~= s.drop_last().to_multiset().insert(s.last()));
        assert(p.push(s.last()).to_multiset() =~= p.to_multiset().insert(s.last()));
        assert forall|i: int, j: int| 0 <= i <= j < p.push(s.last()).len() implies p.push(
            s.last(),
        )[i].len() <= p.push(s.last())[j].len() by {
            if j == p.len() && i < p.len() {
                assert(p[i].len() <= p.last().len());
            }
        }
    }
}

/// Ordering by length drops and adds nothing, and orders.
pub proof fn ordering_keeps_tokens(s: Seq<Seq<u8>>)
    ensures
        is_by_len(by_len(s)),
        by_len(s).len() == s.len(),
        by_len(s).to_multiset() == s.to_multiset(),
    decreases s.len(),
{
    broadcast use vstd::seq_lib::group_to_multiset_ensures;

    if s.len() > 0 {
        ordering_keeps_tokens(s.drop_last());
        lemma_placed(by_len(s.drop_last()), s.last());
        assert(s.drop_last().push(s.last()) =~= s);
    }
}

/// Orders the tokens by length; tokens of one length keep their order.
pub fn sort_extras(extras: &mut Vec<ExtraData>)
    requires
        all_wf(old(extras)@),
    ensures
        all_wf(final(extras)@),
        tokens(final(extras)@) == by_len(tokens(old(extras)@)),
{
    let mut k: usize = 0;
    let ghost s = extras@;
    while k < extras.len()
        invariant
            k <= extras@.len(),
            extras@.len() == s.len(),
            all_wf(extras@),
            tokens(extras@.take(k as int)) =~= by_len(tokens(s.take(k as int))),
            forall|i: int| k <= i < s.len() ==> #[trigger] extras@[i] == s[i],
        decreases extras@.len() - k,
    {
        let ghost e = extras@;
        let x: ExtraData = extras.remove(k);
        let mut j: usize = k;
        let ghost t = extras@;
        let ghost head = tokens(t.take(k as int));
        proof {
            assert(t.take(k as int) =~= e.take(k as int));
            assert(head.take(k as int) =~= head);
            assert(head.skip(k as int) =~= Seq::empty());
        }
        while 0 < j && extras[j - 1].len > x.len
            invariant
                j <= k < s.len(),
                x == s[k as int],
                x.wf(),
                extras@ == t,
                t.len() == s.len() - 1,
                all_wf(t),
                head == tokens(t.take(k as int)),
                placed(head, x.data@) =~= placed(head.take(j as int), x.data@) + head.skip(
                    j as int,
                ),
            decreases j,
        {
            proof {
                let h = head.take(j as int);
                assert(h.last() == t[j - 1].data@);
                assert(h.drop_last() =~= head.take(j - 1));
                assert(placed(head.take(j - 1), x.data@).push(h.last()) + head.skip(j as int)
                    =~= placed(head.take(j - 1), x.data@) + head.skip(j - 1));
            }
            j = j - 1;
        }
        proof {
            let h = head.take(j as int);
            if j > 0 {
                assert(h.last() == t[j - 1].data@);
            }
            assert(placed(h, x.data@) == h.push(x.data@));
            assert(s.take(k + 1).drop_last() =~= s.take(k as int));
            assert(tokens(s.take(k + 1)).drop_last() =~= tokens(s.take(k as int)));
        }
        extras.insert(j, x);
        proof {
            assert(tokens(extras@.take(k + 1)) =~= head.take(j as int).push(x.data@) + head.skip(
                j as int,
            ));
            assert(tokens(s.take(k + 1)).last() == x.data@);
        }
        k = k + 1;
    }
    assert(extras@.take(k as int) =~= extras@);
    assert(s.take(k as int) =~= s);
}

// Tokens that look like wide characters.

/// How many of the bytes at positions `r` modulo `m` are zero.
pub open spec fn zeros(s: Seq<u8>, m: int, r: int) -> nat
    decreases s.len(),
{
    if s.len() == 0 {
        0
    } else {
        zeros(s.drop_last(), m, r) + if (s.len() - 1) % m == r && s.last() == 0 {
            1nat
        } else {
            0nat
        }
    }
}

/// The bytes at positions `r` modulo `m`.
pub open spec fn every(s: Seq<u8>, m: int, r: int) -> Seq<u8>
    decreases s.len(),
{
    if s.len() == 0 {
        s
    } else if (s.len() - 1) % m == r {
        every(s.drop_last(), m, r).push(s.last())
    } else {
        every(s.drop_last(), m, r)
    }
}

/// The narrow forms of a token that looks like text in characters of two or
/// four bytes: at least half of its bytes are zero, on one side. A token that
/// looks like neither, is all zero, or has an unfit length has none.
pub open spec fn narrowed(s: Seq<u8>) -> Seq<Seq<u8>> {
    let len = s.len() as int;
    let half = len / 2;
    let quarter = half / 2;
    let even = zeros(s, 2, 0);
    let odd = zeros(s, 2, 1);
    let third = zeros(s, 4, 2);
    let fourth = zeros(s, 4, 3);
    if len < 6 || len > 64 || len % 2 != 0 || (even < half && odd < half) || even + odd == len {
        Seq::empty()
    } else {
        let pairs = every(
            s,
            2,
            if even < half {
                0
            } else {
                1
            },
        );
        if len % 4 == 0 && len >= 12 && (third == quarter || fourth == quarter) && even + odd
            == quarter * 3 {
            let side = if fourth < quarter {
                3
            } else if third < quarter {
                2
            } else if odd < half {
                1
            } else {
                0int
            };
            seq![every(s, 4, side), pairs]
        } else {
            seq![pairs]
        }
    }
}

/// The narrow forms of all tokens.
pub open spec fn all_narrowed(s: Seq<Seq<u8>>) -> Seq<Seq<u8>>
    decreases s.len(),
{
    if s.len() == 0 {
        s
    } else {
        all_narrowed(s.drop_last()) + narrowed(s.last())
    }
}

fn count_zeros(data: &Vec<u8>, m: usize, r: usize) -> (n: usize)
    requires
        m > 0,
    ensures
        n == zeros(data@, m as int, r as int),
        n <= data@.len(),
{
    let mut n: usize = 0;
    let mut j: usize = 0;
    while j < data.len()
        invariant
            m > 0,
            n <= j <= data@.len(),
            n == zeros(data@.take(j as int), m as int, r as int),
        decreases data@.len() - j,
    {
        assert(data@.take(j + 1).drop_last() =~= data@.take(j as int));
        if j % m == r && data[j] == 0 {
            n = n + 1;
        }
        j = j + 1;
    }
    assert(data@.take(j as int) =~= data@);
    n
}

fn take_every(data: &Vec<u8>, m: usize, r: usize) -> (v: Vec<u8>)
    requires
        m > 0,
    ensures
        v@ == every(data@, m as int, r as int),
{
    let mut v: Vec<u8> = Vec::new();
    let mut j: usize = 0;
    while j < data.len()
        invariant
            m > 0,
            j <= data@.len(),
            v@ == every(data@.take(j as int), m as int, r as int),
        decreases data@.len() - j,
    {
        assert(data@.take(j + 1).drop_last() =~= data@.take(j as int));
        if j % m == r {
            v.push(data[j]);
        }
        j = j + 1;
    }
    assert(data@.take(j as int) =~= data@);
    v
}

/// Appends the narrow forms of a token.
fn push_narrowed(out: &mut Vec<ExtraData>, data: &Vec<u8>)
    requires
        all_wf(old(out)@),
    ensures
        all_wf(final(out)@),
        tokens(final(out)@) == tokens(old(out)@) + narrowed(data@),
{
    let ghost before = tokens(out@);
    let len: usize = data.len();
    if len < 6 || len > 64 || len % 2 != 0 {
        assert(before + narrowed(data@) =~= before);
        return;
    }
    let half: usize = len / 2;
    let quarter: usize = half / 2;
    let z1: usize = count_zeros(data, 2, 0);
    let z2: usize = count_zeros(data, 2, 1);
    let z3: usize = count_zeros(data, 4, 2);
    let z4: usize = count_zeros(data, 4, 3);
    if (z1 < half && z2 < half) || z1 + z2 == len {
        assert(before + narrowed(data@) =~= before);
        return;
    }
    if len % 4 == 0 && len >= 12 && (z3 == quarter || z4 == quarter) && z1 + z2 == quarter * 3 {
        let side: usize = if z4 < quarter {
            3
        } else if z3 < quarter {
            2
        } else if z2 < half {
            1
        } else {
            0
        };
        out.push(ExtraData::new(take_every(data, 4, side)));
        assert(tokens(out@) =~= before.push(every(data@, 4, side as int)));
    }
    let ghost mid = tokens(out@);
    let pair: usize = if z1 < half {
        0
    } else {
        1
    };
    out.push(ExtraData::new(take_every(data, 2, pair)));
    assert(tokens(out@) =~= mid.push(every(data@, 2, pair as int)));
    assert(tokens(out@) =~= before + narrowed(data@));
}

/// Adds the narrow forms of tokens that look like wide characters: programs
/// often turn such text into simple bytes before they look at it. The tokens
/// are then in order of length.
pub fn deunicode_extras(extras: &mut Vec<ExtraData>)
    requires
        all_wf(old(extras)@),
    ensures
        all_wf(final(extras)@),
        tokens(final(extras)@) == if old(extras)@.len() == 0 {
            Seq::empty()
        } else {
            by_len(tokens(old(extras)@) + all_narrowed(tokens(old(extras)@)))
        },
{
    if extras.len() == 0 {
        assert(tokens(extras@) =~= Seq::empty());
        return;
    }
    let orig_cnt: usize = extras.len();
    let ghost s = extras@;
    let mut new_extras: Vec<ExtraData> = Vec::new();
    assert(tokens(new_extras@) =~= Seq::empty());
    assert(tokens(s).take(0) =~= Seq::empty());
    let mut i: usize = 0;
    while i < orig_cnt
        invariant
            i <= orig_cnt,
            orig_cnt == s.len(),
            extras@ == s,
            all_wf(new_extras@),
            tokens(new_extras@) == all_narrowed(tokens(s).take(i as int)),
        decreases orig_cnt - i,
    {
        push_narrowed(&mut new_extras, &extras[i].data);
        proof {
            assert(tokens(s).take(i + 1).drop_last() =~= tokens(s).take(i as int));
        }
        i = i + 1;
    }
    assert(tokens(s).take(i as int) =~= tokens(s));
    let ghost n = new_extras@;
    extras.append(&mut new_extras);
    assert(tokens(extras@) =~= tokens(s) + tokens(n));
    sort_extras(extras);
}

// Doubles.

/// Each token once, where it first stands.
pub open spec fn deduped(s: Seq<Seq<u8>>) -> Seq<Seq<u8>>
    decreases s.len(),
{
    if s.len() == 0 {
        s
    } else {
        let rest = deduped(s.drop_last());
        if rest.contains(s.last()) {
            rest
        } else {
            rest.push(s.last())
        }
    }
}

/// Dropping doubles loses no token, and leaves none twice.
pub proof fn deduping_keeps_tokens(s: Seq<Seq<u8>>)
    ensures
        deduped(s).no_duplicates(),
        forall|x: Seq<u8>| deduped(s).contains(x) <==> s.contains(x),
    decreases s.len(),
{
    if s.len() > 0 {
        deduping_keeps_tokens(s.drop_last());
        let rest = deduped(s.drop_last());
        assert forall|x: Seq<u8>| deduped(s).contains(x) <==> s.contains(x) by {
            if s.contains(x) {
                let i = choose|i: int| 0 <= i < s.len() && s[i] == x;
                if i < s.len() - 1 {
                    assert(s.drop_last()[i] == x);
                    assert(s.drop_last().contains(x));
                    assert(rest.contains(x));
                    let j = choose|j: int| 0 <= j < rest.len() && rest[j] == x;
                    assert(deduped(s)[j] == x);
                } else if !rest.contains(s.last()) {
                    assert(deduped(s)[rest.len() as int] == x);
                }
            }
            if deduped(s).contains(x) {
                let j = choose|j: int| 0 <= j < deduped(s).len() && deduped(s)[j] == x;
                if j < rest.len() {
                    assert(rest[j] == x);
                    assert(s.drop_last().contains(x));
                    let i = choose|i: int|
                        0 <= i < s.drop_last().len() && s.drop_last()[i] == x;
                    assert(s[i] == x);
                } else {
                    assert(s[s.len() - 1] == x);
                }
            }
        }
    }
}

/// Taking a later double out changes nothing.
proof fn lemma_dedup_remove(s: Seq<Seq<u8>>, i: int, j: int)
    requires
        0 <= i < j < s.len(),
        s[i] == s[j],
    ensures
        deduped(s.remove(j)) == deduped(s),
    decreases s.len(),
{
    if j == s.len() - 1 {
        assert(s.remove(j) =~= s.drop_last());
        deduping_keeps_tokens(s.drop_last());
        assert(s.drop_last()[i] == s.last());
        assert(s.drop_last().contains(s.last()));
    } else {
        lemma_dedup_remove(s.drop_last(), i, j);
        assert(s.remove(j).drop_last() =~= s.drop_last().remove(j));
    }
}

/// Without doubles nothing is dropped.
proof fn lemma_dedup_id(s: Seq<Seq<u8>>)
    requires
        s.no_duplicates(),
    ensures
        deduped(s) == s,
    decreases s.len(),
{
    if s.len() > 0 {
        lemma_dedup_id(s.drop_last());
        assert(s.drop_last().push(s.last()) =~= s);
    }
}

fn same_bytes(a: &Vec<u8>, b: &Vec<u8>) -> (r: bool)
    ensures
        r == (a@ == b@),
{
    if a.len() != b.len() {
        return false;
    }
    let mut i: usize = 0;
    while i < a.len()
        invariant
            i <= a@.len() == b@.len(),
            forall|k: int| 0 <= k < i ==> a@[k] == b@[k],
        decreases a@.len() - i,
    {
        if a[i] != b[i] {
            return false;
        }
        i = i + 1;
    }
    assert(a@ =~= b@);
    true
}

/// Keeps each token once, where it first stands.
pub fn dedup_extras(extras: &mut Vec<ExtraData>)
    requires
        all_wf(old(extras)@),
    ensures
        all_wf(final(extras)@),
        tokens(final(extras)@) == deduped(tokens(old(extras)@)),
{
    let ghost s = tokens(extras@);
    let mut i: usize = 0;
    while i < extras.len()
        invariant
            i <= extras@.len(),
            all_wf(extras@),
            deduped(tokens(extras@)) == deduped(s),
            forall|a: int, b: int|
                0 <= a < i && a < b < extras@.len() ==> tokens(extras@)[a] != tokens(extras@)[b],
        decreases extras@.len() - i,
    {
        let ghost n = extras@.len();
        let mut j: usize = i + 1;
        while j < extras.len()
            invariant
                i < j <= extras@.len() <= n,
                all_wf(extras@),
                deduped(tokens(extras@)) == deduped(s),
                forall|a: int, b: int|
                    0 <= a < i && a < b < extras@.len() ==> tokens(extras@)[a]
                        != tokens(extras@)[b],
                forall|b: int|
                    i < b < j ==> tokens(extras@)[i as int] != #[trigger] tokens(extras@)[b],
            decreases extras@.len() - j,
        {
            if extras[i].len == extras[j].len && same_bytes(&extras[i].data, &extras[j].data) {
                let ghost t = tokens(extras@);
                extras.remove(j);
                proof {
                    lemma_dedup_remove(t, i as int, j as int);
                    assert(tokens(extras@) =~= t.remove(j as int));
                }
            } else {
                j = j + 1;
            }
        }
        i = i + 1;
    }
    proof {
        lemma_dedup_id(tokens(extras@));
    }
}

// Loading.

/// What was read for one dictionary argument.
#[derive(Debug)]
pub enum DictSource {
    /// The lines of a dictionary file, and the level asked for.
    Lines(Vec<String>, u32),
    /// The contents of the files of a directory, one token each.
    Files(Vec<Vec<u8>>),
}

/// The tokens of the first `n` lines.
pub open spec fn line_tokens(lines: Seq<String>, level: nat, n: int) -> Seq<Seq<u8>>
    decreases n,
{
    if n <= 0 {
        Seq::empty()
    } else {
        match dict_line(lines[n - 1]@, level) {
            LineView::Token(data) => line_tokens(lines, level, n - 1).push(data),
            _ => line_tokens(lines, level, n - 1),
        }
    }
}

/// The first `n` files that are fit to be tokens: not empty and not too big.
pub open spec fn file_tokens(files: Seq<Vec<u8>>, n: int) -> Seq<Seq<u8>>
    decreases n,
{
    if n <= 0 {
        Seq::empty()
    } else if 0 < files[n - 1]@.len() <= MAX_DICT_FILE {
        file_tokens(files, n - 1).push(files[n - 1]@)
    } else {
        file_tokens(files, n - 1)
    }
}

/// The tokens of the first `n` sources.
pub open spec fn source_tokens(sources: Seq<DictSource>, n: int) -> Seq<Seq<u8>>
    decreases n,
{
    if n <= 0 {
        Seq::empty()
    } else {
        source_tokens(sources, n - 1) + match sources[n - 1] {
            DictSource::Lines(lines, level) => line_tokens(
                lines@,
                level as nat,
                lines@.len() as int,
            ),
            DictSource::Files(files) => file_tokens(files@, files@.len() as int),
        }
    }
}

/// What is made of the tokens that were read: they are ordered by length,
/// narrow forms are added, and doubles dropped.
pub open spec fn prepared(s: Seq<Seq<u8>>) -> Seq<Seq<u8>> {
    let sorted = by_len(s);
    if s.len() == 0 {
        s
    } else {
        deduped(by_len(sorted + all_narrowed(sorted)))
    }
}

/// Adds the tokens of a dictionary file.
pub fn load_extras_file(extras: &mut Vec<ExtraData>, lines: &Vec<String>, dict_level: u32)
    requires
        all_wf(old(extras)@),
    ensures
        all_wf(final(extras)@),
        tokens(final(extras)@) == tokens(old(extras)@) + line_tokens(
            lines@,
            dict_level as nat,
            lines@.len() as int,
        ),
{
    let ghost before = tokens(extras@);
    let mut i: usize = 0;
    while i < lines.len()
        invariant
            i <= lines@.len(),
            all_wf(extras@),
            tokens(extras@) =~= before + line_tokens(lines@, dict_level as nat, i as int),
        decreases lines@.len() - i,
    {
        let ghost e = extras@;
        match parse_dict_line(lines[i].as_str(), dict_level) {
            DictLine::Token(data) => {
                let extra = ExtraData::new(data);
                let ghost d = extra.data@;
                extras.push(extra);
                assert(tokens(extras@) =~= tokens(e).push(d));
            },
            _ => {},
        }
        i = i + 1;
    }
}

fn load_extras_dir(extras: &mut Vec<ExtraData>, files: Vec<Vec<u8>>)
    requires
        all_wf(old(extras)@),
    ensures
        all_wf(final(extras)@),
        tokens(final(extras)@) == tokens(old(extras)@) + file_tokens(
            files@,
            files@.len() as int,
        ),
{
    let ghost before = tokens(extras@);
    let mut i: usize = 0;
    while i < files.len()
        invariant
            i <= files@.len(),
            all_wf(extras@),
            tokens(extras@) =~= before + file_tokens(files@, i as int),
        decreases files@.len() - i,
    {
        if files[i].len() > 0 && files[i].len() <= MAX_DICT_FILE {
            let ghost e = extras@;
            let data: Vec<u8> = files[i].clone();
            assert(data@ =~= files@[i as int]@);
            extras.push(ExtraData::new(data));
            assert(tokens(extras@) =~= tokens(e).push(data@));
        }
        i = i + 1;
    }
}

/// Loads the dictionary tokens from what was read for each argument.
pub fn load_extras(sources: Vec<DictSource>) -> (extras: Vec<ExtraData>)
    ensures
        all_wf(extras@),
        tokens(extras@) == prepared(source_tokens(sources@, sources@.len() as int)),
{
    let mut extras: Vec<ExtraData> = Vec::new();
    let ghost all = sources@;
    let mut rest: Vec<DictSource> = sources;
    let ghost mut done: int = 0;
    while rest.len() > 0
        invariant
            rest@ == all.skip(done),
            0 <= done <= all.len(),
            all_wf(extras@),
            tokens(extras@) =~= source_tokens(all, done),
        decreases rest@.len(),
    {
        let source = rest.remove(0);
        assert(source == all[done]);
        match source {
            DictSource::Lines(lines, level) => {
                load_extras_file(&mut extras, &lines, level);
            },
            DictSource::Files(files) => {
                load_extras_dir(&mut extras, files);
            },
        }
        proof {
            assert(rest@ =~= all.skip(done + 1));
            done = done + 1;
        }
    }
    if extras.len() == 0 {
        return extras;
    }
    let ghost s = tokens(extras@);
    sort_extras(&mut extras);
    proof {
        ordering_keeps_tokens(s);
        assert(tokens(extras@).len() == extras@.len());
    }
    deunicode_extras(&mut extras);
    dedup_extras(&mut extras);
    extras
}

proof fn lemma_deduping_keeps_order(s: Seq<Seq<u8>>)
    requires
        is_by_len(s),
    ensures
        is_by_len(deduped(s)),
    decreases s.len(),
{
    if s.len() > 0 {
        let rest = deduped(s.drop_last());
        lemma_deduping_keeps_order(s.drop_last());
        deduping_keeps_tokens(s.drop_last());
        if !rest.contains(s.last()) {
            let all = s.drop_last();
            assert forall|i: int| 0 <= i < rest.len() implies (#[trigger] rest[i]).len()
                <= s.last().len() by {
                let x = rest[i];
                assert(rest.contains(x));
                assert(all.contains(x));
                let k = choose|k: int| 0 <= k < all.len() && all[k] == x;
                assert(s[k] == x && s[k].len() <= s[s.len() - 1].len());
            }
            assert(deduped(s) =~= rest.push(s.last()));
        }
    }
}

/// Loaded tokens are all different, and in the order of their lengths.
pub proof fn loaded_tokens_differ(s: Seq<Seq<u8>>)
    ensures
        prepared(s).no_duplicates(),
        is_by_len(prepared(s)),
        forall|x: Seq<u8>| s.contains(x) ==> prepared(s).contains(x),
{
    broadcast use vstd::seq_lib::group_to_multiset_ensures;

    if s.len() > 0 {
        let sorted = by_len(s);
        let wide = sorted + all_narrowed(sorted);
        ordering_keeps_tokens(s);
        ordering_keeps_tokens(wide);
        deduping_keeps_tokens(by_len(wide));
        lemma_deduping_keeps_order(by_len(wide));
        assert forall|x: Seq<u8>| s.contains(x) implies prepared(s).contains(x) by {
            assert(s.to_multiset().count(x) > 0);
            assert(sorted.contains(x));
            let i = choose|i: int| 0 <= i < sorted.len() && sorted[i] == x;
            assert(wide[i] == x);
            assert(wide.contains(x));
            assert(wide.to_multiset().count(x) > 0);
            assert(by_len(wide).contains(x));
        }
    }
}

/// How many of the first `n` positions have the rest `r` modulo `m`.
spec fn positions(n: int, m: int, r: int) -> int {
    (n + m - 1 - r) / m
}

proof fn lemma_every(s: Seq<u8>, m: int, r: int)
    requires
        m == 2 || m == 4,
        0 <= r < m,
    ensures
        every(s, m, r).len() == positions(s.len() as int, m, r),
        forall|i: int|
            0 <= i < every(s, m, r).len() ==> #[trigger] every(s, m, r)[i] == s[m * i + r],
    decreases s.len(),
{
    if s.len() > 0 {
        lemma_every(s.drop_last(), m, r);
        let n = s.len() - 1;
        let before = every(s.drop_last(), m, r);
        if n % m == r {
            if m == 2 {
                assert(n == 2 * (n / 2) + r);
            } else {
                assert(n == 4 * (n / 4) + r);
            }
            assert(before.len() == n / m);
            assert(m * (n / m) + r == n);
        } else {
            assert(positions(n, m, r) == positions(n + 1, m, r));
        }
        assert forall|i: int| 0 <= i < every(s, m, r).len() implies #[trigger] every(s, m, r)[i]
            == s[m * i + r] by {
            if i < before.len() {
                assert(before[i] == s.drop_last()[m * i + r]);
                assert(m * i + r < n) by {
                    if m == 2 {
                        assert(i < (n + 1 - r) / 2);
                    } else {
                        assert(i < (n + 3 - r) / 4);
                    }
                }
            }
        }
    }
}

proof fn lemma_zeros(s: Seq<u8>, m: int, r: int)
    requires
        m == 2 || m == 4,
        0 <= r < m,
    ensures
        (forall|i: int| 0 <= i < s.len() && i % m == r ==> #[trigger] s[i] == 0) ==> zeros(s, m, r)
            == positions(s.len() as int, m, r),
        (forall|i: int| 0 <= i < s.len() && i % m == r ==> #[trigger] s[i] != 0) ==> zeros(s, m, r)
            == 0,
    decreases s.len(),
{
    if s.len() > 0 {
        let d = s.drop_last();
        let n = s.len() - 1;
        lemma_zeros(d, m, r);
        if n % m == r {
            if m == 2 {
                assert(n == 2 * (n / 2) + r);
            } else {
                assert(n == 4 * (n / 4) + r);
            }
            assert(positions(n + 1, m, r) == positions(n, m, r) + 1);
        } else {
            assert(positions(n + 1, m, r) == positions(n, m, r));
        }
        if forall|i: int| 0 <= i < s.len() && i % m == r ==> #[trigger] s[i] == 0 {
            assert forall|i: int| 0 <= i < d.len() && i % m == r implies #[trigger] d[i] == 0 by {
                assert(s[i] == d[i]);
            }
            assert(n % m == r ==> s[n] == 0);
        }
        if forall|i: int| 0 <= i < s.len() && i % m == r ==> #[trigger] s[i] != 0 {
            assert forall|i: int| 0 <= i < d.len() && i % m == r implies #[trigger] d[i] != 0 by {
                assert(s[i] == d[i]);
            }
            assert(n % m == r ==> s[n] != 0);
        }
    }
}

proof fn lemma_zeros_of_halves(s: Seq<u8>, r: int)
    requires
        r == 0 || r == 1,
    ensures
        zeros(s, 2, r) == zeros(s, 4, r) + zeros(s, 4, r + 2),
    decreases s.len(),
{
    if s.len() > 0 {
        lemma_zeros_of_halves(s.drop_last(), r);
        let n = s.len() - 1;
        assert(n % 2 == r <==> n % 4 == r || n % 4 == r + 2);
    }
}

/// The counts of zeros in text in characters of four bytes.
proof fn lemma_wide_zeros(text: Seq<u8>, side: int)
    requires
        side == 0 || side == 3,
        forall|i: int| 0 <= i < text.len() ==> #[trigger] text[i] != 0,
    ensures
        ({
            let s = widened(text, 4, side);
            let n = text.len();
            &&& zeros(s, 4, 2) == n
            &&& zeros(s, 4, 3) == if side == 3 {
                0
            } else {
                n
            }
            &&& zeros(s, 2, 0) == if side == 0 {
                n
            } else {
                2 * n
            }
            &&& zeros(s, 2, 1) == if side == 0 {
                2 * n
            } else {
                n
            }
        }),
{
    let s = widened(text, 4, side);
    lemma_zeros(s, 4, 0);
    lemma_zeros(s, 4, 1);
    lemma_zeros(s, 4, 2);
    lemma_zeros(s, 4, 3);
    lemma_zeros_of_halves(s, 0);
    lemma_zeros_of_halves(s, 1);
    assert forall|i: int| 0 <= i < s.len() && i % 4 == side implies #[trigger] s[i] != 0 by {
        assert(s[i] == text[i / 4]);
    }
}

/// The text in characters of `m` bytes, of which the one at `r` is not zero.
pub open spec fn widened(text: Seq<u8>, m: int, r: int) -> Seq<u8> {
    Seq::new(
        (m * text.len()) as nat,
        |i: int|
            if i % m == r {
                text[i / m]
            } else {
                0
            },
    )
}

proof fn lemma_two_wide(text: Seq<u8>, r: int)
    requires
        r == 0 || r == 1,
        3 <= text.len() <= 32,
        forall|i: int| 0 <= i < text.len() ==> #[trigger] text[i] != 0,
    ensures
        narrowed(widened(text, 2, r)) == seq![text],
{
    let n = text.len() as int;
    let s = widened(text, 2, r);
    lemma_zeros(s, 2, 0);
    lemma_zeros(s, 2, 1);
    lemma_every(s, 2, r);
    assert forall|i: int| 0 <= i < s.len() && i % 2 == r implies #[trigger] s[i] != 0 by {
        assert(s[i] == text[i / 2]);
    }
    assert(zeros(s, 2, r) == 0);
    assert(zeros(s, 2, 1 - r) == n);
    let t = every(s, 2, r);
    assert(t.len() == n);
    assert forall|i: int| 0 <= i < n implies t[i] == text[i] by {
        assert(t[i] == s[2 * i + r]);
        assert((2 * i + r) / 2 == i && (2 * i + r) % 2 == r);
    }
    assert(t =~= text);
    assert(n % 2 == 0 ==> 3 * (n / 2) != n);
}

proof fn lemma_four_wide(text: Seq<u8>, side: int)
    requires
        side == 0 || side == 3,
        3 <= text.len() <= 16,
        forall|i: int| 0 <= i < text.len() ==> #[trigger] text[i] != 0,
    ensures
        narrowed(widened(text, 4, side)) == seq![text, widened(text, 2, side / 2)],
{
    let n = text.len() as int;
    let s = widened(text, 4, side);
    let r = side / 2;
    lemma_wide_zeros(text, side);
    lemma_every(s, 4, side);
    lemma_every(s, 2, r);
    let t = every(s, 4, side);
    assert(t.len() == n);
    assert forall|i: int| 0 <= i < n implies t[i] == text[i] by {
        assert(t[i] == s[4 * i + side]);
        assert((4 * i + side) / 4 == i && (4 * i + side) % 4 == side);
    }
    assert(t =~= text);
    let u = every(s, 2, r);
    let w = widened(text, 2, r);
    assert(u.len() == w.len());
    assert forall|i: int| 0 <= i < u.len() implies u[i] == w[i] by {
        assert(u[i] == s[2 * i + r]);
        assert((2 * i + r) % 4 == side <==> i % 2 == r);
        assert((2 * i + r) / 4 == i / 2);
    }
    assert(u =~= w);
}

/// A token of text in wide characters gives the same text in narrow ones, in
/// either byte order: of two bytes each, or of four, where the form with two
/// bytes is given, too. Text that is not wide gives nothing.
pub proof fn wide_tokens_are_narrowed(text: Seq<u8>)
    requires
        forall|i: int| 0 <= i < text.len() ==> #[trigger] text[i] != 0,
    ensures
        3 <= text.len() <= 32 ==> narrowed(widened(text, 2, 0)) == seq![text] && narrowed(
            widened(text, 2, 1),
        ) == seq![text],
        3 <= text.len() <= 16 ==> narrowed(widened(text, 4, 0)) == seq![
            text,
            widened(text, 2, 0),
        ] && narrowed(widened(text, 4, 3)) == seq![text, widened(text, 2, 1)],
        narrowed(text) == Seq::<Seq<u8>>::empty(),
{
    lemma_zeros(text, 2, 0);
    lemma_zeros(text, 2, 1);
    if 3 <= text.len() <= 32 {
        lemma_two_wide(text, 0);
        lemma_two_wide(text, 1);
    }
    if 3 <= text.len() <= 16 {
        lemma_four_wide(text, 0);
        lemma_four_wide(text, 3);
    }
}


/// Tokens are ordered by their lengths alone.
pub proof fn lengths_order_tokens(a: ExtraData, b: ExtraData)
    requires
        a.wf(),
        b.wf(),
    ensures
        vstd::std_specs::cmp::PartialOrdSpec::partial_cmp_spec(&a, &b) == Some(
            core::cmp::Ordering::Less,
        ) <==> a.data@.len() < b.data@.len(),
        vstd::std_specs::cmp::PartialOrdSpec::partial_cmp_spec(&a, &b) == Some(
            core::cmp::Ordering::Equal,
        ) <==> a.data@.len() == b.data@.len(),
{
}

} // verus!
