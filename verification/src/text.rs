//! Scanning of text, character by character.

use vstd::prelude::*;

verus! {

/// What `char::is_alphanumeric` answers for a character beyond ASCII.
pub uninterp spec fn is_unicode_alphanumeric(c: char) -> bool;

/// The letters and digits of ASCII.
pub open spec fn is_ascii_alphanumeric(c: char) -> bool {
    '0' <= c <= '9' || 'A' <= c <= 'Z' || 'a' <= c <= 'z'
}

/// White space, by code points: the control characters from the tab to the
/// carriage return and the next line, the spaces, and the separators of lines
/// and paragraphs.
pub open spec fn is_space(c: char) -> bool {
    let x = c as u32;
    9 <= x <= 13 || x == 0x20 || x == 0x85 || x == 0xa0 || x == 0x1680 || 0x2000 <= x <= 0x200a
        || x == 0x2028 || x == 0x2029 || x == 0x202f || x == 0x205f || x == 0x3000
}

/// Letters and digits.
pub open spec fn is_alphanumeric(c: char) -> bool {
    if (c as u32) < 128 {
        is_ascii_alphanumeric(c)
    } else {
        is_unicode_alphanumeric(c)
    }
}

/// Calls `char::is_whitespace`, which tells whether the character has the
/// property `White_Space` of the Unicode character database. Those are the
/// characters of [`is_space`].
#[verifier::external_body]
pub(crate) fn char_is_space(c: char) -> (r: bool)
    ensures
        r == is_space(c),
{
    c.is_whitespace()
}

/// Calls `char::is_alphanumeric`, which tells whether the character is
/// alphabetic or numeric by the Unicode character database. In ASCII those
/// are the letters and digits; of the others only that the answer depends on
/// the character alone is claimed.
#[verifier::external_body]
pub(crate) fn char_is_alphanumeric(c: char) -> (r: bool)
    ensures
        r == if (c as u32) < 128 {
            is_ascii_alphanumeric(c)
        } else {
            is_unicode_alphanumeric(c)
        },
{
    c.is_alphanumeric()
}

/// The code point of a character.
pub fn code_of(c: char) -> (r: u32)
    ensures
        r as int == c as int,
{
    c as u32
}

/// The classes of characters that are skipped as a run.
#[derive(Clone, Copy, Debug)]
pub enum Class {
    /// White space.
    Space,
    /// Letters, digits and the underscore.
    Word,
    /// White space and the equals sign.
    Assign,
    /// The digits 0 to 9.
    Digit,
    /// Anything but this character.
    Except(char),
    /// Anything but white space.
    Solid,
}

impl Class {
    pub open spec fn holds(self, c: char) -> bool {
        match self {
            Class::Space => is_space(c),
            Class::Word => is_alphanumeric(c) || c == '_',
            Class::Assign => is_space(c) || c == '=',
            Class::Digit => '0' <= c <= '9',
            Class::Except(x) => c != x,
            Class::Solid => !is_space(c),
        }
    }

    pub fn has(&self, c: char) -> (r: bool)
        ensures
            r == self.holds(c),
    {
        match self {
            Class::Space => char_is_space(c),
            Class::Word => char_is_alphanumeric(c) || c == '_',
            Class::Assign => char_is_space(c) || c == '=',
            Class::Digit => '0' <= c && c <= '9',
            Class::Except(x) => c != *x,
            Class::Solid => !char_is_space(c),
        }
    }
}

/// The end of the run of `class` that starts at `i`.
pub open spec fn skip(s: Seq<char>, i: int, class: Class) -> int
    decreases s.len() - i,
{
    if 0 <= i < s.len() && class.holds(s[i]) {
        skip(s, i + 1, class)
    } else {
        i
    }
}

/// The start of the run of `class` that ends before `j`.
pub open spec fn skip_back(s: Seq<char>, j: int, class: Class) -> int
    decreases j,
{
    if 0 < j <= s.len() && class.holds(s[j - 1]) {
        skip_back(s, j - 1, class)
    } else {
        j
    }
}

/// The text without white space at its ends.
pub open spec fn trim(s: Seq<char>) -> Seq<char> {
    let lo = skip(s, 0, Class::Space);
    let hi = skip_back(s, s.len() as int, Class::Space);
    if lo >= hi {
        Seq::empty()
    } else {
        s.subrange(lo, hi)
    }
}

/// A run ends at the first character that is not of its class.
pub proof fn skip_stops(s: Seq<char>, i: int, class: Class)
    requires
        0 <= i <= s.len(),
    ensures
        i <= skip(s, i, class) <= s.len(),
        forall|k: int| i <= k < skip(s, i, class) ==> class.holds(#[trigger] s[k]),
        skip(s, i, class) < s.len() ==> !class.holds(s[skip(s, i, class)]),
    decreases s.len() - i,
{
    if i < s.len() && class.holds(s[i]) {
        skip_stops(s, i + 1, class);
    }
}

/// Finds the end of a run.
pub fn skip_from(s: &[char], i: usize, class: Class) -> (r: usize)
    requires
        i <= s@.len(),
    ensures
        r == skip(s@, i as int, class),
        i <= r <= s@.len(),
{
    let mut k: usize = i;
    while k < s.len() && class.has(s[k])
        invariant
            i <= k <= s@.len(),
            skip(s@, i as int, class) == skip(s@, k as int, class),
        decreases s@.len() - k,
    {
        k = k + 1;
    }
    k
}

/// Finds the start of the run that ends before `j`.
pub fn skip_back_from(s: &[char], j: usize, class: Class) -> (r: usize)
    requires
        j <= s@.len(),
    ensures
        r == skip_back(s@, j as int, class),
        r <= j,
{
    let mut k: usize = j;
    while 0 < k && class.has(s[k - 1])
        invariant
            k <= j <= s@.len(),
            skip_back(s@, j as int, class) == skip_back(s@, k as int, class),
        decreases k,
    {
        k = k - 1;
    }
    k
}

/// The characters of a text.
pub fn chars_of(s: &str) -> (r: Vec<char>)
    ensures
        r@ == s@,
{
    let mut r: Vec<char> = Vec::new();
    for c in it: s.chars()
        invariant
            it.seq() == s@,
            r@ == it.seq().take(it.index() as int),
    {
        assert(it.seq().take(it.index() + 1) =~= it.seq().take(it.index() as int).push(c));
        r.push(c);
    }
    assert(r@ =~= s@);
    r
}

/// A copy of part of a text.
pub fn slice_of(s: &[char], lo: usize, hi: usize) -> (r: Vec<char>)
    requires
        lo <= hi <= s@.len(),
    ensures
        r@ == s@.subrange(lo as int, hi as int),
{
    let mut r: Vec<char> = Vec::new();
    let mut k: usize = lo;
    while k < hi
        invariant
            lo <= k <= hi <= s@.len(),
            r@ == s@.subrange(lo as int, k as int),
        decreases hi - k,
    {
        r.push(s[k]);
        k = k + 1;
        assert(r@ =~= s@.subrange(lo as int, k as int));
    }
    r
}

/// Cuts white space off both ends.
pub fn trimmed(s: &[char]) -> (r: Vec<char>)
    ensures
        r@ == trim(s@),
{
    let lo: usize = skip_from(s, 0, Class::Space);
    let hi: usize = skip_back_from(s, s.len(), Class::Space);
    if lo >= hi {
        Vec::new()
    } else {
        slice_of(s, lo, hi)
    }
}

/// The digits 0 to 9 only, and at least one.
pub open spec fn all_digits(s: Seq<char>) -> bool {
    s.len() > 0 && forall|i: int| 0 <= i < s.len() ==> Class::Digit.holds(#[trigger] s[i])
}

/// The number that digits write in base ten.
pub open spec fn decimal(s: Seq<char>) -> nat
    decreases s.len(),
{
    if s.len() == 0 {
        0
    } else {
        decimal(s.drop_last()) * 10 + (s.last() as nat - '0' as nat) as nat
    }
}

/// The number that a text writes: digits, with or without a plus sign before
/// them. `None` if it is anything else, or more than `max`.
pub open spec fn unsigned(s: Seq<char>, max: nat) -> Option<nat> {
    let t = if s.len() > 0 && s[0] == '+' {
        s.drop_first()
    } else {
        s
    };
    if all_digits(t) && decimal(t) <= max {
        Some(decimal(t))
    } else {
        None
    }
}

/// More digits never write a smaller number.
proof fn lemma_decimal_grows(s: Seq<char>, k: int)
    requires
        0 <= k <= s.len(),
    ensures
        decimal(s.take(k)) <= decimal(s),
    decreases s.len(),
{
    if k == s.len() {
        assert(s.take(k) =~= s);
    } else {
        lemma_decimal_grows(s.drop_last(), k);
        assert(s.drop_last().take(k) =~= s.take(k));
    }
}

/// Reads a number, see [`unsigned`].
pub fn parse_unsigned(s: &[char], max: u64) -> (r: Option<u64>)
    ensures
        match r {
            Some(v) => unsigned(s@, max as nat) == Some(v as nat),
            None => unsigned(s@, max as nat) is None,
        },
{
    let from: usize = if s.len() > 0 && s[0] == '+' {
        1
    } else {
        0
    };
    let ghost t = if s@.len() > 0 && s@[0] == '+' {
        s@.drop_first()
    } else {
        s@
    };
    assert(t =~= s@.subrange(from as int, s@.len() as int));
    if from == s.len() {
        return None;
    }
    let mut v: u64 = 0;
    let mut k: usize = from;
    while k < s.len()
        invariant
            from <= k <= s@.len(),
            t =~= s@.subrange(from as int, s@.len() as int),
            t == if s@.len() > 0 && s@[0] == '+' {
                s@.drop_first()
            } else {
                s@
            },
            v == decimal(t.take(k - from)),
            v <= max,
            forall|i: int| 0 <= i < k - from ==> Class::Digit.holds(#[trigger] t[i]),
        decreases s@.len() - k,
    {
        let c: char = s[k];
        assert(t[k - from] == c);
        if !(Class::Digit).has(c) {
            return None;
        }
        let d: u64 = (c as u32 - '0' as u32) as u64;
        proof {
            assert(t.take(k - from + 1).drop_last() =~= t.take(k - from));
            lemma_decimal_grows(t, k - from + 1);
        }
        if d > max || v > (max - d) / 10 {
            assert(decimal(t.take(k - from + 1)) > max);
            return None;
        }
        v = v * 10 + d;
        k = k + 1;
    }
    assert(t.take(t.len() as int) =~= t);
    Some(v)
}

/// The words of a text from `i` on, as white space parts them: where each
/// begins and ends.
pub open spec fn words(s: Seq<char>, i: int) -> Seq<(int, int)>
    decreases s.len() - i,
    when 0 <= i <= s.len()
    via words_end
{
    let lo = skip(s, i, Class::Space);
    if lo >= s.len() {
        Seq::empty()
    } else {
        let hi = skip(s, lo, Class::Solid);
        seq![(lo, hi)] + words(s, hi)
    }
}

#[via_fn]
proof fn words_end(s: Seq<char>, i: int) {
    skip_stops(s, i, Class::Space);
    let lo = skip(s, i, Class::Space);
    if lo < s.len() {
        skip_stops(s, lo, Class::Solid);
        skip_stops(s, lo + 1, Class::Solid);
    }
}

/// A run that is known from end to end.
pub(crate) proof fn lemma_run(s: Seq<char>, i: int, j: int, class: Class)
    requires
        0 <= i <= j <= s.len(),
        forall|k: int| i <= k < j ==> class.holds(#[trigger] s[k]),
        j < s.len() ==> !class.holds(s[j]),
    ensures
        skip(s, i, class) == j,
    decreases j - i,
{
    if i < j {
        assert(class.holds(s[i]));
        lemma_run(s, i + 1, j, class);
    }
}

/// The next word, where it is known.
pub(crate) proof fn lemma_next_word(s: Seq<char>, i: int, lo: int, hi: int)
    requires
        0 <= i <= lo < hi <= s.len(),
        forall|k: int| i <= k < lo ==> is_space(#[trigger] s[k]),
        forall|k: int| lo <= k < hi ==> !is_space(#[trigger] s[k]),
        hi < s.len() ==> is_space(s[hi]),
    ensures
        words(s, i) == seq![(lo, hi)] + words(s, hi),
{
    assert(!Class::Space.holds(s[lo]));
    lemma_run(s, i, lo, Class::Space);
    lemma_run(s, lo, hi, Class::Solid);
}

/// Behind the last word there is none.
pub(crate) proof fn lemma_no_word(s: Seq<char>)
    ensures
        words(s, s.len() as int) == Seq::<(int, int)>::empty(),
{
}

/// Digits are no white space.
pub proof fn digits_are_solid(s: Seq<char>)
    requires
        all_digits(s),
    ensures
        forall|i: int| 0 <= i < s.len() ==> !is_space(#[trigger] s[i]),
{
    assert forall|i: int| 0 <= i < s.len() implies !is_space(#[trigger] s[i]) by {
        assert(Class::Digit.holds(s[i]));
    }
}

/// The places of `r` as mathematical integers.
pub open spec fn places(r: Seq<(usize, usize)>) -> Seq<(int, int)> {
    Seq::new(r.len(), |i: int| (r[i].0 as int, r[i].1 as int))
}

/// Parts a text into words.
pub fn split_words(s: &[char]) -> (r: Vec<(usize, usize)>)
    ensures
        places(r@) == words(s@, 0),
        forall|i: int| 0 <= i < r@.len() ==> (#[trigger] r@[i]).0 <= r@[i].1 <= s@.len(),
{
    let mut r: Vec<(usize, usize)> = Vec::new();
    let mut i: usize = 0;
    assert(places(r@) + words(s@, 0) =~= words(s@, 0));
    loop
        invariant
            i <= s@.len(),
            places(r@) + words(s@, i as int) =~= words(s@, 0),
            forall|k: int| 0 <= k < r@.len() ==> (#[trigger] r@[k]).0 <= r@[k].1 <= s@.len(),
        decreases s@.len() - i,
    {
        let lo: usize = skip_from(s, i, Class::Space);
        if lo >= s.len() {
            assert(places(r@) =~= words(s@, 0));
            return r;
        }
        let hi: usize = skip_from(s, lo, Class::Solid);
        proof {
            skip_stops(s@, i as int, Class::Space);
            skip_stops(s@, lo as int, Class::Solid);
            skip_stops(s@, lo + 1, Class::Solid);
            let tail = words(s@, hi as int);
            assert(places(r@.push((lo, hi))) =~= places(r@).push((lo as int, hi as int)));
            assert(places(r@).push((lo as int, hi as int)) + tail =~= places(r@) + (seq![
                (lo as int, hi as int),
            ] + tail));
        }
        r.push((lo, hi));
        i = hi;
    }
}

/// `pat` stands at `i`.
pub open spec fn stands_at(s: Seq<char>, pat: Seq<char>, i: int) -> bool {
    0 <= i && i + pat.len() <= s.len() && s.subrange(i, i + pat.len()) == pat
}

/// The first place of `pat` in `s`, from `i` on.
pub open spec fn place_of(s: Seq<char>, pat: Seq<char>, i: int) -> Option<int>
    decreases s.len() - i + 1,
{
    if i > s.len() {
        None
    } else if stands_at(s, pat, i) {
        Some(i)
    } else {
        place_of(s, pat, i + 1)
    }
}

/// The first place, where it is known.
pub(crate) proof fn lemma_first_place(s: Seq<char>, pat: Seq<char>, i: int, j: int)
    requires
        i <= j <= s.len(),
        stands_at(s, pat, j),
        forall|k: int| i <= k < j ==> !stands_at(s, pat, k),
    ensures
        place_of(s, pat, i) == Some(j),
    decreases j - i,
{
    if i < j {
        lemma_first_place(s, pat, i + 1, j);
    }
}

/// Finds the first place of `pat` in `s`, from `from` on.
pub fn find_chars(s: &[char], pat: &[char], from: usize) -> (r: Option<usize>)
    requires
        from <= s@.len(),
    ensures
        match r {
            Some(i) => place_of(s@, pat@, from as int) == Some(i as int) && from <= i && i
                + pat@.len() <= s@.len(),
            None => place_of(s@, pat@, from as int) is None,
        },
{
    assert(s.len() == s@.len());
    assert(pat.len() == pat@.len());
    let mut i: usize = from;
    loop
        invariant
            from <= i <= s@.len() <= usize::MAX,
            pat@.len() <= usize::MAX,
            place_of(s@, pat@, from as int) == place_of(s@, pat@, i as int),
        decreases s@.len() - i,
    {
        if is_text_at(s, pat, i) {
            return Some(i);
        }
        if i == s.len() {
            assert(place_of(s@, pat@, i + 1) is None);
            return None;
        }
        i = i + 1;
    }
}

fn is_text_at(s: &[char], pat: &[char], i: usize) -> (r: bool)
    requires
        i <= s@.len(),
    ensures
        r == stands_at(s@, pat@, i as int),
{
    if s.len() - i < pat.len() {
        return false;
    }
    let ghost there = s@.subrange(i as int, i + pat@.len());
    let mut k: usize = 0;
    while k < pat.len()
        invariant
            k <= pat@.len(),
            i + pat@.len() <= s@.len() <= usize::MAX,
            there == s@.subrange(i as int, i + pat@.len()),
            forall|j: int| 0 <= j < k ==> there[j] == #[trigger] pat@[j],
        decreases pat@.len() - k,
    {
        if s[i + k] != pat[k] {
            assert(there[k as int] != pat@[k as int]);
            return false;
        }
        k = k + 1;
    }
    assert(there =~= pat@);
    true
}

/// The digit that stands for `d`.
pub open spec fn digit_char(d: nat) -> char {
    (48 + d) as char
}

/// `n` in base ten.
pub open spec fn decimal_text(n: nat) -> Seq<char>
    decreases n,
{
    if n < 10 {
        seq![digit_char(n)]
    } else {
        decimal_text(n / 10).push(digit_char(n % 10))
    }
}

/// What is written in base ten reads back as the same number.
pub proof fn numbers_read_back(n: nat)
    ensures
        all_digits(decimal_text(n)),
        decimal(decimal_text(n)) == n,
        unsigned(decimal_text(n), n) == Some(n),
    decreases n,
{
    let s = decimal_text(n);
    if n < 10 {
        assert(s.drop_last() =~= Seq::empty());
        assert(decimal(s.drop_last()) == 0);
    } else {
        numbers_read_back(n / 10);
        assert(s.drop_last() =~= decimal_text(n / 10));
    }
    assert(s[0] != '+');
}

fn digit_text(d: u64) -> (r: &'static str)
    requires
        d < 10,
    ensures
        r@ == seq![digit_char(d as nat)],
{
    proof {
        reveal_strlit("0");
        reveal_strlit("1");
        reveal_strlit("2");
        reveal_strlit("3");
        reveal_strlit("4");
        reveal_strlit("5");
        reveal_strlit("6");
        reveal_strlit("7");
        reveal_strlit("8");
        reveal_strlit("9");
    }
    let r = if d == 0 {
        "0"
    } else if d == 1 {
        "1"
    } else if d == 2 {
        "2"
    } else if d == 3 {
        "3"
    } else if d == 4 {
        "4"
    } else if d == 5 {
        "5"
    } else if d == 6 {
        "6"
    } else if d == 7 {
        "7"
    } else if d == 8 {
        "8"
    } else {
        "9"
    };
    assert(r@ =~= seq![digit_char(d as nat)]);
    r
}

/// Writes `n` in base ten.
pub fn decimal_string(n: u64) -> (r: String)
    ensures
        r@ == decimal_text(n as nat),
    decreases n,
{
    if n < 10 {
        digit_text(n).to_owned()
    } else {
        let mut r = decimal_string(n / 10);
        let ghost before = r@;
        r.append(digit_text(n % 10));
        assert(r@ =~= before.push(digit_char((n % 10) as nat)));
        r
    }
}

/// Digits count tenfold with each further one, and stand for zero to nine.
pub proof fn digits_count_tenfold(s: Seq<char>, c: char)
    requires
        '0' <= c <= '9',
    ensures
        decimal(Seq::empty()) == 0,
        decimal(s.push(c)) == 10 * decimal(s) + (c as int - 48),
        decimal(seq![c]) == c as int - 48,
{
    assert(s.push(c).drop_last() =~= s);
    let one = seq![c];
    assert(one.drop_last() =~= Seq::empty());
    assert(decimal(one.drop_last()) == 0);
}

/// A text of digits, and of nothing else.
pub open spec fn has_digits_only(t: Seq<char>) -> bool {
    t.len() > 0 && forall|i: int| 0 <= i < t.len() ==> '0' <= #[trigger] t[i] <= '9'
}

/// A text is a number if it has digits only, behind a plus or not, and is not
/// too large; the number is that of its digits.
pub proof fn numbers_are_digits(t: Seq<char>, max: nat)
    ensures
        unsigned(seq!['+'] + t, max) == if has_digits_only(t) && decimal(t) <= max {
            Some(decimal(t))
        } else {
            None
        },
        (t.len() == 0 || t[0] != '+') ==> unsigned(t, max) == if has_digits_only(t) && decimal(t)
            <= max {
            Some(decimal(t))
        } else {
            None
        },
{
    let s = seq!['+'] + t;
    assert(s[0] == '+');
    assert(s.drop_first() =~= t);
    assert(all_digits(t) == has_digits_only(t)) by {
        if all_digits(t) {
            assert forall|i: int| 0 <= i < t.len() implies '0' <= #[trigger] t[i] <= '9' by {
                assert(Class::Digit.holds(t[i]));
            }
        }
        if has_digits_only(t) {
            assert forall|i: int| 0 <= i < t.len() implies Class::Digit.holds(#[trigger] t[i]) by {
                assert('0' <= t[i] <= '9');
            }
        }
    }
}

/// Words are the longest runs without white space: each begins and ends at
/// white space or an end of the text, and no other character is left out.
pub proof fn words_are_runs(s: Seq<char>, i: int)
    requires
        0 <= i <= s.len(),
        i == 0 || i == s.len() || is_space(s[i]),
    ensures
        forall|k: int|
            #![trigger words(s, i)[k]]
            0 <= k < words(s, i).len() ==> {
                let (lo, hi) = words(s, i)[k];
                &&& i <= lo < hi <= s.len()
                &&& forall|p: int| lo <= p < hi ==> !is_space(#[trigger] s[p])
                &&& hi < s.len() ==> is_space(s[hi])
                &&& lo > 0 ==> is_space(s[lo - 1])
            },
        forall|p: int|
            i <= p < s.len() && !is_space(#[trigger] s[p]) ==> exists|k: int|
                #![trigger words(s, i)[k]]
                0 <= k < words(s, i).len() && words(s, i)[k].0 <= p < words(s, i)[k].1,
        forall|j: int, k: int|
            0 <= j < k < words(s, i).len() ==> (#[trigger] words(s, i)[j]).1 <= (
            #[trigger] words(s, i)[k]).0,
    decreases s.len() - i,
{
    skip_stops(s, i, Class::Space);
    let lo = skip(s, i, Class::Space);
    let all = words(s, i);
    if lo < s.len() {
        skip_stops(s, lo, Class::Solid);
        let hi = skip(s, lo, Class::Solid);
        assert(hi > lo) by {
            skip_stops(s, lo + 1, Class::Solid);
        }
        words_are_runs(s, hi);
        let rest = words(s, hi);
        assert(all == seq![(lo, hi)] + rest);
        assert(lo > 0 ==> is_space(s[lo - 1])) by {
            if lo > i {
                assert(Class::Space.holds(s[lo - 1]));
            } else if lo > 0 {
                assert(is_space(s[i]));
            }
        }
        assert forall|k: int| #![trigger all[k]] 0 <= k < all.len() implies {
            let (a, b) = all[k];
            &&& i <= a < b <= s.len()
            &&& forall|p: int| a <= p < b ==> !is_space(#[trigger] s[p])
            &&& b < s.len() ==> is_space(s[b])
            &&& a > 0 ==> is_space(s[a - 1])
        } by {
            if k == 0 {
                assert forall|p: int| lo <= p < hi implies !is_space(#[trigger] s[p]) by {
                    assert(Class::Solid.holds(s[p]));
                }
            } else {
                assert(all[k] == rest[k - 1]);
            }
        }
        assert forall|p: int| i <= p < s.len() && !is_space(#[trigger] s[p]) implies exists|k: int|
            #![trigger all[k]]
            0 <= k < all.len() && all[k].0 <= p < all[k].1 by {
            if p < lo {
                assert(Class::Space.holds(s[p]));
            } else if p < hi {
                assert(all[0] == (lo, hi));
            } else {
                let k = choose|k: int|
                    #![trigger rest[k]]
                    0 <= k < rest.len() && rest[k].0 <= p < rest[k].1;
                assert(all[k + 1] == rest[k]);
            }
        }
        assert forall|j: int, k: int| 0 <= j < k < all.len() implies (#[trigger] all[j]).1 <= (
        #[trigger] all[k]).0 by {
            assert(all[k] == rest[k - 1]);
            if j > 0 {
                assert(all[j] == rest[j - 1]);
            }
        }
    } else {
        assert forall|p: int| i <= p < s.len() implies is_space(#[trigger] s[p]) by {
            assert(Class::Space.holds(s[p]));
        }
    }
}

/// A pattern is found at the first place from which its characters follow.
pub proof fn first_places_are_found(s: Seq<char>, pat: Seq<char>, i: int, k: int)
    requires
        0 <= i <= k,
        k + pat.len() <= s.len(),
        forall|j: int| 0 <= j < pat.len() ==> s[k + j] == #[trigger] pat[j],
    ensures
        place_of(s, pat, i) matches Some(p) && i <= p <= k && s.subrange(p, p + pat.len()) == pat,
    decreases k - i,
{
    if i == k {
        assert(s.subrange(k, k + pat.len()) =~= pat);
    } else if !stands_at(s, pat, i) {
        first_places_are_found(s, pat, i + 1, k);
    }
}


/// Cutting white space off leaves what stands between the first and the last
/// character that is none.
pub proof fn white_space_is_cut_off(before: Seq<char>, s: Seq<char>, behind: Seq<char>)
    requires
        forall|i: int| 0 <= i < before.len() ==> is_space(#[trigger] before[i]),
        forall|i: int| 0 <= i < behind.len() ==> is_space(#[trigger] behind[i]),
        s.len() > 0 ==> !is_space(s[0]) && !is_space(s.last()),
    ensures
        trim(before + s + behind) == s,
{
    let all = before + s + behind;
    let n = before.len() as int;
    let m = n + s.len();
    if s.len() > 0 {
        assert(all[n] == s[0]);
        assert(all[m - 1] == s.last());
        assert forall|k: int| 0 <= k < n implies Class::Space.holds(#[trigger] all[k]) by {
            assert(all[k] == before[k]);
        }
        assert forall|k: int| m <= k < all.len() implies Class::Space.holds(#[trigger] all[k]) by {
            assert(all[k] == behind[k - m]);
        }
        lemma_run(all, 0, n, Class::Space);
        lemma_run_back(all, m, all.len() as int, Class::Space);
        assert(all.subrange(n, m) =~= s);
    } else {
        assert forall|k: int| 0 <= k < all.len() implies Class::Space.holds(#[trigger] all[k]) by {
            if k < n {
                assert(all[k] == before[k]);
            } else {
                assert(all[k] == behind[k - n]);
            }
        }
        lemma_run(all, 0, all.len() as int, Class::Space);
        lemma_run_back(all, 0, all.len() as int, Class::Space);
        assert(trim(all) =~= s);
    }
}

proof fn lemma_run_back(s: Seq<char>, i: int, j: int, class: Class)
    requires
        0 <= i <= j <= s.len(),
        forall|k: int| i <= k < j ==> class.holds(#[trigger] s[k]),
        i > 0 ==> !class.holds(s[i - 1]),
    ensures
        skip_back(s, j, class) == i,
    decreases j - i,
{
    if i < j {
        assert(class.holds(s[j - 1]));
        lemma_run_back(s, i, j - 1, class);
    }
}

} // verus!
