//! What is loaded of the tokens that were read.

use crate::extras::{
    all_narrowed, by_len, deduped, deduping_keeps_tokens, dict_line, every, file_tokens,
    line_tokens, narrowed, ordering_keeps_tokens, path_and_level, placed, prepared,
    source_tokens, zeros, DictSource, LineView,
};
use crate::text::{
    decimal_text, lemma_run, numbers_are_digits, numbers_read_back, unsigned, Class,
};
use vstd::prelude::*;

verus! {

/// The tokens of length `n`, in their order.
pub open spec fn of_len(s: Seq<Seq<u8>>, n: nat) -> Seq<Seq<u8>>
    decreases s.len(),
{
    if s.len() == 0 {
        s
    } else if s.last().len() == n {
        of_len(s.drop_last(), n).push(s.last())
    } else {
        of_len(s.drop_last(), n)
    }
}

proof fn lemma_placed_of_len(s: Seq<Seq<u8>>, x: Seq<u8>, n: nat)
    ensures
        of_len(placed(s, x), n) == if x.len() == n {
            of_len(s, n).push(x)
        } else {
            of_len(s, n)
        },
    decreases s.len(),
{
    if s.len() == 0 || s.last().len() <= x.len() {
        assert(s.push(x).drop_last() =~= s);
    } else {
        lemma_placed_of_len(s.drop_last(), x, n);
        let p = placed(s.drop_last(), x);
        assert(p.push(s.last()).drop_last() =~= p);
    }
}

/// Ordering by length keeps the order of tokens of one length.
pub proof fn tokens_of_one_length_keep_their_order(s: Seq<Seq<u8>>, n: nat)
    ensures
        of_len(by_len(s), n) == of_len(s, n),
    decreases s.len(),
{
    if s.len() > 0 {
        tokens_of_one_length_keep_their_order(s.drop_last(), n);
        lemma_placed_of_len(by_len(s.drop_last()), s.last(), n);
    }
}

/// Of tokens that are equal the first stays where it is: what comes behind
/// changes nothing in what is kept so far.
pub proof fn first_tokens_stay(s: Seq<Seq<u8>>, t: Seq<Seq<u8>>)
    ensures
        deduped(s).len() <= deduped(s + t).len(),
        deduped(s + t).take(deduped(s).len() as int) == deduped(s),
    decreases t.len(),
{
    if t.len() == 0 {
        assert(s + t =~= s);
        assert(deduped(s).take(deduped(s).len() as int) =~= deduped(s));
    } else {
        first_tokens_stay(s, t.drop_last());
        assert((s + t).drop_last() =~= s + t.drop_last());
        let rest = deduped(s + t.drop_last());
        let n = deduped(s).len() as int;
        assert(rest.push(t.last()).take(n) =~= rest.take(n));
    }
}

/// How many of the first `len` positions are `r` modulo `m`, for a small `m`.
pub open spec fn positions(len: int, m: int, r: int) -> int {
    if m == 2 {
        (len + 1 - r) / 2
    } else {
        (len + 3 - r) / 4
    }
}

proof fn lemma_every(s: Seq<u8>, m: int, r: int)
    requires
        m == 2 || m == 4,
        0 <= r < m,
    ensures
        every(s, m, r).len() == positions(s.len() as int, m, r),
        forall|k: int|
            0 <= k < positions(s.len() as int, m, r) ==> #[trigger] every(s, m, r)[k] == s[m * k
                + r],
        zeros(s, m, r) <= positions(s.len() as int, m, r),
        zeros(s, m, r) == positions(s.len() as int, m, r) <==> forall|i: int|
            0 <= i < s.len() && i % m == r ==> #[trigger] s[i] == 0,
    decreases s.len(),
{
    if s.len() > 0 {
        let t = s.drop_last();
        let last = s.len() - 1;
        lemma_every(t, m, r);
        let n = positions(t.len() as int, m, r);
        if m == 2 {
            assert(last % 2 == r ==> 2 * n + r == last);
        } else {
            assert(last % 4 == r ==> 4 * n + r == last);
        }
        assert forall|k: int| 0 <= k < positions(s.len() as int, m, r) implies #[trigger] every(
            s,
            m,
            r,
        )[k] == s[m * k + r] by {
            if k < n {
                assert(every(t, m, r)[k] == t[m * k + r]);
                assert(m * k + r < last);
            }
        }
        if forall|i: int| 0 <= i < t.len() && i % m == r ==> #[trigger] t[i] == 0 {
            assert forall|i: int|
                0 <= i < s.len() && i % m == r && (last % m == r ==> s.last()
                    == 0) implies #[trigger] s[i] == 0 by {
                if i < last {
                    assert(t[i] == 0);
                }
            }
        }
        if forall|i: int| 0 <= i < s.len() && i % m == r ==> #[trigger] s[i] == 0 {
            assert forall|i: int| 0 <= i < t.len() && i % m == r implies #[trigger] t[i] == 0 by {
                assert(s[i] == 0);
            }
            assert(last % m == r ==> s[last] == 0);
        }
    }
}

/// All bytes at positions `r` modulo `m` are zero.
pub open spec fn is_zero_side(s: Seq<u8>, m: int, r: int) -> bool {
    forall|i: int| 0 <= i < s.len() && i % m == r ==> #[trigger] s[i] == 0
}

/// A token has narrow forms if it is six to 64 bytes long, an even number, and
/// of each two bytes the first is zero, or of each two the second, but not all
/// are. The last of its forms has the other byte of each two. There is one
/// more form at most, of every fourth byte, if the length and the zeros allow.
pub proof fn narrow_forms_take_every_second_byte(s: Seq<u8>, k: int)
    ensures
        ({
            let n = s.len() as int;
            let left = is_zero_side(s, 2, 0);
            let right = is_zero_side(s, 2, 1);
            let is_wide = 6 <= n <= 64 && n % 2 == 0 && left != right;
            let forms = narrowed(s);
            &&& forms.len() == 0 <==> !is_wide
            &&& forms.len() <= 2
            &&& is_wide ==> forms.last().len() == n / 2
            &&& is_wide && 0 <= k < n / 2 ==> forms.last()[k] == s[2 * k + if left {
                1int
            } else {
                0
            }]
            &&& forms.len() == 2 ==> {
                let side = if !is_zero_side(s, 4, 3) {
                    3int
                } else if !is_zero_side(s, 4, 2) {
                    2
                } else if !right {
                    1
                } else {
                    0
                };
                &&& 12 <= n && n % 4 == 0
                &&& is_zero_side(s, 4, 2) || is_zero_side(s, 4, 3)
                &&& forms[0].len() == n / 4
                &&& 0 <= k < n / 4 ==> forms[0][k] == s[4 * k + side]
            }
        }),
{
    lemma_every(s, 2, 0);
    lemma_every(s, 2, 1);
    lemma_every(s, 4, 0);
    lemma_every(s, 4, 1);
    lemma_every(s, 4, 2);
    lemma_every(s, 4, 3);
    let n = s.len() as int;
    if n % 2 == 0 {
        assert(positions(n, 2, 0) == n / 2 && positions(n, 2, 1) == n / 2);
        if n % 4 == 0 {
            assert(positions(n, 4, 0) == n / 4 && positions(n, 4, 1) == n / 4 && positions(n, 4, 2)
                == n / 4 && positions(n, 4, 3) == n / 4);
        }
    }
}

proof fn lemma_all_narrowed(s: Seq<Seq<u8>>, x: Seq<u8>)
    ensures
        all_narrowed(s).contains(x) <==> exists|i: int|
            0 <= i < s.len() && narrowed(#[trigger] s[i]).contains(x),
    decreases s.len(),
{
    if s.len() > 0 {
        let t = s.drop_last();
        let a = all_narrowed(t);
        let b = narrowed(s.last());
        lemma_all_narrowed(t, x);
        if (a + b).contains(x) {
            let j = choose|j: int| 0 <= j < (a + b).len() && (a + b)[j] == x;
            if j < a.len() {
                assert(a[j] == x);
                assert(a.contains(x));
                let i = choose|i: int| 0 <= i < t.len() && narrowed(#[trigger] t[i]).contains(x);
                assert(narrowed(s[i]).contains(x));
            } else {
                assert(b[j - a.len()] == x);
                assert(narrowed(s[s.len() - 1]).contains(x));
            }
        }
        if exists|i: int| 0 <= i < s.len() && narrowed(#[trigger] s[i]).contains(x) {
            let i = choose|i: int| 0 <= i < s.len() && narrowed(#[trigger] s[i]).contains(x);
            if i < t.len() {
                assert(narrowed(t[i]).contains(x));
                let j = choose|j: int| 0 <= j < a.len() && a[j] == x;
                assert((a + b)[j] == x);
            } else {
                let j = choose|j: int| 0 <= j < b.len() && b[j] == x;
                assert((a + b)[a.len() + j] == x);
            }
        }
    }
}

proof fn lemma_by_len_contains(s: Seq<Seq<u8>>, x: Seq<u8>)
    ensures
        by_len(s).contains(x) <==> s.contains(x),
{
    broadcast use vstd::seq_lib::group_to_multiset_ensures;

    ordering_keeps_tokens(s);
    assert(by_len(s).contains(x) <==> by_len(s).to_multiset().count(x) > 0);
    assert(s.contains(x) <==> s.to_multiset().count(x) > 0);
}

/// What is loaded is what was given and the narrow forms of that, and nothing
/// else.
pub proof fn only_tokens_and_narrow_forms_are_loaded(s: Seq<Seq<u8>>, x: Seq<u8>)
    ensures
        prepared(s).contains(x) <==> s.contains(x) || exists|i: int|
            0 <= i < s.len() && narrowed(#[trigger] s[i]).contains(x),
{
    let sorted = by_len(s);
    let more = all_narrowed(sorted);
    ordering_keeps_tokens(s);
    if s.len() > 0 {
        lemma_by_len_contains(s, x);
        lemma_by_len_contains(sorted + more, x);
        deduping_keeps_tokens(by_len(sorted + more));
        lemma_all_narrowed(sorted, x);
        assert((sorted + more).contains(x) <==> sorted.contains(x) || more.contains(x)) by {
            if (sorted + more).contains(x) {
                let j = choose|j: int| 0 <= j < (sorted + more).len() && (sorted + more)[j] == x;
                if j < sorted.len() {
                    assert(sorted[j] == x);
                } else {
                    assert(more[j - sorted.len()] == x);
                }
            }
            if sorted.contains(x) {
                let j = choose|j: int| 0 <= j < sorted.len() && sorted[j] == x;
                assert((sorted + more)[j] == x);
            }
            if more.contains(x) {
                let j = choose|j: int| 0 <= j < more.len() && more[j] == x;
                assert((sorted + more)[sorted.len() + j] == x);
            }
        }
        if exists|i: int| 0 <= i < sorted.len() && narrowed(#[trigger] sorted[i]).contains(x) {
            let i = choose|i: int|
                0 <= i < sorted.len() && narrowed(#[trigger] sorted[i]).contains(x);
            lemma_by_len_contains(s, sorted[i]);
            assert(sorted.contains(sorted[i]));
            let j = choose|j: int| 0 <= j < s.len() && s[j] == sorted[i];
            assert(narrowed(s[j]).contains(x));
        }
        if exists|i: int| 0 <= i < s.len() && narrowed(#[trigger] s[i]).contains(x) {
            let i = choose|i: int| 0 <= i < s.len() && narrowed(#[trigger] s[i]).contains(x);
            lemma_by_len_contains(s, s[i]);
            assert(s.contains(s[i]));
            let j = choose|j: int| 0 <= j < sorted.len() && sorted[j] == s[i];
            assert(narrowed(sorted[j]).contains(x));
        }
    }
}

/// Files give their contents as tokens if they have one to 128 bytes, and lines
/// give the tokens that are read from them.
pub proof fn sources_give_tokens(
    files: Seq<Vec<u8>>,
    lines: Seq<String>,
    level: nat,
    n: int,
    x: Seq<u8>,
)
    requires
        0 <= n <= files.len(),
        n <= lines.len(),
    ensures
        file_tokens(files, n).contains(x) <==> 1 <= x.len() <= 128 && exists|i: int|
            0 <= i < n && (#[trigger] files[i])@ == x,
        line_tokens(lines, level, n).contains(x) <==> exists|i: int|
            0 <= i < n && dict_line((#[trigger] lines[i])@, level) == LineView::Token(x),
    decreases n,
{
    if n > 0 {
        sources_give_tokens(files, lines, level, n - 1, x);
        let a = file_tokens(files, n - 1);
        let b = line_tokens(lines, level, n - 1);
        let f = files[n - 1]@;
        assert(a.push(f).contains(x) <==> a.contains(x) || f == x) by {
            lemma_push_contains(a, f, x);
        }
        if let LineView::Token(d) = dict_line(lines[n - 1]@, level) {
            lemma_push_contains(b, d, x);
        }
        if exists|i: int| 0 <= i < n && (#[trigger] files[i])@ == x {
            let i = choose|i: int| 0 <= i < n && (#[trigger] files[i])@ == x;
            assert(i < n - 1 || f == x);
        }
        if exists|i: int|
            0 <= i < n && dict_line((#[trigger] lines[i])@, level) == LineView::Token(x) {
            let i = choose|i: int|
                0 <= i < n && dict_line((#[trigger] lines[i])@, level) == LineView::Token(x);
            assert(i < n - 1 || i == n - 1);
        }
    }
}

proof fn lemma_push_contains(s: Seq<Seq<u8>>, y: Seq<u8>, x: Seq<u8>)
    ensures
        s.push(y).contains(x) <==> s.contains(x) || y == x,
{
    if s.push(y).contains(x) {
        let j = choose|j: int| 0 <= j < s.push(y).len() && s.push(y)[j] == x;
        if j < s.len() {
            assert(s[j] == x);
        }
    }
    if s.contains(x) {
        let j = choose|j: int| 0 <= j < s.len() && s[j] == x;
        assert(s.push(y)[j] == x);
    }
    if y == x {
        assert(s.push(y)[s.len() as int] == x);
    }
}

/// The tokens of several sources follow one another.
pub proof fn sources_follow_one_another(sources: Seq<DictSource>, n: int)
    requires
        0 <= n < sources.len(),
    ensures
        source_tokens(sources, 0) == Seq::<Seq<u8>>::empty(),
        sources[n] matches DictSource::Lines(lines, level) ==> source_tokens(sources, n + 1)
            == source_tokens(sources, n) + line_tokens(
            lines@,
            level as nat,
            lines@.len() as int,
        ),
        sources[n] matches DictSource::Files(files) ==> source_tokens(sources, n + 1)
            == source_tokens(sources, n) + file_tokens(files@, files@.len() as int),
{
}

/// An argument names a path and, behind the first at sign, a level. A level
/// that is none, or too large, is zero.
pub proof fn arguments_name_levels(path: Seq<char>, level: u32, rest: Seq<char>)
    requires
        !path.contains('@'),
    ensures
        path_and_level(path) == (path, 0nat),
        path_and_level(path + seq!['@'] + decimal_text(level as nat)) == (path, level as nat),
        path_and_level(path + seq!['@'] + rest).0 == path,
        unsigned(rest, u32::MAX as nat) is None ==> path_and_level(path + seq!['@'] + rest).1 == 0,
{
    assert forall|k: int| 0 <= k < path.len() implies #[trigger] path[k] != '@' by {
        assert(path.contains(path[k]));
    }
    lemma_run(path, 0, path.len() as int, Class::Except('@'));
    let d = decimal_text(level as nat);
    numbers_read_back(level as nat);
    let a = path + seq!['@'] + d;
    let b = path + seq!['@'] + rest;
    let n = path.len() as int;
    assert forall|k: int| 0 <= k < n implies #[trigger] a[k] != '@' by {
        assert(a[k] == path[k]);
    }
    assert forall|k: int| 0 <= k < n implies #[trigger] b[k] != '@' by {
        assert(b[k] == path[k]);
    }
    lemma_run(a, 0, n, Class::Except('@'));
    lemma_run(b, 0, n, Class::Except('@'));
    assert(a.take(n) =~= path);
    assert(b.take(n) =~= path);
    assert(a.subrange(n + 1, a.len() as int) =~= d);
    assert(b.subrange(n + 1, b.len() as int) =~= rest);
    numbers_are_digits(d, u32::MAX as nat);
}

} // verus!
