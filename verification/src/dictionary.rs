//! What the lines of a dictionary stand for, told by their characters.

use crate::extras::{decode, dict_line, hex_value, value_at, LineView};
use crate::text::{
    all_digits, decimal, lemma_run, skip, skip_back, trim, unsigned, Class,
};
use vstd::prelude::*;

verus! {

/// The character is a hexadecimal digit of the given value, small or capital.
pub open spec fn is_hex(c: char, v: int) -> bool {
    ||| 0 <= v < 10 && c as int == 0x30 + v
    ||| 10 <= v < 16 && (c as int == 0x61 + (v - 10) || c as int == 0x41 + (v - 10))
}

/// What stands behind has its meaning, whatever stands before.
proof fn lemma_decode_from(s: Seq<char>, k: int, i: int)
    requires
        0 <= k <= s.len(),
        0 <= i,
    ensures
        decode(s, k + i) == decode(s.skip(k), i),
    decreases s.len() - k - i,
{
    let t = s.skip(k);
    if k + i < s.len() {
        assert(t[i] == s[k + i]);
        if k + i + 1 < s.len() {
            assert(t[i + 1] == s[k + (i + 1)]);
        }
        if k + i + 3 < s.len() {
            assert(t[i + 2] == s[k + (i + 2)]);
            assert(t[i + 3] == s[k + (i + 3)]);
        }
        lemma_decode_from(s, k, i + 1);
        if k + i + 2 <= s.len() {
            lemma_decode_from(s, k, i + 2);
        }
        if k + i + 4 <= s.len() {
            lemma_decode_from(s, k, i + 4);
        }
    }
}

/// A byte can be written as a backslash, an `x` and two hexadecimal digits,
/// whatever its value. A backslash and a quote are written behind a backslash.
/// Printable characters stand for themselves, and others for nothing; so does
/// any other character with a backslash before it.
pub proof fn characters_stand_for_bytes(h: char, l: char, v: int, w: int, c: char, rest: Seq<char>)
    ensures
        is_hex(h, v) && is_hex(l, w) ==> decode(seq!['\\', 'x', h, l] + rest, 0) == seq![
            (16 * v + w) as u8,
        ] + decode(rest, 0),
        decode(seq!['\\', '\\'] + rest, 0) == seq![0x5cu8] + decode(rest, 0),
        decode(seq!['\\', '"'] + rest, 0) == seq![0x22u8] + decode(rest, 0),
        0x20 <= c as int <= 0x7f && c != '\\' ==> decode(seq![c] + rest, 0) == seq![c as u8]
            + decode(rest, 0),
        (c as int) < 0x20 || 0x80 <= c as int <= 0xff ==> decode(seq![c] + rest, 0) == decode(
            rest,
            0,
        ),
        c != '\\' && c != '"' && c != 'x' ==> decode(seq!['\\', c] + rest, 0) == decode(rest, 0),
{
    let a = seq!['\\', 'x', h, l] + rest;
    assert(a[0] == '\\' && a[1] == 'x' && a[2] == h && a[3] == l);
    assert(a.skip(4) =~= rest);
    lemma_decode_from(a, 4, 0);
    if is_hex(h, v) && is_hex(l, w) {
        assert(hex_value(h) == Some(v));
        assert(hex_value(l) == Some(w));
    }
    let b = seq!['\\', '\\'] + rest;
    assert(b[0] == '\\' && b[1] == '\\');
    assert(b.skip(2) =~= rest);
    lemma_decode_from(b, 2, 0);
    let d = seq!['\\', '"'] + rest;
    assert(d[0] == '\\' && d[1] == '"');
    assert(d.skip(2) =~= rest);
    lemma_decode_from(d, 2, 0);
    let e = seq![c] + rest;
    assert(e[0] == c);
    assert(e.skip(1) =~= rest);
    lemma_decode_from(e, 1, 0);
    let f = seq!['\\', c] + rest;
    assert(f[0] == '\\' && f[1] == c);
    assert(f.skip(2) =~= rest);
    lemma_decode_from(f, 2, 0);
}

/// The text writes byte `i` as a backslash, an `x` and two hexadecimal digits.
pub open spec fn writes_byte(text: Seq<char>, bytes: Seq<u8>, i: int) -> bool {
    &&& text[4 * i] == '\\'
    &&& text[4 * i + 1] == 'x'
    &&& is_hex(text[4 * i + 2], bytes[i] as int / 16)
    &&& is_hex(text[4 * i + 3], bytes[i] as int % 16)
}

/// The text writes each byte so.
pub open spec fn writes(text: Seq<char>, bytes: Seq<u8>) -> bool {
    &&& text.len() == 4 * bytes.len()
    &&& forall|i: int| 0 <= i < bytes.len() ==> #[trigger] writes_byte(text, bytes, i)
}

/// Bytes that are written so are read back, all of them.
pub proof fn bytes_are_read_back(text: Seq<char>, bytes: Seq<u8>)
    requires
        writes(text, bytes),
    ensures
        decode(text, 0) == bytes,
    decreases bytes.len(),
{
    if bytes.len() > 0 {
        let b = bytes[0];
        let rest = text.skip(4);
        let tail = bytes.skip(1);
        assert(writes_byte(text, bytes, 0));
        assert forall|i: int| 0 <= i < tail.len() implies #[trigger] writes_byte(rest, tail, i) by {
            assert(writes_byte(text, bytes, i + 1));
            assert(tail[i] == bytes[i + 1]);
            assert(rest[4 * i] == text[4 * (i + 1)]);
            assert(rest[4 * i + 1] == text[4 * (i + 1) + 1]);
            assert(rest[4 * i + 2] == text[4 * (i + 1) + 2]);
            assert(rest[4 * i + 3] == text[4 * (i + 1) + 3]);
        }
        bytes_are_read_back(rest, tail);
        let (h, l) = (text[2], text[3]);
        assert(text =~= seq!['\\', 'x', h, l] + rest);
        characters_stand_for_bytes(h, l, b as int / 16, b as int % 16, 'a', rest);
        assert(bytes =~= seq![b] + tail);
    }
}

/// The characters of names: letters, digits and the underscore.
pub open spec fn is_name(name: Seq<char>) -> bool {
    forall|i: int|
        0 <= i < name.len() ==> {
            let c = #[trigger] name[i];
            'a' <= c <= 'z' || 'A' <= c <= 'Z' || '0' <= c <= '9' || c == '_'
        }
}

/// What a text between quotes gives: a token of up to 128 bytes.
pub open spec fn token_of(text: Seq<char>) -> LineView {
    if text.len() == 0 {
        LineView::Empty
    } else if decode(text, 0).len() > 128 {
        LineView::TooBig(decode(text, 0).len())
    } else {
        LineView::Token(decode(text, 0))
    }
}

proof fn lemma_ends_stay(s: Seq<char>)
    requires
        s.len() > 0,
        !Class::Space.holds(s[0]),
        !Class::Space.holds(s.last()),
    ensures
        trim(s) == s,
{
    assert(skip(s, 0, Class::Space) == 0);
    assert(skip_back(s, s.len() as int, Class::Space) == s.len());
    assert(s.subrange(0, s.len() as int) =~= s);
}

proof fn lemma_value(t: Seq<char>, i: int, text: Seq<char>)
    requires
        0 <= i <= t.len(),
        t == t.take(i) + seq!['=', '"'] + text,
    ensures
        value_at(t, i) == token_of(text),
{
    let u = t.take(i) + seq!['=', '"'] + text;
    assert(t.len() == i + 2 + text.len());
    assert(u[i] == '=' && u[i + 1] == '"');
    lemma_run(t, i, i + 1, Class::Assign);
    assert(t.subrange(i + 2, t.len() as int) =~= text);
}

/// A line with a name, an equals sign and a text in quotes gives the token that
/// the text stands for. A level behind the name hides it from lower levels.
pub proof fn lines_give_tokens(name: Seq<char>, level: Seq<char>, text: Seq<char>, wanted: u32)
    requires
        is_name(name),
        name.len() > 0,
        all_digits(level),
        decimal(level) <= u32::MAX,
    ensures
        dict_line(name + seq!['=', '"'] + text + seq!['"'], wanted as nat) == token_of(text),
        dict_line(name + seq!['@'] + level + seq!['=', '"'] + text + seq!['"'], wanted as nat)
            == if decimal(level) > wanted {
            LineView::Skipped
        } else {
            token_of(text)
        },
{
    let n = name.len() as int;
    assert forall|i: int| 0 <= i < n implies Class::Word.holds(#[trigger] name[i])
        && !Class::Space.holds(name[i]) && name[i] != '#' by {
        let c = name[i];
        assert((c as u32) < 128);
    }
    assert(name[0] != '#');
    // Without a level.
    let line = name + seq!['=', '"'] + text + seq!['"'];
    let t = name + seq!['=', '"'] + text;
    assert(line[0] == name[0] && line.last() == '"');
    lemma_ends_stay(line);
    assert(line.drop_last() =~= t);
    assert(t[n] == '=');
    assert forall|i: int| 0 <= i < n implies Class::Word.holds(#[trigger] t[i]) by {
        assert(t[i] == name[i]);
    }
    lemma_run(t, 0, n, Class::Word);
    lemma_run(t, n, n, Class::Space);
    assert(t.take(n) =~= name);
    lemma_value(t, n, text);
    // With a level.
    let leveled = name + seq!['@'] + level + seq!['=', '"'] + text + seq!['"'];
    let v = name + seq!['@'] + level + seq!['=', '"'] + text;
    let e = n + 1 + level.len();
    assert(leveled[0] == name[0] && leveled.last() == '"');
    lemma_ends_stay(leveled);
    assert(leveled.drop_last() =~= v);
    assert(v[n] == '@' && v[e] == '=');
    assert forall|i: int| 0 <= i < n implies Class::Word.holds(#[trigger] v[i]) by {
        assert(v[i] == name[i]);
    }
    lemma_run(v, 0, n, Class::Word);
    lemma_run(v, n, n, Class::Space);
    assert forall|i: int| n + 1 <= i < e implies Class::Digit.holds(#[trigger] v[i]) by {
        assert(v[i] == level[i - n - 1]);
        assert(Class::Digit.holds(level[i - n - 1]));
    }
    lemma_run(v, n + 1, e, Class::Digit);
    assert(v.subrange(n + 1, e) =~= level);
    assert(Class::Digit.holds(level[0]));
    assert(unsigned(level, u32::MAX as nat) == Some(decimal(level)));
    assert(v.take(e) =~= name + seq!['@'] + level);
    lemma_value(v, e, text);
}

/// Any bytes can be given in a dictionary, up to 128 of them.
pub proof fn any_token_can_be_given(name: Seq<char>, text: Seq<char>, bytes: Seq<u8>, wanted: u32)
    requires
        is_name(name),
        name.len() > 0,
        0 < bytes.len() <= 128,
        writes(text, bytes),
    ensures
        dict_line(name + seq!['=', '"'] + text + seq!['"'], wanted as nat) == LineView::Token(
            bytes,
        ),
{
    let zero = seq!['0'];
    assert(zero.drop_last() =~= Seq::empty());
    assert(decimal(zero.drop_last()) == 0);
    assert(decimal(zero) == 0);
    lines_give_tokens(name, zero, text, wanted);
    bytes_are_read_back(text, bytes);
}

/// White space around a line makes no difference; blank lines and those that
/// begin with a number sign are skipped; and others have to end in a quote.
pub proof fn lines_are_told_apart(
    before: Seq<char>,
    line: Seq<char>,
    after: Seq<char>,
    wanted: u32,
)
    requires
        forall|i: int| 0 <= i < before.len() ==> before[i] == ' ' || #[trigger] before[i] == '\t',
        forall|i: int| 0 <= i < after.len() ==> after[i] == ' ' || #[trigger] after[i] == '\t',
        line.len() > 0,
        0x20 < line[0] as int <= 0x7f,
        0x20 < line.last() as int <= 0x7f,
    ensures
        dict_line(before + line + after, wanted as nat) == dict_line(line, wanted as nat),
        dict_line(before + after, wanted as nat) == LineView::Skipped,
        line[0] == '#' ==> dict_line(line, wanted as nat) == LineView::Skipped,
        line[0] != '#' && line.last() != '"' ==> dict_line(line, wanted as nat)
            == LineView::Malformed,
{
    let all = before + line + after;
    let (lo, hi) = (before.len() as int, (before.len() + line.len()) as int);
    assert(all[lo] == line[0] && all[hi - 1] == line.last());
    assert forall|i: int| 0 <= i < lo implies Class::Space.holds(#[trigger] all[i]) by {
        assert(all[i] == before[i]);
    }
    lemma_run(all, 0, lo, Class::Space);
    assert forall|i: int| hi <= i < all.len() implies Class::Space.holds(#[trigger] all[i]) by {
        assert(all[i] == after[i - hi]);
    }
    lemma_run_back(all, all.len() as int, hi);
    assert(all.subrange(lo, hi) =~= line);
    lemma_ends_stay(line);
    let blank = before + after;
    assert forall|i: int| 0 <= i < blank.len() implies Class::Space.holds(#[trigger] blank[i]) by {
        if i < lo {
            assert(blank[i] == before[i]);
        } else {
            assert(blank[i] == after[i - lo]);
        }
    }
    lemma_run(blank, 0, blank.len() as int, Class::Space);
    lemma_run_back(blank, blank.len() as int, 0);
}

proof fn lemma_run_back(s: Seq<char>, j: int, i: int)
    requires
        0 <= i <= j <= s.len(),
        forall|k: int| i <= k < j ==> Class::Space.holds(#[trigger] s[k]),
        i > 0 ==> !Class::Space.holds(s[i - 1]),
    ensures
        skip_back(s, j, Class::Space) == i,
    decreases j,
{
    if i < j {
        assert(Class::Space.holds(s[j - 1]));
        lemma_run_back(s, j - 1, i);
    }
}

} // verus!
