//! Characters, character classes and the line/trim handling of Git's output.
use regex::Regex;
use vstd::prelude::*;

verus! {

broadcast use vstd::string::group_string_axioms;

// ---------------------------------------------------------------------------
// Conversions between `str`/`String` and sequences of characters
// ---------------------------------------------------------------------------

/// The characters of `s`, in order.
pub fn chars_of(s: &str) -> (v: Vec<char>)
    ensures
        v@ == s@,
{
    let mut v: Vec<char> = Vec::new();
    for c in it: s.chars()
        invariant
            it.seq() == s@,
            v@ == it.seq().take(it.index() as int),
    {
        v.push(c);
    }
    v
}

/// `String::push`: appends one character at the end of the string.
#[verifier::external_body]
fn push_char(s: &mut String, c: char)
    ensures
        final(s)@ == old(s)@.push(c),
{
    s.push(c);
}

/// A `String` holding the characters of `v`, in order.
pub fn string_from(v: &[char]) -> (s: String)
    ensures
        s@ == v@,
{
    let mut s = String::new();
    let mut i: usize = 0;
    while i < v.len()
        invariant
            i <= v.len(),
            s@ == v@.take(i as int),
        decreases v.len() - i,
    {
        push_char(&mut s, v[i]);
        assert(v@.take(i + 1) =~= v@.take(i as int).push(v@[i as int]));
        i += 1;
    }
    assert(v@.take(v.len() as int) =~= v@);
    s
}

/// Appends the characters of `s` to `v`.
pub fn extend_chars(v: &mut Vec<char>, s: &[char])
    ensures
        final(v)@ == old(v)@ + s@,
{
    let mut i: usize = 0;
    while i < s.len()
        invariant
            i <= s.len(),
            v@ == old(v)@ + s@.take(i as int),
        decreases s.len() - i,
    {
        v.push(s[i]);
        assert(s@.take(i + 1) =~= s@.take(i as int).push(s@[i as int]));
        assert(old(v)@ + s@.take(i + 1) =~= old(v)@ + s@.take(i as int) + seq![s@[i as int]]);
        i += 1;
    }
    assert(s@.take(s.len() as int) =~= s@);
}

/// Whether two character slices hold the same characters.
pub fn same_chars(a: &[char], b: &[char]) -> (r: bool)
    ensures
        r == (a@ == b@),
{
    if a.len() != b.len() {
        return false;
    }
    let mut i: usize = 0;
    while i < a.len()
        invariant
            i <= a.len(),
            a.len() == b.len(),
            forall|j: int| 0 <= j < i ==> a@[j] == b@[j],
        decreases a.len() - i,
    {
        if a[i] != b[i] {
            return false;
        }
        i += 1;
    }
    assert(a@ =~= b@);
    true
}

// ---------------------------------------------------------------------------
// ASCII classes
// ---------------------------------------------------------------------------

/// `[0-9]`.
pub open spec fn ascii_digit(c: char) -> bool {
    '0' <= c && c <= '9'
}

/// `[1-9]`.
pub open spec fn nonzero_ascii_digit(c: char) -> bool {
    '1' <= c && c <= '9'
}

/// `[a-z]`.
pub open spec fn ascii_lowercase(c: char) -> bool {
    'a' <= c && c <= 'z'
}

/// Every character of `s` is in `[a-z]`.
pub open spec fn all_ascii_lowercase(s: Seq<char>) -> bool {
    forall|i: int| 0 <= i < s.len() ==> ascii_lowercase(#[trigger] s[i])
}

/// Whether every character of `s` is in `[a-z]` (what `char::is_ascii_lowercase` tests of each).
pub fn is_all_ascii_lowercase(s: &[char]) -> (r: bool)
    ensures
        r == all_ascii_lowercase(s@),
{
    let mut i: usize = 0;
    while i < s.len()
        invariant
            i <= s.len(),
            forall|j: int| 0 <= j < i ==> ascii_lowercase(#[trigger] s@[j]),
        decreases s.len() - i,
    {
        if !('a' <= s[i] && s[i] <= 'z') {
            return false;
        }
        i += 1;
    }
    true
}

// ---------------------------------------------------------------------------
// White space and trimming
// ---------------------------------------------------------------------------

/// The Unicode `White_Space` property, which `char::is_whitespace` and `str::trim` go by.
pub open spec fn white_space(c: char) -> bool {
    ||| ('\u{9}' <= c && c <= '\u{d}')
    ||| c == ' '
    ||| c == '\u{85}'
    ||| c == '\u{a0}'
    ||| c == '\u{1680}'
    ||| ('\u{2000}' <= c && c <= '\u{200a}')
    ||| c == '\u{2028}'
    ||| c == '\u{2029}'
    ||| c == '\u{202f}'
    ||| c == '\u{205f}'
    ||| c == '\u{3000}'
}

/// Whether `c` has the Unicode `White_Space` property.
pub fn is_white_space(c: char) -> (r: bool)
    ensures
        r == white_space(c),
{
    ('\u{9}' <= c && c <= '\u{d}') || c == ' ' || c == '\u{85}' || c == '\u{a0}' || c
        == '\u{1680}' || ('\u{2000}' <= c && c <= '\u{200a}') || c == '\u{2028}' || c
        == '\u{2029}' || c == '\u{202f}' || c == '\u{205f}' || c == '\u{3000}'
}

/// `s` without its leading white space.
pub open spec fn trim_front(s: Seq<char>) -> Seq<char>
    decreases s.len(),
{
    if s.len() > 0 && white_space(s[0]) {
        trim_front(s.drop_first())
    } else {
        s
    }
}

/// `s` without its trailing white space.
pub open spec fn trim_back(s: Seq<char>) -> Seq<char>
    decreases s.len(),
{
    if s.len() > 0 && white_space(s.last()) {
        trim_back(s.drop_last())
    } else {
        s
    }
}

/// `s` without its leading and trailing white space (what `str::trim` returns).
pub open spec fn trimmed(s: Seq<char>) -> Seq<char> {
    trim_back(trim_front(s))
}

/// The trimmed part of `s[from..to]`, as the bounds of a range of `s`.
fn trim_range(s: &[char], from: usize, to: usize) -> (r: (usize, usize))
    requires
        from <= to <= s.len(),
    ensures
        from <= r.0 <= r.1 <= to,
        s@.subrange(r.0 as int, r.1 as int) == trimmed(s@.subrange(from as int, to as int)),
{
    let mut a = from;
    while a < to && is_white_space(s[a])
        invariant
            from <= a <= to <= s.len(),
            trim_front(s@.subrange(from as int, to as int)) == trim_front(
                s@.subrange(a as int, to as int),
            ),
        decreases to - a,
    {
        assert(s@.subrange(a as int, to as int).drop_first() =~= s@.subrange(
            a + 1,
            to as int,
        ));
        a += 1;
    }
    let mut b = to;
    while b > a && is_white_space(s[b - 1])
        invariant
            from <= a <= b <= to <= s.len(),
            trim_back(s@.subrange(a as int, to as int)) == trim_back(
                s@.subrange(a as int, b as int),
            ),
        decreases b - a,
    {
        assert(s@.subrange(a as int, b as int).drop_last() =~= s@.subrange(
            a as int,
            b - 1,
        ));
        b -= 1;
    }
    (a, b)
}

/// The characters of `s` without leading and trailing white space.
pub fn trim(s: &[char]) -> (r: Vec<char>)
    ensures
        r@ == trimmed(s@),
{
    let (a, b) = trim_range(s, 0, s.len());
    assert(s@.subrange(0, s.len() as int) =~= s@);
    copy_range(s, a, b)
}

/// A copy of `s[from..to]`.
pub fn copy_range(s: &[char], from: usize, to: usize) -> (r: Vec<char>)
    requires
        from <= to <= s.len(),
    ensures
        r@ == s@.subrange(from as int, to as int),
{
    let mut r: Vec<char> = Vec::new();
    let mut i = from;
    while i < to
        invariant
            from <= i <= to <= s.len(),
            r@ == s@.subrange(from as int, i as int),
        decreases to - i,
    {
        r.push(s[i]);
        assert(s@.subrange(from as int, i + 1) =~= s@.subrange(from as int, i as int).push(
            s@[i as int],
        ));
        i += 1;
    }
    r
}

// ---------------------------------------------------------------------------
// Lines
// ---------------------------------------------------------------------------

/// The index of the first `c` in `s`, or the length of `s` when it has none.
pub open spec fn first_index_of(s: Seq<char>, c: char) -> int
    decreases s.len(),
{
    if s.len() == 0 || s[0] == c {
        0
    } else {
        1 + first_index_of(s.drop_first(), c)
    }
}

/// `first_index_of(s, c)` is the length of the longest prefix of `s` free of `c`.
pub proof fn lemma_first_index_of(s: Seq<char>, c: char)
    ensures
        0 <= first_index_of(s, c) <= s.len(),
        first_index_of(s, c) < s.len() ==> s[first_index_of(s, c)] == c,
        forall|j: int| 0 <= j < first_index_of(s, c) ==> s[j] != c,
    decreases s.len(),
{
    if s.len() > 0 && s[0] != c {
        lemma_first_index_of(s.drop_first(), c);
        assert forall|j: int| 0 <= j < first_index_of(s, c) implies s[j] != c by {
            if j > 0 {
                assert(s[j] == s.drop_first()[j - 1]);
            }
        }
    }
}

/// The index `k` is that of the first `c` of `s` (or the length of `s` when `c` is absent).
pub proof fn lemma_first_index_of_is(s: Seq<char>, c: char, k: int)
    requires
        0 <= k <= s.len(),
        k < s.len() ==> s[k] == c,
        forall|j: int| 0 <= j < k ==> s[j] != c,
    ensures
        first_index_of(s, c) == k,
{
    lemma_first_index_of(s, c);
    let f = first_index_of(s, c);
    if f < k {
        assert(s[f] != c);
    }
    if k < f {
        assert(s[k] != c);
    }
}

/// Finds the first `c` in `s[from..to]`: its index, or `to` when there is none.
pub fn find_char(s: &[char], from: usize, to: usize, c: char) -> (r: usize)
    requires
        from <= to <= s.len(),
    ensures
        from <= r <= to,
        r - from == first_index_of(s@.subrange(from as int, to as int), c),
{
    let mut i = from;
    while i < to && s[i] != c
        invariant
            from <= i <= to <= s.len(),
            forall|j: int| from <= j < i ==> s@[j] != c,
        decreases to - i,
    {
        i += 1;
    }
    proof {
        lemma_first_index_of_is(s@.subrange(from as int, to as int), c, i - from);
    }
    i
}

/// The pieces of `s` between its `'\n'` characters, in order. Trimmed, they are the trimmed
/// lines that `str::lines` gives, save for one empty piece after a final `'\n'`.
pub open spec fn split_lines(s: Seq<char>) -> Seq<Seq<char>>
    decreases s.len(),
{
    let k = first_index_of(s, '\n');
    if 0 <= k < s.len() {
        seq![s.subrange(0, k)] + split_lines(s.subrange(k + 1, s.len() as int))
    } else {
        seq![s]
    }
}

/// The trimmed pieces of `s` between its `'\n'` characters, as ranges of `s`.
pub fn trimmed_line_ranges(s: &[char]) -> (r: Vec<(usize, usize)>)
    ensures
        r@.len() == split_lines(s@).len(),
        forall|i: int|
            0 <= i < r@.len() ==> {
                &&& (#[trigger] r@[i]).0 <= r@[i].1 <= s@.len()
                &&& s@.subrange(r@[i].0 as int, r@[i].1 as int) == trimmed(split_lines(s@)[i])
            },
{
    let mut r: Vec<(usize, usize)> = Vec::new();
    let mut start: usize = 0;
    let mut j: usize = 0;
    let ghost done: Seq<Seq<char>> = seq![];
    assert(s@.subrange(0, s@.len() as int) =~= s@);
    while j < s.len()
        invariant
            start <= j <= s.len(),
            forall|k: int| start <= k < j ==> s@[k] != '\n',
            done + split_lines(s@.subrange(start as int, s@.len() as int)) == split_lines(s@),
            r@.len() == done.len(),
            forall|i: int|
                0 <= i < r@.len() ==> {
                    &&& (#[trigger] r@[i]).0 <= r@[i].1 <= s@.len()
                    &&& s@.subrange(r@[i].0 as int, r@[i].1 as int) == trimmed(done[i])
                },
        decreases s.len() - j,
    {
        if s[j] == '\n' {
            let ghost rest = s@.subrange(start as int, s@.len() as int);
            proof {
                lemma_first_index_of_is(rest, '\n', j - start);
                assert(rest.subrange(0, j - start) =~= s@.subrange(start as int, j as int));
                assert(rest.subrange(j - start + 1, rest.len() as int) =~= s@.subrange(
                    j + 1,
                    s@.len() as int,
                ));
            }
            let (a, b) = trim_range(s, start, j);
            r.push((a, b));
            proof {
                let piece = s@.subrange(start as int, j as int);
                assert(done.push(piece) + split_lines(s@.subrange(j + 1, s@.len() as int))
                    =~= done + split_lines(rest));
                done = done.push(piece);
            }
            start = j + 1;
        }
        j += 1;
    }
    let ghost rest = s@.subrange(start as int, s@.len() as int);
    proof {
        lemma_first_index_of_is(rest, '\n', rest.len() as int);
        assert(split_lines(rest) == seq![rest]);
    }
    let (a, b) = trim_range(s, start, s.len());
    r.push((a, b));
    proof {
        assert(done.push(rest) =~= done + split_lines(rest));
        done = done.push(rest);
    }
    r
}

// ---------------------------------------------------------------------------
// The Unicode classes of the `regex` crate
// ---------------------------------------------------------------------------

/// `^\d$`: one character of the `regex` crate's `\d` class.
pub open spec fn digit_pattern() -> Seq<char> {
    seq!['^', '\\', 'd', '$']
}

/// `^\w$`: one character of the `regex` crate's `\w` class.
pub open spec fn word_pattern() -> Seq<char> {
    seq!['^', '\\', 'w', '$']
}

/// Whether the `regex` crate, in its default Unicode mode, matches `text` against `pattern`.
pub uninterp spec fn regex_matches(pattern: Seq<char>, text: Seq<char>) -> bool;

/// Calls `regex::Regex::is_match` on `text`, with `pattern` compiled by `regex::Regex::new` in the
/// crate's default Unicode mode. Only `^\d$` and `^\w$` are passed; both compile.
/// Claimed: the result is `regex_matches(pattern, text)`; and on a one-character ASCII text, `^\d$`
/// matches exactly `[0-9]` and `^\w$` exactly `[0-9A-Za-z_]` (the crate documents `\d` as
/// `\p{Nd}` and `\w` as the Unicode word characters, whose ASCII members are these); and every
/// character that `^\d$` matches, `^\w$` matches too (the crate documents `\w` as
/// `\p{Alphabetic} + \p{M} + \d + \p{Pc} + \p{Join_Control}`).
#[verifier::external_body]
fn regex_is_match(pattern: &str, text: &str) -> (r: bool)
    requires
        pattern@ == digit_pattern() || pattern@ == word_pattern(),
    ensures
        r == regex_matches(pattern@, text@),
        pattern@ == digit_pattern() && text@.len() == 1 && (text@[0] as u32) < 128 ==> (r
            <==> ascii_digit(text@[0])),
        pattern@ == word_pattern() && text@.len() == 1 && (text@[0] as u32) < 128 ==> (r <==> (
        ascii_digit(text@[0]) || ascii_lowercase(text@[0]) || ('A' <= text@[0] && text@[0] <= 'Z')
            || text@[0] == '_')),
        pattern@ == word_pattern() && text@.len() == 1 && regex_matches(digit_pattern(), text@)
            ==> r,
{
    Regex::new(pattern).unwrap().is_match(text)
}

/// The `regex` crate's `\d`: `[0-9]` on ASCII characters, Unicode `Nd` beyond.
pub open spec fn decimal_digit(c: char) -> bool {
    if (c as u32) < 128 {
        ascii_digit(c)
    } else {
        regex_matches(digit_pattern(), seq![c])
    }
}

/// The `regex` crate's `\w`: `[0-9A-Za-z_]` on ASCII characters, Unicode word characters beyond
/// (among them every character of `\d`).
pub open spec fn word_char(c: char) -> bool {
    if (c as u32) < 128 {
        ascii_digit(c) || ascii_lowercase(c) || ('A' <= c && c <= 'Z') || c == '_'
    } else {
        regex_matches(word_pattern(), seq![c]) || regex_matches(digit_pattern(), seq![c])
    }
}

/// Whether `c` is in the `regex` crate's `\d` class.
pub fn is_decimal_digit(c: char) -> (r: bool)
    ensures
        r == decimal_digit(c),
{
    let text = string_from(&[c]);
    let pattern = "^\\d$";
    proof {
        reveal_strlit("^\\d$");
    }
    assert(pattern@ =~= digit_pattern());
    assert(text@ =~= seq![c]);
    regex_is_match(pattern, text.as_str())
}

/// Whether `c` is in the `regex` crate's `\w` class.
pub fn is_word_char(c: char) -> (r: bool)
    ensures
        r == word_char(c),
{
    let text = string_from(&[c]);
    let pattern = "^\\w$";
    proof {
        reveal_strlit("^\\w$");
    }
    assert(pattern@ =~= word_pattern());
    assert(text@ =~= seq![c]);
    regex_is_match(pattern, text.as_str())
}

} // verus!
