//! The version metadata that tags are kept in step with: the `[package]` version of `Cargo.toml`,
//! the crate's own entry in `Cargo.lock`, and the Phased Versioning strings of the files that
//! `.oyo.toml` lists under `version-files`.
use crate::scan::{
    lemma_first_at_or_after, agree_below, blank, lemma_skip_while, lemma_skip_while_is, lemma_skip_while_prefix,
    lemma_skip_while_shift,
    blanks, first_at_or_after, holds_at, is_at, is_line_start, lemma_first_at_or_after_is,
    lemma_first_at_or_after_none, line_start, skip_blanks, skip_while,
};
use crate::tags::views;
use crate::text::{ascii_lowercase, decimal_digit, is_decimal_digit, is_word_char, nonzero_ascii_digit, word_char, chars_of, copy_range, extend_chars, find_char, first_index_of, lemma_first_index_of, lemma_first_index_of_is, same_chars, string_from};
use vstd::prelude::*;

verus! {

// ---------------------------------------------------------------------------
// `key = "value"` assignments
// ---------------------------------------------------------------------------

/// The quotes around the value of `key` when a line of `t` starts at `i` with
/// `key[ \t]*=[ \t]*"..."`: the index of the opening quote and that of the next quote.
pub open spec fn assignment_at(t: Seq<char>, i: int, key: Seq<char>) -> Option<(int, int)> {
    if line_start(t, i) && holds_at(t, i, key) {
        let e = skip_while(t, i + key.len(), blanks());
        if e < t.len() && t[e] == '=' {
            let a = skip_while(t, e + 1, blanks());
            if a < t.len() && t[a] == '"' {
                let b = a + 1 + first_index_of(t.subrange(a + 1, t.len() as int), '"');
                if b < t.len() {
                    Some((a, b))
                } else {
                    None
                }
            } else {
                None
            }
        } else {
            None
        }
    } else {
        None
    }
}

/// The quotes of the assignment of `key` that starts at `i` in `t`, if one does.
fn assignment_in(t: &[char], i: usize, key: &[char]) -> (r: Option<(usize, usize)>)
    requires
        i <= t.len(),
    ensures
        match r {
            Some((a, b)) => assignment_at(t@, i as int, key@) == Some((a as int, b as int)) && a
                < b < t@.len(),
            None => assignment_at(t@, i as int, key@) is None,
        },
{
    if !is_line_start(t, i) || !is_at(t, i, key) {
        return None;
    }
    let e = skip_blanks(t, i + key.len());
    if e >= t.len() || t[e] != '=' {
        return None;
    }
    let a = skip_blanks(t, e + 1);
    if a >= t.len() || t[a] != '"' {
        return None;
    }
    let b = find_char(t, a + 1, t.len(), '"');
    if b >= t.len() {
        return None;
    }
    Some((a, b))
}

// ---------------------------------------------------------------------------
// Cargo.toml
// ---------------------------------------------------------------------------

/// `[package]`.
pub open spec fn package_header() -> Seq<char> {
    seq!['[', 'p', 'a', 'c', 'k', 'a', 'g', 'e', ']']
}

/// `version`.
pub open spec fn version_key() -> Seq<char> {
    seq!['v', 'e', 'r', 's', 'i', 'o', 'n']
}

/// `name`.
pub open spec fn name_key() -> Seq<char> {
    seq!['n', 'a', 'm', 'e']
}

/// A line of `s` starting at `p` matches `^\[package\][ \t]*\r?$`.
pub open spec fn package_header_at(s: Seq<char>, p: int) -> bool {
    &&& line_start(s, p)
    &&& holds_at(s, p, package_header())
    &&& {
        let q = skip_while(s, p + 9, blanks());
        ||| q == s.len()
        ||| s[q] == '\n'
        ||| (s[q] == '\r' && (q + 1 == s.len() || s[q + 1] == '\n'))
    }
}

/// Where the `[package]` header that starts at `p` ends: at the `'\n'` that ends its line, or at
/// the end of `s`.
pub open spec fn header_end(s: Seq<char>, p: int) -> int {
    let q = skip_while(s, p + 9, blanks());
    if q < s.len() && s[q] == '\r' {
        q + 1
    } else {
        q
    }
}

/// Where a `[package]` header starts in `s`.
pub open spec fn package_headers(s: Seq<char>) -> spec_fn(int) -> bool {
    |p: int| package_header_at(s, p)
}

/// The first `[package]` header of `s`.
pub open spec fn first_package_header(s: Seq<char>) -> Option<int> {
    first_at_or_after(s.len() - 1, 0, package_headers(s))
}

/// A line of `s` starting at `q` opens a section: it starts with `[`.
pub open spec fn section_header_at(s: Seq<char>, q: int) -> bool {
    line_start(s, q) && 0 <= q < s.len() && s[q] == '['
}

/// Where a line that opens a section starts in `s`.
pub open spec fn section_headers(s: Seq<char>) -> spec_fn(int) -> bool {
    |q: int| section_header_at(s, q)
}

/// Where the section that starts at `from` ends: at the next line that starts with `[`, or at
/// the end of `s`.
pub open spec fn section_end(s: Seq<char>, from: int) -> int {
    match first_at_or_after(s.len() - 1, from, section_headers(s)) {
        Some(q) => q,
        None => s.len() as int,
    }
}

/// Where a line of `t` assigns a value to `key` (a non-empty one when `nonempty`).
pub open spec fn assignments(t: Seq<char>, key: Seq<char>, nonempty: bool) -> spec_fn(int) -> bool {
    |i: int| assignment_at(t, i, key) matches Some(q) && (nonempty ==> q.1 > q.0 + 1)
}

/// The first line of `t` that assigns a value to `version`.
pub open spec fn first_version_line(t: Seq<char>) -> Option<int> {
    first_at_or_after(t.len() - 1, 0, assignments(t, version_key(), false))
}

/// The first line of `t` that assigns a non-empty value to `name`.
pub open spec fn first_name_line(t: Seq<char>) -> Option<int> {
    first_at_or_after(t.len() - 1, 0, assignments(t, name_key(), true))
}

/// What synchronizing `Cargo.toml` (whose text is `s`) with the SemVer projection `semver` gives:
/// the crate's name and the new text, in which the value of the first `version` of the
/// `[package]` section is `semver`; `None` when there is no `[package]` section, or it lacks a
/// `version` or a `name`.
pub open spec fn manifest_update(s: Seq<char>, semver: Seq<char>) -> Option<
    (Seq<char>, Seq<char>),
> {
    match first_package_header(s) {
        None => None,
        Some(p) => {
            let start = header_end(s, p);
            let t = s.subrange(start, section_end(s, start));
            match (first_version_line(t), first_name_line(t)) {
                (Some(iv), Some(iname)) => match (
                    assignment_at(t, iv, version_key()),
                    assignment_at(t, iname, name_key()),
                ) {
                    (Some(v), Some(nm)) => Some(
                        (
                            t.subrange(nm.0 + 1, nm.1),
                            s.subrange(0, start + v.0 + 1) + semver + s.subrange(
                                start + v.1,
                                s.len() as int,
                            ),
                        ),
                    ),
                    _ => None,
                },
                _ => None,
            }
        },
    }
}

/// The crate that `Cargo.toml` describes, and its new text when synchronizing changed it.
#[derive(Debug, PartialEq, Eq)]
pub struct ManifestUpdate {
    /// The `name` of the `[package]` section.
    pub crate_name: String,
    /// The new text of `Cargo.toml`, or `None` when its version already was the projection.
    pub new_content: Option<String>,
}

/// Whether a `[package]` header starts at `p` in `s`.
fn is_package_header(s: &[char], p: usize) -> (r: bool)
    requires
        p <= s.len(),
    ensures
        r == package_header_at(s@, p as int),
{
    let lit = vec!['[', 'p', 'a', 'c', 'k', 'a', 'g', 'e', ']'];
    assert(lit@ =~= package_header());
    if !is_line_start(s, p) || !is_at(s, p, &lit) {
        return false;
    }
    let q = skip_blanks(s, p + 9);
    q == s.len() || s[q] == '\n' || (s[q] == '\r' && (q + 1 == s.len() || s[q + 1] == '\n'))
}

/// The assignment of `key` (with a non-empty value when `nonempty`) on the first line of `t`
/// that has one: where the line starts, and the quotes.
fn first_assignment(t: &[char], key: &[char], nonempty: bool) -> (r: Option<(usize, usize, usize)>)
    ensures
        match r {
            Some((i, a, b)) => {
                &&& first_at_or_after(t@.len() - 1, 0, assignments(t@, key@, nonempty)) == Some(
                    i as int,
                )
                &&& assignment_at(t@, i as int, key@) == Some((a as int, b as int))
                &&& a < b < t@.len()
                &&& nonempty ==> b > a + 1
            },
            None => first_at_or_after(t@.len() - 1, 0, assignments(t@, key@, nonempty)) is None,
        },
{
    let ghost p = assignments(t@, key@, nonempty);
    let mut i: usize = 0;
    while i < t.len()
        invariant
            i <= t.len(),
            p == assignments(t@, key@, nonempty),
            forall|j: int| 0 <= j < i ==> !#[trigger] p(j),
        decreases t.len() - i,
    {
        match assignment_in(t, i, key) {
            Some((a, b)) => {
                if !nonempty || b > a + 1 {
                    proof {
                        lemma_first_at_or_after_is(t@.len() - 1, 0, p, i as int);
                    }
                    return Some((i, a, b));
                }
            },
            None => {},
        }
        i += 1;
    }
    proof {
        lemma_first_at_or_after_none(t@.len() - 1, 0, p);
    }
    None
}

/// The bounds of the `[package]` section of `s`: from the end of its header to the next line
/// that opens a section (or the end of `s`).
fn package_section(s: &[char]) -> (r: Option<(usize, usize)>)
    ensures
        match r {
            Some((start, end)) => first_package_header(s@) matches Some(p) && start == header_end(
                s@,
                p,
            ) && end == section_end(s@, start as int) && start <= end <= s@.len(),
            None => first_package_header(s@) is None,
        },
{
    let ghost hp = package_headers(s@);
    let mut p: usize = 0;
    while p < s.len() && !is_package_header(s, p)
        invariant
            p <= s.len(),
            forall|j: int| 0 <= j < p ==> !#[trigger] package_header_at(s@, j),
        decreases s.len() - p,
    {
        p += 1;
    }
    if p == s.len() {
        proof {
            lemma_first_at_or_after_none(s@.len() - 1, 0, hp);
        }
        return None;
    }
    proof {
        lemma_first_at_or_after_is(s@.len() - 1, 0, hp, p as int);
    }
    let q = skip_blanks(s, p + 9);
    let start = if q < s.len() && s[q] == '\r' {
        q + 1
    } else {
        q
    };
    let ghost sp = section_headers(s@);
    let mut end = start;
    while end < s.len() && !(is_line_start(s, end) && s[end] == '[')
        invariant
            start <= end <= s.len(),
            forall|j: int| start <= j < end ==> !#[trigger] section_header_at(s@, j),
        decreases s.len() - end,
    {
        end += 1;
    }
    proof {
        if end < s.len() {
            lemma_first_at_or_after_is(s@.len() - 1, start as int, sp, end as int);
        } else {
            lemma_first_at_or_after_none(s@.len() - 1, start as int, sp);
        }
    }
    Some((start, end))
}

/// Synchronizes the text `content` of `Cargo.toml` with the SemVer projection `semver`: the first
/// `version` of its `[package]` section gets `semver` as its value. Gives the crate's name, and
/// the new text when it differs; `None` when the manifest has no `[package]` section with both a
/// `version` and a `name`. `semver` holds no `$`, which the pattern replacement would expand.
pub fn sync_manifest(content: &str, semver: &str) -> (r: Option<ManifestUpdate>)
    requires
        !semver@.contains('$'),
    ensures
        match r {
            None => manifest_update(content@, semver@) is None,
            Some(u) => manifest_update(content@, semver@) matches Some(m) && {
                &&& u.crate_name@ == m.0
                &&& match u.new_content {
                    Some(n) => n@ == m.1 && m.1 != content@,
                    None => m.1 == content@,
                }
            },
        },
{
    let s = chars_of(content);
    let (start, end) = match package_section(&s) {
        Some(x) => x,
        None => {
            return None;
        },
    };
    let t = copy_range(&s, start, end);
    let vkey = vec!['v', 'e', 'r', 's', 'i', 'o', 'n'];
    let nkey = vec!['n', 'a', 'm', 'e'];
    assert(vkey@ =~= version_key());
    assert(nkey@ =~= name_key());
    let (iv, va, vb) = match first_assignment(&t, &vkey, false) {
        Some(x) => x,
        None => {
            return None;
        },
    };
    let (inm, na, nb) = match first_assignment(&t, &nkey, true) {
        Some(x) => x,
        None => {
            return None;
        },
    };
    let crate_name = string_from(&copy_range(&t, na + 1, nb));
    let sv = chars_of(semver);
    let mut updated = copy_range(&s, 0, start + va + 1);
    extend_chars(&mut updated, &sv);
    let rest = copy_range(&s, start + vb, s.len());
    extend_chars(&mut updated, &rest);
    let new_content = if same_chars(&updated, &s) {
        None
    } else {
        Some(string_from(&updated))
    };
    Some(ManifestUpdate { crate_name, new_content })
}

// ---------------------------------------------------------------------------
// Synchronizing Cargo.toml twice
// ---------------------------------------------------------------------------

/// The value of the first `version` of the `[package]` section of `s`.
pub open spec fn manifest_version(s: Seq<char>) -> Option<Seq<char>> {
    match first_package_header(s) {
        None => None,
        Some(p) => {
            let start = header_end(s, p);
            let t = s.subrange(start, section_end(s, start));
            match first_version_line(t) {
                Some(iv) => match assignment_at(t, iv, version_key()) {
                    Some(v) => Some(t.subrange(v.0 + 1, v.1)),
                    None => None,
                },
                None => None,
            }
        },
    }
}

/// The first quote at or after `from` in `t`, when there is one before `qpos`, lies at the same
/// place in a text that agrees with `t` up to `qpos`.
proof fn lemma_quote_prefix(t1: Seq<char>, t2: Seq<char>, m: int, from: int, qpos: int)
    requires
        agree_below(t1, t2, m),
        0 <= from <= qpos < m,
        t1[qpos] == '"',
    ensures
        first_index_of(t2.subrange(from, t2.len() as int), '"') == first_index_of(
            t1.subrange(from, t1.len() as int),
            '"',
        ),
        from + first_index_of(t1.subrange(from, t1.len() as int), '"') <= qpos,
{
    let r1 = t1.subrange(from, t1.len() as int);
    let r2 = t2.subrange(from, t2.len() as int);
    lemma_first_index_of(r1, '"');
    let f = first_index_of(r1, '"');
    if f > qpos - from {
        assert(r1[qpos - from] == t1[qpos]);
    }
    assert forall|k: int| 0 <= k < f implies r2[k] != '"' by {
        assert(r1[k] == t1[from + k]);
        assert(r2[k] == t2[from + k]);
    }
    assert(r2[f] == t2[from + f]);
    assert(r1[f] == t1[from + f]);
    lemma_first_index_of_is(r2, '"', f);
}

/// An assignment that starts on a line which ends (at `nl`) before a quote (at `qpos`) where two
/// texts still agree reads the same in both.
proof fn lemma_assignment_prefix(
    t1: Seq<char>,
    t2: Seq<char>,
    m: int,
    j: int,
    key: Seq<char>,
    nl: int,
    qpos: int,
)
    requires
        agree_below(t1, t2, m),
        0 <= j <= nl < qpos < m,
        t1[nl] == '\n',
        t1[qpos] == '"',
        forall|k: int| 0 <= k < key.len() ==> #[trigger] key[k] != '\n',
    ensures
        assignment_at(t2, j, key) == assignment_at(t1, j, key),
        assignment_at(t1, j, key) matches Some(q) ==> q.1 <= qpos,
{
    if j > 0 {
        assert(t2[j - 1] == t1[j - 1]);
    }
    assert(t2[nl] == t1[nl]);
    let kl = key.len() as int;
    if holds_at(t1, j, key) || holds_at(t2, j, key) {
        if holds_at(t1, j, key) && nl < j + kl {
            assert(t1.subrange(j, j + kl)[nl - j] == t1[nl]);
        }
        if holds_at(t2, j, key) && nl < j + kl {
            assert(t2.subrange(j, j + kl)[nl - j] == t2[nl]);
        }
        assert(t1.subrange(j, j + kl) =~= t2.subrange(j, j + kl));
    }
    if holds_at(t1, j, key) && line_start(t1, j) {
        lemma_skip_while(t1, j + kl, blanks());
        let e = skip_while(t1, j + kl, blanks());
        assert(e <= nl) by {
            if e > nl {
                assert(blanks()(t1[nl]));
            }
        }
        lemma_skip_while_prefix(t1, t2, j + kl, blanks(), m);
        assert(t2[e] == t1[e]);
        if e < t1.len() && t1[e] == '=' {
            lemma_skip_while(t1, e + 1, blanks());
            let a = skip_while(t1, e + 1, blanks());
            assert(a <= nl) by {
                if a > nl {
                    assert(blanks()(t1[nl]));
                }
            }
            lemma_skip_while_prefix(t1, t2, e + 1, blanks(), m);
            assert(t2[a] == t1[a]);
            if a < t1.len() && t1[a] == '"' {
                lemma_quote_prefix(t1, t2, m, a + 1, qpos);
            }
        }
    }
}

/// An assignment reads the same from two places behind which (from the character before them on)
/// the texts are the same, shifted by the distance between the places.
proof fn lemma_assignment_shift(t1: Seq<char>, j1: int, t2: Seq<char>, j2: int, key: Seq<char>)
    requires
        1 <= j1 <= t1.len(),
        1 <= j2 <= t2.len(),
        t1.subrange(j1 - 1, t1.len() as int) == t2.subrange(j2 - 1, t2.len() as int),
    ensures
        match assignment_at(t1, j1, key) {
            Some(q) => assignment_at(t2, j2, key) == Some((q.0 - j1 + j2, q.1 - j1 + j2)),
            None => assignment_at(t2, j2, key) is None,
        },
{
    let d = j2 - j1;
    let r1 = t1.subrange(j1 - 1, t1.len() as int);
    let r2 = t2.subrange(j2 - 1, t2.len() as int);
    assert(r1.len() == r2.len());
    assert(t1[j1 - 1] == r1[0]);
    assert(t2[j2 - 1] == r2[0]);
    let kl = key.len() as int;
    lemma_tail_eq(t1, j1 - 1, t2, j2 - 1, j1);
    if j1 + kl <= t1.len() {
        assert(t1.subrange(j1, j1 + kl) =~= t1.subrange(j1, t1.len() as int).subrange(0, kl));
        assert(t2.subrange(j2, j2 + kl) =~= t2.subrange(j2, t2.len() as int).subrange(0, kl));
    }
    if holds_at(t1, j1, key) && line_start(t1, j1) {
        lemma_tail_eq(t1, j1 - 1, t2, j2 - 1, j1 + kl);
        lemma_skip_while(t1, j1 + kl, blanks());
        lemma_skip_while_shift(t1, j1 + kl, t2, j2 + kl, blanks());
        let e = skip_while(t1, j1 + kl, blanks());
        if e < t1.len() {
            lemma_tail_eq(t1, j1 - 1, t2, j2 - 1, e);
            assert(t1[e] == t1.subrange(e, t1.len() as int)[0]);
            assert(t2[e + d] == t2.subrange(e + d, t2.len() as int)[0]);
        }
        if e < t1.len() && t1[e] == '=' {
            lemma_tail_eq(t1, j1 - 1, t2, j2 - 1, e + 1);
            lemma_skip_while(t1, e + 1, blanks());
            lemma_skip_while_shift(t1, e + 1, t2, e + 1 + d, blanks());
            let a = skip_while(t1, e + 1, blanks());
            if a < t1.len() {
                lemma_tail_eq(t1, j1 - 1, t2, j2 - 1, a);
                assert(t1[a] == t1.subrange(a, t1.len() as int)[0]);
                assert(t2[a + d] == t2.subrange(a + d, t2.len() as int)[0]);
            }
            if a < t1.len() && t1[a] == '"' {
                lemma_tail_eq(t1, j1 - 1, t2, j2 - 1, a + 1);
            }
        }
    }
}

/// Behind two places where two texts are the same, they are the same behind any later place.
proof fn lemma_tail_eq(t1: Seq<char>, i1: int, t2: Seq<char>, i2: int, y: int)
    requires
        0 <= i1 <= y <= t1.len(),
        0 <= i2 <= t2.len(),
        t1.subrange(i1, t1.len() as int) == t2.subrange(i2, t2.len() as int),
    ensures
        t1.subrange(y, t1.len() as int) == t2.subrange(y - i1 + i2, t2.len() as int),
        t2.len() - i2 == t1.len() - i1,
{
    let r1 = t1.subrange(i1, t1.len() as int);
    let r2 = t2.subrange(i2, t2.len() as int);
    assert(r1.len() == r2.len());
    assert(t1.subrange(y, t1.len() as int) =~= r1.subrange(y - i1, r1.len() as int));
    assert(t2.subrange(y - i1 + i2, t2.len() as int) =~= r2.subrange(y - i1, r2.len() as int));
}

/// The `[package]` header test at `j` reads the same in two texts that agree well past the end
/// (`nl`) of the line of `j`.
proof fn lemma_header_prefix(s1: Seq<char>, s2: Seq<char>, m: int, j: int, nl: int)
    requires
        agree_below(s1, s2, m),
        0 <= j <= nl,
        nl + 10 <= m,
        s1[nl] == '\n',
    ensures
        package_header_at(s2, j) == package_header_at(s1, j),
        package_header_at(s1, j) ==> header_end(s2, j) == header_end(s1, j) && header_end(s1, j)
            <= nl,
{
    if j > 0 {
        assert(t_eq(s1, s2, j - 1));
    }
    assert(s1.subrange(j, j + 9) =~= s2.subrange(j, j + 9));
    if holds_at(s1, j, package_header()) {
        if nl < j + 9 {
            assert(s1.subrange(j, j + 9)[nl - j] == s1[nl]);
        }
        lemma_skip_while(s1, j + 9, blanks());
        let q = skip_while(s1, j + 9, blanks());
        assert(q <= nl) by {
            if q > nl {
                assert(blanks()(s1[nl]));
            }
        }
        lemma_skip_while_prefix(s1, s2, j + 9, blanks(), m);
        assert(t_eq(s1, s2, q));
        assert(t_eq(s1, s2, q + 1));
    }
}

/// The facts that the `version` assignment on the line at `iv` of `t`, with quotes `a` and `b`,
/// gives: the line holds no line break up to the opening quote, the quotes are quotes, and no
/// quote lies between them.
proof fn lemma_version_line(t: Seq<char>, iv: int, a: int, b: int)
    requires
        assignment_at(t, iv, version_key()) == Some((a, b)),
    ensures
        0 <= iv,
        iv + 7 < a < b < t.len(),
        forall|k: int| iv <= k <= a ==> #[trigger] t[k] != '\n',
        t[iv] == 'v',
        t[a] == '"',
        t[b] == '"',
        forall|k: int| a < k < b ==> #[trigger] t[k] != '"',
{
    let key = version_key();
    assert(t.subrange(iv, iv + 7) == key);
    lemma_skip_while(t, iv + 7, blanks());
    let e = skip_while(t, iv + 7, blanks());
    lemma_skip_while(t, e + 1, blanks());
    assert forall|k: int| iv <= k <= a implies #[trigger] t[k] != '\n' by {
        if k < iv + 7 {
            assert(t[k] == t.subrange(iv, iv + 7)[k - iv]);
        } else if k < e {
            assert(blanks()(t[k]));
        } else if e < k && k < a {
            assert(blanks()(t[k]));
        }
    }
    assert(t[iv] == t.subrange(iv, iv + 7)[0]);
    let r = t.subrange(a + 1, t.len() as int);
    lemma_first_index_of(r, '"');
    assert forall|k: int| a < k < b implies #[trigger] t[k] != '"' by {
        assert(t[k] == r[k - a - 1]);
    }
    assert(t[b] == r[b - a - 1]);
}

/// How the rewritten section `t2` lies against `t`: the same up to the opening quote `a`, then the
/// new value, then what followed the closing quote `b`; and no line starts between the line of
/// `iv` and the closing quote, in either.
proof fn lemma_resync_layout(t: Seq<char>, t2: Seq<char>, semver: Seq<char>, iv: int, a: int, b: int)
    requires
        0 <= iv < a < b < t.len(),
        forall|k: int| iv <= k <= a ==> #[trigger] t[k] != '\n',
        forall|k: int| a < k < b ==> #[trigger] t[k] != '\n',
        forall|k: int| 0 <= k < semver.len() ==> #[trigger] semver[k] != '"' && semver[k] != '\n',
        t2 == t.subrange(0, a + 1) + semver + t.subrange(b, t.len() as int),
    ensures
        t2.len() == t.len() + (a + 1 + semver.len() - b),
        agree_below(t, t2, a + 1),
        forall|k: int| 0 <= k < semver.len() ==> #[trigger] t2[a + 1 + k] == semver[k],
        t2.subrange(a + 1 + semver.len(), t2.len() as int) == t.subrange(b, t.len() as int),
        t2[a + 1 + semver.len()] == t[b],
        forall|j: int| iv < j <= a + 1 + semver.len() ==> !#[trigger] line_start(t2, j),
        forall|j: int| iv < j <= b ==> !#[trigger] line_start(t, j),
{
    let l = semver.len() as int;
    let b2 = a + 1 + l;
    assert(agree_below(t, t2, a + 1));
    assert forall|k: int| 0 <= k < l implies #[trigger] t2[a + 1 + k] == semver[k] by {}
    assert(t2.subrange(b2, t2.len() as int) =~= t.subrange(b, t.len() as int));
    assert(t2[b2] == t[b]);
    assert forall|j: int| iv < j <= b2 implies !#[trigger] line_start(t2, j) by {
        if j - 1 <= a {
            assert(t2[j - 1] == t[j - 1]);
        } else {
            assert(t2[j - 1] == semver[j - 1 - a - 1]);
        }
    }
    assert forall|j: int| iv < j <= b implies !#[trigger] line_start(t, j) by {
        assert(t[j - 1] != '\n');
    }
}

/// The `version` line stays the first one of the rewritten section, with the new closing quote.
proof fn lemma_resync_version(t: Seq<char>, t2: Seq<char>, semver: Seq<char>, iv: int, a: int, b: int)
    requires
        first_version_line(t) == Some(iv),
        assignment_at(t, iv, version_key()) == Some((a, b)),
        1 <= iv,
        iv + 7 < a < b < t.len(),
        t[iv - 1] == '\n',
        t[a] == '"',
        agree_below(t, t2, a + 1),
        forall|k: int| 0 <= k < semver.len() ==> #[trigger] t2[a + 1 + k] == semver[k],
        forall|k: int| 0 <= k < semver.len() ==> #[trigger] semver[k] != '"' && semver[k] != '\n',
        a + 1 + semver.len() < t2.len(),
        t2[a + 1 + semver.len()] == '"',
    ensures
        first_version_line(t2) == Some(iv),
        assignment_at(t2, iv, version_key()) == Some((a, a + 1 + semver.len())),
{
    let l = semver.len() as int;
    let b2 = a + 1 + l;
    let vkey = version_key();
    assert forall|k: int| 0 <= k < vkey.len() implies #[trigger] vkey[k] != '\n' by {}
    lemma_first_at_or_after(t.len() - 1, 0, assignments(t, vkey, false));
    assert forall|j: int| 0 <= j < iv implies !#[trigger] assignments(t2, vkey, false)(j) by {
        lemma_assignment_prefix(t, t2, a + 1, j, vkey, iv - 1, a);
        assert(!assignments(t, vkey, false)(j));
    }
    assert(t2[iv - 1] == t[iv - 1]);
    assert(t2.subrange(iv, iv + 7) =~= t.subrange(iv, iv + 7));
    let e = skip_while(t, iv + 7, blanks());
    lemma_skip_while(t, iv + 7, blanks());
    lemma_skip_while(t, e + 1, blanks());
    lemma_skip_while_prefix(t, t2, iv + 7, blanks(), a + 1);
    assert(t2[e] == t[e]);
    lemma_skip_while_prefix(t, t2, e + 1, blanks(), a + 1);
    assert(t2[a] == t[a]);
    let r2 = t2.subrange(a + 1, t2.len() as int);
    assert forall|k: int| 0 <= k < l implies r2[k] != '"' by {
        assert(r2[k] == t2[a + 1 + k]);
    }
    assert(r2[l] == t2[b2]);
    lemma_first_index_of_is(r2, '"', l);
    assert(assignment_at(t2, iv, vkey) == Some((a, b2)));
    lemma_first_at_or_after_is(t2.len() - 1, 0, assignments(t2, vkey, false), iv);
}

/// The quotes of an assignment lie after its start and within the text.
proof fn lemma_assignment_bounds(t: Seq<char>, j: int, key: Seq<char>)
    requires
        assignment_at(t, j, key) is Some,
    ensures
        assignment_at(t, j, key) matches Some(q) && 0 <= j < q.0 < q.1 < t.len(),
{
    let kl = key.len() as int;
    lemma_skip_while(t, j + kl, blanks());
    let e = skip_while(t, j + kl, blanks());
    lemma_skip_while(t, e + 1, blanks());
    let a = skip_while(t, e + 1, blanks());
    lemma_first_index_of(t.subrange(a + 1, t.len() as int), '"');
}

/// The first non-empty `name` of the rewritten section has the same value.
proof fn lemma_resync_name(t: Seq<char>, t2: Seq<char>, iv: int, a: int, b: int, b2: int)
    requires
        1 <= iv,
        iv + 7 < a < b < t.len(),
        a < b2 < t2.len(),
        t[iv - 1] == '\n',
        t[iv] == 'v',
        t[a] == '"',
        t2.len() - b2 == t.len() - b,
        agree_below(t, t2, a + 1),
        t2.subrange(b2, t2.len() as int) == t.subrange(b, t.len() as int),
        forall|j: int| iv < j <= b2 ==> !#[trigger] line_start(t2, j),
        forall|j: int| iv < j <= b ==> !#[trigger] line_start(t, j),
        first_name_line(t) is Some,
    ensures
        first_name_line(t2) matches Some(i2) && assignment_at(t2, i2, name_key()) matches Some(q2)
            && assignment_at(t, first_name_line(t)->0, name_key()) matches Some(q) && t2.subrange(
            q2.0 + 1,
            q2.1,
        ) == t.subrange(q.0 + 1, q.1),
{
    let d = b2 - b;
    let nkey = name_key();
    assert forall|k: int| 0 <= k < nkey.len() implies #[trigger] nkey[k] != '\n' by {}
    let pn = assignments(t, nkey, true);
    let pn2 = assignments(t2, nkey, true);
    lemma_first_at_or_after(t.len() - 1, 0, pn);
    let in1 = first_name_line(t)->0;
    let q = assignment_at(t, in1, nkey)->0;
    lemma_assignment_bounds(t, in1, nkey);
    assert(t.subrange(iv, iv + 4)[0] == t[iv]);
    assert(t2[iv] == t[iv]);
    assert(t2.subrange(iv, iv + 4)[0] == t2[iv]);
    assert(assignment_at(t, iv, nkey) is None);
    assert(assignment_at(t2, iv, nkey) is None);
    assert forall|j: int| 0 <= j < iv implies #[trigger] assignment_at(t2, j, nkey)
        == assignment_at(t, j, nkey) && (assignment_at(t, j, nkey) matches Some(qq) ==> qq.1 <= a)
        by {
        lemma_assignment_prefix(t, t2, a + 1, j, nkey, iv - 1, a);
    }
    assert forall|j: int|
        #![trigger assignment_at(t2, j, nkey)]
        b2 < j <= t2.len() implies match assignment_at(t, j - d, nkey) {
        Some(qq) => assignment_at(t2, j, nkey) == Some((qq.0 + d, qq.1 + d)),
        None => assignment_at(t2, j, nkey) is None,
    } by {
        lemma_tail_eq(t, b, t2, b2, j - d - 1);
        lemma_assignment_shift(t, j - d, t2, j, nkey);
    }
    if in1 < iv {
        assert forall|j: int| 0 <= j < in1 implies !#[trigger] pn2(j) by {
            assert(!pn(j));
        }
        assert(assignment_at(t2, in1, nkey) == assignment_at(t, in1, nkey));
        assert(pn2(in1));
        lemma_first_at_or_after_is(t2.len() - 1, 0, pn2, in1);
        assert(t2.subrange(q.0 + 1, q.1) =~= t.subrange(q.0 + 1, q.1)) by {
            assert forall|k: int| q.0 + 1 <= k < q.1 implies #[trigger] t2[k] == t[k] by {}
        }
    } else {
        assert(in1 > b) by {
            if in1 == iv {
            } else if in1 <= b {
                assert(!line_start(t, in1));
            }
        }
        let i2 = in1 + d;
        assert(assignment_at(t2, i2, nkey) == Some((q.0 + d, q.1 + d)));
        assert(pn2(i2));
        assert forall|j: int| 0 <= j < i2 implies !#[trigger] pn2(j) by {
            if j < iv {
                assert(!pn(j));
            } else if j == iv {
            } else if j <= b2 {
                assert(!line_start(t2, j));
            } else {
                assert(!pn(j - d));
                assert(match assignment_at(t, j - d, nkey) {
                    Some(qq) => assignment_at(t2, j, nkey) == Some((qq.0 + d, qq.1 + d)),
                    None => assignment_at(t2, j, nkey) is None,
                });
            }
        }
        lemma_first_at_or_after_is(t2.len() - 1, 0, pn2, i2);
        let q0 = q.0;
        let q1 = q.1;
        lemma_tail_eq(t, b, t2, b2, q0 + 1);
        assert(t2.subrange(q0 + d + 1, q1 + d) =~= t2.subrange(q0 + d + 1, t2.len() as int).subrange(
            0,
            q1 - q0 - 1,
        ));
        assert(t.subrange(q0 + 1, q1) =~= t.subrange(q0 + 1, t.len() as int).subrange(
            0,
            q1 - q0 - 1,
        ));
    }
}

/// Rewriting the value of the first `version` of a section keeps that line the first `version`
/// line, and keeps the first non-empty `name` and its value, when neither the old value nor the
/// new one holds a line break and the new one holds no quote.
proof fn lemma_section_resync(t: Seq<char>, t2: Seq<char>, semver: Seq<char>, iv: int, a: int, b: int)
    requires
        first_version_line(t) == Some(iv),
        assignment_at(t, iv, version_key()) == Some((a, b)),
        t.len() >= 1,
        t[0] == '\n',
        forall|k: int| a < k < b ==> #[trigger] t[k] != '\n',
        forall|k: int| 0 <= k < semver.len() ==> #[trigger] semver[k] != '"' && semver[k] != '\n',
        t2 == t.subrange(0, a + 1) + semver + t.subrange(b, t.len() as int),
        first_name_line(t) is Some,
    ensures
        first_version_line(t2) == Some(iv),
        assignment_at(t2, iv, version_key()) == Some((a, a + 1 + semver.len())),
        first_name_line(t2) matches Some(i2) && assignment_at(t2, i2, name_key()) matches Some(q2)
            && assignment_at(t, first_name_line(t)->0, name_key()) matches Some(q) && t2.subrange(
            q2.0 + 1,
            q2.1,
        ) == t.subrange(q.0 + 1, q.1),
{
    lemma_version_line(t, iv, a, b);
    assert(iv != 0);
    assert(t[iv - 1] == '\n');
    lemma_resync_layout(t, t2, semver, iv, a, b);
    assert(t[b] == '"');
    lemma_resync_version(t, t2, semver, iv, a, b);
    lemma_resync_name(t, t2, iv, a, b, a + 1 + semver.len());
}

/// Rewriting the value that starts after index `a` of the `[package]` section of `s` (up to its
/// closing quote at `b`), with neither the old value nor the new one holding a line break, keeps
/// the `[package]` header and shifts the end of the section by the change in length.
proof fn lemma_manifest_resync_section(
    s: Seq<char>,
    s2: Seq<char>,
    semver: Seq<char>,
    p: int,
    a: int,
    b: int,
)
    requires
        first_package_header(s) == Some(p),
        header_end(s, p) + b < section_end(s, header_end(s, p)),
        9 <= a < b,
        s[header_end(s, p) + a] == '"',
        forall|k: int|
            header_end(s, p) + a < k < header_end(s, p) + b ==> #[trigger] s[k] != '\n',
        forall|k: int| 0 <= k < semver.len() ==> #[trigger] semver[k] != '"' && semver[k] != '\n',
        s2 == s.subrange(0, header_end(s, p) + a + 1) + semver + s.subrange(
            header_end(s, p) + b,
            s.len() as int,
        ),
    ensures
        first_package_header(s2) == Some(p),
        header_end(s2, p) == header_end(s, p),
        s2.subrange(header_end(s, p), section_end(s2, header_end(s, p))) == s.subrange(
            header_end(s, p),
            header_end(s, p) + a + 1,
        ) + semver + s.subrange(header_end(s, p) + b, section_end(s, header_end(s, p))),
{
    let st = header_end(s, p);
    let e = section_end(s, st);
    let l = semver.len() as int;
    let big_a = st + a + 1;
    let big_b = st + b;
    let b2 = big_a + l;
    let d = b2 - big_b;
    lemma_first_at_or_after(s.len() - 1, 0, package_headers(s));
    lemma_first_at_or_after(s.len() - 1, st, section_headers(s));
    lemma_skip_while(s, p + 9, blanks());
    assert(p + 9 <= st);
    assert(e <= s.len());
    assert(s[st] == '\n');
    assert(s2.len() == s.len() + d);
    assert(agree_below(s, s2, big_a));
    assert forall|k: int| 0 <= k < l implies #[trigger] s2[big_a + k] == semver[k] by {}
    assert(s2.subrange(b2, s2.len() as int) =~= s.subrange(big_b, s.len() as int));
    // The header.
    assert forall|j: int| 0 <= j <= p implies #[trigger] package_headers(s2)(j)
        == package_headers(s)(j) by {
        lemma_header_prefix(s, s2, big_a, j, st);
    }
    lemma_header_prefix(s, s2, big_a, p, st);
    lemma_first_at_or_after_is(s2.len() - 1, 0, package_headers(s2), p);
    // The end of the section.
    assert forall|j: int| st <= j < s2.len() implies #[trigger] section_headers(s2)(j) == (if j
        < big_a {
        section_headers(s)(j)
    } else if j <= b2 {
        false
    } else {
        section_headers(s)(j - d)
    }) by {
        if j < big_a {
            assert(s2[j - 1] == s[j - 1]);
            assert(s2[j] == s[j]);
        } else if j <= b2 {
            if j - 1 < big_a {
                assert(s2[j - 1] == s[j - 1]);
            } else {
                assert(s2[j - 1] == semver[j - 1 - big_a]);
            }
        } else {
            lemma_tail_eq(s2, b2, s, big_b, j - 1);
            assert(s2[j - 1] == s2.subrange(j - 1, s2.len() as int)[0]);
            assert(s[j - 1 - d] == s.subrange(j - 1 - d, s.len() as int)[0]);
            assert(s2[j] == s2.subrange(j - 1, s2.len() as int)[1]);
            assert(s[j - d] == s.subrange(j - 1 - d, s.len() as int)[1]);
        }
    }
    assert forall|j: int| big_a <= j <= big_b implies !#[trigger] section_headers(s)(j) by {
        assert(s[j - 1] != '\n');
    }
    if e < s.len() {
        assert(section_headers(s2)(e + d));
        assert forall|j: int| st <= j < e + d implies !#[trigger] section_headers(s2)(j) by {
            if j > b2 {
                assert(!section_headers(s)(j - d));
            }
        }
        lemma_first_at_or_after_is(s2.len() - 1, st, section_headers(s2), e + d);
    } else {
        assert forall|j: int| st <= j <= s2.len() - 1 implies !#[trigger] section_headers(s2)(j) by {
            if j > b2 {
                assert(!section_headers(s)(j - d));
            }
        }
        lemma_first_at_or_after_none(s2.len() - 1, st, section_headers(s2));
    }
    assert(section_end(s2, st) == e + d);
    assert(s2.subrange(st, e + d) =~= s.subrange(st, big_a) + semver + s.subrange(big_b, e));
}

/// Law: once `Cargo.toml` has been synchronized with a projection, its `[package]` version is that
/// projection, and synchronizing it again with the same projection gives the same crate and the
/// same text: nothing left to write. This holds when the projection has no quote and no line
/// break (a SemVer projection has neither) and the old version value has no line break.
#[verifier::rlimit(40)]
pub proof fn law_manifest_sync_is_stable(
    s: Seq<char>,
    semver: Seq<char>,
    crate_name: Seq<char>,
    s2: Seq<char>,
    old_version: Seq<char>,
)
    requires
        manifest_update(s, semver) == Some((crate_name, s2)),
        manifest_version(s) == Some(old_version),
        !old_version.contains('\n'),
        !semver.contains('"'),
        !semver.contains('\n'),
    ensures
        manifest_version(s2) == Some(semver),
        manifest_update(s2, semver) == Some((crate_name, s2)),
{
    let p = first_package_header(s)->0;
    let st = header_end(s, p);
    let e = section_end(s, st);
    let t = s.subrange(st, e);
    let iv = first_version_line(t)->0;
    let v = assignment_at(t, iv, version_key())->0;
    let a = v.0;
    let b = v.1;
    lemma_version_line(t, iv, a, b);
    lemma_first_at_or_after(s.len() - 1, 0, package_headers(s));
    lemma_first_at_or_after(s.len() - 1, st, section_headers(s));
    lemma_skip_while(s, p + 9, blanks());
    assert(st < e <= s.len());
    assert(t[0] == s[st]);
    assert(t[0] == '\n');
    assert(iv != 0);
    assert(old_version == t.subrange(a + 1, b));
    assert forall|k: int| st + a < k < st + b implies #[trigger] s[k] != '\n' by {
        assert(s[k] == t[k - st]);
        assert(old_version[k - st - a - 1] == t[k - st]);
    }
    assert forall|k: int| a < k < b implies #[trigger] t[k] != '\n' by {
        assert(old_version[k - a - 1] == t[k]);
    }
    assert forall|k: int| 0 <= k < semver.len() implies #[trigger] semver[k] != '"' && semver[k]
        != '\n' by {
        assert(semver.contains(semver[k]));
    }
    assert(s[st + a] == t[a]);
    assert(s2 == s.subrange(0, st + a + 1) + semver + s.subrange(st + b, s.len() as int));
    lemma_manifest_resync_section(s, s2, semver, p, a, b);
    let t2 = s2.subrange(st, section_end(s2, st));
    assert(t2 =~= t.subrange(0, a + 1) + semver + t.subrange(b, t.len() as int));
    lemma_section_resync(t, t2, semver, iv, a, b);
    let b2 = a + 1 + semver.len();
    assert(t2.subrange(a + 1, b2) =~= semver);
    assert(s2.subrange(0, st + a + 1) + semver + s2.subrange(st + b2, s2.len() as int) =~= s2);
}

/// `s1` and `s2` hold the same character at `k`.
spec fn t_eq(s1: Seq<char>, s2: Seq<char>, k: int) -> bool {
    s1[k] == s2[k]
}

// ---------------------------------------------------------------------------
// Cargo.lock
// ---------------------------------------------------------------------------

/// `name = "`.
pub open spec fn lock_name_open() -> Seq<char> {
    seq!['n', 'a', 'm', 'e', ' ', '=', ' ', '"']
}

/// `'\n'` then `version = "`.
pub open spec fn lock_version_open() -> Seq<char> {
    seq!['\n', 'v', 'e', 'r', 's', 'i', 'o', 'n', ' ', '=', ' ', '"']
}

/// The quotes of the version value when a line of `s` starting at `i` matches
/// `^name = "{crate_name}"\r?\nversion = "[^"]*"`, the entry of the crate in `Cargo.lock`.
pub open spec fn lock_entry_at(s: Seq<char>, i: int, crate_name: Seq<char>) -> Option<(int, int)> {
    let head = lock_name_open() + crate_name + seq!['"'];
    if line_start(s, i) && holds_at(s, i, head) {
        let j = i + head.len();
        let k = if j < s.len() && s[j] == '\r' {
            j + 1
        } else {
            j
        };
        if holds_at(s, k, lock_version_open()) {
            let a = k + 11;
            let b = a + 1 + first_index_of(s.subrange(a + 1, s.len() as int), '"');
            if b < s.len() {
                Some((a, b))
            } else {
                None
            }
        } else {
            None
        }
    } else {
        None
    }
}

/// Where the entry of `crate_name` starts in `s`.
pub open spec fn lock_entries(s: Seq<char>, crate_name: Seq<char>) -> spec_fn(int) -> bool {
    |i: int| lock_entry_at(s, i, crate_name) is Some
}

/// What synchronizing `Cargo.lock` (whose text is `s`) gives: the text in which the version of the
/// first entry of `crate_name` is `semver`; `None` when there is no such entry.
pub open spec fn lockfile_update(s: Seq<char>, crate_name: Seq<char>, semver: Seq<char>) -> Option<
    Seq<char>,
> {
    match first_at_or_after(s.len() - 1, 0, lock_entries(s, crate_name)) {
        Some(i) => match lock_entry_at(s, i, crate_name) {
            Some(q) => Some(s.subrange(0, q.0 + 1) + semver + s.subrange(q.1, s.len() as int)),
            None => None,
        },
        None => None,
    }
}

/// The quotes of the version value of the entry of the crate `c` that starts at `i`, if one
/// does; `head` is `name = "{c}"`.
fn lock_entry_in(s: &[char], i: usize, c: Ghost<Seq<char>>, head: &[char], opening: &[char]) -> (r:
    Option<(usize, usize)>)
    requires
        i <= s.len(),
        head@ == lock_name_open() + c@ + seq!['"'],
        opening@ == lock_version_open(),
    ensures
        match r {
            Some((a, b)) => {
                &&& lock_entry_at(s@, i as int, c@) == Some((a as int, b as int))
                &&& a < b < s@.len()
            },
            None => lock_entry_at(s@, i as int, c@) is None,
        },
{
    if !is_line_start(s, i) || !is_at(s, i, head) {
        return None;
    }
    let j = i + head.len();
    let k = if j < s.len() && s[j] == '\r' {
        j + 1
    } else {
        j
    };
    if !is_at(s, k, opening) {
        return None;
    }
    let a = k + 11;
    let b = find_char(s, a + 1, s.len(), '"');
    if b >= s.len() {
        return None;
    }
    Some((a, b))
}

/// Synchronizes the text `content` of `Cargo.lock` with the SemVer projection `semver`: the
/// version of the first entry of `crate_name` becomes `semver`. Gives the new text when it
/// differs from `content`. `semver` holds no `$`, which the pattern replacement would expand.
pub fn sync_lockfile(content: &str, crate_name: &str, semver: &str) -> (r: Option<String>)
    requires
        !semver@.contains('$'),
    ensures
        match r {
            Some(n) => lockfile_update(content@, crate_name@, semver@) == Some(n@) && n@
                != content@,
            None => match lockfile_update(content@, crate_name@, semver@) {
                Some(n) => n == content@,
                None => true,
            },
        },
{
    let s = chars_of(content);
    let c = chars_of(crate_name);
    let mut head = vec!['n', 'a', 'm', 'e', ' ', '=', ' ', '"'];
    extend_chars(&mut head, &c);
    head.push('"');
    assert(head@ =~= lock_name_open() + c@ + seq!['"']);
    let opening = vec!['\n', 'v', 'e', 'r', 's', 'i', 'o', 'n', ' ', '=', ' ', '"'];
    assert(opening@ =~= lock_version_open());
    let ghost ep = lock_entries(s@, c@);
    let mut i: usize = 0;
    while i < s.len()
        invariant
            i <= s.len(),
            s@ == content@,
            ep == lock_entries(s@, c@),
            c@ == crate_name@,
            head@ == lock_name_open() + c@ + seq!['"'],
            opening@ == lock_version_open(),
            forall|j: int| 0 <= j < i ==> !#[trigger] ep(j),
        decreases s.len() - i,
    {
        match lock_entry_in(&s, i, Ghost(c@), &head, &opening) {
            Some((a, b)) => {
                proof {
                    lemma_first_at_or_after_is(s@.len() - 1, 0, ep, i as int);
                }
                let sv = chars_of(semver);
                let mut updated = copy_range(&s, 0, a + 1);
                extend_chars(&mut updated, &sv);
                let rest = copy_range(&s, b, s.len());
                extend_chars(&mut updated, &rest);
                if same_chars(&updated, &s) {
                    return None;
                }
                return Some(string_from(&updated));
            },
            None => {},
        }
        i += 1;
    }
    proof {
        lemma_first_at_or_after_none(s@.len() - 1, 0, ep);
    }
    None
}

/// The version value of the first entry of `crate_name` in the `Cargo.lock` text `s`.
pub open spec fn lock_version(s: Seq<char>, crate_name: Seq<char>) -> Option<Seq<char>> {
    match first_at_or_after(s.len() - 1, 0, lock_entries(s, crate_name)) {
        Some(i) => match lock_entry_at(s, i, crate_name) {
            Some(q) => Some(s.subrange(q.0 + 1, q.1)),
            None => None,
        },
        None => None,
    }
}

/// A lock entry test at `j` reads the same in two texts that agree up to a quote at `qpos` far
/// enough past `j`.
proof fn lemma_lock_entry_prefix(
    s1: Seq<char>,
    s2: Seq<char>,
    m: int,
    j: int,
    c: Seq<char>,
    qpos: int,
)
    requires
        agree_below(s1, s2, m),
        0 <= j,
        j + 8 + c.len() + 1 + 13 <= qpos < m,
        s1[qpos] == '"',
    ensures
        lock_entry_at(s2, j, c) == lock_entry_at(s1, j, c),
{
    let head = lock_name_open() + c + seq!['"'];
    let h = head.len() as int;
    if j > 0 {
        assert(s2[j - 1] == s1[j - 1]);
    }
    assert(s1.subrange(j, j + h) =~= s2.subrange(j, j + h));
    assert(s2[j + h] == s1[j + h]);
    let k = if j + h < s1.len() && s1[j + h] == '\r' {
        j + h + 1
    } else {
        j + h
    };
    assert(s1.subrange(k, k + 12) =~= s2.subrange(k, k + 12));
    lemma_quote_prefix(s1, s2, m, k + 12, qpos);
}

/// Law: once the entry of a crate in `Cargo.lock` has been synchronized with a projection, its
/// version reads that projection, and synchronizing it again with the same projection gives the
/// same text: nothing left to write. This holds for any projection without a quote.
pub proof fn law_lockfile_sync_is_stable(
    s: Seq<char>,
    crate_name: Seq<char>,
    semver: Seq<char>,
    s2: Seq<char>,
)
    requires
        lockfile_update(s, crate_name, semver) == Some(s2),
        !semver.contains('"'),
    ensures
        lock_version(s2, crate_name) == Some(semver),
        lockfile_update(s2, crate_name, semver) == Some(s2),
{
    let ep = lock_entries(s, crate_name);
    let ep2 = lock_entries(s2, crate_name);
    lemma_first_at_or_after(s.len() - 1, 0, ep);
    let i = first_at_or_after(s.len() - 1, 0, ep)->0;
    let q = lock_entry_at(s, i, crate_name)->0;
    let a = q.0;
    let b = q.1;
    let l = semver.len() as int;
    let head = lock_name_open() + crate_name + seq!['"'];
    let h = head.len() as int;
    assert(s.subrange(i, i + h) == head);
    let j0 = i + h;
    let k = if j0 < s.len() && s[j0] == '\r' {
        j0 + 1
    } else {
        j0
    };
    assert(a == k + 11);
    assert(s.subrange(k, k + 12) == lock_version_open());
    assert(s[a] == s.subrange(k, k + 12)[11]);
    let r = s.subrange(a + 1, s.len() as int);
    lemma_first_index_of(r, '"');
    assert(s[b] == r[b - a - 1]);
    assert(s2 == s.subrange(0, a + 1) + semver + s.subrange(b, s.len() as int));
    assert(agree_below(s, s2, a + 1));
    assert forall|j: int| 0 <= j < i implies !#[trigger] ep2(j) by {
        assert(!ep(j));
        if j == i - 1 {
            assert(s[i - 1] == '\n');
            assert(s2[j] == s[j]);
            assert(head[0] == 'n');
            if j + h <= s2.len() {
                assert(s2.subrange(j, j + h)[0] == s2[j]);
            }
        } else {
            lemma_lock_entry_prefix(s, s2, a + 1, j, crate_name, a);
        }
    }
    // The entry itself.
    if i > 0 {
        assert(s2[i - 1] == s[i - 1]);
    }
    assert(s2.subrange(i, i + h) =~= s.subrange(i, i + h));
    assert(s2[j0] == s[j0]);
    assert(s2.subrange(k, k + 12) =~= s.subrange(k, k + 12));
    let r2 = s2.subrange(a + 1, s2.len() as int);
    assert forall|x: int| 0 <= x < l implies r2[x] != '"' by {
        assert(r2[x] == semver[x]);
        assert(semver.contains(semver[x]));
    }
    assert(r2[l] == s[b]);
    lemma_first_index_of_is(r2, '"', l);
    assert(lock_entry_at(s2, i, crate_name) == Some((a, a + 1 + l)));
    lemma_first_at_or_after_is(s2.len() - 1, 0, ep2, i);
    assert(s2.subrange(a + 1, a + 1 + l) =~= semver);
    assert(s2.subrange(0, a + 1) + semver + s2.subrange(a + 1 + l, s2.len() as int) =~= s2);
}

// ---------------------------------------------------------------------------
// .oyo.toml
// ---------------------------------------------------------------------------

/// `version-files`.
pub open spec fn files_key() -> Seq<char> {
    seq!['v', 'e', 'r', 's', 'i', 'o', 'n', '-', 'f', 'i', 'l', 'e', 's']
}

/// The brackets of the array when `s` matches `version-files[ \t]*=[ \t]*\[.*?\]` at `i` (the
/// array ends at the first `]`, newlines included).
pub open spec fn files_array_at(s: Seq<char>, i: int) -> Option<(int, int)> {
    if holds_at(s, i, files_key()) {
        let e = skip_while(s, i + 13, blanks());
        if e < s.len() && s[e] == '=' {
            let a = skip_while(s, e + 1, blanks());
            if a < s.len() && s[a] == '[' {
                let b = a + 1 + first_index_of(s.subrange(a + 1, s.len() as int), ']');
                if b < s.len() {
                    Some((a, b))
                } else {
                    None
                }
            } else {
                None
            }
        } else {
            None
        }
    } else {
        None
    }
}

/// Where the `version-files` array starts in `s`.
pub open spec fn files_arrays(s: Seq<char>) -> spec_fn(int) -> bool {
    |i: int| files_array_at(s, i) is Some
}

/// The text between the brackets of the first `version-files` array of `s`.
pub open spec fn files_array_text(s: Seq<char>) -> Option<Seq<char>> {
    match first_at_or_after(s.len() - 1, 0, files_arrays(s)) {
        Some(i) => match files_array_at(s, i) {
            Some(q) => Some(s.subrange(q.0 + 1, q.1)),
            None => None,
        },
        None => None,
    }
}

/// The strings of `g` from index `pos` on, as the successive matches of `"([^"]+)"` give them:
/// a quote, one or more other characters, a quote.
pub open spec fn quoted_from(g: Seq<char>, pos: int) -> Seq<Seq<char>>
    decreases g.len() - pos,
{
    if pos < 0 || pos >= g.len() {
        seq![]
    } else {
        let b = pos + 1 + first_index_of(g.subrange(pos + 1, g.len() as int), '"');
        if g[pos] == '"' && pos + 1 < b < g.len() {
            seq![g.subrange(pos + 1, b)] + quoted_from(g, b + 1)
        } else {
            quoted_from(g, pos + 1)
        }
    }
}

/// The strings found from a place depend only on the text from there on.
proof fn lemma_quoted_from_shift(g1: Seq<char>, p1: int, g2: Seq<char>, p2: int)
    requires
        0 <= p1 <= g1.len(),
        0 <= p2 <= g2.len(),
        g1.subrange(p1, g1.len() as int) == g2.subrange(p2, g2.len() as int),
    ensures
        quoted_from(g1, p1) == quoted_from(g2, p2),
    decreases g1.len() - p1,
{
    let r1 = g1.subrange(p1, g1.len() as int);
    let r2 = g2.subrange(p2, g2.len() as int);
    assert(r1.len() == r2.len());
    if p1 < g1.len() {
        assert(g1[p1] == r1[0]);
        assert(g2[p2] == r2[0]);
        let t1 = g1.subrange(p1 + 1, g1.len() as int);
        let t2 = g2.subrange(p2 + 1, g2.len() as int);
        assert(t1 =~= r1.drop_first());
        assert(t2 =~= r2.drop_first());
        let k = first_index_of(t1, '"');
        lemma_first_index_of(t1, '"');
        let b1 = p1 + 1 + k;
        let b2 = p2 + 1 + k;
        if g1[p1] == '"' && p1 + 1 < b1 < g1.len() {
            assert(g1.subrange(p1 + 1, b1) =~= g2.subrange(p2 + 1, b2)) by {
                assert forall|j: int| 0 <= j < k implies #[trigger] g1.subrange(p1 + 1, b1)[j]
                    == g2.subrange(p2 + 1, b2)[j] by {
                    assert(t1[j] == t2[j]);
                }
            }
            assert(g1.subrange(b1 + 1, g1.len() as int) =~= r1.subrange(k + 2, r1.len() as int));
            assert(g2.subrange(b2 + 1, g2.len() as int) =~= r2.subrange(k + 2, r2.len() as int));
            lemma_quoted_from_shift(g1, b1 + 1, g2, b2 + 1);
        } else {
            assert(g1.subrange(p1 + 1, g1.len() as int) =~= g2.subrange(p2 + 1, g2.len() as int));
            lemma_quoted_from_shift(g1, p1 + 1, g2, p2 + 1);
        }
    }
}

/// Text without a double quote contributes no string: the strings of `t + rest` are those of
/// `rest`.
pub proof fn law_quoted_strings_skip_plain_text(t: Seq<char>, rest: Seq<char>)
    requires
        !t.contains('"'),
    ensures
        quoted_from(t + rest, 0) == quoted_from(rest, 0),
{
    lemma_quoted_plain(t, rest, 0);
}

proof fn lemma_quoted_plain(t: Seq<char>, rest: Seq<char>, i: int)
    requires
        !t.contains('"'),
        0 <= i <= t.len(),
    ensures
        quoted_from(t + rest, i) == quoted_from(rest, 0),
    decreases t.len() - i,
{
    let g = t + rest;
    if i < t.len() {
        assert(g[i] == t[i]);
        if t[i] == '"' {
            assert(t.contains('"'));
        }
        lemma_quoted_plain(t, rest, i + 1);
    } else {
        assert(g.subrange(i, g.len() as int) =~= rest.subrange(0, rest.len() as int));
        lemma_quoted_from_shift(g, i, rest, 0);
    }
}

/// Law: a double-quoted string of one or more characters other than `"` is listed, and the
/// listing goes on with what follows its closing quote, whatever that is (`,`, `, `, a line
/// break, or the next quote at once).
pub proof fn law_quoted_string_is_listed(x: Seq<char>, rest: Seq<char>)
    requires
        x.len() >= 1,
        !x.contains('"'),
    ensures
        quoted_from(seq!['"'] + x + seq!['"'] + rest, 0) == seq![x] + quoted_from(rest, 0),
{
    let g = seq!['"'] + x + seq!['"'] + rest;
    let n = x.len() as int;
    let t = g.subrange(1, g.len() as int);
    assert forall|j: int| 0 <= j < n implies t[j] != '"' by {
        assert(t[j] == x[j]);
        if x[j] == '"' {
            assert(x.contains('"'));
        }
    }
    assert(t[n] == '"');
    lemma_first_index_of_is(t, '"', n);
    assert(g.subrange(1, 1 + n) =~= x);
    assert(g.subrange(n + 2, g.len() as int) =~= rest.subrange(0, rest.len() as int));
    lemma_quoted_from_shift(g, n + 2, rest, 0);
}

/// The files that `.oyo.toml` (whose text is `s`) lists under `version-files`; `None` when it has
/// no such array.
pub open spec fn listed_version_files(s: Seq<char>) -> Option<Seq<Seq<char>>> {
    match files_array_text(s) {
        Some(g) => Some(quoted_from(g, 0)),
        None => None,
    }
}

/// The brackets of the `version-files` array that starts at `i`, if one does.
fn files_array_in(s: &[char], i: usize, key: &[char]) -> (r: Option<(usize, usize)>)
    requires
        i <= s.len(),
        key@ == files_key(),
    ensures
        match r {
            Some((a, b)) => files_array_at(s@, i as int) == Some((a as int, b as int)) && a < b
                < s@.len(),
            None => files_array_at(s@, i as int) is None,
        },
{
    if !is_at(s, i, key) {
        return None;
    }
    let e = skip_blanks(s, i + 13);
    if e >= s.len() || s[e] != '=' {
        return None;
    }
    let a = skip_blanks(s, e + 1);
    if a >= s.len() || s[a] != '[' {
        return None;
    }
    let b = find_char(s, a + 1, s.len(), ']');
    if b >= s.len() {
        return None;
    }
    Some((a, b))
}

/// The strings of `g` from `pos` on, as the successive matches of `"([^"]+)"` give them.
fn quoted_strings(g: &[char]) -> (r: Vec<String>)
    ensures
        views(r@) == quoted_from(g@, 0),
{
    let mut r: Vec<String> = Vec::new();
    let mut pos: usize = 0;
    while pos < g.len()
        invariant
            pos <= g.len(),
            views(r@) + quoted_from(g@, pos as int) == quoted_from(g@, 0),
        decreases g.len() - pos,
    {
        let b = find_char(g, pos + 1, g.len(), '"');
        if g[pos] == '"' && pos + 1 < b && b < g.len() {
            let item = string_from(&copy_range(g, pos + 1, b));
            let ghost before = r@;
            r.push(item);
            assert(views(r@) =~= views(before).push(item@));
            assert(views(r@) + quoted_from(g@, b + 1) =~= views(before) + quoted_from(
                g@,
                pos as int,
            ));
            pos = b + 1;
        } else {
            pos += 1;
        }
    }
    assert(views(r@) + quoted_from(g@, pos as int) =~= views(r@));
    r
}

/// The files that `.oyo.toml` (whose text is `config`) lists under `version-files`, in order;
/// `None` when it has no `version-files` array.
pub fn version_files(config: &str) -> (r: Option<Vec<String>>)
    ensures
        match r {
            Some(v) => listed_version_files(config@) == Some(views(v@)),
            None => listed_version_files(config@) is None,
        },
{
    let s = chars_of(config);
    let key = vec!['v', 'e', 'r', 's', 'i', 'o', 'n', '-', 'f', 'i', 'l', 'e', 's'];
    assert(key@ =~= files_key());
    let ghost fp = files_arrays(s@);
    let mut i: usize = 0;
    while i < s.len()
        invariant
            i <= s.len(),
            s@ == config@,
            fp == files_arrays(s@),
            key@ == files_key(),
            forall|j: int| 0 <= j < i ==> !#[trigger] fp(j),
        decreases s.len() - i,
    {
        match files_array_in(&s, i, &key) {
            Some((a, b)) => {
                proof {
                    lemma_first_at_or_after_is(s@.len() - 1, 0, fp, i as int);
                }
                let g = copy_range(&s, a + 1, b);
                return Some(quoted_strings(&g));
            },
            None => {},
        }
        i += 1;
    }
    proof {
        lemma_first_at_or_after_none(s@.len() - 1, 0, fp);
    }
    None
}

// ---------------------------------------------------------------------------
// Phased Versioning strings in the listed files
// ---------------------------------------------------------------------------

/// The class `\d`.
pub open spec fn decimal_digits() -> spec_fn(char) -> bool {
    |c: char| decimal_digit(c)
}

/// The class `[a-z]`.
pub open spec fn lowercase_letters() -> spec_fn(char) -> bool {
    |c: char| ascii_lowercase(c)
}

/// The end of the match of `0|[1-9]\d*` at index `i` of `s` (the first alternative first).
pub open spec fn numeral_end(s: Seq<char>, i: int) -> Option<int> {
    if 0 <= i < s.len() && s[i] == '0' {
        Some(i + 1)
    } else if 0 <= i < s.len() && nonzero_ascii_digit(s[i]) {
        Some(skip_while(s, i + 1, decimal_digits()))
    } else {
        None
    }
}

/// The end of the match of `\bv(0|[1-9]\d*)-[a-z]+\.(0|[1-9]\d*)`, a Phased Versioning version
/// string, at index `i` of `s`.
pub open spec fn version_string_at(s: Seq<char>, i: int) -> Option<int> {
    if 0 <= i < s.len() && s[i] == 'v' && (i == 0 || !word_char(s[i - 1])) {
        match numeral_end(s, i + 1) {
            Some(j) => if j < s.len() && s[j] == '-' {
                let k = skip_while(s, j + 1, lowercase_letters());
                if j + 1 < k < s.len() && s[k] == '.' {
                    numeral_end(s, k + 1)
                } else {
                    None
                }
            } else {
                None
            },
            None => None,
        }
    } else {
        None
    }
}

/// `s` holds a version string.
pub open spec fn has_version_string(s: Seq<char>) -> bool {
    exists|i: int| 0 <= i < s.len() && version_string_at(s, i) is Some
}

/// `s[pos..]` with each version string replaced by `fv`, as the successive non-overlapping
/// matches of `replace_all` find them.
pub open spec fn replace_version_strings(s: Seq<char>, pos: int, fv: Seq<char>) -> Seq<char>
    decreases s.len() - pos,
{
    if pos < 0 || pos >= s.len() {
        seq![]
    } else {
        match version_string_at(s, pos) {
            Some(e) => if pos < e <= s.len() {
                fv + replace_version_strings(s, e, fv)
            } else {
                seq![]
            },
            None => seq![s[pos]] + replace_version_strings(s, pos + 1, fv),
        }
    }
}

/// What a version file becomes.
#[derive(Debug, PartialEq, Eq)]
pub enum VersionFileUpdate {
    /// The file holds no version string: listing it is an error.
    NoVersionString,
    /// Its version strings already are the full version.
    Unchanged,
    /// Its new text.
    Updated(String),
}

/// The end of the run of `\d` that starts at `i`.
fn skip_decimal_digits(s: &[char], i: usize) -> (r: usize)
    requires
        i <= s.len(),
    ensures
        r == skip_while(s@, i as int, decimal_digits()),
        i <= r <= s.len(),
{
    let mut k = i;
    while k < s.len() && is_decimal_digit(s[k])
        invariant
            i <= k <= s.len(),
            forall|j: int| i <= j < k ==> decimal_digit(#[trigger] s@[j]),
        decreases s.len() - k,
    {
        k += 1;
    }
    proof {
        lemma_skip_while_is(s@, i as int, decimal_digits(), k as int);
    }
    k
}

/// The end of the run of `[a-z]` that starts at `i`.
fn skip_lowercase(s: &[char], i: usize) -> (r: usize)
    requires
        i <= s.len(),
    ensures
        r == skip_while(s@, i as int, lowercase_letters()),
        i <= r <= s.len(),
{
    let mut k = i;
    while k < s.len() && 'a' <= s[k] && s[k] <= 'z'
        invariant
            i <= k <= s.len(),
            forall|j: int| i <= j < k ==> ascii_lowercase(#[trigger] s@[j]),
        decreases s.len() - k,
    {
        k += 1;
    }
    proof {
        lemma_skip_while_is(s@, i as int, lowercase_letters(), k as int);
    }
    k
}

/// The end of the match of `0|[1-9]\d*` at `i`, if there is one.
fn numeral_end_in(s: &[char], i: usize) -> (r: Option<usize>)
    requires
        i <= s.len(),
    ensures
        match r {
            Some(e) => numeral_end(s@, i as int) == Some(e as int) && i < e <= s.len(),
            None => numeral_end(s@, i as int) is None,
        },
{
    if i < s.len() && s[i] == '0' {
        Some(i + 1)
    } else if i < s.len() && '1' <= s[i] && s[i] <= '9' {
        Some(skip_decimal_digits(s, i + 1))
    } else {
        None
    }
}

/// The end of the version string that starts at `i`, if one does.
fn version_string_in(s: &[char], i: usize) -> (r: Option<usize>)
    requires
        i <= s.len(),
    ensures
        match r {
            Some(e) => version_string_at(s@, i as int) == Some(e as int) && i < e <= s.len(),
            None => version_string_at(s@, i as int) is None,
        },
{
    if i >= s.len() || s[i] != 'v' || (i > 0 && is_word_char(s[i - 1])) {
        return None;
    }
    let j = match numeral_end_in(s, i + 1) {
        Some(j) => j,
        None => {
            return None;
        },
    };
    if j >= s.len() || s[j] != '-' {
        return None;
    }
    let k = skip_lowercase(s, j + 1);
    if !(j + 1 < k && k < s.len() && s[k] == '.') {
        return None;
    }
    numeral_end_in(s, k + 1)
}

/// Replaces every Phased Versioning version string (`\bv(0|[1-9]\d*)-[a-z]+\.(0|[1-9]\d*)`) of
/// the text `content` of a version file with `full_version`: the file must hold one, and gives new
/// text when the replacement changes it. `full_version` holds no `$`, which the pattern replacement
/// would expand.
pub fn update_version_file(content: &str, full_version: &str) -> (r: VersionFileUpdate)
    requires
        !full_version@.contains('$'),
    ensures
        match r {
            VersionFileUpdate::NoVersionString => !has_version_string(content@),
            VersionFileUpdate::Unchanged => {
                &&& has_version_string(content@)
                &&& replace_version_strings(content@, 0, full_version@) == content@
            },
            VersionFileUpdate::Updated(n) => {
                &&& has_version_string(content@)
                &&& n@ == replace_version_strings(content@, 0, full_version@)
                &&& n@ != content@
            },
        },
{
    let s = chars_of(content);
    let fv = chars_of(full_version);
    let mut out: Vec<char> = Vec::new();
    let mut found = false;
    let mut pos: usize = 0;
    while pos < s.len()
        invariant
            pos <= s.len(),
            s@ == content@,
            fv@ == full_version@,
            out@ + replace_version_strings(s@, pos as int, fv@) == replace_version_strings(
                s@,
                0,
                fv@,
            ),
            found ==> has_version_string(s@),
            !found ==> forall|j: int| 0 <= j < pos ==> #[trigger] version_string_at(s@, j) is None,
            !found ==> out@ == s@.subrange(0, pos as int),
        decreases s.len() - pos,
    {
        match version_string_in(&s, pos) {
            Some(e) => {
                let ghost before = out@;
                extend_chars(&mut out, &fv);
                assert(out@ + replace_version_strings(s@, e as int, fv@) =~= before
                    + replace_version_strings(s@, pos as int, fv@));
                assert(version_string_at(s@, pos as int) is Some);
                found = true;
                pos = e;
            },
            None => {
                let ghost before = out@;
                out.push(s[pos]);
                assert(out@ + replace_version_strings(s@, pos + 1, fv@) =~= before
                    + replace_version_strings(s@, pos as int, fv@));
                if !found {
                    assert(out@ =~= s@.subrange(0, pos + 1));
                }
                pos += 1;
            },
        }
    }
    assert(out@ + replace_version_strings(s@, pos as int, fv@) =~= out@);
    if !found {
        assert(out@ =~= s@);
        return VersionFileUpdate::NoVersionString;
    }
    if same_chars(&out, &s) {
        VersionFileUpdate::Unchanged
    } else {
        VersionFileUpdate::Updated(string_from(&out))
    }
}

} // verus!
