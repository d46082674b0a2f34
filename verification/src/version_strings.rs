//! What a second replacement of the Phased Versioning strings of a file leaves of the first: the
//! new text holds the full version where the old one held version strings, and nothing else that
//! the pattern matches.
use crate::metadata::{
    decimal_digits, has_version_string, lowercase_letters, numeral_end, replace_version_strings,
    version_string_at,
};
use crate::scan::{
    first_at_or_after, lemma_first_at_or_after, lemma_skip_while, lemma_skip_while_window,
    skip_while,
};
use crate::text::{ascii_digit, decimal_digit, word_char};
use vstd::prelude::*;

verus! {

/// `fv` is one Phased Versioning version string, whole.
pub open spec fn is_version_string(fv: Seq<char>) -> bool {
    version_string_at(fv, 0) == Some(fv.len() as int)
}

/// `fv` ends with the revision `.0`.
pub open spec fn zero_revision(fv: Seq<char>) -> bool {
    fv.len() >= 2 && fv[fv.len() - 2] == '.' && fv[fv.len() - 1] == '0'
}

/// Some version string of `s` is followed at once by a decimal digit, as `v1-alpha.0` is in
/// `v1-alpha.05`.
pub open spec fn digit_after_version_string(s: Seq<char>) -> bool {
    exists|i: int|
        #[trigger] version_string_at(s, i) is Some && version_string_at(s, i).unwrap() < s.len()
            && decimal_digit(s[version_string_at(s, i).unwrap()])
}

/// The version strings that the replacement finds in `s[pos..]`, in order.
pub open spec fn found_version_strings(s: Seq<char>, pos: int) -> Seq<Seq<char>>
    decreases s.len() - pos,
{
    if pos < 0 || pos >= s.len() {
        seq![]
    } else {
        match version_string_at(s, pos) {
            Some(e) => if pos < e <= s.len() {
                seq![s.subrange(pos, e)] + found_version_strings(s, e)
            } else {
                seq![]
            },
            None => found_version_strings(s, pos + 1),
        }
    }
}

/// `a[i..i + w]` and `b[j..j + w]` hold the same characters.
pub open spec fn same_window(a: Seq<char>, i: int, b: Seq<char>, j: int, w: int) -> bool {
    &&& 0 <= i
    &&& 0 <= j
    &&& 0 <= w
    &&& i + w <= a.len()
    &&& j + w <= b.len()
    &&& forall|t: int| 0 <= t < w ==> #[trigger] a[i + t] == b[j + t]
}

proof fn lemma_same_window_part(a: Seq<char>, i: int, b: Seq<char>, j: int, w: int, d: int, w2: int)
    requires
        same_window(a, i, b, j, w),
        0 <= d,
        0 <= w2,
        d + w2 <= w,
    ensures
        same_window(a, i + d, b, j + d, w2),
{
    assert forall|t: int| 0 <= t < w2 implies #[trigger] a[(i + d) + t] == b[(j + d) + t] by {
        assert(a[i + (d + t)] == b[j + (d + t)]);
    }
}

/// What a match of `0|[1-9]\d*` reads: an ASCII digit first, decimal digits throughout, and,
/// when it does not start with `0`, no decimal digit right after it.
proof fn lemma_numeral_end(x: Seq<char>, p: int)
    requires
        numeral_end(x, p) is Some,
    ensures
        0 <= p < x.len(),
        ascii_digit(x[p]),
        p < numeral_end(x, p).unwrap() <= x.len(),
        forall|q: int| p <= q < numeral_end(x, p).unwrap() ==> #[trigger] decimal_digit(x[q]),
        x[p] == '0' ==> numeral_end(x, p).unwrap() == p + 1,
        x[p] != '0' ==> (numeral_end(x, p).unwrap() == x.len() || !decimal_digit(
            x[numeral_end(x, p).unwrap()],
        )),
{
    if x[p] != '0' {
        lemma_skip_while(x, p + 1, decimal_digits());
        assert forall|q: int| p <= q < numeral_end(x, p).unwrap() implies #[trigger] decimal_digit(
            x[q],
        ) by {
            if q > p {
                assert(decimal_digits()(x[q]));
            }
        }
    }
}

/// A decimal digit is a word character.
proof fn lemma_digit_is_word(c: char)
    requires
        decimal_digit(c),
    ensures
        word_char(c),
{
    if (c as u32) < 128 {
        assert(ascii_digit(c));
    } else {
        assert(crate::text::regex_matches(crate::text::digit_pattern(), seq![c]));
    }
}

/// What a version string of `x` at `i` reads: `v`, an ASCII digit, and a decimal digit last.
proof fn lemma_version_string_end(x: Seq<char>, i: int)
    requires
        version_string_at(x, i) is Some,
    ensures
        0 <= i,
        i + 1 < version_string_at(x, i).unwrap() <= x.len(),
        x[i] == 'v',
        i == 0 || !word_char(x[i - 1]),
        ascii_digit(x[i + 1]),
        decimal_digit(x[version_string_at(x, i).unwrap() - 1]),
        word_char(x[version_string_at(x, i).unwrap() - 1]),
{
    lemma_numeral_end(x, i + 1);
    let j = numeral_end(x, i + 1).unwrap();
    let k = skip_while(x, j + 1, lowercase_letters());
    lemma_numeral_end(x, k + 1);
    lemma_digit_is_word(x[version_string_at(x, i).unwrap() - 1]);
}

/// A version string `fv` written at `o` in `n` matches there whole, when nothing before it is a
/// word character and no decimal digit after it lengthens its revision.
proof fn lemma_version_block(n: Seq<char>, o: int, fv: Seq<char>)
    requires
        is_version_string(fv),
        same_window(fv, 0, n, o, fv.len() as int),
        o == 0 || !word_char(n[o - 1]),
        o + fv.len() == n.len() || !decimal_digit(n[o + fv.len()]) || zero_revision(fv),
    ensures
        version_string_at(n, o) == Some(o + fv.len()),
{
    let len = fv.len() as int;
    lemma_version_string_end(fv, 0);
    assert(fv[0int + 0] == n[o + 0]);
    assert(fv[0int + 1] == n[o + 1]);
    lemma_numeral_end(fv, 1);
    let j = numeral_end(fv, 1).unwrap();
    if fv[1] != '0' {
        lemma_skip_while(fv, 2, decimal_digits());
        lemma_same_window_part(fv, 0, n, o, len, 2, len - 2);
        lemma_skip_while_window(fv, 0int + 2, n, o + 2, decimal_digits(), len - 2);
    }
    assert(numeral_end(n, o + 1) == Some(o + j));
    assert(fv[0 + j] == n[o + j]);
    let k = skip_while(fv, j + 1, lowercase_letters());
    lemma_same_window_part(fv, 0, n, o, len, j + 1, len - (j + 1));
    lemma_skip_while_window(fv, 0 + (j + 1), n, o + (j + 1), lowercase_letters(), len - (j + 1));
    assert(skip_while(n, o + j + 1, lowercase_letters()) == o + k);
    assert(fv[0 + k] == n[o + k]);
    assert(fv[0 + (k + 1)] == n[o + (k + 1)]);
    lemma_numeral_end(fv, k + 1);
    if fv[k + 1] != '0' {
        lemma_skip_while(fv, k + 2, decimal_digits());
        if zero_revision(fv) {
            assert(decimal_digit(fv[len - 2]));
        }
        lemma_same_window_part(fv, 0, n, o, len, k + 2, len - (k + 2));
        lemma_skip_while_window(fv, 0 + (k + 2), n, o + (k + 2), decimal_digits(), len - (k + 2));
    }
    assert(numeral_end(n, o + k + 1) == Some(o + len));
}

/// A numeral read over a window of two texts reads the same in both, when the window reaches the
/// end of both texts or ends with a character that is not a decimal digit.
proof fn lemma_numeral_window(a: Seq<char>, p: int, b: Seq<char>, q: int, w: int)
    requires
        same_window(a, p, b, q, w),
        (p + w == a.len() && q + w == b.len()) || (w >= 1 && !decimal_digit(a[p + w - 1])),
    ensures
        (numeral_end(a, p) is Some) == (numeral_end(b, q) is Some),
        numeral_end(a, p) is Some ==> {
            &&& numeral_end(b, q).unwrap() - q == numeral_end(a, p).unwrap() - p
            &&& numeral_end(a, p).unwrap() <= p + w
            &&& (p + w == a.len() && q + w == b.len()) || numeral_end(a, p).unwrap() < p + w
        },
{
    if w >= 1 {
        assert(a[p + 0] == b[q + 0]);
        if a[p] != '0' && ascii_digit(a[p]) {
            lemma_skip_while(a, p + 1, decimal_digits());
            if !(p + w == a.len() && q + w == b.len()) {
                if skip_while(a, p + 1, decimal_digits()) >= p + w {
                    assert(decimal_digits()(a[p + w - 1]));
                }
            }
            lemma_same_window_part(a, p, b, q, w, 1, w - 1);
            lemma_skip_while_window(a, p + 1, b, q + 1, decimal_digits(), w - 1);
        }
    }
}

/// Where two texts agree from `i` and `j` over a window of `w`, behind which they are both word
/// characters or both not, a version string starts at `i` of the first exactly when one starts at
/// `j` of the second, when the window reaches the end of both texts, or ends with a `v` that an
/// ASCII digit follows in both.
proof fn lemma_version_string_window(a: Seq<char>, i: int, b: Seq<char>, j: int, w: int)
    requires
        same_window(a, i, b, j, w),
        w >= 1,
        (i == 0 || !word_char(a[i - 1])) == (j == 0 || !word_char(b[j - 1])),
        (i + w == a.len() && j + w == b.len()) || (w >= 2 && a[i + w - 1] == 'v' && i + w
            < a.len() && j + w < b.len() && ascii_digit(a[i + w]) && ascii_digit(b[j + w])),
    ensures
        (version_string_at(a, i) is Some) == (version_string_at(b, j) is Some),
{
    let tail_end = i + w == a.len() && j + w == b.len();
    assert(a[i + 0] == b[j + 0]);
    if a[i] == 'v' && (i == 0 || !word_char(a[i - 1])) {
        if w == 1 {
            // The window ends both texts: no numeral follows the `v`.
        } else {
            lemma_same_window_part(a, i, b, j, w, 1, w - 1);
            lemma_numeral_window(a, i + 1, b, j + 1, w - 1);
            if numeral_end(a, i + 1) is Some {
                lemma_numeral_end(a, i + 1);
                let e1 = numeral_end(a, i + 1).unwrap();
                let d = e1 - i;
                assert(numeral_end(b, j + 1) == Some(j + d));
                if e1 < i + w {
                    assert(a[i + d] == b[j + d]);
                    if a[e1] == '-' {
                        lemma_skip_while(a, e1 + 1, lowercase_letters());
                        lemma_same_window_part(a, i, b, j, w, d + 1, w - (d + 1));
                        lemma_skip_while_window(
                            a,
                            i + (d + 1),
                            b,
                            j + (d + 1),
                            lowercase_letters(),
                            w - (d + 1),
                        );
                        let k = skip_while(a, e1 + 1, lowercase_letters());
                        let dk = k - i;
                        assert(skip_while(b, j + d + 1, lowercase_letters()) == j + dk);
                        if k > i + w {
                            assert(lowercase_letters()(a[i + w]));
                        }
                        assert(k <= i + w);
                        if k == i + w {
                            assert(version_string_at(a, i) is None);
                            assert(version_string_at(b, j) is None);
                        }
                        if k < i + w {
                            assert(a[i + dk] == b[j + dk]);
                            if e1 + 1 < k && a[k] == '.' {
                                lemma_same_window_part(a, i, b, j, w, dk + 1, w - (dk + 1));
                                lemma_numeral_window(a, k + 1, b, j + dk + 1, w - (dk + 1));
                            }
                        }
                    }
                }
            }
        }
    }
}

/// A run of `s` in which no version string starts is copied as it is.
proof fn lemma_plain_run(s: Seq<char>, fv: Seq<char>, a: int, m: int)
    requires
        0 <= a <= m <= s.len(),
        forall|q: int| a <= q < m ==> #[trigger] version_string_at(s, q) is None,
    ensures
        replace_version_strings(s, a, fv) == s.subrange(a, m) + replace_version_strings(s, m, fv),
    decreases m - a,
{
    if a < m {
        lemma_plain_run(s, fv, a + 1, m);
        assert(version_string_at(s, a) is None);
        assert(s.subrange(a, m) =~= seq![s[a]] + s.subrange(a + 1, m));
    } else {
        assert(s.subrange(a, m) =~= seq![]);
    }
}

/// The replacement finds something in `s[pos..]` only where a version string starts.
proof fn lemma_found_has(s: Seq<char>, pos: int)
    requires
        found_version_strings(s, pos).len() > 0,
    ensures
        has_version_string(s),
    decreases s.len() - pos,
{
    if 0 <= pos < s.len() {
        if version_string_at(s, pos) is None {
            lemma_found_has(s, pos + 1);
        }
    }
}

/// The replacement finds something in `s[pos..]` when a version string starts at `i` there.
proof fn lemma_has_found(s: Seq<char>, pos: int, i: int)
    requires
        0 <= pos <= i < s.len(),
        version_string_at(s, i) is Some,
    ensures
        found_version_strings(s, pos).len() > 0,
    decreases i - pos,
{
    if version_string_at(s, pos) is Some {
        lemma_version_string_end(s, pos);
    } else {
        lemma_has_found(s, pos + 1, i);
    }
}

/// In the replaced text, the full version written for the version string of `s` at `pos`
/// matches whole, and the rest of the text follows it.
proof fn lemma_rescan_block(s: Seq<char>, fv: Seq<char>, pos: int, e: int, n: Seq<char>, o: int)
    requires
        is_version_string(fv),
        zero_revision(fv) || !digit_after_version_string(s),
        version_string_at(s, pos) == Some(e),
        0 <= o <= n.len(),
        n.subrange(o, n.len() as int) == fv + replace_version_strings(s, e, fv),
        (pos == 0 && o == 0) || (0 < pos && 0 < o && word_char(n[o - 1]) == word_char(s[pos - 1])),
    ensures
        version_string_at(n, o) == Some(o + fv.len()),
        n.subrange(o + fv.len(), n.len() as int) == replace_version_strings(s, e, fv),
        n.subrange(o, o + fv.len()) == fv,
        word_char(n[o + fv.len() - 1]),
        word_char(s[e - 1]),
        pos < e <= s.len(),
{
    let tail = n.subrange(o, n.len() as int);
    let len = fv.len() as int;
    let rest = replace_version_strings(s, e, fv);
    lemma_version_string_end(fv, 0);
    lemma_version_string_end(s, pos);
    assert(tail == fv + rest);
    assert(tail.len() == len + rest.len());
    assert(o + len <= n.len());
    assert forall|t: int| 0 <= t < len implies #[trigger] fv[0 + t] == n[o + t] by {
        assert(tail[t] == n[o + t]);
        assert((fv + rest)[t] == fv[t]);
    }
    if !zero_revision(fv) && e < s.len() {
        if version_string_at(s, e) is Some {
            lemma_version_string_end(s, e);
        }
        assert(!digit_after_version_string(s));
        if decimal_digit(s[e]) {
            assert(version_string_at(s, pos) is Some && version_string_at(s, pos).unwrap() < s.len()
                && decimal_digit(s[version_string_at(s, pos).unwrap()]));
            assert(digit_after_version_string(s));
        }
        assert(!decimal_digit(s[e]));
        assert(tail[len] == n[o + len]);
        assert(tail[len] == rest[0]);
    }
    lemma_version_block(n, o, fv);
    assert(tail[len - 1] == n[o + len - 1]);
    assert(tail[len - 1] == fv[len - 1]);
    assert(n.subrange(o + len, n.len() as int) =~= rest) by {
        assert(n.subrange(o + len, n.len() as int) =~= tail.subrange(len, tail.len() as int));
        assert(tail.subrange(len, tail.len() as int) =~= rest);
    }
    assert(n.subrange(o, o + len) =~= fv) by {
        assert(n.subrange(o, o + len) =~= tail.subrange(0, len));
        assert(tail.subrange(0, len) =~= fv);
    }
}

/// In the replaced text, no version string starts where the replacement copied a character of
/// `s` at which none starts.
proof fn lemma_rescan_plain(s: Seq<char>, fv: Seq<char>, pos: int, n: Seq<char>, o: int)
    requires
        is_version_string(fv),
        0 <= pos < s.len(),
        version_string_at(s, pos) is None,
        0 <= o <= n.len(),
        n.subrange(o, n.len() as int) == replace_version_strings(s, pos, fv),
        (pos == 0 && o == 0) || (0 < pos && 0 < o && word_char(n[o - 1]) == word_char(s[pos - 1])),
    ensures
        version_string_at(n, o) is None,
        o < n.len(),
        n[o] == s[pos],
        n.subrange(o + 1, n.len() as int) == replace_version_strings(s, pos + 1, fv),
{
    let tail = n.subrange(o, n.len() as int);
    lemma_version_string_end(fv, 0);
    let p = |q: int| version_string_at(s, q) is Some;
    lemma_first_at_or_after(s.len() - 1, pos + 1, p);
    let m = match first_at_or_after(s.len() - 1, pos + 1, p) {
        Some(m) => m,
        None => s.len() as int,
    };
    assert forall|q: int| pos + 1 <= q < m implies #[trigger] version_string_at(s, q) is None by {
        assert(!p(q));
    }
    lemma_plain_run(s, fv, pos + 1, m);
    let run = s.subrange(pos, m);
    assert(run =~= seq![s[pos]] + s.subrange(pos + 1, m));
    assert(tail =~= run + replace_version_strings(s, m, fv));
    assert forall|t: int| 0 <= t < m - pos implies #[trigger] s[pos + t] == n[o + t] by {
        assert(tail[t] == n[o + t]);
        assert(run[t] == s[pos + t]);
    }
    if m < s.len() {
        assert(p(m));
        lemma_version_string_end(s, m);
        let em = version_string_at(s, m).unwrap();
        let after = replace_version_strings(s, m, fv);
        assert(after == fv + replace_version_strings(s, em, fv));
        assert(tail[m - pos] == n[o + (m - pos)]);
        assert(tail[m - pos] == after[0]);
        assert(tail[m - pos + 1] == n[o + (m - pos) + 1]);
        assert(tail[m - pos + 1] == after[1]);
        assert forall|t: int| 0 <= t < m - pos + 1 implies #[trigger] s[pos + t] == n[o + t] by {
            if t < m - pos {
                assert(tail[t] == n[o + t]);
                assert(run[t] == s[pos + t]);
            }
        }
        lemma_version_string_window(s, pos, n, o, m - pos + 1);
    } else {
        assert(replace_version_strings(s, m, fv) == Seq::<char>::empty());
        lemma_version_string_window(s, pos, n, o, m - pos);
    }
    assert(n[o] == tail[0]);
    assert(tail =~= seq![s[pos]] + replace_version_strings(s, pos + 1, fv));
    assert(n.subrange(o + 1, n.len() as int) =~= tail.subrange(1, tail.len() as int));
    assert(tail.subrange(1, tail.len() as int) =~= replace_version_strings(s, pos + 1, fv));
}

/// The second replacement, from `o` of the replaced text `n`, which holds the first replacement
/// from `pos` of `s`, gives back what it reads.
proof fn lemma_rescan(s: Seq<char>, fv: Seq<char>, pos: int, n: Seq<char>, o: int)
    requires
        is_version_string(fv),
        zero_revision(fv) || !digit_after_version_string(s),
        0 <= pos <= s.len(),
        0 <= o <= n.len(),
        n.subrange(o, n.len() as int) == replace_version_strings(s, pos, fv),
        (pos == 0 && o == 0) || (0 < pos && 0 < o && word_char(n[o - 1]) == word_char(s[pos - 1])),
    ensures
        replace_version_strings(n, o, fv) == replace_version_strings(s, pos, fv),
        found_version_strings(n, o).len() == found_version_strings(s, pos).len(),
        forall|k: int|
            0 <= k < found_version_strings(n, o).len() ==> #[trigger] found_version_strings(n, o)[k]
                == fv,
    decreases s.len() - pos,
{
    if pos == s.len() {
        assert(n.subrange(o, n.len() as int).len() == 0);
        return;
    }
    match version_string_at(s, pos) {
        Some(e) => {
            let len = fv.len() as int;
            lemma_version_string_end(fv, 0);
            lemma_version_string_end(s, pos);
            assert(replace_version_strings(s, pos, fv) == fv + replace_version_strings(s, e, fv));
            lemma_rescan_block(s, fv, pos, e, n, o);
            lemma_rescan(s, fv, e, n, o + len);
            let rest = found_version_strings(n, o + len);
            assert(found_version_strings(n, o) == seq![fv] + rest);
            assert forall|k: int|
                0 <= k < found_version_strings(n, o).len() implies #[trigger] found_version_strings(
                n,
                o,
            )[k] == fv by {
                if k > 0 {
                    assert(found_version_strings(n, o)[k] == rest[k - 1]);
                }
            }
        },
        None => {
            lemma_rescan_plain(s, fv, pos, n, o);
            lemma_rescan(s, fv, pos + 1, n, o + 1);
        },
    }
}

/// Law: replacing the version strings of a text with a full version a second time changes
/// nothing more, so that a second update of a version file with the same version reports it
/// unchanged; the version strings that the replacement finds in the new text are all the full
/// version, as many as it found in the old text, and a text that held one still does. This holds
/// unless the full version's revision is not 0 and a version string of the old text is followed
/// by a decimal digit.
pub proof fn law_version_file_update_is_stable(s: Seq<char>, fv: Seq<char>)
    requires
        is_version_string(fv),
        zero_revision(fv) || !digit_after_version_string(s),
    ensures
        ({
            let n = replace_version_strings(s, 0, fv);
            &&& replace_version_strings(n, 0, fv) == n
            &&& found_version_strings(n, 0).len() == found_version_strings(s, 0).len()
            &&& forall|k: int|
                0 <= k < found_version_strings(n, 0).len() ==> #[trigger] found_version_strings(
                    n,
                    0,
                )[k] == fv
            &&& has_version_string(s) ==> has_version_string(n)
        }),
{
    let n = replace_version_strings(s, 0, fv);
    assert(n.subrange(0, n.len() as int) =~= n);
    lemma_rescan(s, fv, 0, n, 0);
    if has_version_string(s) {
        let i = choose|i: int| 0 <= i < s.len() && version_string_at(s, i) is Some;
        lemma_has_found(s, 0, i);
        lemma_found_has(n, 0);
    }
}

} // verus!
