//! Scanning text for the first place where a pattern holds, and for runs of a character class:
//! the leftmost-first search and the greedy repetition by which the metadata patterns match.
use vstd::prelude::*;

verus! {

/// The first index `k` with `i <= k <= n` at which `p` holds.
pub open spec fn first_at_or_after(n: int, i: int, p: spec_fn(int) -> bool) -> Option<int>
    decreases n + 1 - i,
{
    if i > n {
        None
    } else if p(i) {
        Some(i)
    } else {
        first_at_or_after(n, i + 1, p)
    }
}

/// What `first_at_or_after` finds: the first index of `[i, n]` where `p` holds, if any.
pub proof fn lemma_first_at_or_after(n: int, i: int, p: spec_fn(int) -> bool)
    ensures
        match first_at_or_after(n, i, p) {
            Some(k) => i <= k <= n && p(k) && forall|j: int| i <= j < k ==> !#[trigger] p(j),
            None => forall|j: int| i <= j <= n ==> !#[trigger] p(j),
        },
    decreases n + 1 - i,
{
    if i <= n && !p(i) {
        lemma_first_at_or_after(n, i + 1, p);
        match first_at_or_after(n, i + 1, p) {
            Some(k) => {
                assert forall|j: int| i <= j < k implies !#[trigger] p(j) by {
                    if j > i {
                    }
                }
            },
            None => {},
        }
    }
}

/// `first_at_or_after` gives `Some(k)` when `k` is the first index of `[i, n]` where `p` holds.
pub proof fn lemma_first_at_or_after_is(n: int, i: int, p: spec_fn(int) -> bool, k: int)
    requires
        i <= k <= n,
        p(k),
        forall|j: int| i <= j < k ==> !#[trigger] p(j),
    ensures
        first_at_or_after(n, i, p) == Some(k),
{
    lemma_first_at_or_after(n, i, p);
    match first_at_or_after(n, i, p) {
        Some(k2) => {
            if k2 < k {
                assert(!p(k2));
            }
            if k < k2 {
                assert(!p(k));
            }
        },
        None => {
            assert(!p(k));
        },
    }
}

/// `first_at_or_after` gives `None` when `p` holds nowhere in `[i, n]`.
pub proof fn lemma_first_at_or_after_none(n: int, i: int, p: spec_fn(int) -> bool)
    requires
        forall|j: int| i <= j <= n ==> !#[trigger] p(j),
    ensures
        first_at_or_after(n, i, p) is None,
{
    lemma_first_at_or_after(n, i, p);
    if let Some(k) = first_at_or_after(n, i, p) {
        assert(!p(k));
    }
}

/// The end of the run of characters of class `c` that starts at `i` in `s`.
pub open spec fn skip_while(s: Seq<char>, i: int, c: spec_fn(char) -> bool) -> int
    decreases s.len() - i,
{
    if 0 <= i < s.len() && c(s[i]) {
        skip_while(s, i + 1, c)
    } else {
        i
    }
}

/// What `skip_while` gives: the end of the longest run of class `c` from `i`.
pub proof fn lemma_skip_while(s: Seq<char>, i: int, c: spec_fn(char) -> bool)
    requires
        0 <= i <= s.len(),
    ensures
        i <= skip_while(s, i, c) <= s.len(),
        forall|j: int| i <= j < skip_while(s, i, c) ==> #[trigger] c(s[j]),
        skip_while(s, i, c) < s.len() ==> !c(s[skip_while(s, i, c)]),
    decreases s.len() - i,
{
    if i < s.len() && c(s[i]) {
        lemma_skip_while(s, i + 1, c);
    }
}

/// `s1` and `s2` hold the same characters below index `m`.
pub open spec fn agree_below(s1: Seq<char>, s2: Seq<char>, m: int) -> bool {
    &&& 0 <= m <= s1.len()
    &&& m <= s2.len()
    &&& forall|k: int| 0 <= k < m ==> #[trigger] s1[k] == s2[k]
}

/// A run that ends where two texts still agree ends at the same place in both.
pub proof fn lemma_skip_while_prefix(
    s1: Seq<char>,
    s2: Seq<char>,
    i: int,
    c: spec_fn(char) -> bool,
    m: int,
)
    requires
        agree_below(s1, s2, m),
        0 <= i <= s1.len(),
        skip_while(s1, i, c) < m,
    ensures
        skip_while(s2, i, c) == skip_while(s1, i, c),
    decreases s1.len() - i,
{
    lemma_skip_while(s1, i, c);
    if i < s1.len() && c(s1[i]) {
        assert(s2[i] == s1[i]);
        lemma_skip_while_prefix(s1, s2, i + 1, c, m);
    } else if i < s1.len() {
        assert(s2[i] == s1[i]);
    }
}

/// Runs from two places behind which the texts are the same have the same length.
pub proof fn lemma_skip_while_shift(
    s1: Seq<char>,
    i1: int,
    s2: Seq<char>,
    i2: int,
    c: spec_fn(char) -> bool,
)
    requires
        0 <= i1 <= s1.len(),
        0 <= i2 <= s2.len(),
        s1.subrange(i1, s1.len() as int) == s2.subrange(i2, s2.len() as int),
    ensures
        skip_while(s1, i1, c) - i1 == skip_while(s2, i2, c) - i2,
    decreases s1.len() - i1,
{
    let r1 = s1.subrange(i1, s1.len() as int);
    let r2 = s2.subrange(i2, s2.len() as int);
    assert(r1.len() == r2.len());
    if i1 < s1.len() {
        assert(s1[i1] == r1[0]);
        assert(s2[i2] == r2[0]);
        if c(s1[i1]) {
            assert(s1.subrange(i1 + 1, s1.len() as int) =~= r1.drop_first());
            assert(s2.subrange(i2 + 1, s2.len() as int) =~= r2.drop_first());
            lemma_skip_while_shift(s1, i1 + 1, s2, i2 + 1, c);
        }
    }
}

/// Runs from two places that see the same characters over a window of `w` have the same length,
/// when the run in the first text ends inside the window, or when in both texts the window is
/// followed by the end or by a character out of the class.
pub proof fn lemma_skip_while_window(
    a: Seq<char>,
    i: int,
    b: Seq<char>,
    j: int,
    c: spec_fn(char) -> bool,
    w: int,
)
    requires
        0 <= i,
        0 <= j,
        0 <= w,
        i + w <= a.len(),
        j + w <= b.len(),
        forall|t: int| 0 <= t < w ==> #[trigger] a[i + t] == b[j + t],
        skip_while(a, i, c) < i + w || ((i + w == a.len() || !c(a[i + w])) && (j + w == b.len()
            || !c(b[j + w]))),
    ensures
        skip_while(b, j, c) - j == skip_while(a, i, c) - i,
    decreases w,
{
    lemma_skip_while(a, i, c);
    if w > 0 {
        assert(a[i + 0] == b[j + 0]);
        if c(a[i]) {
            assert forall|t: int| 0 <= t < w - 1 implies #[trigger] a[(i + 1) + t] == b[(j + 1)
                + t] by {
                assert(a[i + (t + 1)] == b[j + (t + 1)]);
            }
            lemma_skip_while_window(a, i + 1, b, j + 1, c, w - 1);
        }
    }
}

/// `skip_while` gives `k` when `s[i..k]` is of class `c` and `s[k]` is not (or `k` is the end).
pub proof fn lemma_skip_while_is(s: Seq<char>, i: int, c: spec_fn(char) -> bool, k: int)
    requires
        0 <= i <= k <= s.len(),
        forall|j: int| i <= j < k ==> #[trigger] c(s[j]),
        k < s.len() ==> !c(s[k]),
    ensures
        skip_while(s, i, c) == k,
    decreases k - i,
{
    if i < k {
        lemma_skip_while_is(s, i + 1, c, k);
    }
}

/// `[ \t]`.
pub open spec fn blank(c: char) -> bool {
    c == ' ' || c == '\t'
}

/// The class `[ \t]`.
pub open spec fn blanks() -> spec_fn(char) -> bool {
    |c: char| blank(c)
}

/// The end of the run of `[ \t]` that starts at `i` in `s`.
pub fn skip_blanks(s: &[char], i: usize) -> (r: usize)
    requires
        i <= s.len(),
    ensures
        r == skip_while(s@, i as int, blanks()),
        i <= r <= s.len(),
        forall|j: int| i <= j < r ==> blank(#[trigger] s@[j]),
        r < s.len() ==> !blank(s@[r as int]),
{
    let mut k = i;
    while k < s.len() && (s[k] == ' ' || s[k] == '\t')
        invariant
            i <= k <= s.len(),
            forall|j: int| i <= j < k ==> blank(s@[j]),
        decreases s.len() - k,
    {
        k += 1;
    }
    proof {
        lemma_skip_while_is(s@, i as int, blanks(), k as int);
    }
    k
}

/// Whether `s` holds `lit` at index `i`.
pub open spec fn holds_at(s: Seq<char>, i: int, lit: Seq<char>) -> bool {
    &&& 0 <= i
    &&& i + lit.len() <= s.len()
    &&& s.subrange(i, i + lit.len()) == lit
}

/// Whether `s` holds `lit` at index `i`.
pub fn is_at(s: &[char], i: usize, lit: &[char]) -> (r: bool)
    ensures
        r == holds_at(s@, i as int, lit@),
{
    if i > s.len() || s.len() - i < lit.len() {
        return false;
    }
    let mut k: usize = 0;
    while k < lit.len()
        invariant
            k <= lit.len(),
            i + lit.len() <= s.len(),
            forall|j: int| 0 <= j < k ==> s@[i + j] == lit@[j],
        decreases lit.len() - k,
    {
        if s[i + k] != lit[k] {
            assert(s@.subrange(i as int, i + lit.len())[k as int] == s@[i + k]);
            return false;
        }
        k += 1;
    }
    assert(s@.subrange(i as int, i + lit.len()) =~= lit@);
    true
}

/// Index `i` starts a line of `s`: it is 0 or follows a `'\n'`.
pub open spec fn line_start(s: Seq<char>, i: int) -> bool {
    i == 0 || (0 < i <= s.len() && s[i - 1] == '\n')
}

/// Whether index `i` starts a line of `s`.
pub fn is_line_start(s: &[char], i: usize) -> (r: bool)
    requires
        i <= s.len(),
    ensures
        r == line_start(s@, i as int),
{
    i == 0 || s[i - 1] == '\n'
}

} // verus!
