//! Decimal numerals: the `0|[1-9]\d*` grammar of generations and revisions, parsing into `u64`
//! (as `str::parse::<u64>` does) and formatting (as `format!("{}", n)` does).
use crate::text::{ascii_digit, decimal_digit, is_decimal_digit, nonzero_ascii_digit};
use vstd::prelude::*;

verus! {

/// `\d*`: every character of `s` is a decimal digit.
pub open spec fn all_decimal_digits(s: Seq<char>) -> bool {
    forall|i: int| 0 <= i < s.len() ==> decimal_digit(#[trigger] s[i])
}

/// `[1-9]\d*`.
pub open spec fn nonzero_numeral(s: Seq<char>) -> bool {
    &&& s.len() >= 1
    &&& nonzero_ascii_digit(s[0])
    &&& all_decimal_digits(s.drop_first())
}

/// `0|[1-9]\d*`.
pub open spec fn numeral(s: Seq<char>) -> bool {
    s == seq!['0'] || nonzero_numeral(s)
}

/// Whether `s[from..to]` is all decimal digits.
fn decimal_digits_in(s: &[char], from: usize, to: usize) -> (r: bool)
    requires
        from <= to <= s.len(),
    ensures
        r == all_decimal_digits(s@.subrange(from as int, to as int)),
{
    let mut i = from;
    while i < to
        invariant
            from <= i <= to <= s.len(),
            forall|j: int| from <= j < i ==> decimal_digit(#[trigger] s@[j]),
        decreases to - i,
    {
        if !is_decimal_digit(s[i]) {
            assert(s@.subrange(from as int, to as int)[i - from] == s@[i as int]);
            return false;
        }
        i += 1;
    }
    assert forall|j: int| 0 <= j < to - from implies decimal_digit(
        #[trigger] s@.subrange(from as int, to as int)[j],
    ) by {
        assert(s@.subrange(from as int, to as int)[j] == s@[from + j]);
    }
    true
}

/// Whether `s[from..to]` is `[1-9]\d*`.
pub fn is_nonzero_numeral_in(s: &[char], from: usize, to: usize) -> (r: bool)
    requires
        from <= to <= s.len(),
    ensures
        r == nonzero_numeral(s@.subrange(from as int, to as int)),
{
    let ghost t = s@.subrange(from as int, to as int);
    if from == to || !('1' <= s[from] && s[from] <= '9') {
        return false;
    }
    let r = decimal_digits_in(s, from + 1, to);
    assert(t.drop_first() =~= s@.subrange(from + 1, to as int));
    r
}

/// Whether `s[from..to]` is `0|[1-9]\d*`.
pub fn is_numeral_in(s: &[char], from: usize, to: usize) -> (r: bool)
    requires
        from <= to <= s.len(),
    ensures
        r == numeral(s@.subrange(from as int, to as int)),
{
    let ghost t = s@.subrange(from as int, to as int);
    if to - from == 1 && s[from] == '0' {
        assert(t =~= seq!['0']);
        return true;
    }
    proof {
        if t == seq!['0'] {
            assert(t[0] == s@[from as int]);
        }
    }
    is_nonzero_numeral_in(s, from, to)
}

// ---------------------------------------------------------------------------
// Values
// ---------------------------------------------------------------------------

/// The value of the ASCII digit `c`.
pub open spec fn digit_value(c: char) -> nat {
    ((c as u32) - 48) as nat
}

/// The value of the ASCII digits `s`, most significant first.
pub open spec fn digits_value(s: Seq<char>) -> nat
    decreases s.len(),
{
    if s.len() == 0 {
        0
    } else {
        digits_value(s.drop_last()) * 10 + digit_value(s.last())
    }
}

/// Every character of `s` is in `[0-9]`.
pub open spec fn all_ascii_digits(s: Seq<char>) -> bool {
    forall|i: int| 0 <= i < s.len() ==> ascii_digit(#[trigger] s[i])
}

/// What `str::parse::<u64>` gives for `s`: an optional `+`, then one or more ASCII digits whose
/// value fits in a `u64`; anything else is an error, here `None`.
pub open spec fn parsed_u64(s: Seq<char>) -> Option<u64> {
    let d = if s.len() > 0 && s[0] == '+' {
        s.drop_first()
    } else {
        s
    };
    if d.len() > 0 && all_ascii_digits(d) && digits_value(d) <= u64::MAX {
        Some(digits_value(d) as u64)
    } else {
        None
    }
}

/// Appending digits never lowers the value.
proof fn lemma_digits_value_grows(s: Seq<char>, k: int)
    requires
        0 <= k <= s.len(),
        all_ascii_digits(s),
    ensures
        digits_value(s.subrange(0, k)) <= digits_value(s),
    decreases s.len() - k,
{
    if k < s.len() {
        lemma_digits_value_grows(s, k + 1);
        assert(s.subrange(0, k + 1).drop_last() =~= s.subrange(0, k));
        assert(ascii_digit(s[k]));
    } else {
        assert(s.subrange(0, k) =~= s);
    }
}

/// `str::parse::<u64>` on the characters `s`.
pub fn parse_u64(s: &[char]) -> (r: Option<u64>)
    ensures
        r == parsed_u64(s@),
{
    let start: usize = if s.len() > 0 && s[0] == '+' {
        1
    } else {
        0
    };
    let ghost d = s@.subrange(start as int, s@.len() as int);
    assert(d =~= (if s@.len() > 0 && s@[0] == '+' {
        s@.drop_first()
    } else {
        s@
    }));
    if start == s.len() {
        return None;
    }
    let mut value: u64 = 0;
    let mut i = start;
    while i < s.len()
        invariant
            start <= i <= s.len(),
            d == s@.subrange(start as int, s@.len() as int),
            d == (if s@.len() > 0 && s@[0] == '+' {
                s@.drop_first()
            } else {
                s@
            }),
            all_ascii_digits(d.subrange(0, i - start)),
            value == digits_value(d.subrange(0, i - start)),
        decreases s.len() - i,
    {
        let c = s[i];
        if !('0' <= c && c <= '9') {
            assert(d[i - start] == c);
            return None;
        }
        let digit = (c as u32 - 48) as u64;
        let ghost prefix = d.subrange(0, i + 1 - start);
        assert(prefix.drop_last() =~= d.subrange(0, i - start));
        assert(prefix.last() == c);
        assert(all_ascii_digits(prefix)) by {
            assert forall|j: int| 0 <= j < prefix.len() implies ascii_digit(#[trigger] prefix[j]) by {
                if j < prefix.len() - 1 {
                    assert(prefix[j] == d.subrange(0, i - start)[j]);
                }
            }
        }
        if value > (u64::MAX - digit) / 10 {
            assert(value * 10 + digit > u64::MAX) by (nonlinear_arith)
                requires
                    value > (u64::MAX - digit) / 10,
                    digit <= 9,
            ;
            proof {
                if all_ascii_digits(d) {
                    lemma_digits_value_grows(d, i + 1 - start);
                }
            }
            return None;
        }
        value = value * 10 + digit;
        i += 1;
    }
    assert(d.subrange(0, d.len() as int) =~= d);
    Some(value)
}

// ---------------------------------------------------------------------------
// Formatting
// ---------------------------------------------------------------------------

/// The ASCII digit of value `d`.
pub open spec fn digit_char(d: nat) -> char {
    (48 + d) as char
}

/// The decimal numeral of `n`, as `format!("{}", n)` writes it.
pub open spec fn decimal(n: nat) -> Seq<char>
    decreases n,
{
    if n < 10 {
        seq![digit_char(n)]
    } else {
        decimal(n / 10).push(digit_char(n % 10))
    }
}

/// Appends the decimal numeral of `n` to `v`.
pub fn push_decimal(v: &mut Vec<char>, n: u64)
    ensures
        final(v)@ == old(v)@ + decimal(n as nat),
    decreases n,
{
    if n >= 10 {
        push_decimal(v, n / 10);
    }
    let d = (n % 10) as u8;
    let c = (48u8 + d) as char;
    assert(c == digit_char((n % 10) as nat));
    v.push(c);
    assert(old(v)@ + decimal(n as nat) =~= if n >= 10 {
        old(v)@ + decimal((n / 10) as nat) + seq![c]
    } else {
        old(v)@ + seq![c]
    });
}

/// The decimal numeral of `n`.
pub fn decimal_of(n: u64) -> (r: Vec<char>)
    ensures
        r@ == decimal(n as nat),
{
    let mut v: Vec<char> = Vec::new();
    push_decimal(&mut v, n);
    assert(v@ =~= decimal(n as nat));
    v
}

// ---------------------------------------------------------------------------
// Laws
// ---------------------------------------------------------------------------

/// Digit characters and their values correspond.
proof fn lemma_digit_char(d: nat, c: char)
    ensures
        d < 10 ==> ascii_digit(digit_char(d)) && digit_value(digit_char(d)) == d,
        ascii_digit(c) ==> digit_value(c) < 10 && digit_char(digit_value(c)) == c,
{
    if d < 10 {
        assert((digit_char(d) as u32) == 48 + d);
    }
    if ascii_digit(c) {
        assert(48 <= (c as u32) <= 57);
        assert(((48 + digit_value(c)) as char) == c);
    }
}

/// The shape and the value of `decimal(n)`.
pub proof fn lemma_decimal(n: nat)
    ensures
        decimal(n).len() >= 1,
        all_ascii_digits(decimal(n)),
        digits_value(decimal(n)) == n,
        n == 0 ==> decimal(n) == seq!['0'],
        n >= 1 ==> nonzero_ascii_digit(decimal(n)[0]),
    decreases n,
{
    lemma_digit_char(n % 10, ' ');
    if n >= 10 {
        lemma_decimal(n / 10);
        let d = decimal(n);
        assert(d.drop_last() =~= decimal(n / 10));
        assert forall|i: int| 0 <= i < d.len() implies ascii_digit(#[trigger] d[i]) by {
            if i < d.len() - 1 {
                assert(d[i] == decimal(n / 10)[i]);
            }
        }
        assert(d[0] == decimal(n / 10)[0]);
        assert(d.last() == digit_char(n % 10));
        assert(digits_value(d) == digits_value(decimal(n / 10)) * 10 + digit_value(d.last()));
        assert((n / 10) * 10 + n % 10 == n);
    } else {
        let d = decimal(n);
        assert(d.drop_last() =~= Seq::<char>::empty());
        assert(d.last() == digit_char(n));
        assert(digits_value(d) == digits_value(d.drop_last()) * 10 + digit_value(d.last()));
    }
}

/// A numeral made of ASCII digits that starts with a non-zero digit has a positive value.
proof fn lemma_leading_digit_positive(s: Seq<char>)
    requires
        s.len() >= 1,
        nonzero_ascii_digit(s[0]),
        all_ascii_digits(s),
    ensures
        digits_value(s) >= 1,
    decreases s.len(),
{
    if s.len() > 1 {
        let t = s.drop_last();
        assert(t[0] == s[0]);
        assert forall|i: int| 0 <= i < t.len() implies ascii_digit(#[trigger] t[i]) by {
            assert(t[i] == s[i]);
        }
        lemma_leading_digit_positive(t);
    } else {
        assert(s.drop_last() =~= Seq::<char>::empty());
    }
}

/// `decimal(n)` is a numeral of the `0|[1-9]\d*` grammar.
pub proof fn lemma_decimal_is_numeral(n: nat)
    ensures
        numeral(decimal(n)),
        all_ascii_digits(decimal(n)),
{
    lemma_decimal(n);
    let d = decimal(n);
    if n >= 1 {
        assert forall|i: int| 0 <= i < d.drop_first().len() implies decimal_digit(
            #[trigger] d.drop_first()[i],
        ) by {
            assert(d.drop_first()[i] == d[i + 1]);
            assert(ascii_digit(d[i + 1]));
        }
    }
}

/// Law: parsing the numeral that formatting writes gives the number back.
pub proof fn law_parse_of_decimal(n: u64)
    ensures
        parsed_u64(decimal(n as nat)) == Some(n),
{
    lemma_decimal(n as nat);
}

/// Law: a numeral of ASCII digits is the decimal numeral of its own value, so formatting what
/// parsing gives writes the same characters back.
pub proof fn law_decimal_of_value(s: Seq<char>)
    requires
        numeral(s),
        all_ascii_digits(s),
    ensures
        decimal(digits_value(s)) == s,
    decreases s.len(),
{
    if s.len() == 1 {
        assert(s.drop_last() =~= Seq::<char>::empty());
        assert(ascii_digit(s[0]));
        lemma_digit_char(0, s[0]);
        assert(digits_value(s) == digits_value(s.drop_last()) * 10 + digit_value(s.last()));
        assert(digits_value(s) == digit_value(s[0]));
        assert(decimal(digits_value(s)) == seq![digit_char(digit_value(s[0]))]);
        assert(decimal(digits_value(s)) =~= s);
    } else {
        let t = s.drop_last();
        assert(s != seq!['0']) by {
            assert(s.len() != 1);
        }
        assert(t[0] == s[0]);
        assert forall|i: int| 0 <= i < t.len() implies ascii_digit(#[trigger] t[i]) by {
            assert(t[i] == s[i]);
        }
        assert forall|i: int| 0 <= i < t.drop_first().len() implies decimal_digit(
            #[trigger] t.drop_first()[i],
        ) by {
            assert(t.drop_first()[i] == s.drop_first()[i]);
        }
        lemma_leading_digit_positive(t);
        law_decimal_of_value(t);
        let v = digits_value(s);
        assert(ascii_digit(s.last()));
        lemma_digit_char(0, s.last());
        assert(v / 10 == digits_value(t));
        assert(v % 10 == digit_value(s.last()));
        assert(decimal(v) =~= t.push(s.last()));
        assert(t.push(s.last()) =~= s);
    }
}

} // verus!
