//! Preconditions on the repository that the commands check from Git's output, and the message of
//! the commit that carries synchronized version metadata.
use crate::decimal::{all_ascii_digits, decimal, lemma_decimal};
use crate::generation::branch_name_of;
use crate::text::{ascii_digit, chars_of, extend_chars, string_from, trim, trimmed};
use vstd::prelude::*;

verus! {

/// Whether the repository has a commit: `git branch --list` lists some branch.
pub fn repository_initialized(branch_listing: &str) -> (r: bool)
    ensures
        r == (trimmed(branch_listing@).len() > 0),
{
    let t = trim(&chars_of(branch_listing));
    t.len() > 0
}

/// Whether the checked-out commit carries no tag: `git tag --points-at HEAD` lists none.
pub fn head_untagged(tags_at_head: &str) -> (r: bool)
    ensures
        r == (trimmed(tags_at_head@).len() == 0),
{
    let t = trim(&chars_of(tags_at_head));
    t.len() == 0
}

/// `chore: Bump the version to `.
pub open spec fn bump_message_prefix() -> Seq<char> {
    seq![
        'c', 'h', 'o', 'r', 'e', ':', ' ', 'B', 'u', 'm', 'p', ' ', 't', 'h', 'e', ' ', 'v', 'e',
        'r', 's', 'i', 'o', 'n', ' ', 't', 'o', ' ',
    ]
}

/// The message of the commit that carries the version metadata of `full_version`:
/// `chore: Bump the version to {full_version}.`.
pub fn bump_commit_message(full_version: &str) -> (r: String)
    ensures
        r@ == bump_message_prefix() + full_version@ + seq!['.'],
{
    let mut m = vec![
        'c', 'h', 'o', 'r', 'e', ':', ' ', 'B', 'u', 'm', 'p', ' ', 't', 'h', 'e', ' ', 'v', 'e',
        'r', 's', 'i', 'o', 'n', ' ', 't', 'o', ' ',
    ];
    assert(m@ =~= bump_message_prefix());
    extend_chars(&mut m, &chars_of(full_version));
    m.push('.');
    string_from(&m)
}

/// A branch that the version label counts as a version branch: `v` then one or more ASCII digits.
pub open spec fn labelled_version_branch(name: Seq<char>) -> bool {
    name.len() >= 2 && name[0] == 'v' && all_ascii_digits(name.drop_first())
}

/// `unknown`.
pub open spec fn unknown_label() -> Seq<char> {
    seq!['u', 'n', 'k', 'n', 'o', 'w', 'n']
}

/// The version label of a build, from the checked-out branch and the tag that names the
/// checked-out commit exactly (each `None` when Git gives nothing): on a version branch, the tag
/// or else the branch; on another branch, the branch; with no branch, the tag or else `unknown`.
pub open spec fn version_label(branch: Option<Seq<char>>, exact_tag: Option<Seq<char>>) -> Seq<
    char,
> {
    match branch {
        Some(b) => if labelled_version_branch(b) {
            match exact_tag {
                Some(t) => t,
                None => b,
            }
        } else {
            b
        },
        None => match exact_tag {
            Some(t) => t,
            None => unknown_label(),
        },
    }
}

/// Whether `name` is `v` then one or more ASCII digits.
pub fn is_labelled_version_branch(name: &str) -> (r: bool)
    ensures
        r == labelled_version_branch(name@),
{
    let n = chars_of(name);
    if n.len() < 2 || n[0] != 'v' {
        return false;
    }
    let mut i: usize = 1;
    while i < n.len()
        invariant
            1 <= i <= n@.len(),
            n@ == name@,
            forall|j: int| 1 <= j < i ==> ascii_digit(#[trigger] n@[j]),
        decreases n.len() - i,
    {
        if !('0' <= n[i] && n[i] <= '9') {
            assert(n@.drop_first()[i - 1] == n@[i as int]);
            return false;
        }
        i += 1;
    }
    assert forall|j: int| 0 <= j < n@.drop_first().len() implies ascii_digit(
        #[trigger] n@.drop_first()[j],
    ) by {
        assert(n@.drop_first()[j] == n@[j + 1]);
    }
    true
}

/// The version label of a build (see `version_label`).
pub fn build_version_label(branch: Option<&str>, exact_tag: Option<&str>) -> (r: String)
    ensures
        r@ == version_label(
            match branch {
                Some(b) => Some(b@),
                None => None,
            },
            match exact_tag {
                Some(t) => Some(t@),
                None => None,
            },
        ),
{
    match branch {
        Some(b) => if is_labelled_version_branch(b) {
            match exact_tag {
                Some(t) => string_from(&chars_of(t)),
                None => string_from(&chars_of(b)),
            }
        } else {
            string_from(&chars_of(b))
        },
        None => match exact_tag {
            Some(t) => string_from(&chars_of(t)),
            None => {
                let u = vec!['u', 'n', 'k', 'n', 'o', 'w', 'n'];
                assert(u@ =~= unknown_label());
                string_from(&u)
            },
        },
    }
}

/// Law: on a branch named `v` and one or more ASCII digits (`v1`, `v10`, `v007`), the version
/// label is the tag of the checked-out commit when there is one, else the branch name.
pub proof fn law_label_on_version_branch(digits: Seq<char>, tag: Option<Seq<char>>)
    requires
        digits.len() >= 1,
        forall|i: int| 0 <= i < digits.len() ==> ascii_digit(#[trigger] digits[i]),
    ensures
        version_label(Some(seq!['v'] + digits), tag) == match tag {
            Some(t) => t,
            None => seq!['v'] + digits,
        },
{
    let b = seq!['v'] + digits;
    assert(b.drop_first() =~= digits);
}

/// Law: on a branch whose name is not `v` followed by one or more ASCII digits, the version label
/// is the branch name, whatever tag the commit carries.
pub proof fn law_label_on_other_branch(name: Seq<char>, tag: Option<Seq<char>>)
    requires
        name.len() < 2 || name[0] != 'v' || exists|i: int|
            1 <= i < name.len() && !ascii_digit(#[trigger] name[i]),
    ensures
        version_label(Some(name), tag) == name,
{
    if name.len() >= 2 && name[0] == 'v' {
        let i = choose|i: int| 1 <= i < name.len() && !ascii_digit(#[trigger] name[i]);
        assert(name.drop_first()[i - 1] == name[i]);
    }
}

/// Law: every branch that `gen` creates, `v` and the decimal numeral of its generation, is taken
/// as a version branch: a build on it is labelled with its exact tag when there is one.
pub proof fn law_label_on_created_branch(n: nat, tag: Option<Seq<char>>)
    ensures
        version_label(Some(branch_name_of(n)), tag) == match tag {
            Some(t) => t,
            None => branch_name_of(n),
        },
{
    lemma_decimal(n);
    law_label_on_version_branch(decimal(n), tag);
}

} // verus!
