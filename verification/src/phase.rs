//! The `phase` command: a new phase tag `vN-name.0`, under the looped alphabetic progression.
use crate::decimal::{
    all_ascii_digits, decimal, is_nonzero_numeral_in, law_parse_of_decimal, lemma_decimal,
    nonzero_numeral, numeral, parsed_u64, push_decimal,
};
use crate::tags::{
    count_distinct_phases, distinct_phase_count, full_version, last_tag_parts, last_version_tag,
    law_tag_parts_of_full_version, lemma_push_to_set, phases_in, tag_parts, views,
};
use crate::text::{
    all_ascii_lowercase, ascii_digit, ascii_lowercase, chars_of, first_index_of,
    lemma_first_index_of_is, nonzero_ascii_digit, copy_range, extend_chars,
    is_all_ascii_lowercase, string_from,
};
use vstd::prelude::*;

verus! {

/// Why a phase name is refused.
#[derive(Debug, PartialEq, Eq)]
pub enum PhaseError {
    /// The name is empty.
    EmptyName,
    /// The name holds a character outside `[a-z]`.
    NotLowercase,
    /// The branch has no full version tag yet, and the name does not start with `a`.
    FirstPhaseNotA,
    /// The name does not start with the letter that follows the initial of the previous phase
    /// (`a` after `z`).
    InvalidJump { previous_phase: String, expected: char },
}

/// What the `phase` command tags and records.
#[derive(Debug, PartialEq, Eq)]
pub struct PhasePlan {
    /// The new full version, `v{gen}-{name}.0`.
    pub new_version: String,
    /// Its SemVer projection, `{gen}.{phases}.0`, where `phases` counts the distinct phases
    /// already tagged on the branch.
    pub semver: String,
    /// The phase and revision of the branch's last full version tag, if it has one.
    pub previous: Option<(String, String)>,
}

/// The generation digits of a branch that `phase` accepts: the branch matches `^v([1-9]\d*)$`.
pub open spec fn phase_branch_generation(branch: Seq<char>) -> Option<Seq<char>> {
    if branch.len() >= 1 && branch[0] == 'v' && nonzero_numeral(branch.drop_first()) {
        Some(branch.drop_first())
    } else {
        None
    }
}

/// The generation digits of the current branch, when `phase` accepts it as a version branch.
pub fn generation_for_phase(branch: &str) -> (r: Option<String>)
    ensures
        match r {
            Some(g) => phase_branch_generation(branch@) == Some(g@),
            None => phase_branch_generation(branch@) is None,
        },
{
    let b = chars_of(branch);
    if b.len() == 0 || b[0] != 'v' {
        return None;
    }
    assert(b@.drop_first() =~= b@.subrange(1, b@.len() as int));
    if is_nonzero_numeral_in(&b, 1, b.len()) {
        Some(string_from(&copy_range(&b, 1, b.len())))
    } else {
        None
    }
}

/// A phase name that `phase` accepts on its own: one or more of `[a-z]`.
pub open spec fn phase_name_valid(name: Seq<char>) -> bool {
    name.len() > 0 && all_ascii_lowercase(name)
}

/// The letter that follows `c` in the looped alphabet: `a` after `z`.
pub open spec fn next_letter(c: char) -> char {
    if c == 'z' {
        'a'
    } else {
        ((c as u32) + 1) as char
    }
}

/// The initial that a new phase must have after the last full version tag `last`: `a` when there
/// is none, else the letter after the initial of its phase.
pub open spec fn expected_initial(last: Option<(Seq<char>, Seq<char>)>) -> char {
    match last {
        None => 'a',
        Some(parts) => next_letter(parts.0[0]),
    }
}

/// The phase `name` may be tagged on the branch of generation `g` whose tags are `tags`.
pub open spec fn phase_allowed(g: Seq<char>, name: Seq<char>, tags: Seq<Seq<char>>) -> bool {
    &&& phase_name_valid(name)
    &&& name[0] == expected_initial(last_tag_parts(tags, g))
}

/// The full version that `phase` tags for `name` on the branch of generation `g`.
pub open spec fn phase_tag(g: Seq<char>, name: Seq<char>) -> Seq<char> {
    full_version(g, name, seq!['0'])
}

/// The SemVer projection `{g}.{minor}.{patch}`.
pub open spec fn semver_of(g: Seq<char>, minor: nat, patch: Seq<char>) -> Seq<char> {
    g + seq!['.'] + decimal(minor) + seq!['.'] + patch
}

/// Checks a phase name on its own: it must not be empty and must hold only `[a-z]`.
pub fn validate_phase_name(name: &str) -> (r: Result<(), PhaseError>)
    ensures
        match r {
            Ok(()) => phase_name_valid(name@),
            Err(PhaseError::EmptyName) => name@.len() == 0,
            Err(PhaseError::NotLowercase) => name@.len() > 0 && !all_ascii_lowercase(name@),
            Err(_) => false,
        },
{
    let n = chars_of(name);
    if n.len() == 0 {
        return Err(PhaseError::EmptyName);
    }
    if !is_all_ascii_lowercase(&n) {
        return Err(PhaseError::NotLowercase);
    }
    Ok(())
}

/// Plans the `phase` command on the branch of generation `g` (its digits) whose full version tags,
/// oldest first, are among `tags`: checks `name` and its place in the looped alphabetic
/// progression, and gives the new full version and its SemVer projection.
pub fn plan_phase(g: &str, name: &str, tags: &[String]) -> (r: Result<PhasePlan, PhaseError>)
    ensures
        match r {
            Err(PhaseError::EmptyName) => name@.len() == 0,
            Err(PhaseError::NotLowercase) => name@.len() > 0 && !all_ascii_lowercase(name@),
            Err(PhaseError::FirstPhaseNotA) => {
                &&& phase_name_valid(name@)
                &&& last_tag_parts(views(tags@), g@) is None
                &&& name@[0] != 'a'
            },
            Err(PhaseError::InvalidJump { previous_phase, expected }) => {
                &&& phase_name_valid(name@)
                &&& last_tag_parts(views(tags@), g@) matches Some(parts)
                &&& previous_phase@ == parts.0
                &&& expected == next_letter(parts.0[0])
                &&& name@[0] != expected
            },
            Ok(plan) => {
                &&& phase_allowed(g@, name@, views(tags@))
                &&& plan.new_version@ == phase_tag(g@, name@)
                &&& plan.semver@ == semver_of(
                    g@,
                    distinct_phase_count(views(tags@), g@),
                    seq!['0'],
                )
                &&& match plan.previous {
                    None => last_tag_parts(views(tags@), g@) is None,
                    Some((p, v)) => last_tag_parts(views(tags@), g@) == Some((p@, v@)),
                }
            },
        },
{
    validate_phase_name(name)?;
    let gv = chars_of(g);
    let nv = chars_of(name);
    let first = nv[0];
    proof {
        crate::tags::lemma_last_tag_parts(views(tags@), g@);
    }
    let previous = match last_version_tag(tags, &gv) {
        Some((p, v)) => {
            let initial = p[0];
            let expected = if initial == 'z' {
                'a'
            } else {
                assert(ascii_lowercase(p@[0]));
                ((initial as u8) + 1) as char
            };
            assert(expected == next_letter(p@[0]));
            if first != expected {
                return Err(PhaseError::InvalidJump { previous_phase: string_from(&p), expected });
            }
            Some((string_from(&p), string_from(&v)))
        },
        None => {
            if first != 'a' {
                return Err(PhaseError::FirstPhaseNotA);
            }
            None
        },
    };
    let mut version: Vec<char> = Vec::new();
    version.push('v');
    extend_chars(&mut version, &gv);
    version.push('-');
    extend_chars(&mut version, &nv);
    version.push('.');
    version.push('0');
    assert(version@ =~= phase_tag(g@, name@));
    let count = count_distinct_phases(tags, &gv);
    let mut semver: Vec<char> = Vec::new();
    extend_chars(&mut semver, &gv);
    semver.push('.');
    push_decimal(&mut semver, count as u64);
    semver.push('.');
    semver.push('0');
    assert(semver@ =~= semver_of(g@, count as nat, seq!['0']));
    Ok(PhasePlan { new_version: string_from(&version), semver: string_from(&semver), previous })
}

// ---------------------------------------------------------------------------
// Laws
// ---------------------------------------------------------------------------

/// Law: the tag that `phase` creates is a full version tag of its branch, with the new phase and
/// the revision reset to `0`.
pub proof fn law_phase_tag_parts(g: Seq<char>, name: Seq<char>)
    requires
        phase_name_valid(name),
    ensures
        tag_parts(phase_tag(g, name), g) == Some((name, seq!['0'])),
{
    law_tag_parts_of_full_version(g, name, seq!['0']);
}

/// Law: once `phase` has tagged `name`, that tag is the branch's last full version tag.
pub proof fn law_last_tag_after_phase(g: Seq<char>, name: Seq<char>, tags: Seq<Seq<char>>)
    requires
        phase_name_valid(name),
    ensures
        last_tag_parts(tags.push(phase_tag(g, name)), g) == Some((name, seq!['0'])),
{
    law_phase_tag_parts(g, name);
    assert(tags.push(phase_tag(g, name)).last() == phase_tag(g, name));
}

/// Law: on a branch without full version tags, a phase is accepted exactly when its name is valid
/// and starts with `a`.
pub proof fn law_first_phase(g: Seq<char>, name: Seq<char>, tags: Seq<Seq<char>>)
    requires
        last_tag_parts(tags, g) is None,
    ensures
        phase_allowed(g, name, tags) <==> (phase_name_valid(name) && name[0] == 'a'),
{
}

/// Law: after `phase` has tagged `name`, the next phase is accepted exactly when its name is
/// valid and starts with the letter after the initial of `name` (`a` after `z`).
pub proof fn law_phase_after_phase(
    g: Seq<char>,
    name: Seq<char>,
    tags: Seq<Seq<char>>,
    next: Seq<char>,
)
    requires
        phase_allowed(g, name, tags),
    ensures
        phase_allowed(g, next, tags.push(phase_tag(g, name))) <==> (phase_name_valid(next)
            && next[0] == next_letter(name[0])),
{
    law_last_tag_after_phase(g, name, tags);
}

/// The letter `k` steps after `c` in the looped alphabet.
pub open spec fn letter_after(c: char, k: nat) -> char
    decreases k,
{
    if k == 0 {
        c
    } else {
        next_letter(letter_after(c, (k - 1) as nat))
    }
}

/// The letter `k` steps after the lowercase letter `c`, by its place in the alphabet.
proof fn lemma_letter_after(c: char, k: nat)
    requires
        ascii_lowercase(c),
    ensures
        letter_after(c, k) == ((97 + ((c as u32 - 97 + k) % 26)) as char),
        ascii_lowercase(letter_after(c, k)),
    decreases k,
{
    if k > 0 {
        lemma_letter_after(c, (k - 1) as nat);
        let prev = letter_after(c, (k - 1) as nat);
        let i = (c as u32 - 97 + k - 1) % 26;
        assert((c as u32 - 97 + k) % 26 == if i == 25 { 0 } else { i + 1 }) by (nonlinear_arith)
            requires
                i == (c as u32 - 97 + k - 1) % 26,
                c as u32 >= 97,
                k >= 1,
        ;
    }
}

/// Law: the progression loops: 26 phases after any initial, the same initial comes back, and
/// every initial in between is a lowercase letter.
pub proof fn law_progression_loops(c: char)
    requires
        ascii_lowercase(c),
    ensures
        letter_after(c, 26) == c,
        forall|k: nat| ascii_lowercase(#[trigger] letter_after(c, k)),
{
    lemma_letter_after(c, 26);
    assert((c as u32 - 97 + 26) % 26 == c as u32 - 97);
    assert forall|k: nat| ascii_lowercase(#[trigger] letter_after(c, k)) by {
        lemma_letter_after(c, k);
    }
}

/// Law: a phase with a name new on the branch adds one distinct phase, so the MINOR number that
/// `rev` projects afterwards (the count minus one) is the one that `phase` projected.
pub proof fn law_new_phase_counts_once(g: Seq<char>, name: Seq<char>, tags: Seq<Seq<char>>)
    requires
        phase_name_valid(name),
        !phases_in(tags, g).contains(name),
    ensures
        distinct_phase_count(tags.push(phase_tag(g, name)), g) == distinct_phase_count(tags, g)
            + 1,
{
    law_phase_tag_parts(g, name);
    let t = tags.push(phase_tag(g, name));
    assert(t.drop_last() =~= tags);
    assert(phases_in(t, g) == phases_in(tags, g).push(name));
    lemma_push_to_set(phases_in(tags, g), name);
    vstd::seq_lib::seq_to_set_is_finite(phases_in(tags, g));
    assert(!phases_in(tags, g).to_set().contains(name));
}

/// The three fields of a SemVer projection: the text before its first `.`, the text between its
/// first and second `.`, and the rest.
pub open spec fn dot_fields(s: Seq<char>) -> (Seq<char>, Seq<char>, Seq<char>) {
    let i = first_index_of(s, '.');
    let after = s.subrange(i + 1, s.len() as int);
    let j = first_index_of(after, '.');
    (s.subrange(0, i), after.subrange(0, j), after.subrange(j + 1, after.len() as int))
}

/// Law: a SemVer projection reads back as its parts: split at its first two dots it gives the
/// major `g`, a numeral (`0` or one without a leading zero) whose value is the minor, and the
/// patch, whole.
pub proof fn law_semver_fields(g: Seq<char>, minor: u64, patch: Seq<char>)
    requires
        !g.contains('.'),
    ensures
        dot_fields(semver_of(g, minor as nat, patch)).0 == g,
        numeral(dot_fields(semver_of(g, minor as nat, patch)).1),
        parsed_u64(dot_fields(semver_of(g, minor as nat, patch)).1) == Some(minor),
        dot_fields(semver_of(g, minor as nat, patch)).2 == patch,
{
    let d = decimal(minor as nat);
    let s = semver_of(g, minor as nat, patch);
    lemma_decimal(minor as nat);
    law_parse_of_decimal(minor);
    let i = g.len() as int;
    assert forall|k: int| 0 <= k < i implies s[k] != '.' by {
        assert(s[k] == g[k]);
        if g[k] == '.' {
            assert(g.contains('.'));
        }
    }
    lemma_first_index_of_is(s, '.', i);
    let after = s.subrange(i + 1, s.len() as int);
    assert(after =~= d + seq!['.'] + patch);
    assert forall|k: int| 0 <= k < d.len() implies after[k] != '.' by {
        assert(after[k] == d[k]);
        assert(all_ascii_digits(d));
        assert(ascii_digit(d[k]));
    }
    lemma_first_index_of_is(after, '.', d.len() as int);
    assert(s.subrange(0, i) =~= g);
    assert(after.subrange(0, d.len() as int) =~= d);
    assert(after.subrange(d.len() as int + 1, after.len() as int) =~= patch);
    if minor == 0 {
        assert(numeral(d));
    } else {
        assert(nonzero_ascii_digit(d[0]));
        assert(numeral(d));
    }
}

} // verus!
