//! The `rev` command: the revision of the branch's last full version tag, plus one.
use crate::decimal::{
    decimal, digit_value, digits_value, is_numeral_in, law_parse_of_decimal,
    lemma_decimal_is_numeral, numeral, parse_u64, parsed_u64, push_decimal,
};
use crate::phase::{
    expected_initial, law_last_tag_after_phase, phase_name_valid, phase_tag, semver_of,
};
use crate::tags::{
    count_distinct_phases, distinct_phase_count, full_version, last_tag_parts, last_version_tag,
    law_tag_parts_of_full_version, lemma_last_tag_parts, lemma_push_to_set, phases_in, tag_parts,
    views,
};
use crate::text::{chars_of, copy_range, extend_chars, string_from};
use vstd::prelude::*;

verus! {

/// Why no revision can be bumped.
#[derive(Debug, PartialEq, Eq)]
pub enum RevisionError {
    /// The branch has no full version tag: no phase was started on it.
    NoPhase,
    /// The revision of the last full version tag does not parse as a `u64` (too large, or
    /// written with digits outside ASCII).
    InvalidRevision,
    /// The revision of the last full version tag is `u64::MAX`: the next one does not fit.
    RevisionLimit,
}

/// What the `rev` command tags and records.
#[derive(Debug, PartialEq, Eq)]
pub struct RevisionPlan {
    /// The new full version, `v{gen}-{phase}.{revision + 1}`.
    pub new_version: String,
    /// Its SemVer projection, `{gen}.{phases - 1}.{revision + 1}`.
    pub semver: String,
    /// The phase of the last full version tag, which the new one keeps.
    pub phase: String,
    /// The revision of the last full version tag.
    pub previous_revision: u64,
}

/// The generation digits of a branch that `rev` accepts: the branch matches `^v(0|[1-9]\d*)$`.
pub open spec fn revision_branch_generation(branch: Seq<char>) -> Option<Seq<char>> {
    if branch.len() >= 1 && branch[0] == 'v' && numeral(branch.drop_first()) {
        Some(branch.drop_first())
    } else {
        None
    }
}

/// The generation digits of the current branch, when `rev` accepts it as a version branch.
pub fn generation_for_revision(branch: &str) -> (r: Option<String>)
    ensures
        match r {
            Some(g) => revision_branch_generation(branch@) == Some(g@),
            None => revision_branch_generation(branch@) is None,
        },
{
    let b = chars_of(branch);
    if b.len() == 0 || b[0] != 'v' {
        return None;
    }
    assert(b@.drop_first() =~= b@.subrange(1, b@.len() as int));
    if is_numeral_in(&b, 1, b.len()) {
        Some(string_from(&copy_range(&b, 1, b.len())))
    } else {
        None
    }
}

/// The full version that `rev` tags on the branch of generation `g`, when its last full version
/// tag has a revision that parses.
pub open spec fn revision_tag(g: Seq<char>, tags: Seq<Seq<char>>) -> Option<Seq<char>> {
    match last_tag_parts(tags, g) {
        Some(parts) => match parsed_u64(parts.1) {
            Some(n) => Some(full_version(g, parts.0, decimal((n + 1) as nat))),
            None => None,
        },
        None => None,
    }
}

/// The last full version tag among `tags` has the revision `u64::MAX`, whose increment overflows.
pub open spec fn revision_at_limit(g: Seq<char>, tags: Seq<Seq<char>>) -> bool {
    last_tag_parts(tags, g) matches Some(parts) && parsed_u64(parts.1) == Some(u64::MAX)
}

/// A branch with a full version tag has at least one phase.
proof fn lemma_tagged_branch_has_phase(tags: Seq<Seq<char>>, g: Seq<char>)
    requires
        last_tag_parts(tags, g) is Some,
    ensures
        distinct_phase_count(tags, g) >= 1,
{
    lemma_last_tag_parts(tags, g);
    let parts = last_tag_parts(tags, g)->0;
    let k = choose|k: int| 0 <= k < tags.len() && tag_parts(tags[k], g) == Some(parts);
    lemma_phase_listed(tags, g, k, parts.0);
    let s = phases_in(tags, g).to_set();
    assert(s.contains(parts.0));
    vstd::seq_lib::seq_to_set_is_finite(phases_in(tags, g));
    if s.len() == 0 {
        s.lemma_len0_is_empty();
    }
}

/// The phase of every full version tag among `tags` is among `phases_in(tags, g)`.
pub proof fn lemma_phase_listed(tags: Seq<Seq<char>>, g: Seq<char>, k: int, p: Seq<char>)
    requires
        0 <= k < tags.len(),
        tag_parts(tags[k], g) matches Some(parts) && parts.0 == p,
    ensures
        phases_in(tags, g).contains(p),
    decreases tags.len(),
{
    let t = tags.drop_last();
    if k == tags.len() - 1 {
        let ph = phases_in(tags, g);
        assert(ph[ph.len() - 1] == p);
    } else {
        assert(tags[k] == t[k]);
        lemma_phase_listed(t, g, k, p);
        let j = choose|j: int| 0 <= j < phases_in(t, g).len() && phases_in(t, g)[j] == p;
        assert(phases_in(tags, g)[j] == phases_in(t, g)[j]);
    }
}

/// Plans the `rev` command on the branch of generation `g` (its digits) whose full version tags,
/// oldest first, are among `tags`: the last full version tag, with its revision plus one, and the
/// SemVer projection of the result. A last revision of `u64::MAX`, whose increment does not fit,
/// is refused.
pub fn plan_revision(g: &str, tags: &[String]) -> (r: Result<RevisionPlan, RevisionError>)
    ensures
        match r {
            Err(RevisionError::NoPhase) => last_tag_parts(views(tags@), g@) is None,
            Err(RevisionError::InvalidRevision) => {
                &&& last_tag_parts(views(tags@), g@) matches Some(parts)
                &&& parsed_u64(parts.1) is None
            },
            Err(RevisionError::RevisionLimit) => revision_at_limit(g@, views(tags@)),
            Ok(plan) => {
                &&& last_tag_parts(views(tags@), g@) matches Some(parts)
                &&& parsed_u64(parts.1) == Some(plan.previous_revision)
                &&& plan.previous_revision < u64::MAX
                &&& !revision_at_limit(g@, views(tags@))
                &&& plan.phase@ == parts.0
                &&& revision_tag(g@, views(tags@)) == Some(plan.new_version@)
                &&& plan.new_version@ == full_version(
                    g@,
                    parts.0,
                    decimal((plan.previous_revision + 1) as nat),
                )
                &&& distinct_phase_count(views(tags@), g@) >= 1
                &&& plan.semver@ == semver_of(
                    g@,
                    (distinct_phase_count(views(tags@), g@) - 1) as nat,
                    decimal((plan.previous_revision + 1) as nat),
                )
            },
        },
{
    let gv = chars_of(g);
    let (phase, rev) = match last_version_tag(tags, &gv) {
        Some(parts) => parts,
        None => {
            return Err(RevisionError::NoPhase);
        },
    };
    let previous = match parse_u64(&rev) {
        Some(n) => n,
        None => {
            return Err(RevisionError::InvalidRevision);
        },
    };
    if previous == u64::MAX {
        return Err(RevisionError::RevisionLimit);
    }
    let next = previous + 1;
    let mut version: Vec<char> = Vec::new();
    version.push('v');
    extend_chars(&mut version, &gv);
    version.push('-');
    extend_chars(&mut version, &phase);
    version.push('.');
    push_decimal(&mut version, next);
    assert(version@ =~= full_version(g@, phase@, decimal(next as nat)));
    let count = count_distinct_phases(tags, &gv);
    proof {
        lemma_tagged_branch_has_phase(views(tags@), g@);
    }
    let mut semver: Vec<char> = Vec::new();
    extend_chars(&mut semver, &gv);
    semver.push('.');
    push_decimal(&mut semver, (count - 1) as u64);
    semver.push('.');
    push_decimal(&mut semver, next);
    assert(semver@ =~= semver_of(g@, (count - 1) as nat, decimal(next as nat)));
    Ok(
        RevisionPlan {
            new_version: string_from(&version),
            semver: string_from(&semver),
            phase: string_from(&phase),
            previous_revision: previous,
        },
    )
}

// ---------------------------------------------------------------------------
// Laws
// ---------------------------------------------------------------------------

/// Law: right after `phase` has tagged `name`, `rev` tags revision `1` of that phase.
pub proof fn law_revision_after_phase(g: Seq<char>, name: Seq<char>, tags: Seq<Seq<char>>)
    requires
        phase_name_valid(name),
    ensures
        revision_tag(g, tags.push(phase_tag(g, name))) == Some(full_version(g, name, seq!['1'])),
        !revision_at_limit(g, tags.push(phase_tag(g, name))),
{
    law_last_tag_after_phase(g, name, tags);
    assert(parsed_u64(seq!['0']) == Some(0u64)) by {
        assert(digits_value(seq!['0']) == digits_value(seq!['0'].drop_last()) * 10 + digit_value(
            '0',
        ));
        assert(seq!['0'].drop_last() =~= Seq::<char>::empty());
    }
    assert(decimal(1) == seq!['1']);
}

/// Law: the tag that `rev` creates becomes the branch's last full version tag, with the same
/// phase and a revision one higher; a second `rev` goes one higher again.
pub proof fn law_revision_after_revision(
    g: Seq<char>,
    tags: Seq<Seq<char>>,
    phase: Seq<char>,
    rev: Seq<char>,
    n: u64,
)
    requires
        last_tag_parts(tags, g) == Some((phase, rev)),
        parsed_u64(rev) == Some(n),
        n < u64::MAX,
    ensures
        revision_tag(g, tags) == Some(full_version(g, phase, decimal((n + 1) as nat))),
        last_tag_parts(tags.push(full_version(g, phase, decimal((n + 1) as nat))), g) == Some(
            (phase, decimal((n + 1) as nat)),
        ),
        n + 1 < u64::MAX ==> revision_tag(
            g,
            tags.push(full_version(g, phase, decimal((n + 1) as nat))),
        ) == Some(full_version(g, phase, decimal((n + 2) as nat))),
{
    lemma_last_tag_parts(tags, g);
    lemma_decimal_is_numeral((n + 1) as nat);
    law_parse_of_decimal((n + 1) as u64);
    law_tag_parts_of_full_version(g, phase, decimal((n + 1) as nat));
    let t = full_version(g, phase, decimal((n + 1) as nat));
    assert(tags.push(t).last() == t);
}

/// Law: a `rev` tag keeps the phase progression where it was: the initial that the next phase
/// needs, and the number of distinct phases, are the same after it.
pub proof fn law_revision_keeps_phase(
    g: Seq<char>,
    tags: Seq<Seq<char>>,
    phase: Seq<char>,
    rev: Seq<char>,
    n: u64,
)
    requires
        last_tag_parts(tags, g) == Some((phase, rev)),
        parsed_u64(rev) == Some(n),
        n < u64::MAX,
    ensures
        expected_initial(
            last_tag_parts(tags.push(full_version(g, phase, decimal((n + 1) as nat))), g),
        ) == expected_initial(last_tag_parts(tags, g)),
        distinct_phase_count(tags.push(full_version(g, phase, decimal((n + 1) as nat))), g)
            == distinct_phase_count(tags, g),
{
    lemma_last_tag_parts(tags, g);
    law_revision_after_revision(g, tags, phase, rev, n);
    let t = full_version(g, phase, decimal((n + 1) as nat));
    let ext = tags.push(t);
    assert(ext.drop_last() =~= tags);
    lemma_decimal_is_numeral((n + 1) as nat);
    law_tag_parts_of_full_version(g, phase, decimal((n + 1) as nat));
    assert(phases_in(ext, g) == phases_in(tags, g).push(phase));
    let k = choose|k: int| 0 <= k < tags.len() && tag_parts(tags[k], g) == Some((phase, rev));
    lemma_phase_listed(tags, g, k, phase);
    lemma_push_to_set(phases_in(tags, g), phase);
    assert(phases_in(tags, g).to_set().contains(phase));
    assert(phases_in(tags, g).to_set().insert(phase) =~= phases_in(tags, g).to_set());
}

} // verus!
