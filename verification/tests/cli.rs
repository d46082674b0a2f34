//! The scenarios of the commands, on the output that Git gives in each.

use oyo::generation::{listed_branch_generations, next_generation, version_branch_name};
use oyo::phase::{generation_for_phase, plan_phase, PhaseError};
use oyo::repo::{head_untagged, repository_initialized};
use oyo::revision::{generation_for_revision, plan_revision, RevisionError};
use oyo::tags::tags_of_listing;

/// The branch that `gen` creates without a number, from the local and remote branch listings.
fn gen_branch(local: &str, remote: &str) -> String {
    let gens = listed_branch_generations(local, remote);
    version_branch_name(next_generation(&gens))
}

fn tags(listing: &str) -> Vec<String> {
    tags_of_listing(listing)
}

#[test]
fn gen_creates_the_first_version_branch() {
    assert!(repository_initialized("* dev"));
    assert_eq!(gen_branch("dev", ""), "v1");
}

#[test]
fn gen_increments_the_highest_local_generation() {
    assert_eq!(gen_branch("dev\nv1\nv4", ""), "v5");
}

#[test]
fn gen_includes_remote_version_branches() {
    assert_eq!(gen_branch("dev", "origin/v3"), "v4");
}

#[test]
fn gen_accepts_an_explicit_generation_number() {
    assert_eq!(version_branch_name(7), "v7");
}

#[test]
fn gen_fails_in_an_uninitialized_repository() {
    assert!(!repository_initialized(""));
}

#[test]
fn phase_initializes_the_first_phase_with_an_annotated_tag() {
    let g = generation_for_phase("v1").unwrap();
    assert_eq!(g, "1");
    let plan = plan_phase(&g, "alameda", &tags("")).unwrap();
    assert_eq!(plan.new_version, "v1-alameda.0");
    assert_eq!(plan.previous, None);
}

#[test]
fn phase_requires_the_first_phase_to_start_with_a() {
    assert_eq!(plan_phase("1", "bravo", &tags("")), Err(PhaseError::FirstPhaseNotA));
}

#[test]
fn phase_rejects_empty_names() {
    assert_eq!(plan_phase("1", "", &tags("")), Err(PhaseError::EmptyName));
    assert_eq!(plan_phase("1", "", &tags("v1-alameda.0")), Err(PhaseError::EmptyName));
}

#[test]
fn phase_rejects_invalid_characters() {
    assert_eq!(plan_phase("1", "Alameda", &tags("")), Err(PhaseError::NotLowercase));
    assert_eq!(plan_phase("1", "alameda1", &tags("")), Err(PhaseError::NotLowercase));
}

#[test]
fn phase_enforces_alphabetic_progression() {
    let t = tags("v1-alameda.0");
    assert_eq!(
        plan_phase("1", "cyrus", &t),
        Err(PhaseError::InvalidJump { previous_phase: String::from("alameda"), expected: 'b' })
    );
    let plan = plan_phase("1", "bravo", &t).unwrap();
    assert_eq!(plan.new_version, "v1-bravo.0");
    assert_eq!(plan.previous, Some((String::from("alameda"), String::from("0"))));
}

#[test]
fn phase_wraps_the_progression_after_z() {
    let t = tags("v1-zulu.0");
    assert_eq!(
        plan_phase("1", "bravo", &t),
        Err(PhaseError::InvalidJump { previous_phase: String::from("zulu"), expected: 'a' })
    );
    assert_eq!(plan_phase("1", "apple", &t).unwrap().new_version, "v1-apple.0");
}

#[test]
fn phase_and_rev_refuse_an_already_tagged_commit() {
    assert!(!head_untagged("v1-alameda.0"));
    assert!(head_untagged(""));
}

#[test]
fn phase_and_rev_require_a_version_branch() {
    assert_eq!(generation_for_phase("dev"), None);
    assert_eq!(generation_for_revision("dev"), None);
}

#[test]
fn rev_bumps_the_revision_with_an_annotated_tag() {
    let g = generation_for_revision("v1").unwrap();
    let plan = plan_revision(&g, &tags("v1-alameda.0")).unwrap();
    assert_eq!(plan.new_version, "v1-alameda.1");
    assert_eq!(plan.previous_revision, 0);
    assert_eq!(plan.phase, "alameda");
}

#[test]
fn rev_requires_an_initialized_phase() {
    assert_eq!(plan_revision("1", &tags("")), Err(RevisionError::NoPhase));
}
