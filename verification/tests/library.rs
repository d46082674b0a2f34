//! Concrete cases of the library's functions and laws.

use oyo::decimal::{decimal_of, parse_u64};
use oyo::generation::{
    generation_of_branch, listed_branch_generations, next_generation, try_next_generation,
    version_branch_name,
};
use oyo::metadata::{
    sync_lockfile, sync_manifest, update_version_file, version_files, ManifestUpdate,
    VersionFileUpdate,
};
use oyo::phase::{generation_for_phase, plan_phase, validate_phase_name, PhaseError};
use oyo::repo::{build_version_label, bump_commit_message, head_untagged, repository_initialized};
use oyo::revision::{generation_for_revision, plan_revision, RevisionError};
use oyo::tags::{count_distinct_phases, last_version_tag, tags_of_listing};
use oyo::text::{chars_of, is_decimal_digit, is_white_space, is_word_char, string_from, trim};

fn chars(s: &str) -> Vec<char> {
    s.chars().collect()
}

fn owned(v: &[&str]) -> Vec<String> {
    v.iter().map(|s| s.to_string()).collect()
}

// ----------------------------------------------------------------------------------------------
// Text
// ----------------------------------------------------------------------------------------------

#[test]
fn white_space_is_what_std_calls_white_space() {
    for code in 0u32..0x11_0000 {
        if let Some(c) = char::from_u32(code) {
            assert_eq!(is_white_space(c), c.is_whitespace(), "U+{:04X}", code);
        }
    }
}

#[test]
fn trim_is_what_str_trim_gives() {
    for s in ["", "  ", " a ", "\t\r\nab c\u{3000}", "\u{85}x\u{a0}", "abc", "\u{2028} v1 \u{2029}"] {
        assert_eq!(string_from(&trim(&chars(s))), s.trim(), "{:?}", s);
    }
}

#[test]
fn chars_and_strings_convert_both_ways() {
    let s = "v1-éte.0 ☃";
    assert_eq!(chars_of(s), chars(s));
    assert_eq!(string_from(&chars(s)), s);
}

// ----------------------------------------------------------------------------------------------
// Decimal numerals
// ----------------------------------------------------------------------------------------------

#[test]
fn parse_u64_is_what_str_parse_gives() {
    for s in [
        "0",
        "7",
        "+5",
        "+",
        "",
        "-1",
        "12a",
        "007",
        "18446744073709551615",
        "18446744073709551616",
        "99999999999999999999999",
        "1\u{663}",
        " 1",
    ] {
        assert_eq!(parse_u64(&chars(s)), s.parse::<u64>().ok(), "{:?}", s);
    }
}

#[test]
fn decimal_is_what_format_writes() {
    for n in [0u64, 1, 9, 10, 42, 1_000_000, 1234567890, u64::MAX] {
        assert_eq!(string_from(&decimal_of(n)), format!("{}", n));
    }
}

#[test]
fn parsing_a_formatted_number_gives_it_back() {
    for n in [0u64, 5, 10, 99, 100, 4_294_967_296, u64::MAX - 1, u64::MAX] {
        assert_eq!(parse_u64(&decimal_of(n)), Some(n));
    }
}

#[test]
fn decimal_digits_follow_the_regex_class() {
    assert!(is_decimal_digit('0'));
    assert!(is_decimal_digit('9'));
    assert!(is_decimal_digit('\u{663}'));
    assert!(is_decimal_digit('\u{ff15}'));
    assert!(!is_decimal_digit('a'));
    assert!(!is_decimal_digit('-'));
    assert!(!is_decimal_digit('\u{bd}'));
    assert!(!is_decimal_digit('\u{2163}'));
}

#[test]
fn word_characters_follow_the_regex_class() {
    for c in ['a', 'Z', '0', '_', '\u{e9}', '\u{663}', '\u{4e2d}'] {
        assert!(is_word_char(c), "{:?}", c);
    }
    for c in ['-', ' ', '.', '$', '\u{2014}', '\u{3000}'] {
        assert!(!is_word_char(c), "{:?}", c);
    }
}

// ----------------------------------------------------------------------------------------------
// Generations
// ----------------------------------------------------------------------------------------------

#[test]
fn generations_of_branch_names() {
    assert_eq!(generation_of_branch("v0"), Some(0));
    assert_eq!(generation_of_branch("v12"), Some(12));
    assert_eq!(generation_of_branch("v00"), None);
    assert_eq!(generation_of_branch("v012"), None);
    assert_eq!(generation_of_branch("v"), None);
    assert_eq!(generation_of_branch("dev"), None);
    assert_eq!(generation_of_branch("v1-alpha"), None);
    assert_eq!(generation_of_branch("V1"), None);
    assert_eq!(generation_of_branch("v18446744073709551615"), Some(u64::MAX));
    assert_eq!(generation_of_branch("v18446744073709551616"), None);
    // A non-ASCII decimal digit matches the pattern but does not parse.
    assert_eq!(generation_of_branch("v1\u{663}"), None);
}

#[test]
fn listed_generations_keep_the_order_of_the_listings() {
    let gens = listed_branch_generations(" dev \nv2\r\nv7\nfeature\n", "origin/v3\norigin\nup/stream/v9\n");
    assert_eq!(gens, vec![2, 7, 3]);
}

#[test]
fn the_next_generation_is_one_past_the_highest() {
    assert_eq!(next_generation(&[]), 1);
    assert_eq!(next_generation(&[0]), 1);
    assert_eq!(next_generation(&[3, 9, 2]), 10);
    assert_eq!(next_generation(&[u64::MAX - 1]), u64::MAX);
}

#[test]
fn no_generation_past_the_limit() {
    assert_eq!(try_next_generation(&[]), Some(1));
    assert_eq!(try_next_generation(&[4, 2]), Some(5));
    let gens = listed_branch_generations("dev
v18446744073709551615", "");
    assert_eq!(gens, vec![u64::MAX]);
    assert_eq!(try_next_generation(&gens), None);
}

#[test]
fn a_new_branch_is_newer_than_every_listed_one() {
    let gens = listed_branch_generations("dev\nv4\nv11", "origin/v12\nfork/v2");
    let next = next_generation(&gens);
    assert_eq!(next, 13);
    assert!(gens.iter().all(|g| *g < next));
    let name = version_branch_name(next);
    assert_eq!(name, "v13");
    assert_eq!(generation_of_branch(&name), Some(next));
}

// ----------------------------------------------------------------------------------------------
// Tags
// ----------------------------------------------------------------------------------------------

#[test]
fn tag_listings_drop_blank_lines() {
    assert_eq!(tags_of_listing("v1-a.0\n\n  v1-b.1  \r\n"), owned(&["v1-a.0", "v1-b.1"]));
    assert_eq!(tags_of_listing(""), Vec::<String>::new());
}

#[test]
fn the_last_tag_of_the_generation_is_found() {
    let t = owned(&["v1-alpha.0", "v1-bravo.0", "v10-charlie.0", "v1-Delta.0", "v1-bravo.01", "v1-.3", "v1-echo"]);
    assert_eq!(last_version_tag(&t, &chars("1")), Some((chars("bravo"), chars("0"))));
    assert_eq!(last_version_tag(&t, &chars("10")), Some((chars("charlie"), chars("0"))));
    assert_eq!(last_version_tag(&t, &chars("2")), None);
}

#[test]
fn distinct_phases_are_counted_once() {
    let t = owned(&["v1-alpha.0", "v1-alpha.1", "v1-bravo.0", "v2-charlie.0", "v1-alpha.2", "junk"]);
    assert_eq!(count_distinct_phases(&t, &chars("1")), 2);
    assert_eq!(count_distinct_phases(&t, &chars("2")), 1);
    assert_eq!(count_distinct_phases(&t, &chars("3")), 0);
}

// ----------------------------------------------------------------------------------------------
// Phases and revisions
// ----------------------------------------------------------------------------------------------

#[test]
fn phase_branches_exclude_generation_zero() {
    assert_eq!(generation_for_phase("v0"), None);
    assert_eq!(generation_for_revision("v0"), Some(String::from("0")));
    assert_eq!(generation_for_phase("v25"), Some(String::from("25")));
    assert_eq!(generation_for_phase("v2x"), None);
}

#[test]
fn phase_names_are_checked_on_their_own() {
    assert_eq!(validate_phase_name("alpha"), Ok(()));
    assert_eq!(validate_phase_name(""), Err(PhaseError::EmptyName));
    assert_eq!(validate_phase_name("al pha"), Err(PhaseError::NotLowercase));
    assert_eq!(validate_phase_name("été"), Err(PhaseError::NotLowercase));
}

#[test]
fn phase_projects_the_number_of_phases_as_minor() {
    let t = owned(&["v3-alpha.0", "v3-alpha.1", "v3-bravo.0"]);
    let plan = plan_phase("3", "charlie", &t).unwrap();
    assert_eq!(plan.new_version, "v3-charlie.0");
    assert_eq!(plan.semver, "3.2.0");
    assert_eq!(plan.previous, Some((String::from("bravo"), String::from("0"))));
}

#[test]
fn the_progression_loops_through_the_alphabet() {
    let mut t: Vec<String> = Vec::new();
    let mut name = String::from("a");
    for _ in 0..27 {
        let plan = plan_phase("1", &name, &t).unwrap();
        t.push(plan.new_version);
        let next = (b'a' + ((name.as_bytes()[0] - b'a' + 1) % 26)) as char;
        name = next.to_string();
    }
    assert_eq!(t[25], "v1-z.0");
    assert_eq!(t[26], "v1-a.0");
    // The wrap keeps counting phases: 26 distinct names were used.
    assert_eq!(plan_phase("1", "b", &t).unwrap().semver, "1.26.0");
}

#[test]
fn revision_projects_the_phase_index_and_the_revision() {
    let t = owned(&["v2-alpha.0", "v2-bravo.0", "v2-bravo.1"]);
    let plan = plan_revision("2", &t).unwrap();
    assert_eq!(plan.new_version, "v2-bravo.2");
    assert_eq!(plan.semver, "2.1.2");
    assert_eq!(plan.previous_revision, 1);
}

#[test]
fn revision_after_phase_is_one() {
    let mut t = owned(&["v1-alpha.0", "v1-alpha.1"]);
    let phase = plan_phase("1", "bravo", &t).unwrap();
    assert_eq!(phase.semver, "1.1.0");
    t.push(phase.new_version);
    let rev = plan_revision("1", &t).unwrap();
    assert_eq!(rev.new_version, "v1-bravo.1");
    // The MINOR number agrees with the one that `phase` projected.
    assert_eq!(rev.semver, "1.1.1");
    t.push(rev.new_version);
    let rev2 = plan_revision("1", &t).unwrap();
    assert_eq!(rev2.new_version, "v1-bravo.2");
    // A revision leaves the progression where it was.
    assert!(matches!(plan_phase("1", "dune", &t), Err(PhaseError::InvalidJump { expected: 'c', .. })));
}

#[test]
fn revision_errors() {
    assert_eq!(plan_revision("1", &owned(&["v1-alpha.18446744073709551616"])), Err(RevisionError::InvalidRevision));
    assert_eq!(plan_revision("1", &owned(&["v1-alpha.1\u{663}"])), Err(RevisionError::InvalidRevision));
    assert_eq!(plan_revision("1", &owned(&["v2-alpha.0"])), Err(RevisionError::NoPhase));
    assert_eq!(plan_revision("1", &owned(&["v1-alpha.18446744073709551615"])), Err(RevisionError::RevisionLimit));
    assert_eq!(
        plan_revision("1", &owned(&["v1-alpha.18446744073709551614"])).unwrap().new_version,
        "v1-alpha.18446744073709551615"
    );
}

// ----------------------------------------------------------------------------------------------
// Repository checks and labels
// ----------------------------------------------------------------------------------------------

#[test]
fn repository_checks() {
    assert!(repository_initialized("  dev\n"));
    assert!(!repository_initialized(" \n\t"));
    assert!(!head_untagged("v1-a.0\nv1-a.1"));
    assert!(head_untagged("\n"));
}

#[test]
fn bump_message() {
    assert_eq!(bump_commit_message("v1-alpha.2"), "chore: Bump the version to v1-alpha.2.");
}

#[test]
fn version_labels() {
    assert_eq!(build_version_label(Some("v1"), Some("v1-alpha.2")), "v1-alpha.2");
    assert_eq!(build_version_label(Some("v1"), None), "v1");
    assert_eq!(build_version_label(Some("v1x"), Some("v1-alpha.2")), "v1x");
    assert_eq!(build_version_label(Some("v"), Some("t")), "v");
    assert_eq!(build_version_label(Some("dev"), Some("t")), "dev");
    assert_eq!(build_version_label(None, Some("v2-a.0")), "v2-a.0");
    assert_eq!(build_version_label(None, None), "unknown");
}

// ----------------------------------------------------------------------------------------------
// Version metadata
// ----------------------------------------------------------------------------------------------

#[test]
fn manifest_version_is_replaced_in_the_package_section() {
    let toml = "[package]\nname = \"demo\"\nversion = \"0.1.0\"\nedition = \"2021\"\n\n[dependencies]\nversion = \"x\"\n";
    let u = sync_manifest(toml, "1.2.3").unwrap();
    assert_eq!(u.crate_name, "demo");
    assert_eq!(
        u.new_content.unwrap(),
        "[package]\nname = \"demo\"\nversion = \"1.2.3\"\nedition = \"2021\"\n\n[dependencies]\nversion = \"x\"\n"
    );
}

#[test]
fn manifest_already_in_step() {
    let toml = "[package]\r\nversion = \"1.2.3\"\r\nname = \"demo\"\r\n";
    assert_eq!(
        sync_manifest(toml, "1.2.3"),
        Some(ManifestUpdate { crate_name: String::from("demo"), new_content: None })
    );
}

#[test]
fn manifest_without_package_version_or_name() {
    assert_eq!(sync_manifest("[workspace]\nversion = \"1\"\nname = \"x\"\n", "2.0.0"), None);
    assert_eq!(sync_manifest("[package]\nname = \"x\"\n[other]\nversion = \"1\"\n", "2.0.0"), None);
    assert_eq!(sync_manifest("[package]\nname = \"\"\nversion = \"1\"\n", "2.0.0"), None);
    assert_eq!(sync_manifest(" [package]\nname = \"x\"\nversion = \"1\"\n", "2.0.0"), None);
    assert_eq!(sync_manifest("[package] x\nname = \"x\"\nversion = \"1\"\n", "2.0.0"), None);
}

#[test]
fn lockfile_entry_of_the_crate_is_replaced() {
    let lock = "[[package]]\nname = \"dep\"\nversion = \"0.1.0\"\n\n[[package]]\nname = \"demo\"\nversion = \"0.1.0\"\n";
    assert_eq!(
        sync_lockfile(lock, "demo", "1.0.0").unwrap(),
        "[[package]]\nname = \"dep\"\nversion = \"0.1.0\"\n\n[[package]]\nname = \"demo\"\nversion = \"1.0.0\"\n"
    );
    assert_eq!(sync_lockfile(lock, "demo", "0.1.0"), None);
    assert_eq!(sync_lockfile(lock, "other", "1.0.0"), None);
    let crlf = "name = \"demo\"\r\nversion = \"0.1.0\"\r\n";
    assert_eq!(sync_lockfile(crlf, "demo", "2.0.0").unwrap(), "name = \"demo\"\r\nversion = \"2.0.0\"\r\n");
}

#[test]
fn version_files_are_listed() {
    let cfg = "# files\nversion-files = [\n  \"README.md\",\n  \"docs/index.md\"\n]\n";
    assert_eq!(version_files(cfg), Some(owned(&["README.md", "docs/index.md"])));
    assert_eq!(version_files("other = 1\n"), None);
    assert_eq!(version_files("version-files = []"), Some(Vec::new()));
    // An empty string is skipped and its closing quote opens the next match.
    assert_eq!(version_files("version-files = [\"\" \"a\"]"), Some(owned(&[" "])));
    assert_eq!(version_files("version-files = [\"a\""), None);
}

#[test]
fn version_strings_are_replaced() {
    assert_eq!(
        update_version_file("See v1-alpha.0 and (v12-bravo.3), not xv1-a.0 or v01-a.0.", "v2-charlie.0"),
        VersionFileUpdate::Updated(String::from(
            "See v2-charlie.0 and (v2-charlie.0), not xv1-a.0 or v01-a.0."
        ))
    );
    assert_eq!(update_version_file("v1-a.0", "v1-a.0"), VersionFileUpdate::Unchanged);
    assert_eq!(update_version_file("no version here", "v1-a.0"), VersionFileUpdate::NoVersionString);
    // A revision of 0 ends the match; the digits after it stay.
    assert_eq!(update_version_file("v1-a.05", "v3-b.1"), VersionFileUpdate::Updated(String::from("v3-b.15")));
}

#[test]
fn formatting_a_parsed_numeral_writes_it_back() {
    for s in ["0", "7", "10", "123", "18446744073709551615"] {
        let n = parse_u64(&chars(s)).unwrap();
        assert_eq!(string_from(&decimal_of(n)), s);
    }
}

#[test]
fn a_matched_tag_is_rebuilt_from_its_parts() {
    for tag in ["v1-alpha.0", "v1-zz.42"] {
        let (phase, rev) = last_version_tag(&owned(&[tag]), &chars("1")).unwrap();
        let rebuilt = format!("v1-{}.{}", string_from(&phase), string_from(&rev));
        assert_eq!(rebuilt, tag);
    }
}

#[test]
fn manifest_sync_is_stable() {
    let toml = "[package]\nname = \"demo\"\nversion = \"0.1.0\"\n[dependencies]\nx = \"1\"\n";
    let first = sync_manifest(toml, "2.3.4").unwrap();
    let synced = first.new_content.unwrap();
    assert_eq!(
        sync_manifest(&synced, "2.3.4"),
        Some(ManifestUpdate { crate_name: String::from("demo"), new_content: None })
    );
}

#[test]
fn manifest_sync_over_a_broken_version_value_is_not_stable() {
    // The old value runs over a line break and swallows the start of the `name` line.
    let toml = "[package]\nversion = \"1\nname = \"a\"\n";
    let first = sync_manifest(toml, "1.2.3").unwrap();
    assert_eq!(first.crate_name, "a");
    let synced = first.new_content.unwrap();
    assert_eq!(synced, "[package]\nversion = \"1.2.3\"a\"\n");
    assert_eq!(sync_manifest(&synced, "1.2.3"), None);
}

#[test]
fn lockfile_sync_is_stable() {
    let lock = "[[package]]\nname = \"demo\"\nversion = \"0.1.0\"\n";
    let synced = sync_lockfile(lock, "demo", "3.1.4").unwrap();
    assert_eq!(synced, "[[package]]\nname = \"demo\"\nversion = \"3.1.4\"\n");
    assert_eq!(sync_lockfile(&synced, "demo", "3.1.4"), None);
}

#[test]
fn version_file_update_is_stable() {
    let text = "Release v1-alpha.3 (see v1-alpha.2); tag v2-b.0.";
    let synced = match update_version_file(text, "v4-delta.7") {
        VersionFileUpdate::Updated(n) => n,
        other => panic!("expected an update, got {:?}", other),
    };
    assert_eq!(synced, "Release v4-delta.7 (see v4-delta.7); tag v4-delta.7.");
    assert_eq!(update_version_file(&synced, "v4-delta.7"), VersionFileUpdate::Unchanged);
    // A zero revision is stable even where a digit follows the old version string.
    let zero = match update_version_file("v1-a.05", "v2-b.0") {
        VersionFileUpdate::Updated(n) => n,
        other => panic!("expected an update, got {:?}", other),
    };
    assert_eq!(zero, "v2-b.05");
    assert_eq!(update_version_file(&zero, "v2-b.0"), VersionFileUpdate::Unchanged);
}

#[test]
fn version_file_update_before_a_digit_is_not_stable() {
    let first = match update_version_file("v1-a.05", "v2-b.1") {
        VersionFileUpdate::Updated(n) => n,
        other => panic!("expected an update, got {:?}", other),
    };
    assert_eq!(first, "v2-b.15");
    assert_eq!(
        update_version_file(&first, "v2-b.1"),
        VersionFileUpdate::Updated(String::from("v2-b.1"))
    );
}

#[test]
fn phase_count_depends_on_the_set_of_tags() {
    let g = chars("1");
    let a = owned(&["v1-alpha.0", "v1-bravo.0", "v1-alpha.1"]);
    let b = owned(&["v1-alpha.1", "v1-alpha.1", "v1-bravo.0", "v1-alpha.0", "v1-bravo.0"]);
    assert_eq!(count_distinct_phases(&a, &g), 2);
    assert_eq!(count_distinct_phases(&b, &g), 2);
}

#[test]
fn an_appended_tag_counts_only_with_a_new_phase() {
    let g = chars("1");
    let base = owned(&["v1-alpha.0", "v1-bravo.0"]);
    let n = count_distinct_phases(&base, &g);
    let mut more = base.clone();
    more.push(String::from("v1-charlie.0"));
    assert_eq!(count_distinct_phases(&more, &g), n + 1);
    let mut same = base.clone();
    same.push(String::from("v1-alpha.4"));
    assert_eq!(count_distinct_phases(&same, &g), n);
    let mut other = base.clone();
    other.push(String::from("v2-delta.0"));
    assert_eq!(count_distinct_phases(&other, &g), n);
}
