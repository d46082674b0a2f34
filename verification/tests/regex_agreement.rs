//! The library's pattern matching side by side with the `regex` crate running the same patterns.

use oyo::generation::generation_of_branch;
use oyo::metadata::{sync_lockfile, sync_manifest, update_version_file, version_files, VersionFileUpdate};
use oyo::phase::generation_for_phase;
use oyo::revision::generation_for_revision;
use oyo::tags::{count_distinct_phases, last_version_tag};
use oyo::text::{is_decimal_digit, is_word_char};
use regex::Regex;
use std::collections::HashSet;

fn chars(s: &str) -> Vec<char> {
    s.chars().collect()
}

const NAMES: [&str; 16] = [
    "v0", "v1", "v10", "v01", "v", "dev", "v1x", "v1\u{663}", "v\u{663}", "v18446744073709551616",
    "v-1", "vv1", "v1\n", "v 1", "v٣2", "v9",
];

#[test]
fn branch_patterns_agree() {
    let any = Regex::new(r"^v(0|[1-9]\d*)$").unwrap();
    let nonzero = Regex::new(r"^v([1-9]\d*)$").unwrap();
    for name in NAMES {
        let expected = any.captures(name).and_then(|c| c[1].parse::<u64>().ok());
        assert_eq!(generation_of_branch(name), expected, "{:?}", name);
        let expected = any.captures(name).map(|c| c[1].to_string());
        assert_eq!(generation_for_revision(name), expected, "{:?}", name);
        let expected = nonzero.captures(name).map(|c| c[1].to_string());
        assert_eq!(generation_for_phase(name), expected, "{:?}", name);
    }
}

#[test]
fn tag_patterns_agree() {
    let tags: Vec<String> = [
        "v1-alpha.0", "v1-alpha.00", "v1-alpha.10", "v1-al.pha.1", "v1-ALPHA.1", "v1-alpha.1\u{663}",
        "v11-alpha.0", "v1-.0", "v1-alpha.", "v1-alpha", "xv1-alpha.0", "v1-bravo.3", "v1-alpha.2 ",
        "v1-zulu.0", "v1\u{663}-kilo.4",
    ]
    .iter()
    .map(|s| s.to_string())
    .collect();
    for g in ["1", "11", "1\u{663}", "2"] {
        let pattern = Regex::new(&format!(r"^v{}-([a-z]+)\.(0|[1-9]\d*)$", g)).unwrap();
        let expected = tags
            .iter()
            .rev()
            .find_map(|t| pattern.captures(t))
            .map(|c| (chars(&c[1]), chars(&c[2])));
        assert_eq!(last_version_tag(&tags, &chars(g)), expected, "{:?}", g);
        let expected = tags
            .iter()
            .filter_map(|t| pattern.captures(t))
            .map(|c| c[1].to_string())
            .collect::<HashSet<String>>()
            .len();
        assert_eq!(count_distinct_phases(&tags, &chars(g)), expected, "{:?}", g);
    }
}

/// `Cargo.toml` synchronization as the regex patterns perform it.
fn manifest_by_regex(content: &str, semver: &str) -> Option<(String, Option<String>)> {
    let section_pattern = Regex::new(r"(?m)^\[package\][ \t]*\r?$").unwrap();
    let section_start = section_pattern.find(content).map(|m| m.end())?;
    let section_end =
        Regex::new(r"(?m)^\[").unwrap().find_at(content, section_start).map(|m| m.start()).unwrap_or(content.len());
    let section = &content[section_start..section_end];
    let version_pattern = Regex::new(r#"(?m)^(version[ \t]*=[ \t]*")[^"]*(")"#).unwrap();
    let name_pattern = Regex::new(r#"(?m)^name[ \t]*=[ \t]*"([^"]+)""#).unwrap();
    let (Some(_), Some(name_cap)) = (version_pattern.find(section), name_pattern.captures(section)) else {
        return None;
    };
    let new_section = version_pattern.replace(section, format!("${{1}}{}${{2}}", semver)).into_owned();
    let changed = if new_section != section {
        Some(format!("{}{}{}", &content[..section_start], new_section, &content[section_end..]))
    } else {
        None
    };
    Some((name_cap[1].to_string(), changed))
}

#[test]
fn manifest_synchronization_agrees() {
    let cases = [
        "[package]\nname = \"demo\"\nversion = \"0.1.0\"\n",
        "[package]  \t\r\nversion=\"9\"\nname\t=\t\"x y\"\n[dependencies]\nversion = \"3\"\n",
        "[workspace]\n[package]\nname = \"\"\nname = \"real\"\nversion = \"\"\n",
        "[package]\n  version = \"1\"\nname = \"a\"\n",
        "[package]\nversion = \"1\nname = \"a\"\n",
        "x[package]\n[package]\nversion = \"1.2.3\"\nname = \"a\"\n",
        "[package]",
        "[package]\r",
        "[package]\rx\nname = \"a\"\nversion = \"1\"\n",
        "[package]\nversionx = \"1\"\nversion = \"2\"\nname = \"n\"\n[lib]\n",
        "[package]\nname = \"multi\nline\"\nversion = \"0\"\n",
        "",
    ];
    for case in cases {
        for semver in ["1.2.3", "0.0.0"] {
            let ours = sync_manifest(case, semver).map(|u| (u.crate_name, u.new_content));
            assert_eq!(ours, manifest_by_regex(case, semver), "{:?}", case);
        }
    }
}

#[test]
fn lockfile_synchronization_agrees() {
    let cases = [
        "name = \"demo\"\nversion = \"0.1.0\"\n",
        "[[package]]\nname = \"demo-x\"\nversion = \"1\"\n[[package]]\nname = \"demo\"\r\nversion = \"2\"\n",
        "name = \"demo\"\r\rversion = \"1\"\n",
        " name = \"demo\"\nversion = \"1\"\n",
        "name = \"demo\"\nversion = \"1\nname = \"demo\"\nversion = \"2\"",
        "name = \"d.m\"\nversion = \"1\"\n",
    ];
    for case in cases {
        for crate_name in ["demo", "d.m", "dxm"] {
            let pattern = Regex::new(&format!(r#"(?m)^(name = "{}"\r?\nversion = ")[^"]*(")"#, regex::escape(crate_name))).unwrap();
            let replaced = pattern.replace(case, "${1}9.9.9${2}").into_owned();
            let expected = if replaced != case { Some(replaced) } else { None };
            assert_eq!(sync_lockfile(case, crate_name, "9.9.9"), expected, "{:?} {:?}", case, crate_name);
        }
    }
}

#[test]
fn version_file_listing_agrees() {
    let cases = [
        "version-files = [\"a\", \"b/c.md\"]",
        "version-files=[\n\"x\"\n]\nversion-files = [\"y\"]",
        "version-files = \"a\"\nversion-files = [\"b\"]",
        "version-files = [\"\" \"a\"]",
        "version-files = [\"a\"",
        "version-files = [\"a]b\"]",
        "nothing",
        "version-files\t= \t[]",
    ];
    let array_pattern = Regex::new(r"(?s)version-files[ \t]*=[ \t]*\[(.*?)\]").unwrap();
    let file_pattern = Regex::new(r#""([^"]+)""#).unwrap();
    for case in cases {
        let expected = array_pattern
            .captures(case)
            .map(|cap| file_pattern.captures_iter(&cap[1]).map(|c| c[1].to_string()).collect::<Vec<String>>());
        assert_eq!(version_files(case), expected, "{:?}", case);
    }
}

#[test]
fn version_string_replacement_agrees() {
    let pattern = Regex::new(r"\bv(0|[1-9]\d*)-[a-z]+\.(0|[1-9]\d*)").unwrap();
    let cases = [
        "v1-alpha.0",
        "xv1-alpha.0 v2-b.3",
        "_v1-a.0 -v1-a.0 év1-a.0 .v1-a.0",
        "v1-a.05 v10-bb.123x",
        "v01-a.0 v1-.0 v1-A.0 v1-a.",
        "v1\u{663}-a.2\u{663}",
        "\u{663}v1-a.0",
        "v1-a.0v2-b.0",
        "nothing",
        "",
    ];
    for case in cases {
        for fv in ["v3-charlie.1", "v1-a.0"] {
            let expected = if !pattern.is_match(case) {
                VersionFileUpdate::NoVersionString
            } else {
                let replaced = pattern.replace_all(case, fv).into_owned();
                if replaced == case { VersionFileUpdate::Unchanged } else { VersionFileUpdate::Updated(replaced) }
            };
            assert_eq!(update_version_file(case, fv), expected, "{:?}", case);
        }
    }
}

#[test]
fn character_classes_agree() {
    let digit = Regex::new(r"^\d$").unwrap();
    let word = Regex::new(r"^\w$").unwrap();
    for code in (0u32..0x100).chain((0x100..0x3000).step_by(37)).chain(0x660..0x66a).chain(0xff10..0xff1a) {
        if let Some(c) = char::from_u32(code) {
            let s = c.to_string();
            assert_eq!(is_decimal_digit(c), digit.is_match(&s), "U+{:04X}", code);
            assert_eq!(is_word_char(c), word.is_match(&s), "U+{:04X}", code);
        }
    }
}
