//! Phased Versioning bookkeeping for Git repositories: version branches `vN`, full version tags
//! `vN-phase.R` under a looped alphabetic progression of phases, their SemVer projections, and the
//! version metadata (`Cargo.toml`, `Cargo.lock`, the files that `.oyo.toml` lists) kept in step
//! with them. Every function works on the text that Git prints or that the files hold; running Git
//! and touching files is left to the caller.
pub mod decimal;
pub mod generation;
pub mod metadata;
pub mod phase;
pub mod repo;
pub mod revision;
pub mod scan;
pub mod tags;
pub mod text;
pub mod version_strings;
