# oyo

A command line tool for Phased Versioning in Git repositories: `oyo gen` creates the next version
branch (`v1`, `v2`, ...), `oyo phase <name>` tags the next phase (`v1-alpha.0`, `v1-bravo.0`, ...,
looping from `z` back to `a`), and `oyo rev` tags the next revision of the current phase
(`v1-bravo.1`). Each tag's SemVer projection (`1.1.1`) is written into `Cargo.toml` and
`Cargo.lock`, and the full version itself (`v1-bravo.1`) into the Phased Versioning strings of the
files listed under `version-files` in `.oyo.toml`.

- `src/` is the library, verified with Verus: the grammar of branch names, tags and numerals, the
  choice of the next branch, phase and revision, and the rewriting of the metadata files, each with
  a contract over a mathematical model, plus the laws that tie the commands together
  (`law_*` proof functions).
- `app/` is the command line around it: argument parsing, running Git, reading and writing files.
- `tests/` runs the library on concrete cases, and checks its pattern matching against the `regex`
  crate running the same patterns.
