//! Full version tags (`vN-phase.R`) of a version branch: the tag listing, the last tag, and the
//! number of distinct phases.
use crate::decimal::{is_numeral_in, numeral};
use crate::text::{
    all_ascii_lowercase, ascii_lowercase, chars_of, copy_range, find_char, first_index_of,
    lemma_first_index_of, same_chars, split_lines, string_from, trimmed, trimmed_line_ranges,
};
use vstd::prelude::*;

verus! {

/// The characters of each string of `v`.
pub open spec fn views(v: Seq<String>) -> Seq<Seq<char>> {
    v.map_values(|s: String| s@)
}

/// The start of every full version tag of the generation written `g`: `v`, `g` and `-`.
pub open spec fn tag_prefix(g: Seq<char>) -> Seq<char> {
    seq!['v'] + g + seq!['-']
}

/// The phase and the revision numeral of `tag` when it matches `^v{g}-([a-z]+)\.(0|[1-9]\d*)$`,
/// the full version tags of the version branch of generation `g`.
pub open spec fn tag_parts(tag: Seq<char>, g: Seq<char>) -> Option<(Seq<char>, Seq<char>)> {
    let pre = tag_prefix(g);
    if tag.len() >= pre.len() && tag.subrange(0, pre.len() as int) == pre {
        let rest = tag.subrange(pre.len() as int, tag.len() as int);
        let k = first_index_of(rest, '.');
        let phase = rest.subrange(0, k);
        let rev = rest.subrange(k + 1, rest.len() as int);
        if k < rest.len() && phase.len() >= 1 && all_ascii_lowercase(phase) && numeral(rev) {
            Some((phase, rev))
        } else {
            None
        }
    } else {
        None
    }
}

/// The full version tag of the branch of generation `g` for `phase` and revision `rev`.
pub open spec fn full_version(g: Seq<char>, phase: Seq<char>, rev: Seq<char>) -> Seq<char> {
    tag_prefix(g) + phase + seq!['.'] + rev
}

/// Law: a tag matches the full version pattern of generation `g` exactly when it is written
/// `v{g}-{phase}.{rev}` with a phase of one or more of `[a-z]` and a numeral revision; the match
/// gives back that phase and that revision.
pub proof fn law_tag_parts_of_full_version(g: Seq<char>, phase: Seq<char>, rev: Seq<char>)
    requires
        phase.len() >= 1,
        all_ascii_lowercase(phase),
        numeral(rev),
    ensures
        tag_parts(full_version(g, phase, rev), g) == Some((phase, rev)),
{
    let tag = full_version(g, phase, rev);
    let pre = tag_prefix(g);
    assert(tag.subrange(0, pre.len() as int) =~= pre);
    let rest = tag.subrange(pre.len() as int, tag.len() as int);
    assert(rest =~= phase + seq!['.'] + rev);
    assert forall|j: int| 0 <= j < phase.len() implies rest[j] != '.' by {
        assert(rest[j] == phase[j]);
        assert(ascii_lowercase(phase[j]));
    }
    crate::text::lemma_first_index_of_is(rest, '.', phase.len() as int);
    assert(rest.subrange(0, phase.len() as int) =~= phase);
    assert(rest.subrange(phase.len() as int + 1, rest.len() as int) =~= rev);
}

/// Law: whatever matches the full version pattern of generation `g` is the full version of its
/// phase and revision.
pub proof fn law_full_version_of_tag_parts(
    tag: Seq<char>,
    g: Seq<char>,
    phase: Seq<char>,
    rev: Seq<char>,
)
    requires
        tag_parts(tag, g) == Some((phase, rev)),
    ensures
        tag == full_version(g, phase, rev),
        phase.len() >= 1,
        all_ascii_lowercase(phase),
        numeral(rev),
{
    let pre = tag_prefix(g);
    let rest = tag.subrange(pre.len() as int, tag.len() as int);
    lemma_first_index_of(rest, '.');
    let k = first_index_of(rest, '.');
    assert(rest =~= rest.subrange(0, k) + seq!['.'] + rest.subrange(k + 1, rest.len() as int));
    assert(tag =~= tag.subrange(0, pre.len() as int) + rest);
}

/// The parts of the tag `t` when it matches the full version pattern of generation `g`.
#[verifier::loop_isolation(false)]
pub fn tag_parts_of(t: &[char], g: &[char]) -> (r: Option<(Vec<char>, Vec<char>)>)
    ensures
        match r {
            Some((p, v)) => tag_parts(t@, g@) == Some((p@, v@)),
            None => tag_parts(t@, g@) is None,
        },
{
    let ghost pre = tag_prefix(g@);
    let n = g.len();
    if t.len() < 2 || t.len() - 2 < n || t[0] != 'v' || t[n + 1] != '-' {
        proof {
            if t@.len() >= pre.len() && t@.subrange(0, pre.len() as int) == pre {
                assert(t@[0] == t@.subrange(0, pre.len() as int)[0]);
                assert(t@[n + 1] == t@.subrange(0, pre.len() as int)[n + 1]);
            }
        }
        return None;
    }
    let mut i: usize = 0;
    while i < n
        invariant
            i <= n == g@.len(),
            t@.len() >= n + 2,
            pre == tag_prefix(g@),
            t@[0] == 'v',
            t@[n + 1] == '-',
            forall|j: int| 0 <= j < i ==> t@[j + 1] == g@[j],
        decreases n - i,
    {
        if t[i + 1] != g[i] {
            proof {
                if t@.len() >= pre.len() && t@.subrange(0, pre.len() as int) == pre {
                    assert(t@[i + 1] == t@.subrange(0, pre.len() as int)[i + 1]);
                }
            }
            return None;
        }
        i += 1;
    }
    assert(t@.subrange(0, pre.len() as int) =~= pre);
    let start = n + 2;
    let ghost rest = t@.subrange(start as int, t@.len() as int);
    let k = find_char(t, start, t.len(), '.');
    let ghost kk = k - start;
    assert(rest.subrange(0, kk) =~= t@.subrange(start as int, k as int));
    if k == t.len() || k == start {
        return None;
    }
    assert(rest.subrange(kk + 1, rest.len() as int) =~= t@.subrange(k + 1, t@.len() as int));
    let mut j = start;
    while j < k
        invariant
            start <= j <= k <= t@.len(),
            forall|m: int| start <= m < j ==> ascii_lowercase(#[trigger] t@[m]),
        decreases k - j,
    {
        if !('a' <= t[j] && t[j] <= 'z') {
            assert(t@.subrange(start as int, k as int)[j - start] == t@[j as int]);
            return None;
        }
        j += 1;
    }
    assert forall|m: int| 0 <= m < k - start implies ascii_lowercase(
        #[trigger] t@.subrange(start as int, k as int)[m],
    ) by {
        assert(t@.subrange(start as int, k as int)[m] == t@[start + m]);
    }
    if !is_numeral_in(t, k + 1, t.len()) {
        return None;
    }
    Some((copy_range(t, start, k), copy_range(t, k + 1, t.len())))
}

// ---------------------------------------------------------------------------
// The tag listing
// ---------------------------------------------------------------------------

/// The trimmed lines that are not empty, in order.
pub open spec fn nonempty_trimmed(lines: Seq<Seq<char>>) -> Seq<Seq<char>>
    decreases lines.len(),
{
    if lines.len() == 0 {
        seq![]
    } else {
        let earlier = nonempty_trimmed(lines.drop_last());
        let t = trimmed(lines.last());
        if t.len() > 0 {
            earlier.push(t)
        } else {
            earlier
        }
    }
}

/// The tags of a listing from `git tag --list`: its trimmed lines that are not empty.
pub open spec fn listed_tags(listing: Seq<char>) -> Seq<Seq<char>> {
    nonempty_trimmed(split_lines(listing))
}

/// The tags of a listing from `git tag --list`, one per line, in order.
pub fn tags_of_listing(listing: &str) -> (r: Vec<String>)
    ensures
        views(r@) == listed_tags(listing@),
{
    let l = chars_of(listing);
    let lines = trimmed_line_ranges(&l);
    let ghost split = split_lines(l@);
    let mut r: Vec<String> = Vec::new();
    let mut i: usize = 0;
    while i < lines.len()
        invariant
            i <= lines@.len(),
            lines@.len() == split.len(),
            l@ == listing@,
            split == split_lines(l@),
            forall|k: int|
                0 <= k < lines@.len() ==> {
                    &&& (#[trigger] lines@[k]).0 <= lines@[k].1 <= l@.len()
                    &&& l@.subrange(lines@[k].0 as int, lines@[k].1 as int) == trimmed(split[k])
                },
            views(r@) == nonempty_trimmed(split.take(i as int)),
        decreases lines.len() - i,
    {
        let (a, b) = lines[i];
        assert(split.take(i + 1).drop_last() =~= split.take(i as int));
        assert(split.take(i + 1).last() == split[i as int]);
        if a < b {
            let s = string_from(&copy_range(&l, a, b));
            let ghost before = r@;
            r.push(s);
            assert(views(r@) =~= views(before).push(s@));
        }
        i += 1;
    }
    assert(split.take(lines.len() as int) =~= split);
    r
}

// ---------------------------------------------------------------------------
// The last full version tag and the phases of a branch
// ---------------------------------------------------------------------------

/// The parts of the last of `tags` that matches the full version pattern of generation `g`.
pub open spec fn last_tag_parts(tags: Seq<Seq<char>>, g: Seq<char>) -> Option<
    (Seq<char>, Seq<char>),
>
    decreases tags.len(),
{
    if tags.len() == 0 {
        None
    } else {
        match tag_parts(tags.last(), g) {
            Some(parts) => Some(parts),
            None => last_tag_parts(tags.drop_last(), g),
        }
    }
}

/// What `last_tag_parts` finds is the match of one of the tags: a phase of one or more `[a-z]` and
/// a numeral revision.
pub proof fn lemma_last_tag_parts(tags: Seq<Seq<char>>, g: Seq<char>)
    ensures
        last_tag_parts(tags, g) matches Some(parts) ==> {
            &&& parts.0.len() >= 1
            &&& all_ascii_lowercase(parts.0)
            &&& numeral(parts.1)
            &&& exists|k: int| 0 <= k < tags.len() && tag_parts(tags[k], g) == Some(parts)
        },
    decreases tags.len(),
{
    if tags.len() > 0 {
        lemma_last_tag_parts(tags.drop_last(), g);
        match tag_parts(tags.last(), g) {
            Some(parts) => {
                law_full_version_of_tag_parts(tags.last(), g, parts.0, parts.1);
                assert(tag_parts(tags[tags.len() - 1], g) == Some(parts));
            },
            None => {
                if let Some(parts) = last_tag_parts(tags.drop_last(), g) {
                    let k = choose|k: int|
                        0 <= k < tags.drop_last().len() && tag_parts(tags.drop_last()[k], g)
                            == Some(parts);
                    assert(tags[k] == tags.drop_last()[k]);
                }
            },
        }
    }
}

/// The phase and revision numeral of the last tag of `tags` (oldest first) that is a full version
/// tag of the branch of generation `g`.
pub fn last_version_tag(tags: &[String], g: &[char]) -> (r: Option<(Vec<char>, Vec<char>)>)
    ensures
        match r {
            Some((p, v)) => last_tag_parts(views(tags@), g@) == Some((p@, v@)),
            None => last_tag_parts(views(tags@), g@) is None,
        },
{
    let ghost all = views(tags@);
    let mut i = tags.len();
    assert(all.take(i as int) =~= all);
    while i > 0
        invariant
            i <= tags@.len(),
            all == views(tags@),
            last_tag_parts(all, g@) == last_tag_parts(all.take(i as int), g@),
        decreases i,
    {
        let t = chars_of(tags[i - 1].as_str());
        let ghost pre = all.take(i as int);
        assert(pre.drop_last() =~= all.take(i - 1));
        assert(pre.last() == t@);
        match tag_parts_of(&t, g) {
            Some(parts) => {
                return Some(parts);
            },
            None => {},
        }
        i -= 1;
    }
    None
}

/// The phases of the full version tags of generation `g` among `tags`, in order.
pub open spec fn phases_in(tags: Seq<Seq<char>>, g: Seq<char>) -> Seq<Seq<char>>
    decreases tags.len(),
{
    if tags.len() == 0 {
        seq![]
    } else {
        let earlier = phases_in(tags.drop_last(), g);
        match tag_parts(tags.last(), g) {
            Some(parts) => earlier.push(parts.0),
            None => earlier,
        }
    }
}

/// The number of distinct phases among the full version tags of generation `g` in `tags`.
pub open spec fn distinct_phase_count(tags: Seq<Seq<char>>, g: Seq<char>) -> nat {
    phases_in(tags, g).to_set().len()
}

/// The elements of `s.push(x)` are those of `s` and `x`.
pub proof fn lemma_push_to_set<A>(s: Seq<A>, x: A)
    ensures
        s.push(x).to_set() == s.to_set().insert(x),
{
    assert forall|a: A| #[trigger] s.push(x).to_set().contains(a) == s.to_set().insert(x).contains(a) by {
        if s.contains(a) {
            let k = choose|k: int| 0 <= k < s.len() && s[k] == a;
            assert(s.push(x)[k] == a);
        }
        if a == x {
            assert(s.push(x)[s.len() as int] == x);
        }
        if s.push(x).contains(a) {
            let k = choose|k: int| 0 <= k < s.len() + 1 && s.push(x)[k] == a;
            if k < s.len() {
                assert(s[k] == a);
            }
        }
    }
    assert(s.push(x).to_set() =~= s.to_set().insert(x));
}

/// Whether `seen` holds a copy of `p`.
fn holds(seen: &Vec<Vec<char>>, p: &Vec<char>, Ghost(seen_view): Ghost<Seq<Seq<char>>>) -> (r:
    bool)
    requires
        seen@.len() == seen_view.len(),
        forall|k: int| 0 <= k < seen@.len() ==> (#[trigger] seen@[k])@ == seen_view[k],
    ensures
        r == seen_view.contains(p@),
{
    let mut k: usize = 0;
    while k < seen.len()
        invariant
            k <= seen@.len(),
            seen@.len() == seen_view.len(),
            forall|m: int| 0 <= m < seen@.len() ==> (#[trigger] seen@[m])@ == seen_view[m],
            forall|m: int| 0 <= m < k ==> seen_view[m] != p@,
        decreases seen.len() - k,
    {
        if same_chars(&seen[k], p) {
            assert(seen_view[k as int] == p@);
            return true;
        }
        k += 1;
    }
    false
}

/// The number of distinct phases among the full version tags of generation `g` in `tags`: the
/// MINOR number of the SemVer projection. It grows past the wrap from `z` to `a` with every new
/// phase name; a name used before on the branch is counted once.
pub fn count_distinct_phases(tags: &[String], g: &[char]) -> (r: usize)
    ensures
        r == distinct_phase_count(views(tags@), g@),
{
    let ghost all = views(tags@);
    let mut seen: Vec<Vec<char>> = Vec::new();
    let ghost mut seen_view: Seq<Seq<char>> = seq![];
    let mut i: usize = 0;
    while i < tags.len()
        invariant
            i <= tags@.len(),
            all == views(tags@),
            seen@.len() == seen_view.len(),
            forall|k: int| 0 <= k < seen@.len() ==> (#[trigger] seen@[k])@ == seen_view[k],
            seen_view.no_duplicates(),
            seen_view.to_set() == phases_in(all.take(i as int), g@).to_set(),
            seen@.len() <= i,
        decreases tags.len() - i,
    {
        let t = chars_of(tags[i].as_str());
        let ghost pre = all.take(i + 1);
        assert(pre.drop_last() =~= all.take(i as int));
        assert(pre.last() == t@);
        match tag_parts_of(&t, g) {
            Some((p, _)) => {
                if !holds(&seen, &p, Ghost(seen_view)) {
                    proof {
                        lemma_push_to_set(seen_view, p@);
                        lemma_push_to_set(phases_in(all.take(i as int), g@), p@);
                        assert(seen_view.push(p@).no_duplicates()) by {
                            assert forall|a: int, b: int|
                                0 <= a < b < seen_view.len() + 1 implies seen_view.push(p@)[a]
                                != seen_view.push(p@)[b] by {
                                if b == seen_view.len() {
                                    assert(seen_view.contains(seen_view[a]));
                                }
                            }
                        }
                        seen_view = seen_view.push(p@);
                    }
                    seen.push(p);
                } else {
                    proof {
                        lemma_push_to_set(phases_in(all.take(i as int), g@), p@);
                        assert(seen_view.to_set().contains(p@));
                        assert(seen_view.to_set().insert(p@) =~= seen_view.to_set());
                    }
                }
            },
            None => {},
        }
        i += 1;
    }
    assert(all.take(tags.len() as int) =~= all);
    proof {
        seen_view.unique_seq_to_set();
    }
    seen.len()
}

/// The phases of the full version tags of generation `g` among the set of tags `ts`.
pub open spec fn phase_set(ts: Set<Seq<char>>, g: Seq<char>) -> Set<Seq<char>> {
    Set::new(
        |p: Seq<char>|
            exists|t: Seq<char>|
                #[trigger] ts.contains(t) && tag_parts(t, g) is Some && tag_parts(t, g).unwrap().0 == p,
    )
}

/// The phases found in a list of tags are those of the set of its tags.
pub proof fn lemma_phases_in_set(tags: Seq<Seq<char>>, g: Seq<char>)
    ensures
        phases_in(tags, g).to_set() == phase_set(tags.to_set(), g),
    decreases tags.len(),
{
    if tags.len() == 0 {
        assert(phases_in(tags, g).to_set() =~= phase_set(tags.to_set(), g)) by {
            assert forall|p: Seq<char>| !phase_set(tags.to_set(), g).contains(p) by {
                assert forall|t: Seq<char>| !#[trigger] tags.to_set().contains(t) by {}
            }
        }
    } else {
        let pre = tags.drop_last();
        let x = tags.last();
        lemma_phases_in_set(pre, g);
        assert(pre.push(x) =~= tags);
        lemma_push_to_set(pre, x);
        let before = phases_in(pre, g);
        match tag_parts(x, g) {
            Some(parts) => {
                lemma_push_to_set(before, parts.0);
            },
            None => {},
        }
        assert forall|p: Seq<char>|
            phases_in(tags, g).to_set().contains(p) == #[trigger] phase_set(
                tags.to_set(),
                g,
            ).contains(p) by {
            if phase_set(tags.to_set(), g).contains(p) {
                let t = choose|t: Seq<char>|
                    #[trigger] tags.to_set().contains(t) && tag_parts(t, g) is Some && tag_parts(
                        t,
                        g,
                    ).unwrap().0 == p;
                if t != x {
                    assert(pre.to_set().contains(t));
                    assert(phase_set(pre.to_set(), g).contains(p));
                }
            }
            if phase_set(pre.to_set(), g).contains(p) {
                let t = choose|t: Seq<char>|
                    #[trigger] pre.to_set().contains(t) && tag_parts(t, g) is Some && tag_parts(
                        t,
                        g,
                    ).unwrap().0 == p;
                assert(tags.to_set().contains(t));
            }
            if tag_parts(x, g) is Some && tag_parts(x, g).unwrap().0 == p {
                assert(tags.to_set().contains(x));
            }
        }
        assert(phases_in(tags, g).to_set() =~= phase_set(tags.to_set(), g));
    }
}

/// Law: the number of distinct phases depends on the set of tags alone, not on their order nor
/// on how often a tag is listed.
pub proof fn law_phase_count_of_tag_set(tags1: Seq<Seq<char>>, tags2: Seq<Seq<char>>, g: Seq<char>)
    requires
        tags1.to_set() == tags2.to_set(),
    ensures
        distinct_phase_count(tags1, g) == distinct_phase_count(tags2, g),
{
    lemma_phases_in_set(tags1, g);
    lemma_phases_in_set(tags2, g);
}

/// Law: one more tag adds one to the number of distinct phases exactly when it is a full version
/// tag of the generation whose phase none of the earlier tags has; else the number stays.
pub proof fn law_phase_count_of_appended_tag(tags: Seq<Seq<char>>, t: Seq<char>, g: Seq<char>)
    ensures
        distinct_phase_count(tags.push(t), g) == distinct_phase_count(tags, g) + (if tag_parts(t, g)
            is Some && !phases_in(tags, g).contains(tag_parts(t, g).unwrap().0) {
            1int
        } else {
            0int
        }),
{
    let all = tags.push(t);
    assert(all.drop_last() =~= tags);
    vstd::seq_lib::seq_to_set_is_finite(phases_in(tags, g));
    match tag_parts(t, g) {
        Some(parts) => {
            assert(phases_in(all, g) == phases_in(tags, g).push(parts.0));
            lemma_push_to_set(phases_in(tags, g), parts.0);
            if phases_in(tags, g).contains(parts.0) {
                assert(phases_in(tags, g).to_set().insert(parts.0) =~= phases_in(tags, g).to_set());
            } else {
                assert(!phases_in(tags, g).to_set().contains(parts.0));
            }
        },
        None => {
            assert(phases_in(all, g) == phases_in(tags, g));
        },
    }
}

} // verus!
