//! Version branches (`vN`) and the generation number of a new one (the `gen` command).
use crate::decimal::{
    decimal, is_numeral_in, law_parse_of_decimal, lemma_decimal_is_numeral, numeral, parse_u64,
    parsed_u64, push_decimal,
};
use crate::text::{
    chars_of, find_char, first_index_of, split_lines, string_from, trimmed, trimmed_line_ranges,
};
use vstd::prelude::*;

verus! {

/// `^v(0|[1-9]\d*)$`: the name of a version branch.
pub open spec fn version_branch(name: Seq<char>) -> bool {
    &&& name.len() >= 1
    &&& name[0] == 'v'
    &&& numeral(name.drop_first())
}

/// The generation that `gen` reads from a branch name: the number of a version branch, when it
/// parses as a `u64`.
pub open spec fn branch_generation(name: Seq<char>) -> Option<u64> {
    if version_branch(name) {
        parsed_u64(name.drop_first())
    } else {
        None
    }
}

/// A remote branch name without its remote: what follows its first `/`, as `str::split_once`
/// splits it; `None` when it has no `/`.
pub open spec fn without_remote(name: Seq<char>) -> Option<Seq<char>> {
    let k = first_index_of(name, '/');
    if k < name.len() {
        Some(name.subrange(k + 1, name.len() as int))
    } else {
        None
    }
}

/// The branch names of a listing of local branches: its trimmed lines.
pub open spec fn local_branch_names(listing: Seq<char>) -> Seq<Seq<char>> {
    split_lines(listing).map_values(|l: Seq<char>| trimmed(l))
}

/// The branch names that follow a remote in the given lines, once trimmed.
pub open spec fn remote_names_in(lines: Seq<Seq<char>>) -> Seq<Seq<char>>
    decreases lines.len(),
{
    if lines.len() == 0 {
        seq![]
    } else {
        let earlier = remote_names_in(lines.drop_last());
        match without_remote(trimmed(lines.last())) {
            Some(n) => earlier.push(n),
            None => earlier,
        }
    }
}

/// The branch names of a listing of remote branches, without their remotes.
pub open spec fn remote_branch_names(listing: Seq<char>) -> Seq<Seq<char>> {
    remote_names_in(split_lines(listing))
}

/// The generations of the version branches among `names`, in order.
pub open spec fn generations_in(names: Seq<Seq<char>>) -> Seq<u64>
    decreases names.len(),
{
    if names.len() == 0 {
        seq![]
    } else {
        let earlier = generations_in(names.drop_last());
        match branch_generation(names.last()) {
            Some(n) => earlier.push(n),
            None => earlier,
        }
    }
}

/// The generations of the version branches that `gen` finds: those of the local branches, then
/// those of the remote ones.
pub open spec fn listed_generations(local: Seq<char>, remote: Seq<char>) -> Seq<u64> {
    generations_in(local_branch_names(local)) + generations_in(remote_branch_names(remote))
}

/// The largest of `gens`, or 0 when there is none.
pub open spec fn max_generation(gens: Seq<u64>) -> u64
    decreases gens.len(),
{
    if gens.len() == 0 {
        0
    } else {
        let m = max_generation(gens.drop_last());
        if gens.last() > m {
            gens.last()
        } else {
            m
        }
    }
}

/// The generation of the branch that `gen` creates when no number is given: one more than the
/// highest existing generation, or 1 when there is none.
pub open spec fn next_generation_of(gens: Seq<u64>) -> int {
    if gens.len() == 0 {
        1
    } else {
        max_generation(gens) + 1
    }
}

/// The name of the version branch of generation `n`: `v` and its decimal numeral.
pub open spec fn branch_name_of(n: nat) -> Seq<char> {
    seq!['v'] + decimal(n)
}

/// The generation read from the branch name `s[from..to]`.
fn generation_in_range(s: &[char], from: usize, to: usize) -> (r: Option<u64>)
    requires
        from <= to <= s.len(),
    ensures
        r == branch_generation(s@.subrange(from as int, to as int)),
{
    let ghost name = s@.subrange(from as int, to as int);
    if from == to || s[from] != 'v' {
        return None;
    }
    assert(name.drop_first() =~= s@.subrange(from + 1, to as int));
    if !is_numeral_in(s, from + 1, to) {
        return None;
    }
    parse_u64(&s[from + 1..to])
}

/// The generation that `gen` reads from the branch name `name`.
pub fn generation_of_branch(name: &str) -> (r: Option<u64>)
    ensures
        r == branch_generation(name@),
{
    let v = chars_of(name);
    assert(v@.subrange(0, v@.len() as int) =~= v@);
    generation_in_range(&v, 0, v.len())
}

/// The generations of the version branches in the listings of local branches and of remote
/// branches (`git branch --list` and `git branch --remotes`, one name per line), in order.
pub fn listed_branch_generations(local: &str, remote: &str) -> (r: Vec<u64>)
    ensures
        r@ == listed_generations(local@, remote@),
{
    let mut gens: Vec<u64> = Vec::new();
    let l = chars_of(local);
    let lines = trimmed_line_ranges(&l);
    let ghost names = local_branch_names(local@);
    let mut i: usize = 0;
    while i < lines.len()
        invariant
            i <= lines@.len(),
            lines@.len() == split_lines(l@).len(),
            l@ == local@,
            names == local_branch_names(local@),
            forall|k: int|
                0 <= k < lines@.len() ==> {
                    &&& (#[trigger] lines@[k]).0 <= lines@[k].1 <= l@.len()
                    &&& l@.subrange(lines@[k].0 as int, lines@[k].1 as int) == trimmed(
                        split_lines(l@)[k],
                    )
                },
            gens@ == generations_in(names.take(i as int)),
        decreases lines.len() - i,
    {
        let (a, b) = lines[i];
        let g = generation_in_range(&l, a, b);
        assert(names.take(i + 1).drop_last() =~= names.take(i as int));
        assert(names.take(i + 1).last() == names[i as int]);
        if let Some(n) = g {
            gens.push(n);
        }
        i += 1;
    }
    assert(names.take(lines.len() as int) =~= names);
    let ghost local_gens = gens@;
    let r = chars_of(remote);
    let rlines = trimmed_line_ranges(&r);
    let ghost split = split_lines(remote@);
    let mut j: usize = 0;
    while j < rlines.len()
        invariant
            j <= rlines@.len(),
            rlines@.len() == split_lines(r@).len(),
            r@ == remote@,
            split == split_lines(remote@),
            forall|k: int|
                0 <= k < rlines@.len() ==> {
                    &&& (#[trigger] rlines@[k]).0 <= rlines@[k].1 <= r@.len()
                    &&& r@.subrange(rlines@[k].0 as int, rlines@[k].1 as int) == trimmed(
                        split_lines(r@)[k],
                    )
                },
            gens@ == local_gens + generations_in(remote_names_in(split.take(j as int))),
        decreases rlines.len() - j,
    {
        let (a, b) = rlines[j];
        let ghost line = r@.subrange(a as int, b as int);
        let k = find_char(&r, a, b, '/');
        assert(split.take(j + 1).drop_last() =~= split.take(j as int));
        assert(split.take(j + 1).last() == split[j as int]);
        let ghost before = remote_names_in(split.take(j as int));
        if k < b {
            let g = generation_in_range(&r, k + 1, b);
            proof {
                assert(line.subrange(k - a + 1, line.len() as int) =~= r@.subrange(
                    k + 1,
                    b as int,
                ));
                assert(remote_names_in(split.take(j + 1)) == before.push(
                    r@.subrange(k + 1, b as int),
                ));
                assert(before.push(r@.subrange(k + 1, b as int)).drop_last() =~= before);
            }
            if let Some(n) = g {
                gens.push(n);
            }
        }
        j += 1;
    }
    assert(split.take(rlines.len() as int) =~= split);
    gens
}

/// The largest of `gens` is one of them and no smaller than any of them.
pub proof fn lemma_max_generation(gens: Seq<u64>)
    ensures
        forall|i: int| 0 <= i < gens.len() ==> gens[i] <= max_generation(gens),
        gens.len() > 0 ==> exists|i: int| 0 <= i < gens.len() && gens[i] == max_generation(gens),
    decreases gens.len(),
{
    if gens.len() > 0 {
        let t = gens.drop_last();
        lemma_max_generation(t);
        assert forall|i: int| 0 <= i < gens.len() implies gens[i] <= max_generation(gens) by {
            if i < gens.len() - 1 {
                assert(gens[i] == t[i]);
            }
        }
        if gens.last() > max_generation(t) || t.len() == 0 {
            assert(gens[gens.len() - 1] == gens.last());
        } else {
            let i = choose|i: int| 0 <= i < t.len() && t[i] == max_generation(t);
            assert(gens[i] == t[i]);
        }
    }
}

/// The generation of the branch that `gen` creates when no number is given: one more than the
/// highest of `gens`, or 1 when `gens` is empty. The highest generation must not be `u64::MAX`,
/// on which the increment overflows.
pub fn next_generation(gens: &[u64]) -> (r: u64)
    requires
        forall|i: int| 0 <= i < gens@.len() ==> gens@[i] < u64::MAX,
    ensures
        r == next_generation_of(gens@),
        forall|i: int| 0 <= i < gens@.len() ==> gens@[i] < r,
{
    proof {
        lemma_max_generation(gens@);
    }
    if gens.len() == 0 {
        return 1;
    }
    let mut m: u64 = 0;
    let mut i: usize = 0;
    while i < gens.len()
        invariant
            i <= gens@.len(),
            m == max_generation(gens@.take(i as int)),
        decreases gens.len() - i,
    {
        assert(gens@.take(i + 1).drop_last() =~= gens@.take(i as int));
        if gens[i] > m {
            m = gens[i];
        }
        i += 1;
    }
    assert(gens@.take(gens.len() as int) =~= gens@);
    proof {
        let k = choose|k: int| 0 <= k < gens@.len() && gens@[k] == max_generation(gens@);
        assert(gens@[k] < u64::MAX);
    }
    m + 1
}

/// The generation of the branch that `gen` creates when no number is given, like
/// `next_generation`; `None` when some generation is `u64::MAX`, past which no generation fits.
pub fn try_next_generation(gens: &[u64]) -> (r: Option<u64>)
    ensures
        r is None <==> exists|i: int| 0 <= i < gens@.len() && gens@[i] == u64::MAX,
        r matches Some(n) ==> n == next_generation_of(gens@),
{
    let mut i: usize = 0;
    while i < gens.len()
        invariant
            i <= gens@.len(),
            forall|j: int| 0 <= j < i ==> gens@[j] < u64::MAX,
        decreases gens.len() - i,
    {
        if gens[i] == u64::MAX {
            return None;
        }
        i += 1;
    }
    Some(next_generation(gens))
}

/// The name of the version branch of generation `n` (`format!("v{}", n)`).
pub fn version_branch_name(n: u64) -> (r: String)
    ensures
        r@ == branch_name_of(n as nat),
{
    let mut v: Vec<char> = Vec::new();
    v.push('v');
    push_decimal(&mut v, n);
    string_from(&v)
}

// ---------------------------------------------------------------------------
// Laws
// ---------------------------------------------------------------------------

/// Law: the name of the branch of generation `n` is a version branch, and `gen` reads `n` back
/// from it.
pub proof fn law_branch_name_round_trip(n: u64)
    ensures
        version_branch(branch_name_of(n as nat)),
        branch_generation(branch_name_of(n as nat)) == Some(n),
{
    lemma_decimal_is_numeral(n as nat);
    law_parse_of_decimal(n);
    assert(branch_name_of(n as nat).drop_first() =~= decimal(n as nat));
}

/// Law: the branch that `gen` creates without a number is newer than every version branch it
/// found, locally or on a remote, and it is `v1` when it found none.
pub proof fn law_new_branch_is_newest(local: Seq<char>, remote: Seq<char>, name: Seq<char>)
    requires
        local_branch_names(local).contains(name) || remote_branch_names(remote).contains(name),
        branch_generation(name) is Some,
    ensures
        branch_generation(name)->0 < next_generation_of(listed_generations(local, remote)),
{
    let gens = listed_generations(local, remote);
    lemma_max_generation(gens);
    let g = branch_generation(name)->0;
    if local_branch_names(local).contains(name) {
        let names = local_branch_names(local);
        let k = choose|k: int| 0 <= k < names.len() && names[k] == name;
        lemma_generation_listed(names, k);
        let j = choose|j: int|
            0 <= j < generations_in(names).len() && generations_in(names)[j] == g;
        assert(gens[j] == g);
    } else {
        let names = remote_branch_names(remote);
        let k = choose|k: int| 0 <= k < names.len() && names[k] == name;
        lemma_generation_listed(names, k);
        let j = choose|j: int|
            0 <= j < generations_in(names).len() && generations_in(names)[j] == g;
        let off = generations_in(local_branch_names(local)).len();
        assert(gens[off + j] == g);
    }
}

/// The generation of every version branch among `names` is among `generations_in(names)`.
proof fn lemma_generation_listed(names: Seq<Seq<char>>, k: int)
    requires
        0 <= k < names.len(),
        branch_generation(names[k]) is Some,
    ensures
        exists|j: int|
            0 <= j < generations_in(names).len() && generations_in(names)[j] == branch_generation(
                names[k],
            )->0,
    decreases names.len(),
{
    let t = names.drop_last();
    if k == names.len() - 1 {
        let g = generations_in(names);
        assert(g[g.len() - 1] == branch_generation(names[k])->0);
    } else {
        assert(names[k] == t[k]);
        lemma_generation_listed(t, k);
        let j = choose|j: int|
            0 <= j < generations_in(t).len() && generations_in(t)[j] == branch_generation(
                t[k],
            )->0;
        assert(generations_in(names)[j] == generations_in(t)[j]);
    }
}

/// Law: the generation that `gen` picks when no number is given is 1 when there is no version
/// branch, and otherwise one more than a listed generation and above every listed one: exactly the
/// highest plus one, however often the highest is listed.
pub proof fn law_next_generation_is_one_past_highest(gens: Seq<u64>)
    ensures
        gens.len() == 0 ==> next_generation_of(gens) == 1,
        gens.len() > 0 ==> exists|i: int|
            0 <= i < gens.len() && #[trigger] gens[i] + 1 == next_generation_of(gens),
        forall|i: int| 0 <= i < gens.len() ==> #[trigger] gens[i] < next_generation_of(gens),
{
    lemma_max_generation(gens);
    if gens.len() > 0 {
        let k = choose|k: int| 0 <= k < gens.len() && gens[k] == max_generation(gens);
        assert(gens[k] + 1 == next_generation_of(gens));
    }
}

} // verus!
