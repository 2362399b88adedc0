//! Lexical analysis of a pattern: which named capture groups it declares,
//! and whether each is optional.
//!
//! A named group opens with `?P<name>`; the group is taken to be optional
//! when the closing parenthesis run after its body is followed directly by
//! `?`.  The scan is purely lexical: the pattern is never executed, and
//! nested groups inside a group's body are not discovered.  Group names may
//! use the bytes `A`..`z`, `0`..`9` (`_` lies inside `A`..`z`).

use vstd::prelude::*;

verus! {

/// Byte values of the pattern's marker characters.
pub const QMARK: u8 = 63;

pub const UPPER_P: u8 = 80;

pub const LANGLE: u8 = 60;

pub const RANGLE: u8 = 62;

pub const RPAREN: u8 = 41;

pub const DIGIT_LO: u8 = 48;

pub const DIGIT_HI: u8 = 57;

pub const NAME_LO: u8 = 65;

pub const NAME_HI: u8 = 122;

/// One named capture group found in a pattern: its name, and whether a
/// trailing `?` makes the whole parenthesized group optional.
pub struct GroupSpec {
    pub name: Vec<u8>,
    pub optional: bool,
}

/// The pairs a vector of group specs stands for.
pub open spec fn groups_view(gs: Seq<GroupSpec>) -> Seq<(Seq<u8>, bool)> {
    gs.map(|i: int, g: GroupSpec| (g.name@, g.optional))
}

/// Bytes allowed in a group name: the ranges `A`..`z` and `0`..`9`.
pub open spec fn is_name_byte(c: u8) -> bool {
    (NAME_LO <= c && c <= NAME_HI) || (DIGIT_LO <= c && c <= DIGIT_HI)
}

/// Least index at or after `i` holding no name byte (or the end).
pub open spec fn name_run_end(pat: Seq<u8>, i: int) -> int
    decreases pat.len() - i,
{
    if i < 0 || i >= pat.len() {
        i
    } else if is_name_byte(pat[i]) {
        name_run_end(pat, i + 1)
    } else {
        i
    }
}

/// Least index at or after `i` holding `)` (or the end).
pub open spec fn body_end(pat: Seq<u8>, i: int) -> int
    decreases pat.len() - i,
{
    if i < 0 || i >= pat.len() {
        i
    } else if pat[i] == RPAREN {
        i
    } else {
        body_end(pat, i + 1)
    }
}

/// Least index at or after `i` holding no `)` (or the end).
pub open spec fn close_run_end(pat: Seq<u8>, i: int) -> int
    decreases pat.len() - i,
{
    if i < 0 || i >= pat.len() {
        i
    } else if pat[i] == RPAREN {
        close_run_end(pat, i + 1)
    } else {
        i
    }
}

proof fn lemma_name_run_end_bounds(pat: Seq<u8>, i: int)
    requires
        0 <= i <= pat.len(),
    ensures
        i <= name_run_end(pat, i) <= pat.len(),
    decreases pat.len() - i,
{
    if i < pat.len() && is_name_byte(pat[i]) {
        lemma_name_run_end_bounds(pat, i + 1);
    }
}

proof fn lemma_body_end_bounds(pat: Seq<u8>, i: int)
    requires
        0 <= i <= pat.len(),
    ensures
        i <= body_end(pat, i) <= pat.len(),
    decreases pat.len() - i,
{
    if i < pat.len() && pat[i] != RPAREN {
        lemma_body_end_bounds(pat, i + 1);
    }
}

proof fn lemma_close_run_end_bounds(pat: Seq<u8>, i: int)
    requires
        0 <= i <= pat.len(),
    ensures
        i <= close_run_end(pat, i) <= pat.len(),
    decreases pat.len() - i,
{
    if i < pat.len() && pat[i] == RPAREN {
        lemma_close_run_end_bounds(pat, i + 1);
    }
}

/// A named-group opener `?P<` stands at index `i`.
pub open spec fn group_open_at(pat: Seq<u8>, i: int) -> bool {
    &&& 0 <= i
    &&& i + 3 <= pat.len()
    &&& pat[i] == QMARK
    &&& pat[i + 1] == UPPER_P
    &&& pat[i + 2] == LANGLE
}

/// The groups found scanning from index `i` on: at each `?P<` whose name run
/// is non-empty and closed by `>`, record the name; skip the group body up to
/// and through the following run of `)`; the group is optional when a `?`
/// stands right after that run.  The scan resumes past the consumed text, so
/// a group opener swallowed by an earlier group's body is not seen.
pub open spec fn scan_groups_from(pat: Seq<u8>, i: int) -> Seq<(Seq<u8>, bool)>
    decreases pat.len() - i,
    when i >= 0
    via scan_groups_from_decreases
{
    if i + 3 > pat.len() {
        Seq::empty()
    } else if !group_open_at(pat, i) {
        scan_groups_from(pat, i + 1)
    } else {
        let r = name_run_end(pat, i + 3);
        if r == i + 3 || r >= pat.len() || pat[r] != RANGLE {
            scan_groups_from(pat, i + 1)
        } else {
            let name = pat.subrange(i + 3, r);
            let u = close_run_end(pat, body_end(pat, r + 1));
            if u < pat.len() && pat[u] == QMARK {
                seq![(name, true)] + scan_groups_from(pat, u + 1)
            } else {
                seq![(name, false)] + scan_groups_from(pat, u)
            }
        }
    }
}

#[via_fn]
proof fn scan_groups_from_decreases(pat: Seq<u8>, i: int) {
    if i + 3 <= pat.len() && group_open_at(pat, i) {
        let r = name_run_end(pat, i + 3);
        lemma_name_run_end_bounds(pat, i + 3);
        if !(r == i + 3 || r >= pat.len() || pat[r] != RANGLE) {
            lemma_body_end_bounds(pat, r + 1);
            lemma_close_run_end_bounds(pat, body_end(pat, r + 1));
        }
    }
}

/// The capture set of a whole pattern.
pub open spec fn scan_groups(pat: Seq<u8>) -> Seq<(Seq<u8>, bool)> {
    scan_groups_from(pat, 0)
}

fn is_name_byte_exec(c: u8) -> (r: bool)
    ensures
        r == is_name_byte(c),
{
    (NAME_LO <= c && c <= NAME_HI) || (DIGIT_LO <= c && c <= DIGIT_HI)
}

/// Scan a pattern for its named capture groups, in order of appearance.
///
/// Each entry pairs a group name with its optional flag; a name that occurs
/// more than once yields one entry per occurrence.
pub fn from_regex_pattern(pat: &[u8]) -> (r: Vec<GroupSpec>)
    ensures
        groups_view(r@) == scan_groups(pat@),
{
    let mut out: Vec<GroupSpec> = Vec::new();
    let mut i: usize = 0;
    proof {
        assert(groups_view(out@) =~= Seq::<(Seq<u8>, bool)>::empty());
    }
    while pat.len() >= 3 && i <= pat.len() - 3
        invariant
            0 <= i,
            groups_view(out@) + scan_groups_from(pat@, i as int) =~= scan_groups(pat@),
        decreases pat.len() - i,
    {
        if !(pat[i] == QMARK && pat[i + 1] == UPPER_P && pat[i + 2] == LANGLE) {
            assert(scan_groups_from(pat@, i as int) == scan_groups_from(pat@, i as int + 1));
            i = i + 1;
            continue;
        }
        // The maximal run of name bytes after the opener.
        let mut r: usize = i + 3;
        while r < pat.len() && is_name_byte_exec(pat[r])
            invariant
                i + 3 <= r <= pat.len(),
                name_run_end(pat@, i as int + 3) == name_run_end(pat@, r as int),
            decreases pat.len() - r,
        {
            assert(name_run_end(pat@, r as int) == name_run_end(pat@, r as int + 1));
            r = r + 1;
        }
        assert(name_run_end(pat@, i as int + 3) == r as int);
        if r == i + 3 || r == pat.len() || pat[r] != RANGLE {
            assert(scan_groups_from(pat@, i as int) == scan_groups_from(pat@, i as int + 1));
            i = i + 1;
            continue;
        }
        let name = vstd::slice::slice_to_vec(vstd::slice::slice_subrange(pat, i + 3, r));
        // Skip the group body up to the first `)`, then the run of `)`.
        let mut t: usize = r + 1;
        while t < pat.len() && pat[t] != RPAREN
            invariant
                r + 1 <= t <= pat.len(),
                body_end(pat@, r as int + 1) == body_end(pat@, t as int),
            decreases pat.len() - t,
        {
            assert(body_end(pat@, t as int) == body_end(pat@, t as int + 1));
            t = t + 1;
        }
        assert(body_end(pat@, r as int + 1) == t as int);
        let mut u: usize = t;
        while u < pat.len() && pat[u] == RPAREN
            invariant
                t <= u <= pat.len(),
                close_run_end(pat@, t as int) == close_run_end(pat@, u as int),
            decreases pat.len() - u,
        {
            assert(close_run_end(pat@, u as int) == close_run_end(pat@, u as int + 1));
            u = u + 1;
        }
        assert(close_run_end(pat@, t as int) == u as int);
        let ghost prev = out@;
        let ghost scan_here = scan_groups_from(pat@, i as int);
        let optional = u < pat.len() && pat[u] == QMARK;
        out.push(GroupSpec { name, optional });
        proof {
            assert(groups_view(out@) =~= groups_view(prev) + seq![(pat@.subrange(i as int + 3, r as int), optional)]);
        }
        if optional {
            assert(scan_here == seq![(pat@.subrange(i as int + 3, r as int), true)] + scan_groups_from(pat@, u as int + 1));
            i = u + 1;
        } else {
            assert(scan_here == seq![(pat@.subrange(i as int + 3, r as int), false)] + scan_groups_from(pat@, u as int));
            i = u;
        }
    }
    proof {
        if pat.len() >= 3 {
            assert(i as int + 3 > pat@.len());
        }
        assert(scan_groups_from(pat@, i as int) =~= Seq::<(Seq<u8>, bool)>::empty());
        assert(groups_view(out@) =~= scan_groups(pat@));
    }
    out
}

/// Look a group name up in a capture set; of several entries with the same
/// name, the last one scanned wins.
pub open spec fn lookup_group(gs: Seq<(Seq<u8>, bool)>, name: Seq<u8>) -> Option<bool>
    decreases gs.len(),
{
    if gs.len() == 0 {
        None
    } else if gs.last().0 == name {
        Some(gs.last().1)
    } else {
        lookup_group(gs.drop_last(), name)
    }
}

/// Find a group by name in a scanned capture set.
pub fn find_group(gs: &Vec<GroupSpec>, name: &Vec<u8>) -> (r: Option<bool>)
    ensures
        r == lookup_group(groups_view(gs@), name@),
{
    let mut k: usize = gs.len();
    proof {
        assert(gs@.subrange(0, k as int) =~= gs@);
    }
    while k > 0
        invariant
            0 <= k <= gs.len(),
            lookup_group(groups_view(gs@), name@) == lookup_group(
                groups_view(gs@.subrange(0, k as int)),
                name@,
            ),
        decreases k,
    {
        k = k - 1;
        let ghost pre = groups_view(gs@.subrange(0, k as int + 1));
        proof {
            assert(pre.drop_last() =~= groups_view(gs@.subrange(0, k as int)));
            assert(pre.last() == (gs@[k as int].name@, gs@[k as int].optional));
        }
        if gs[k].name == *name {
            proof {
                assert(gs@[k as int].name@ =~= name@);
            }
            return Some(gs[k].optional);
        }
        proof {
            assert(gs@[k as int].name@ != name@);
        }
    }
    proof {
        assert(groups_view(gs@.subrange(0, 0)) =~= Seq::<(Seq<u8>, bool)>::empty());
    }
    None
}

} // verus!
