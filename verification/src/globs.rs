//! Resolving glob patterns against the set of known branch names.

use vstd::prelude::*;

use crate::errors::BranchError;
use crate::repo_view::{BranchEntry, BranchView};

verus! {

/// Whether a pattern text is a well-formed glob; what glob::Pattern::new
/// accepts, a function of the text alone.
pub uninterp spec fn glob_is_valid(pattern: Seq<char>) -> bool;

/// Whether a name satisfies a well-formed glob pattern; what
/// glob::Pattern::matches decides, a function of the two texts alone.
pub uninterp spec fn glob_matches(pattern: Seq<char>, name: Seq<char>) -> bool;

/// Relies on glob::Pattern::new: it returns Ok exactly when the pattern
/// text is a well-formed glob, and that depends on the text alone.
#[verifier::external_body]
fn glob_pattern_is_valid(pattern: &String) -> (r: bool)
    ensures
        r == glob_is_valid(pattern@),
{
    glob::Pattern::new(pattern.as_str()).is_ok()
}

/// Relies on glob::Pattern::matches, on the pattern compiled by
/// glob::Pattern::new: whether a name matches a well-formed glob is a
/// function of the pattern and name texts alone.
#[verifier::external_body]
fn glob_pattern_matches(pattern: &String, name: &String) -> (r: bool)
    requires
        glob_is_valid(pattern@),
    ensures
        r == glob_matches(pattern@, name@),
{
    match glob::Pattern::new(pattern.as_str()) {
        Ok(p) => p.matches(name.as_str()),
        Err(_) => false,
    }
}

/// Whether one branch entry is selected by a pattern: its name matches,
/// and it either still has a local target or deleted branches are allowed.
pub open spec fn selectable(e: BranchEntry, pattern: Seq<char>, allow_deleted: bool) -> bool {
    glob_matches(pattern, e.name@) && (allow_deleted || e.target.local_target is Some)
}

/// The names one pattern selects, in view order.
pub open spec fn matches_in(
    branches: Seq<BranchEntry>,
    pattern: Seq<char>,
    allow_deleted: bool,
) -> Seq<Seq<char>>
    decreases branches.len(),
{
    if branches.len() == 0 {
        Seq::empty()
    } else {
        let rest = matches_in(branches.drop_last(), pattern, allow_deleted);
        if selectable(branches.last(), pattern, allow_deleted) {
            rest.push(branches.last().name@)
        } else {
            rest
        }
    }
}

/// The names all patterns select, pattern by pattern; a name selected by
/// several patterns appears once per pattern.
pub open spec fn all_matches(
    branches: Seq<BranchEntry>,
    patterns: Seq<Seq<char>>,
    allow_deleted: bool,
) -> Seq<Seq<char>>
    decreases patterns.len(),
{
    if patterns.len() == 0 {
        Seq::empty()
    } else {
        all_matches(branches, patterns.drop_last(), allow_deleted) + matches_in(
            branches,
            patterns.last(),
            allow_deleted,
        )
    }
}

/// The patterns that select nothing, in pattern order.
pub open spec fn failing_patterns(
    branches: Seq<BranchEntry>,
    patterns: Seq<Seq<char>>,
    allow_deleted: bool,
) -> Seq<Seq<char>>
    decreases patterns.len(),
{
    if patterns.len() == 0 {
        Seq::empty()
    } else {
        let rest = failing_patterns(branches, patterns.drop_last(), allow_deleted);
        if matches_in(branches, patterns.last(), allow_deleted).len() == 0 {
            rest.push(patterns.last())
        } else {
            rest
        }
    }
}

/// Every pattern is a well-formed glob.
pub open spec fn all_valid(patterns: Seq<Seq<char>>) -> bool {
    forall|i: int| 0 <= i < patterns.len() ==> glob_is_valid(#[trigger] patterns[i])
}

/// The position of the first ill-formed pattern.
pub open spec fn first_invalid(patterns: Seq<Seq<char>>) -> int
    decreases patterns.len(),
{
    if patterns.len() == 0 {
        0
    } else if !glob_is_valid(patterns.first()) {
        0
    } else {
        1 + first_invalid(patterns.drop_first())
    }
}

/// A position that is invalid after a valid prefix is the first invalid
/// position.
proof fn lemma_first_invalid(patterns: Seq<Seq<char>>, i: int)
    requires
        0 <= i < patterns.len(),
        forall|j: int| 0 <= j < i ==> glob_is_valid(#[trigger] patterns[j]),
        !glob_is_valid(patterns[i]),
    ensures
        first_invalid(patterns) == i,
    decreases i,
{
    if i == 0 {
        assert(patterns.first() == patterns[0]);
    } else {
        assert(glob_is_valid(patterns.first()));
        let rest = patterns.drop_first();
        assert(forall|j: int| 0 <= j < rest.len() ==> rest[j] == patterns[j + 1]);
        lemma_first_invalid(rest, i - 1);
    }
}

/// The view of a vector of names.
pub open spec fn names_of(v: Seq<String>) -> Seq<Seq<char>> {
    v.map_values(|s: String| s@)
}

/// Resolves glob patterns against the known branches. Each pattern is
/// matched independently, in order, against every branch name; a branch
/// without a local target is matched only when `allow_deleted` is set.
/// The first ill-formed pattern fails the operation; otherwise, if any
/// pattern selected nothing, the operation fails naming every such
/// pattern, and nothing is partially applied. The result may name the
/// same branch more than once; callers deduplicate before mutating.
pub fn find_globs(view: &BranchView, globs: &Vec<String>, allow_deleted: bool) -> (r: Result<
    Vec<String>,
    BranchError,
>)
    ensures
        r is Ok <==> (all_valid(names_of(globs@)) && failing_patterns(
            view.branches@,
            names_of(globs@),
            allow_deleted,
        ).len() == 0),
        r matches Ok(names) ==> names_of(names@) == all_matches(
            view.branches@,
            names_of(globs@),
            allow_deleted,
        ),
        !all_valid(names_of(globs@)) ==> {
            &&& r matches Err(e)
            &&& e matches BranchError::InvalidGlob(p)
            &&& p@ == names_of(globs@)[first_invalid(names_of(globs@))]
        },
        all_valid(names_of(globs@)) && failing_patterns(
            view.branches@,
            names_of(globs@),
            allow_deleted,
        ).len() > 0 ==> {
            &&& r matches Err(e)
            &&& e matches BranchError::GlobNoMatch(ps)
            &&& names_of(ps@) == failing_patterns(view.branches@, names_of(globs@), allow_deleted)
        },
{
    let ghost pats = names_of(globs@);
    let ghost branches = view.branches@;
    let mut matching: Vec<String> = Vec::new();
    let mut failed: Vec<String> = Vec::new();
    let mut gi: usize = 0;
    while gi < globs.len()
        invariant
            gi <= globs@.len(),
            pats == names_of(globs@),
            branches == view.branches@,
            forall|j: int| 0 <= j < gi ==> glob_is_valid(#[trigger] pats[j]),
            names_of(matching@) == all_matches(branches, pats.take(gi as int), allow_deleted),
            names_of(failed@) == failing_patterns(branches, pats.take(gi as int), allow_deleted),
        decreases globs@.len() - gi,
    {
        let pattern = &globs[gi];
        proof {
            assert(pats[gi as int] == pattern@);
        }
        if !glob_pattern_is_valid(pattern) {
            proof {
                lemma_first_invalid(pats, gi as int);
            }
            return Err(BranchError::InvalidGlob(pattern.clone()));
        }
        let mut bi: usize = 0;
        let mut found = false;
        while bi < view.branches.len()
            invariant
                bi <= view.branches@.len(),
                branches == view.branches@,
                glob_is_valid(pattern@),
                names_of(matching@) == all_matches(branches, pats.take(gi as int), allow_deleted)
                    + matches_in(branches.take(bi as int), pattern@, allow_deleted),
                found == (matches_in(branches.take(bi as int), pattern@, allow_deleted).len() > 0),
            decreases view.branches@.len() - bi,
        {
            let entry = &view.branches[bi];
            proof {
                assert(branches.take(bi + 1).drop_last() =~= branches.take(bi as int));
                assert(branches.take(bi + 1).last() == branches[bi as int]);
            }
            if glob_pattern_matches(pattern, &entry.name) && (allow_deleted
                || entry.target.local_target.is_some()) {
                let ghost old_matching = matching@;
                matching.push(entry.name.clone());
                proof {
                    assert(selectable(branches[bi as int], pattern@, allow_deleted));
                    assert(names_of(matching@) =~= names_of(old_matching).push(
                        branches[bi as int].name@,
                    ));
                }
                found = true;
            } else {
                proof {
                    assert(!selectable(branches[bi as int], pattern@, allow_deleted));
                }
            }
            bi = bi + 1;
        }
        proof {
            assert(branches.take(branches.len() as int) =~= branches);
            assert(pats.take(gi + 1).drop_last() =~= pats.take(gi as int));
            assert(pats.take(gi + 1).last() == pats[gi as int]);
        }
        if !found {
            let ghost old_failed = failed@;
            failed.push(pattern.clone());
            proof {
                assert(names_of(failed@) =~= names_of(old_failed).push(pats[gi as int]));
            }
        }
        gi = gi + 1;
    }
    proof {
        assert(pats.take(pats.len() as int) =~= pats);
    }
    if failed.len() > 0 {
        proof {
            assert(failing_patterns(branches, pats, allow_deleted).len() == names_of(
                failed@,
            ).len());
        }
        return Err(BranchError::GlobNoMatch(failed));
    }
    Ok(matching)
}

} // verus!
