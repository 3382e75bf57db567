//! The branch mutation operations and their dispatcher.
//!
//! Every operation validates all of its names first and only then stages
//! its changes, so a rejected operation leaves the view unchanged.

use vstd::prelude::*;

use crate::errors::BranchError;
use crate::globs::{
    all_matches, all_valid, failing_patterns, find_globs, first_invalid, names_of,
};
use crate::ids::CommitId;
use crate::listing::{
    cmd_branch_list, collisions_of, entry_matches, fresh_matches, fresh_tracked, listing_ok,
    tracked_unique, BranchListing, TrackedBranch,
};
use crate::oracle::AncestryOracle;
use crate::policy::{is_fast_forward, spec_is_fast_forward};
use crate::repo_view::{BranchView, RemoteRef};
use crate::target::RefTarget;

verus! {

/// Arguments for creating branches at a target revision.
#[derive(Debug)]
pub struct BranchCreateArgs {
    /// The branches' target revision; the caller resolves it (defaulting
    /// to the current working position) before invoking the operation.
    pub revision: Option<String>,
    /// The branches to create.
    pub names: Vec<String>,
}

/// Arguments for deleting branches, propagating the deletion to remotes
/// on the next push.
#[derive(Debug)]
pub struct BranchDeleteArgs {
    /// The branches to delete.
    pub names: Vec<String>,
    /// Glob patterns indicating branches to delete.
    pub glob: Vec<String>,
}

/// Arguments for listing branches and their targets.
#[derive(Debug)]
pub struct BranchListArgs;

/// Arguments for forgetting everything about branches, local and remote
/// targets alike.
#[derive(Debug)]
pub struct BranchForgetArgs {
    /// The branches to forget.
    pub names: Vec<String>,
    /// Glob patterns indicating branches to forget.
    pub glob: Vec<String>,
}

/// Arguments for pointing branches at a certain commit.
#[derive(Debug)]
pub struct BranchSetArgs {
    /// The branches' target revision; resolved by the caller.
    pub revision: Option<String>,
    /// Allow moving the branch backwards or sideways.
    pub allow_backwards: bool,
    /// The branches to update.
    pub names: Vec<String>,
}

/// One branch operation.
#[derive(Debug)]
pub enum BranchSubcommand {
    Create(BranchCreateArgs),
    Delete(BranchDeleteArgs),
    Forget(BranchForgetArgs),
    List(BranchListArgs),
    SetTarget(BranchSetArgs),
}

/// Branch `k` is untouched between two views.
pub open spec fn unchanged_at(pre: BranchView, post: BranchView, k: Seq<char>) -> bool {
    &&& post.has_branch(k) == pre.has_branch(k)
    &&& pre.has_branch(k) ==> post.branch_at(k) == pre.branch_at(k)
}

/// Branch `k`'s local target was cleared, its remote copies kept; a
/// branch left with no copy at all disappeared.
pub open spec fn local_cleared_at(pre: BranchView, post: BranchView, k: Seq<char>) -> bool {
    &&& !pre.has_branch(k) ==> unchanged_at(pre, post, k)
    &&& pre.has_branch(k) && pre.branch_at(k).remote_targets@.len() == 0 ==> !post.has_branch(k)
    &&& pre.has_branch(k) && pre.branch_at(k).remote_targets@.len() > 0 ==> {
        &&& post.has_branch(k)
        &&& post.branch_at(k).local_target is None
        &&& post.branch_at(k).remote_targets@ == pre.branch_at(k).remote_targets@
    }
}

/// No named branch has a local target yet.
pub open spec fn create_allowed(pre: BranchView, names: Seq<Seq<char>>) -> bool {
    forall|i: int| 0 <= i < names.len() ==> pre.local_of(#[trigger] names[i]) is None
}

/// The position of the first name whose local target already exists.
pub open spec fn first_existing(pre: BranchView, names: Seq<Seq<char>>) -> int
    decreases names.len(),
{
    if names.len() == 0 {
        0
    } else if pre.local_of(names.first()) is Some {
        0
    } else {
        1 + first_existing(pre, names.drop_first())
    }
}

/// Every named branch has a local target.
pub open spec fn all_have_local(pre: BranchView, names: Seq<Seq<char>>) -> bool {
    forall|i: int| 0 <= i < names.len() ==> pre.local_of(#[trigger] names[i]) is Some
}

/// The position of the first name whose local target is absent.
pub open spec fn first_missing_local(pre: BranchView, names: Seq<Seq<char>>) -> int
    decreases names.len(),
{
    if names.len() == 0 {
        0
    } else if pre.local_of(names.first()) is None {
        0
    } else {
        1 + first_missing_local(pre, names.drop_first())
    }
}

/// Every named branch exists in some form, local or remote.
pub open spec fn all_present(pre: BranchView, names: Seq<Seq<char>>) -> bool {
    forall|i: int| 0 <= i < names.len() ==> pre.has_branch(#[trigger] names[i])
}

/// The position of the first name absent from the view.
pub open spec fn first_absent(pre: BranchView, names: Seq<Seq<char>>) -> int
    decreases names.len(),
{
    if names.len() == 0 {
        0
    } else if !pre.has_branch(names.first()) {
        0
    } else {
        1 + first_absent(pre, names.drop_first())
    }
}

/// Every named branch's local target now points normally at `target`;
/// remote copies and unnamed branches are as they were.
pub open spec fn set_all_effect(
    pre: BranchView,
    post: BranchView,
    names: Seq<Seq<char>>,
    target: CommitId,
) -> bool {
    &&& post.wf()
    &&& forall|k: Seq<char>| !names.contains(k) ==> #[trigger] unchanged_at(pre, post, k)
    &&& forall|k: Seq<char>| #[trigger] names.contains(k) ==> {
        &&& post.has_branch(k)
        &&& post.branch_at(k).local_target == Some(RefTarget::Normal(target))
        &&& post.branch_at(k).remote_targets@ == if pre.has_branch(k) {
            pre.branch_at(k).remote_targets@
        } else {
            Seq::<RemoteRef>::empty()
        }
    }
}

/// Whether a set is permitted: either backwards motion is allowed, or
/// every named branch's move is a fast-forward.
pub open spec fn set_allowed<O: AncestryOracle + ?Sized>(
    o: &O,
    pre: BranchView,
    names: Seq<Seq<char>>,
    target: CommitId,
    allow_backwards: bool,
) -> bool {
    allow_backwards || forall|i: int|
        0 <= i < names.len() ==> spec_is_fast_forward(o, pre.local_of(#[trigger] names[i]), target)
}

/// The error find_globs owes when a glob request fails.
pub open spec fn glob_err(
    branches: Seq<crate::repo_view::BranchEntry>,
    gpats: Seq<Seq<char>>,
    allow_deleted: bool,
    e: BranchError,
) -> bool {
    if !all_valid(gpats) {
        e matches BranchError::InvalidGlob(p) && p@ == gpats[first_invalid(gpats)]
    } else {
        e matches BranchError::GlobNoMatch(ps) && names_of(ps@) == failing_patterns(
            branches,
            gpats,
            allow_deleted,
        )
    }
}

/// The names of `s`, each kept at its first occurrence only.
pub open spec fn dedup_names(s: Seq<Seq<char>>) -> Seq<Seq<char>>
    decreases s.len(),
{
    if s.len() == 0 {
        Seq::empty()
    } else {
        let rest = dedup_names(s.drop_last());
        if s.drop_last().contains(s.last()) {
            rest
        } else {
            rest.push(s.last())
        }
    }
}

/// Deduplication keeps exactly the names of the input, once each.
pub proof fn lemma_dedup_names(s: Seq<Seq<char>>)
    ensures
        dedup_names(s).no_duplicates(),
        forall|x: Seq<char>| #[trigger] dedup_names(s).contains(x) <==> s.contains(x),
    decreases s.len(),
{
    if s.len() == 0 {
    } else {
        let head = s.drop_last();
        lemma_dedup_names(head);
        let d = dedup_names(s);
        assert forall|x: Seq<char>| #[trigger] d.contains(x) <==> s.contains(x) by {
            if head.contains(s.last()) {
                assert(d == dedup_names(head));
                if s.contains(x) {
                    let i = choose|i: int| 0 <= i < s.len() && s[i] == x;
                    if i == s.len() - 1 {
                        assert(x == s.last());
                        assert(head.contains(x));
                    } else {
                        assert(head[i] == x);
                        assert(head.contains(x));
                    }
                }
                if d.contains(x) {
                    assert(dedup_names(head).contains(x));
                    assert(head.contains(x));
                    let i = choose|i: int| 0 <= i < head.len() && head[i] == x;
                    assert(s[i] == x);
                }
            } else {
                assert(d == dedup_names(head).push(s.last()));
                if s.contains(x) {
                    let i = choose|i: int| 0 <= i < s.len() && s[i] == x;
                    if i == s.len() - 1 {
                        assert(d[d.len() - 1] == x);
                    } else {
                        assert(head[i] == x);
                        assert(dedup_names(head).contains(x));
                        let j = choose|j: int|
                            0 <= j < dedup_names(head).len() && dedup_names(head)[j] == x;
                        assert(d[j] == x);
                    }
                }
                if d.contains(x) {
                    let i = choose|i: int| 0 <= i < d.len() && d[i] == x;
                    if i == d.len() - 1 {
                        assert(x == s.last());
                        assert(s[s.len() - 1] == x);
                    } else {
                        assert(dedup_names(head)[i] == x);
                        assert(dedup_names(head).contains(x));
                        assert(head.contains(x));
                        let j = choose|j: int| 0 <= j < head.len() && head[j] == x;
                        assert(s[j] == x);
                    }
                }
            }
        }
        if !head.contains(s.last()) {
            assert(!dedup_names(head).contains(s.last()));
            let d = dedup_names(s);
            assert forall|a: int, b: int|
                0 <= a < d.len() && 0 <= b < d.len() && a != b implies d[a] != d[b] by {
                if a < d.len() - 1 && b < d.len() - 1 {
                    assert(dedup_names(head)[a] == d[a]);
                    assert(dedup_names(head)[b] == d[b]);
                } else if a == d.len() - 1 {
                    if d[b] == s.last() {
                        assert(dedup_names(head)[b] == s.last());
                        assert(dedup_names(head).contains(s.last()));
                    }
                } else {
                    if d[a] == s.last() {
                        assert(dedup_names(head)[a] == s.last());
                        assert(dedup_names(head).contains(s.last()));
                    }
                }
            }
        }
    }
}

/// A valid prefix followed by an offending name pins the first offending
/// position, for each of the three validation shapes.
proof fn lemma_first_existing(pre: BranchView, names: Seq<Seq<char>>, i: int)
    requires
        0 <= i < names.len(),
        forall|j: int| 0 <= j < i ==> pre.local_of(#[trigger] names[j]) is None,
        pre.local_of(names[i]) is Some,
    ensures
        first_existing(pre, names) == i,
    decreases i,
{
    if i == 0 {
        assert(names.first() == names[0]);
    } else {
        assert(pre.local_of(names.first()) is None);
        let rest = names.drop_first();
        assert(forall|j: int| 0 <= j < rest.len() ==> rest[j] == names[j + 1]);
        lemma_first_existing(pre, rest, i - 1);
    }
}

proof fn lemma_first_missing_local(pre: BranchView, names: Seq<Seq<char>>, i: int)
    requires
        0 <= i < names.len(),
        forall|j: int| 0 <= j < i ==> pre.local_of(#[trigger] names[j]) is Some,
        pre.local_of(names[i]) is None,
    ensures
        first_missing_local(pre, names) == i,
    decreases i,
{
    if i == 0 {
        assert(names.first() == names[0]);
    } else {
        assert(pre.local_of(names.first()) is Some);
        let rest = names.drop_first();
        assert(forall|j: int| 0 <= j < rest.len() ==> rest[j] == names[j + 1]);
        lemma_first_missing_local(pre, rest, i - 1);
    }
}

proof fn lemma_first_absent(pre: BranchView, names: Seq<Seq<char>>, i: int)
    requires
        0 <= i < names.len(),
        forall|j: int| 0 <= j < i ==> pre.has_branch(#[trigger] names[j]),
        !pre.has_branch(names[i]),
    ensures
        first_absent(pre, names) == i,
    decreases i,
{
    if i == 0 {
        assert(names.first() == names[0]);
    } else {
        assert(pre.has_branch(names.first()));
        let rest = names.drop_first();
        assert(forall|j: int| 0 <= j < rest.len() ==> rest[j] == names[j + 1]);
        lemma_first_absent(pre, rest, i - 1);
    }
}

/// Whether some element of `v` has the given text.
fn contains_name(v: &Vec<String>, name: &String) -> (r: bool)
    ensures
        r == names_of(v@).contains(name@),
{
    let mut i: usize = 0;
    while i < v.len()
        invariant
            i <= v@.len(),
            forall|j: int| 0 <= j < i ==> #[trigger] v@[j]@ != name@,
        decreases v@.len() - i,
    {
        if v[i] == *name {
            proof {
                assert(names_of(v@)[i as int] == name@);
            }
            return true;
        }
        i = i + 1;
    }
    proof {
        if names_of(v@).contains(name@) {
            let j = choose|j: int| 0 <= j < names_of(v@).len() && names_of(v@)[j] == name@;
            assert(v@[j]@ == name@);
        }
    }
    false
}

/// Keeps the first occurrence of each name, dropping later duplicates.
fn dedup_vec(names: &Vec<String>) -> (r: Vec<String>)
    ensures
        names_of(r@) == dedup_names(names_of(names@)),
{
    let ghost pats = names_of(names@);
    let mut result: Vec<String> = Vec::new();
    let mut i: usize = 0;
    while i < names.len()
        invariant
            i <= names@.len(),
            pats == names_of(names@),
            names_of(result@) == dedup_names(pats.take(i as int)),
        decreases names@.len() - i,
    {
        proof {
            assert(pats.take(i + 1).drop_last() =~= pats.take(i as int));
            assert(pats.take(i + 1).last() == pats[i as int]);
            lemma_dedup_names(pats.take(i as int));
            assert(pats[i as int] == names@[i as int]@);
        }
        if !contains_name(&result, &names[i]) {
            let ghost old_r = result@;
            result.push(names[i].clone());
            proof {
                assert(names_of(result@) =~= names_of(old_r).push(pats[i as int]));
            }
        }
        i = i + 1;
    }
    proof {
        assert(pats.take(pats.len() as int) =~= pats);
    }
    result
}

/// Stages `Normal(target)` as the local target of every name, in order.
fn set_all(view: &mut BranchView, names: &Vec<String>, target: &CommitId)
    requires
        old(view).wf(),
    ensures
        set_all_effect(*old(view), *final(view), names_of(names@), *target),
{
    let ghost pre = *view;
    let ghost pats = names_of(names@);
    let mut i: usize = 0;
    while i < names.len()
        invariant
            i <= names@.len(),
            pats == names_of(names@),
            view.wf(),
            forall|k: Seq<char>|
                !pats.take(i as int).contains(k) ==> #[trigger] unchanged_at(pre, *view, k),
            forall|k: Seq<char>| #[trigger] pats.take(i as int).contains(k) ==> {
                &&& view.has_branch(k)
                &&& view.branch_at(k).local_target == Some(RefTarget::Normal(*target))
                &&& view.branch_at(k).remote_targets@ == if pre.has_branch(k) {
                    pre.branch_at(k).remote_targets@
                } else {
                    Seq::<RemoteRef>::empty()
                }
            },
        decreases names@.len() - i,
    {
        let ghost mid = *view;
        let cur = names[i].clone();
        let ghost curk = pats[i as int];
        proof {
            assert(curk == names@[i as int]@);
            assert(cur@ == curk);
        }
        view.set_local_branch(cur, RefTarget::Normal(*target));
        proof {
            assert(pats.take(i + 1) =~= pats.take(i as int).push(curk));
            assert forall|k: Seq<char>|
                !pats.take(i + 1).contains(k) implies #[trigger] unchanged_at(pre, *view, k) by {
                assert(!pats.take(i as int).contains(k)) by {
                    if pats.take(i as int).contains(k) {
                        let j = choose|j: int|
                            0 <= j < i && #[trigger] pats.take(i as int)[j] == k;
                        assert(pats.take(i + 1)[j] == k);
                    }
                }
                assert(k != curk) by {
                    if k == curk {
                        assert(pats.take(i + 1)[i as int] == curk);
                    }
                }
                assert(unchanged_at(pre, mid, k));
                assert(unchanged_at(mid, *view, k));
            }
            assert forall|k: Seq<char>| #[trigger] pats.take(i + 1).contains(k) implies {
                &&& view.has_branch(k)
                &&& view.branch_at(k).local_target == Some(RefTarget::Normal(*target))
                &&& view.branch_at(k).remote_targets@ == if pre.has_branch(k) {
                    pre.branch_at(k).remote_targets@
                } else {
                    Seq::<RemoteRef>::empty()
                }
            } by {
                if k == curk {
                    if pats.take(i as int).contains(k) {
                        assert(mid.has_branch(k));
                        assert(mid.branch_at(k).remote_targets@ == if pre.has_branch(k) {
                            pre.branch_at(k).remote_targets@
                        } else {
                            Seq::<RemoteRef>::empty()
                        });
                    } else {
                        assert(unchanged_at(pre, mid, k));
                    }
                } else {
                    assert(pats.take(i as int).contains(k)) by {
                        let j = choose|j: int|
                            0 <= j < i + 1 && #[trigger] pats.take(i + 1)[j] == k;
                        assert(j < i);
                        assert(pats.take(i as int)[j] == k);
                    }
                }
            }
        }
        i = i + 1;
    }
    proof {
        assert(pats.take(pats.len() as int) =~= pats);
    }
}

/// Creates each named branch at `target`. Refused wholesale if any name
/// already has a local target; the error names the first such branch and
/// suggests moving it with the set operation instead.
pub fn cmd_branch_create(view: &mut BranchView, target: &CommitId, args: &BranchCreateArgs) -> (r:
    Result<(), BranchError>)
    requires
        old(view).wf(),
    ensures
        final(view).wf(),
        r is Ok <==> create_allowed(*old(view), names_of(args.names@)),
        r is Ok ==> set_all_effect(*old(view), *final(view), names_of(args.names@), *target),
        r matches Err(e) ==> {
            &&& *final(view) == *old(view)
            &&& e matches BranchError::AlreadyExists(n)
            &&& n@ == names_of(args.names@)[first_existing(*old(view), names_of(args.names@))]
        },
{
    let ghost pats = names_of(args.names@);
    let mut i: usize = 0;
    while i < args.names.len()
        invariant
            i <= args.names@.len(),
            pats == names_of(args.names@),
            view.wf(),
            *view == *old(view),
            forall|j: int| 0 <= j < i ==> old(view).local_of(#[trigger] pats[j]) is None,
        decreases args.names@.len() - i,
    {
        proof {
            assert(pats[i as int] == args.names@[i as int]@);
        }
        if view.get_local_branch(&args.names[i]).is_some() {
            proof {
                lemma_first_existing(*view, pats, i as int);
            }
            return Err(BranchError::AlreadyExists(args.names[i].clone()));
        }
        i = i + 1;
    }
    set_all(view, &args.names, target);
    Ok(())
}

/// Points each named branch at `target`. Unless backwards motion is
/// explicitly allowed, the whole operation is refused — no branch moved —
/// if any name's move would not be a fast-forward.
pub fn cmd_branch_set<O: AncestryOracle>(
    view: &mut BranchView,
    oracle: &O,
    target: &CommitId,
    args: &BranchSetArgs,
) -> (r: Result<(), BranchError>)
    requires
        old(view).wf(),
        oracle.inv(),
    ensures
        final(view).wf(),
        r is Ok <==> set_allowed(
            oracle,
            *old(view),
            names_of(args.names@),
            *target,
            args.allow_backwards,
        ),
        r is Ok ==> set_all_effect(*old(view), *final(view), names_of(args.names@), *target),
        r matches Err(e) ==> *final(view) == *old(view) && e is NonFastForward,
{
    let ghost pats = names_of(args.names@);
    if !args.allow_backwards {
        let mut i: usize = 0;
        while i < args.names.len()
            invariant
                i <= args.names@.len(),
                pats == names_of(args.names@),
                view.wf(),
                oracle.inv(),
                !args.allow_backwards,
                *view == *old(view),
                forall|j: int|
                    0 <= j < i ==> spec_is_fast_forward(
                        oracle,
                        old(view).local_of(#[trigger] pats[j]),
                        *target,
                    ),
            decreases args.names@.len() - i,
        {
            proof {
                assert(pats[i as int] == args.names@[i as int]@);
            }
            let current = view.get_local_branch(&args.names[i]);
            if !is_fast_forward(oracle, current, target) {
                proof {
                    assert(current matches Some(t) && view.local_of(pats[i as int]) == Some(*t));
                    assert(!spec_is_fast_forward(
                        oracle,
                        old(view).local_of(pats[i as int]),
                        *target,
                    ));
                    assert(!set_allowed(
                        oracle,
                        *old(view),
                        pats,
                        *target,
                        args.allow_backwards,
                    ));
                }
                return Err(BranchError::NonFastForward);
            }
            proof {
                assert(spec_is_fast_forward(oracle, view.local_of(pats[i as int]), *target));
            }
            i = i + 1;
        }
    }
    set_all(view, &args.names, target);
    Ok(())
}

/// Collects the explicit names and the glob-resolved names into one
/// vector, explicit names first.
fn combine_names(names: &Vec<String>, globbed: &Vec<String>) -> (r: Vec<String>)
    ensures
        names_of(r@) == names_of(names@) + names_of(globbed@),
{
    let ghost pats = names_of(names@);
    let ghost gnames = names_of(globbed@);
    let mut combined: Vec<String> = Vec::new();
    let mut i: usize = 0;
    while i < names.len()
        invariant
            i <= names@.len(),
            pats == names_of(names@),
            names_of(combined@) == pats.take(i as int),
        decreases names@.len() - i,
    {
        let ghost old_c = combined@;
        combined.push(names[i].clone());
        proof {
            assert(pats.take(i + 1) =~= pats.take(i as int).push(pats[i as int]));
            assert(pats[i as int] == names@[i as int]@);
            assert(names_of(combined@) =~= names_of(old_c).push(pats[i as int]));
        }
        i = i + 1;
    }
    proof {
        assert(pats.take(pats.len() as int) =~= pats);
    }
    let mut j: usize = 0;
    while j < globbed.len()
        invariant
            j <= globbed@.len(),
            pats == names_of(names@),
            gnames == names_of(globbed@),
            names_of(combined@) == pats + gnames.take(j as int),
        decreases globbed@.len() - j,
    {
        let ghost old_c = combined@;
        combined.push(globbed[j].clone());
        proof {
            assert(gnames.take(j + 1) =~= gnames.take(j as int).push(gnames[j as int]));
            assert(gnames[j as int] == globbed@[j as int]@);
            assert(names_of(combined@) =~= names_of(old_c).push(gnames[j as int]));
            assert(pats + gnames.take(j + 1) =~= (pats + gnames.take(j as int)).push(
                gnames[j as int],
            ));
        }
        j = j + 1;
    }
    proof {
        assert(gnames.take(gnames.len() as int) =~= gnames);
    }
    combined
}

/// Deletes each named or glob-selected branch: clears its local target
/// while preserving its remote copies, so a later synchronization
/// propagates the deletion instead of silently losing it. Explicit names
/// must have a local target; glob selection does not resurrect branches
/// whose local target is already gone. Returns the deduplicated names
/// that were deleted.
pub fn cmd_branch_delete(view: &mut BranchView, args: &BranchDeleteArgs) -> (r: Result<
    Vec<String>,
    BranchError,
>)
    requires
        old(view).wf(),
    ensures
        final(view).wf(),
        r is Ok <==> (all_have_local(*old(view), names_of(args.names@)) && all_valid(
            names_of(args.glob@),
        ) && failing_patterns(old(view).branches@, names_of(args.glob@), false).len() == 0),
        r matches Err(e) ==> {
            &&& *final(view) == *old(view)
            &&& if !all_have_local(*old(view), names_of(args.names@)) {
                e matches BranchError::NotFound(n) && n@ == names_of(args.names@)[
                    first_missing_local(*old(view), names_of(args.names@))]
            } else {
                glob_err(old(view).branches@, names_of(args.glob@), false, e)
            }
        },
        r matches Ok(removed) ==> {
            &&& names_of(removed@) == dedup_names(
                names_of(args.names@) + all_matches(
                    old(view).branches@,
                    names_of(args.glob@),
                    false,
                ),
            )
            &&& forall|k: Seq<char>|
                names_of(removed@).contains(k) ==> #[trigger] local_cleared_at(
                    *old(view),
                    *final(view),
                    k,
                )
            &&& forall|k: Seq<char>|
                !names_of(removed@).contains(k) ==> #[trigger] unchanged_at(
                    *old(view),
                    *final(view),
                    k,
                )
        },
{
    let ghost pats = names_of(args.names@);
    let mut i: usize = 0;
    while i < args.names.len()
        invariant
            i <= args.names@.len(),
            pats == names_of(args.names@),
            view.wf(),
            *view == *old(view),
            forall|j: int| 0 <= j < i ==> old(view).local_of(#[trigger] pats[j]) is Some,
        decreases args.names@.len() - i,
    {
        proof {
            assert(pats[i as int] == args.names@[i as int]@);
        }
        if view.get_local_branch(&args.names[i]).is_none() {
            proof {
                lemma_first_missing_local(*view, pats, i as int);
            }
            return Err(BranchError::NotFound(args.names[i].clone()));
        }
        i = i + 1;
    }
    let globbed = match find_globs(view, &args.glob, false) {
        Ok(v) => v,
        Err(e) => {
            return Err(e);
        }
    };
    let combined = combine_names(&args.names, &globbed);
    let removed = dedup_vec(&combined);
    let ghost dd = names_of(removed@);
    proof {
        lemma_dedup_names(names_of(combined@));
    }
    let ghost pre = *view;
    let mut i: usize = 0;
    while i < removed.len()
        invariant
            i <= removed@.len(),
            dd == names_of(removed@),
            dd.no_duplicates(),
            view.wf(),
            forall|k: Seq<char>|
                dd.take(i as int).contains(k) ==> #[trigger] local_cleared_at(pre, *view, k),
            forall|k: Seq<char>|
                !dd.take(i as int).contains(k) ==> #[trigger] unchanged_at(pre, *view, k),
        decreases removed@.len() - i,
    {
        let ghost mid = *view;
        let ghost curk = dd[i as int];
        proof {
            assert(curk == removed@[i as int]@);
            assert(dd.take(i + 1) =~= dd.take(i as int).push(curk));
            assert(!dd.take(i as int).contains(curk)) by {
                if dd.take(i as int).contains(curk) {
                    let a = choose|a: int| 0 <= a < i && #[trigger] dd.take(i as int)[a] == curk;
                    assert(dd[a] == dd[i as int]);
                }
            }
            assert(unchanged_at(pre, mid, curk));
        }
        view.remove_local_branch(&removed[i]);
        proof {
            assert forall|k: Seq<char>| dd.take(i + 1).contains(k) implies #[trigger]
            local_cleared_at(pre, *view, k) by {
                if k == curk {
                    assert(mid.has_branch(k) == pre.has_branch(k));
                    if pre.has_branch(k) {
                        assert(mid.branch_at(k) == pre.branch_at(k));
                    }
                } else {
                    assert(dd.take(i as int).contains(k)) by {
                        let a = choose|a: int|
                            0 <= a < i + 1 && #[trigger] dd.take(i + 1)[a] == k;
                        assert(a < i);
                        assert(dd.take(i as int)[a] == k);
                    }
                    assert(local_cleared_at(pre, mid, k));
                }
            }
            assert forall|k: Seq<char>| !dd.take(i + 1).contains(k) implies #[trigger]
            unchanged_at(pre, *view, k) by {
                assert(!dd.take(i as int).contains(k)) by {
                    if dd.take(i as int).contains(k) {
                        let a = choose|a: int|
                            0 <= a < i && #[trigger] dd.take(i as int)[a] == k;
                        assert(dd.take(i + 1)[a] == k);
                    }
                }
                assert(k != curk) by {
                    if k == curk {
                        assert(dd.take(i + 1)[i as int] == curk);
                    }
                }
                assert(unchanged_at(pre, mid, k));
            }
        }
        i = i + 1;
    }
    proof {
        assert(dd.take(dd.len() as int) =~= dd);
    }
    Ok(removed)
}

/// Forgets each named or glob-selected branch entirely: its local target
/// and all remote copies vanish from the view, as if never known.
/// Explicit names must exist in some form; glob selection may target
/// branches whose local target was already deleted. Returns the
/// deduplicated names that were forgotten.
pub fn cmd_branch_forget(view: &mut BranchView, args: &BranchForgetArgs) -> (r: Result<
    Vec<String>,
    BranchError,
>)
    requires
        old(view).wf(),
    ensures
        final(view).wf(),
        r is Ok <==> (all_present(*old(view), names_of(args.names@)) && all_valid(
            names_of(args.glob@),
        ) && failing_patterns(old(view).branches@, names_of(args.glob@), true).len() == 0),
        r matches Err(e) ==> {
            &&& *final(view) == *old(view)
            &&& if !all_present(*old(view), names_of(args.names@)) {
                e matches BranchError::NotFound(n) && n@ == names_of(args.names@)[first_absent(
                    *old(view),
                    names_of(args.names@),
                )]
            } else {
                glob_err(old(view).branches@, names_of(args.glob@), true, e)
            }
        },
        r matches Ok(removed) ==> {
            &&& names_of(removed@) == dedup_names(
                names_of(args.names@) + all_matches(
                    old(view).branches@,
                    names_of(args.glob@),
                    true,
                ),
            )
            &&& forall|k: Seq<char>|
                names_of(removed@).contains(k) ==> !#[trigger] final(view).has_branch(k)
            &&& forall|k: Seq<char>|
                !names_of(removed@).contains(k) ==> #[trigger] unchanged_at(
                    *old(view),
                    *final(view),
                    k,
                )
        },
{
    let ghost pats = names_of(args.names@);
    let mut i: usize = 0;
    while i < args.names.len()
        invariant
            i <= args.names@.len(),
            pats == names_of(args.names@),
            view.wf(),
            *view == *old(view),
            forall|j: int| 0 <= j < i ==> old(view).has_branch(#[trigger] pats[j]),
        decreases args.names@.len() - i,
    {
        proof {
            assert(pats[i as int] == args.names@[i as int]@);
        }
        if view.get_branch(&args.names[i]).is_none() {
            proof {
                lemma_first_absent(*view, pats, i as int);
            }
            return Err(BranchError::NotFound(args.names[i].clone()));
        }
        i = i + 1;
    }
    let globbed = match find_globs(view, &args.glob, true) {
        Ok(v) => v,
        Err(e) => {
            return Err(e);
        }
    };
    let combined = combine_names(&args.names, &globbed);
    let removed = dedup_vec(&combined);
    let ghost dd = names_of(removed@);
    proof {
        lemma_dedup_names(names_of(combined@));
    }
    let ghost pre = *view;
    let mut i: usize = 0;
    while i < removed.len()
        invariant
            i <= removed@.len(),
            dd == names_of(removed@),
            dd.no_duplicates(),
            view.wf(),
            forall|k: Seq<char>|
                dd.take(i as int).contains(k) ==> !#[trigger] view.has_branch(k),
            forall|k: Seq<char>|
                !dd.take(i as int).contains(k) ==> #[trigger] unchanged_at(pre, *view, k),
        decreases removed@.len() - i,
    {
        let ghost mid = *view;
        let ghost curk = dd[i as int];
        proof {
            assert(curk == removed@[i as int]@);
            assert(dd.take(i + 1) =~= dd.take(i as int).push(curk));
        }
        view.remove_branch(&removed[i]);
        proof {
            assert forall|k: Seq<char>| dd.take(i + 1).contains(k) implies !#[trigger]
            view.has_branch(k) by {
                if k != curk {
                    assert(dd.take(i as int).contains(k)) by {
                        let a = choose|a: int|
                            0 <= a < i + 1 && #[trigger] dd.take(i + 1)[a] == k;
                        assert(a < i);
                        assert(dd.take(i as int)[a] == k);
                    }
                    assert(!mid.has_branch(k));
                }
            }
            assert forall|k: Seq<char>| !dd.take(i + 1).contains(k) implies #[trigger]
            unchanged_at(pre, *view, k) by {
                assert(!dd.take(i as int).contains(k)) by {
                    if dd.take(i as int).contains(k) {
                        let a = choose|a: int|
                            0 <= a < i && #[trigger] dd.take(i as int)[a] == k;
                        assert(dd.take(i + 1)[a] == k);
                    }
                }
                assert(k != curk) by {
                    if k == curk {
                        assert(dd.take(i + 1)[i as int] == curk);
                    }
                }
                assert(unchanged_at(pre, mid, k));
            }
        }
        i = i + 1;
    }
    proof {
        assert(dd.take(dd.len() as int) =~= dd);
    }
    Ok(removed)
}


/// What a branch operation produced: a plain success, the deduplicated
/// names a delete or forget removed, or a listing.
#[derive(Debug)]
pub enum BranchOutcome {
    Done,
    Removed(Vec<String>),
    Listed(BranchListing),
}

/// Dispatches one branch operation against the view. `target` is the
/// resolved target revision (used by create and set); `tracking` and
/// `reserved` are the synthetic tracking remote's branches and its
/// reserved remote name (used by list).
pub fn cmd_branch<O: AncestryOracle>(
    view: &mut BranchView,
    oracle: &O,
    target: &CommitId,
    tracking: &Vec<TrackedBranch>,
    reserved: &String,
    subcommand: &BranchSubcommand,
) -> (r: Result<BranchOutcome, BranchError>)
    requires
        old(view).wf(),
        oracle.inv(),
        tracked_unique(tracking@),
    ensures
        final(view).wf(),
        subcommand matches BranchSubcommand::Create(a) ==> {
            &&& (r is Ok <==> create_allowed(*old(view), names_of(a.names@)))
            &&& r is Ok ==> set_all_effect(*old(view), *final(view), names_of(a.names@), *target)
            &&& (r matches Ok(o2) ==> o2 is Done)
            &&& (r matches Err(e) ==> {
                &&& *final(view) == *old(view)
                &&& e matches BranchError::AlreadyExists(n)
                &&& n@ == names_of(a.names@)[first_existing(*old(view), names_of(a.names@))]
            })
        },
        subcommand matches BranchSubcommand::SetTarget(a) ==> {
            &&& (r is Ok <==> set_allowed(
                oracle,
                *old(view),
                names_of(a.names@),
                *target,
                a.allow_backwards,
            ))
            &&& r is Ok ==> set_all_effect(*old(view), *final(view), names_of(a.names@), *target)
            &&& (r matches Ok(o2) ==> o2 is Done)
            &&& (r matches Err(e) ==> *final(view) == *old(view) && e is NonFastForward)
        },
        subcommand matches BranchSubcommand::Delete(a) ==> {
            &&& (r is Ok <==> (all_have_local(*old(view), names_of(a.names@)) && all_valid(
                names_of(a.glob@),
            ) && failing_patterns(old(view).branches@, names_of(a.glob@), false).len() == 0))
            &&& (r matches Ok(o2) ==> {
                &&& o2 matches BranchOutcome::Removed(removed)
                &&& names_of(removed@) == dedup_names(
                    names_of(a.names@) + all_matches(
                        old(view).branches@,
                        names_of(a.glob@),
                        false,
                    ),
                )
                &&& forall|k: Seq<char>|
                    names_of(removed@).contains(k) ==> #[trigger] local_cleared_at(
                        *old(view),
                        *final(view),
                        k,
                    )
                &&& forall|k: Seq<char>|
                    !names_of(removed@).contains(k) ==> #[trigger] unchanged_at(
                        *old(view),
                        *final(view),
                        k,
                    )
            })
            &&& (r matches Err(e) ==> {
                &&& *final(view) == *old(view)
                &&& if !all_have_local(*old(view), names_of(a.names@)) {
                    e matches BranchError::NotFound(n) && n@ == names_of(a.names@)[
                        first_missing_local(*old(view), names_of(a.names@))]
                } else {
                    glob_err(old(view).branches@, names_of(a.glob@), false, e)
                }
            })
        },
        subcommand matches BranchSubcommand::Forget(a) ==> {
            &&& (r is Ok <==> (all_present(*old(view), names_of(a.names@)) && all_valid(
                names_of(a.glob@),
            ) && failing_patterns(old(view).branches@, names_of(a.glob@), true).len() == 0))
            &&& (r matches Ok(o2) ==> {
                &&& o2 matches BranchOutcome::Removed(removed)
                &&& names_of(removed@) == dedup_names(
                    names_of(a.names@) + all_matches(old(view).branches@, names_of(a.glob@), true),
                )
                &&& forall|k: Seq<char>|
                    names_of(removed@).contains(k) ==> !#[trigger] final(view).has_branch(k)
                &&& forall|k: Seq<char>|
                    !names_of(removed@).contains(k) ==> #[trigger] unchanged_at(
                        *old(view),
                        *final(view),
                        k,
                    )
            })
            &&& (r matches Err(e) ==> {
                &&& *final(view) == *old(view)
                &&& if !all_present(*old(view), names_of(a.names@)) {
                    e matches BranchError::NotFound(n) && n@ == names_of(a.names@)[first_absent(
                        *old(view),
                        names_of(a.names@),
                    )]
                } else {
                    glob_err(old(view).branches@, names_of(a.glob@), true, e)
                }
            })
        },
        subcommand matches BranchSubcommand::List(_) ==> {
            &&& *final(view) == *old(view)
            &&& (r is Ok <==> listing_ok(oracle, *old(view), tracking@, reserved@))
            &&& (r matches Err(e) ==> e matches BranchError::UnderlyingStore(_))
            &&& (r matches Ok(o2) ==> {
                &&& o2 matches BranchOutcome::Listed(listing)
                &&& listing.entries@.len() == old(view).branches@.len() + fresh_tracked(
                    *old(view),
                    tracking@,
                ).len()
                &&& forall|i: int|
                    0 <= i < old(view).branches@.len() ==> entry_matches(
                        oracle,
                        old(view).branches@[i],
                        tracking@,
                        reserved@,
                        #[trigger] listing.entries@[i],
                    )
                &&& forall|i: int|
                    old(view).branches@.len() <= i < listing.entries@.len() ==> fresh_matches(
                        fresh_tracked(*old(view), tracking@)[i - old(view).branches@.len()],
                        reserved@,
                        #[trigger] listing.entries@[i],
                    )
                &&& names_of(listing.collisions@) == collisions_of(
                    old(view).branches@,
                    tracking@,
                    reserved@,
                )
            })
        },
{
    match subcommand {
        BranchSubcommand::Create(a) => {
            match cmd_branch_create(view, target, a) {
                Ok(_) => Ok(BranchOutcome::Done),
                Err(e) => Err(e),
            }
        }
        BranchSubcommand::SetTarget(a) => {
            match cmd_branch_set(view, oracle, target, a) {
                Ok(_) => Ok(BranchOutcome::Done),
                Err(e) => Err(e),
            }
        }
        BranchSubcommand::Delete(a) => {
            match cmd_branch_delete(view, a) {
                Ok(removed) => Ok(BranchOutcome::Removed(removed)),
                Err(e) => Err(e),
            }
        }
        BranchSubcommand::Forget(a) => {
            match cmd_branch_forget(view, a) {
                Ok(removed) => Ok(BranchOutcome::Removed(removed)),
                Err(e) => Err(e),
            }
        }
        BranchSubcommand::List(_) => {
            match cmd_branch_list(view, oracle, tracking, reserved) {
                Ok(listing) => Ok(BranchOutcome::Listed(listing)),
                Err(e) => Err(e),
            }
        }
    }
}

} // verus!
