//! View composition for listing branches.
//!
//! The local view is merged, for presentation only, with the tracking
//! state of a reserved synthetic remote (a co-located interoperable
//! repository's branches). Each branch is shown with its display state
//! and, per differing remote copy, its divergence counts.

use vstd::prelude::*;

use crate::divergence::{divergence, present_divergence, spec_ahead, spec_behind};
use crate::divergence::DivergenceDisplay;
use crate::errors::BranchError;
use crate::globs::names_of;
use crate::oracle::AncestryOracle;
use crate::repo_view::{BranchEntry, BranchTarget, BranchView, RemoteRef};
use crate::target::RefTarget;

verus! {

/// One branch of the synthetic tracking remote: a branch name and where
/// that remote's copy points.
#[derive(Debug)]
pub struct TrackedBranch {
    pub name: String,
    pub target: RefTarget,
}

/// The display state of a listed branch: it has a local target; or only
/// genuine remote copies are left (deleted, pending propagation); or
/// nothing but the synthetic remote remembers it (forgotten, it will
/// vanish on the next export).
#[derive(Debug)]
pub enum BranchState {
    Local(RefTarget),
    Deleted,
    Forgotten,
}

/// One remote copy worth showing: its name, its target, and — when a
/// local target exists to compare against — the divergence between them.
#[derive(Debug)]
pub struct RemoteRow {
    pub remote: String,
    pub target: RefTarget,
    pub divergence: Option<DivergenceDisplay>,
}

/// One listed branch.
#[derive(Debug)]
pub struct BranchListEntry {
    pub name: String,
    pub state: BranchState,
    pub remotes: Vec<RemoteRow>,
}

/// The whole listing: one entry per branch, and the branches whose
/// genuine remote shadows the reserved name (their tracking state is not
/// merged, to avoid silently overwriting data; the caller warns).
#[derive(Debug)]
pub struct BranchListing {
    pub entries: Vec<BranchListEntry>,
    pub collisions: Vec<String>,
}

/// Tracked branch names are unique keys.
pub open spec fn tracked_unique(tracking: Seq<TrackedBranch>) -> bool {
    forall|i: int, j: int|
        0 <= i < j < tracking.len() ==> #[trigger] tracking[i].name@ != #[trigger] tracking[j].name@
}

/// Whether the synthetic remote tracks branch `k`.
pub open spec fn tracked_has(tracking: Seq<TrackedBranch>, k: Seq<char>) -> bool {
    exists|i: int| 0 <= i < tracking.len() && #[trigger] tracking[i].name@ == k
}

/// The tracking position of branch `k` (meaningful only when tracking).
pub open spec fn tracked_target(tracking: Seq<TrackedBranch>, k: Seq<char>) -> RefTarget {
    tracking[choose|i: int| 0 <= i < tracking.len() && #[trigger] tracking[i].name@ == k].target
}

/// Whether some genuine remote — one not carrying the reserved name —
/// has a copy of the branch.
pub open spec fn has_non_reserved(bt: BranchTarget, reserved: Seq<char>) -> bool {
    exists|i: int|
        0 <= i < bt.remote_targets@.len() && #[trigger] bt.remote_targets@[i].remote@ != reserved
}

/// A remote copy identical to the local target is not worth a row.
pub open spec fn skip_row(local: Option<RefTarget>, t: RefTarget) -> bool {
    local matches Some(l) && t.same(l)
}

/// The (remote name, target) pairs worth showing from a branch's own
/// remote copies, in order.
pub open spec fn base_row_sources(local: Option<RefTarget>, remotes: Seq<RemoteRef>) -> Seq<
    (Seq<char>, RefTarget),
>
    decreases remotes.len(),
{
    if remotes.len() == 0 {
        Seq::empty()
    } else {
        let rest = base_row_sources(local, remotes.drop_last());
        if skip_row(local, remotes.last().target) {
            rest
        } else {
            rest.push((remotes.last().remote@, remotes.last().target))
        }
    }
}

/// All the (remote name, target) pairs worth showing for one branch
/// entry: its own remote copies, then the synthetic remote's copy when
/// it tracks the branch, no genuine remote shadows the reserved name,
/// and the copy differs from the local target.
pub open spec fn entry_row_sources(
    e: BranchEntry,
    tracking: Seq<TrackedBranch>,
    reserved: Seq<char>,
) -> Seq<(Seq<char>, RefTarget)> {
    let base = base_row_sources(e.target.local_target, e.target.remote_targets@);
    if tracked_has(tracking, e.name@) && !e.target.has_remote(reserved) && !skip_row(
        e.target.local_target,
        tracked_target(tracking, e.name@),
    ) {
        base.push((reserved, tracked_target(tracking, e.name@)))
    } else {
        base
    }
}

/// What a row's divergence field shows: nothing without a local target,
/// else the classified pair of counts.
pub open spec fn spec_display<O: AncestryOracle + ?Sized>(
    o: &O,
    local: Option<RefTarget>,
    remote: RefTarget,
) -> Option<DivergenceDisplay> {
    match local {
        None => None,
        Some(l) => {
            let a = spec_ahead(o, l, remote);
            let b = spec_behind(o, l, remote);
            Some(
                if a == 0 && b == 0 {
                    DivergenceDisplay::InSync
                } else if a != 0 && b == 0 {
                    DivergenceDisplay::Ahead { ahead: a as usize }
                } else if a == 0 {
                    DivergenceDisplay::Behind { behind: b as usize }
                } else {
                    DivergenceDisplay::Diverged { ahead: a as usize, behind: b as usize }
                },
            )
        }
    }
}

/// The rows render exactly the sources, in order.
pub open spec fn rows_match<O: AncestryOracle + ?Sized>(
    o: &O,
    local: Option<RefTarget>,
    sources: Seq<(Seq<char>, RefTarget)>,
    rows: Seq<RemoteRow>,
) -> bool {
    &&& rows.len() == sources.len()
    &&& forall|j: int| 0 <= j < rows.len() ==> {
        &&& (#[trigger] rows[j]).remote@ == sources[j].0
        &&& rows[j].target.same(sources[j].1)
        &&& rows[j].divergence == spec_display(o, local, sources[j].1)
    }
}

/// The display state a branch entry is owed.
pub open spec fn state_matches(bt: BranchTarget, reserved: Seq<char>, st: BranchState) -> bool {
    match bt.local_target {
        Some(l) => st matches BranchState::Local(t) && t.same(l),
        None => if has_non_reserved(bt, reserved) {
            st is Deleted
        } else {
            st is Forgotten
        },
    }
}

/// The listing entry a view entry is owed.
pub open spec fn entry_matches<O: AncestryOracle + ?Sized>(
    o: &O,
    e: BranchEntry,
    tracking: Seq<TrackedBranch>,
    reserved: Seq<char>,
    out: BranchListEntry,
) -> bool {
    &&& out.name@ == e.name@
    &&& state_matches(e.target, reserved, out.state)
    &&& rows_match(o, e.target.local_target, entry_row_sources(e, tracking, reserved), out.remotes@)
}

/// The tracking branches unknown to the view, in tracking order; each is
/// listed as a forgotten branch with the synthetic remote's copy.
pub open spec fn fresh_tracked(v: BranchView, tracking: Seq<TrackedBranch>) -> Seq<TrackedBranch>
    decreases tracking.len(),
{
    if tracking.len() == 0 {
        Seq::empty()
    } else {
        let rest = fresh_tracked(v, tracking.drop_last());
        if !v.has_branch(tracking.last().name@) {
            rest.push(tracking.last())
        } else {
            rest
        }
    }
}

/// The listing entry a tracking-only branch is owed.
pub open spec fn fresh_matches(tb: TrackedBranch, reserved: Seq<char>, out: BranchListEntry) -> bool {
    &&& out.name@ == tb.name@
    &&& out.state is Forgotten
    &&& out.remotes@.len() == 1
    &&& out.remotes@[0].remote@ == reserved
    &&& out.remotes@[0].target.same(tb.target)
    &&& out.remotes@[0].divergence is None
}

/// The names whose genuine remote shadows the reserved name, in view
/// order.
pub open spec fn collisions_of(
    branches: Seq<BranchEntry>,
    tracking: Seq<TrackedBranch>,
    reserved: Seq<char>,
) -> Seq<Seq<char>>
    decreases branches.len(),
{
    if branches.len() == 0 {
        Seq::empty()
    } else {
        let rest = collisions_of(branches.drop_last(), tracking, reserved);
        if tracked_has(tracking, branches.last().name@) && branches.last().target.has_remote(
            reserved,
        ) {
            rest.push(branches.last().name@)
        } else {
            rest
        }
    }
}

/// Every reachability walk one branch's rows need can be answered.
pub open spec fn sources_ok<O: AncestryOracle + ?Sized>(
    o: &O,
    local: Option<RefTarget>,
    sources: Seq<(Seq<char>, RefTarget)>,
) -> bool {
    local matches Some(l) ==> forall|j: int|
        0 <= j < sources.len() ==> (o.walk_ok((#[trigger] sources[j]).1.spec_adds(), l.spec_adds())
            && o.walk_ok(l.spec_adds(), sources[j].1.spec_adds()))
}

/// Every walk the whole listing needs can be answered.
pub open spec fn listing_ok<O: AncestryOracle + ?Sized>(
    o: &O,
    v: BranchView,
    tracking: Seq<TrackedBranch>,
    reserved: Seq<char>,
) -> bool {
    forall|i: int|
        0 <= i < v.branches@.len() ==> sources_ok(
            o,
            (#[trigger] v.branches@[i]).target.local_target,
            entry_row_sources(v.branches@[i], tracking, reserved),
        )
}

/// An unskipped remote copy appears among the row sources.
proof fn lemma_source_present(local: Option<RefTarget>, remotes: Seq<RemoteRef>, j: int)
    requires
        0 <= j < remotes.len(),
        !skip_row(local, remotes[j].target),
    ensures
        base_row_sources(local, remotes).contains((remotes[j].remote@, remotes[j].target)),
    decreases remotes.len(),
{
    let src = (remotes[j].remote@, remotes[j].target);
    if j == remotes.len() - 1 {
        let s = base_row_sources(local, remotes);
        assert(s[s.len() - 1] == src);
    } else {
        lemma_source_present(local, remotes.drop_last(), j);
        let rest = base_row_sources(local, remotes.drop_last());
        let k = choose|k: int| 0 <= k < rest.len() && rest[k] == src;
        assert(base_row_sources(local, remotes)[k] == src);
    }
}

/// Finds the tracking entry for a branch name.
fn find_tracked(tracking: &Vec<TrackedBranch>, name: &String) -> (r: Option<usize>)
    requires
        tracked_unique(tracking@),
    ensures
        match r {
            Some(i) => i < tracking@.len() && tracking@[i as int].name@ == name@ && tracked_has(
                tracking@,
                name@,
            ) && tracked_target(tracking@, name@) == tracking@[i as int].target,
            None => !tracked_has(tracking@, name@),
        },
{
    let mut i: usize = 0;
    while i < tracking.len()
        invariant
            tracked_unique(tracking@),
            i <= tracking@.len(),
            forall|j: int| 0 <= j < i ==> #[trigger] tracking@[j].name@ != name@,
        decreases tracking@.len() - i,
    {
        if tracking[i].name == *name {
            proof {
                assert(tracked_has(tracking@, name@));
                let k = choose|k: int|
                    0 <= k < tracking@.len() && #[trigger] tracking@[k].name@ == name@;
                if k < i as int {
                    assert(tracking@[k].name@ != tracking@[i as int].name@);
                } else if (i as int) < k {
                    assert(tracking@[i as int].name@ != tracking@[k].name@);
                }
            }
            return Some(i);
        }
        i = i + 1;
    }
    None
}

/// Decides whether some genuine remote copy exists.
fn has_non_reserved_exec(bt: &BranchTarget, reserved: &String) -> (r: bool)
    ensures
        r == has_non_reserved(*bt, reserved@),
{
    let mut i: usize = 0;
    while i < bt.remote_targets.len()
        invariant
            i <= bt.remote_targets@.len(),
            forall|j: int| 0 <= j < i ==> #[trigger] bt.remote_targets@[j].remote@ == reserved@,
        decreases bt.remote_targets@.len() - i,
    {
        if bt.remote_targets[i].remote != *reserved {
            return true;
        }
        i = i + 1;
    }
    false
}

/// Lists every branch with its display state, its differing remote
/// copies, and their divergence; merges in the synthetic tracking
/// remote's branches under the reserved name, warning instead of
/// overwriting where a genuine remote shadows that name. Read-only.
#[verifier::rlimit(30)]
pub fn cmd_branch_list<O: AncestryOracle>(
    view: &BranchView,
    oracle: &O,
    tracking: &Vec<TrackedBranch>,
    reserved: &String,
) -> (r: Result<BranchListing, BranchError>)
    requires
        view.wf(),
        oracle.inv(),
        tracked_unique(tracking@),
    ensures
        r is Ok <==> listing_ok(oracle, *view, tracking@, reserved@),
        r matches Err(e) ==> e matches BranchError::UnderlyingStore(_),
        r matches Ok(listing) ==> {
            &&& listing.entries@.len() == view.branches@.len() + fresh_tracked(
                *view,
                tracking@,
            ).len()
            &&& forall|i: int|
                0 <= i < view.branches@.len() ==> entry_matches(
                    oracle,
                    view.branches@[i],
                    tracking@,
                    reserved@,
                    #[trigger] listing.entries@[i],
                )
            &&& forall|i: int|
                view.branches@.len() <= i < listing.entries@.len() ==> fresh_matches(
                    fresh_tracked(*view, tracking@)[i - view.branches@.len()],
                    reserved@,
                    #[trigger] listing.entries@[i],
                )
            &&& names_of(listing.collisions@) == collisions_of(
                view.branches@,
                tracking@,
                reserved@,
            )
        },
{
    let ghost branches = view.branches@;
    let mut entries: Vec<BranchListEntry> = Vec::new();
    let mut collisions: Vec<String> = Vec::new();
    let mut i: usize = 0;
    while i < view.branches.len()
        invariant
            view.wf(),
            oracle.inv(),
            tracked_unique(tracking@),
            branches == view.branches@,
            i <= branches.len(),
            entries@.len() == i,
            forall|j: int|
                0 <= j < i ==> entry_matches(
                    oracle,
                    branches[j],
                    tracking@,
                    reserved@,
                    #[trigger] entries@[j],
                ),
            forall|j: int|
                0 <= j < i ==> sources_ok(
                    oracle,
                    (#[trigger] branches[j]).target.local_target,
                    entry_row_sources(branches[j], tracking@, reserved@),
                ),
            names_of(collisions@) == collisions_of(
                branches.take(i as int),
                tracking@,
                reserved@,
            ),
        decreases branches.len() - i,
    {
        let entry = &view.branches[i];
        let ghost local = entry.target.local_target;
        let ghost rem_seq = entry.target.remote_targets@;

        let state = match &entry.target.local_target {
            Some(l) => BranchState::Local(l.duplicate()),
            None => {
                if has_non_reserved_exec(&entry.target, reserved) {
                    BranchState::Deleted
                } else {
                    BranchState::Forgotten
                }
            }
        };
        proof {
            assert(state_matches(entry.target, reserved@, state));
        }

        let mut rows: Vec<RemoteRow> = Vec::new();
        let mut j: usize = 0;
        while j < entry.target.remote_targets.len()
            invariant
                view.wf(),
                oracle.inv(),
                branches == view.branches@,
                i < branches.len(),
                entry == &branches[i as int],
                local == entry.target.local_target,
                rem_seq == entry.target.remote_targets@,
                j <= rem_seq.len(),
                rows_match(
                    oracle,
                    local,
                    base_row_sources(local, rem_seq.take(j as int)),
                    rows@,
                ),
                sources_ok(oracle, local, base_row_sources(local, rem_seq.take(j as int))),
            decreases rem_seq.len() - j,
        {
            let rr = &entry.target.remote_targets[j];
            proof {
                assert(rem_seq.take(j + 1).drop_last() =~= rem_seq.take(j as int));
                assert(rem_seq.take(j + 1).last() == rem_seq[j as int]);
            }
            let skip = match &entry.target.local_target {
                Some(l) => rr.target.same_as(l),
                None => false,
            };
            proof {
                assert(skip == skip_row(local, rem_seq[j as int].target));
            }
            if !skip {
                let div = match &entry.target.local_target {
                    Some(l) => {
                        match divergence(oracle, l, &rr.target) {
                            Ok(counts) => Some(present_divergence(counts.0, counts.1)),
                            Err(se) => {
                                proof {
                                    lemma_source_present(local, rem_seq, j as int);
                                    let src = (rem_seq[j as int].remote@, rem_seq[j as int].target);
                                    let srcs = entry_row_sources(
                                        branches[i as int],
                                        tracking@,
                                        reserved@,
                                    );
                                    assert(base_row_sources(local, rem_seq).contains(src));
                                    assert(srcs.contains(src)) by {
                                        let base = base_row_sources(local, rem_seq);
                                        let k = choose|k: int|
                                            0 <= k < base.len() && base[k] == src;
                                        assert(srcs[k] == src);
                                    }
                                    let k = choose|k: int|
                                        0 <= k < srcs.len() && srcs[k] == src;
                                    assert(!sources_ok(
                                        oracle,
                                        branches[i as int].target.local_target,
                                        srcs,
                                    ));
                                    assert(!listing_ok(oracle, *view, tracking@, reserved@));
                                }
                                return Err(BranchError::UnderlyingStore(se));
                            }
                        }
                    }
                    None => None,
                };
                let ghost old_rows = rows@;
                rows.push(
                    RemoteRow { remote: rr.remote.clone(), target: rr.target.duplicate(), divergence: div },
                );
                proof {
                    assert(base_row_sources(local, rem_seq.take(j + 1)) =~= base_row_sources(
                        local,
                        rem_seq.take(j as int),
                    ).push((rem_seq[j as int].remote@, rem_seq[j as int].target)));
                    assert(rows@ =~= old_rows.push(rows@[rows@.len() - 1]));
                }
            } else {
                proof {
                    assert(base_row_sources(local, rem_seq.take(j + 1)) =~= base_row_sources(
                        local,
                        rem_seq.take(j as int),
                    ));
                }
            }
            j = j + 1;
        }
        proof {
            assert(rem_seq.take(rem_seq.len() as int) =~= rem_seq);
        }

        let ghost srcs = entry_row_sources(branches[i as int], tracking@, reserved@);
        match find_tracked(tracking, &entry.name) {
            Some(ti) => {
                if entry.target.contains_remote(reserved) {
                    let ghost old_c = collisions@;
                    collisions.push(entry.name.clone());
                    proof {
                        assert(srcs =~= base_row_sources(local, rem_seq));
                        assert(names_of(collisions@) =~= names_of(old_c).push(
                            branches[i as int].name@,
                        ));
                    }
                } else {
                    let t = &tracking[ti].target;
                    proof {
                        assert(tracked_target(tracking@, branches[i as int].name@) == tracking@[
                            ti as int].target);
                    }
                    let skip = match &entry.target.local_target {
                        Some(l) => t.same_as(l),
                        None => false,
                    };
                    if !skip {
                        proof {
                            assert(srcs =~= base_row_sources(local, rem_seq).push(
                                (reserved@, tracking@[ti as int].target),
                            ));
                        }
                        let div = match &entry.target.local_target {
                            Some(l) => {
                                match divergence(oracle, l, t) {
                                    Ok(counts) => Some(present_divergence(counts.0, counts.1)),
                                    Err(se) => {
                                        proof {
                                            assert(srcs[srcs.len() - 1] == (
                                                reserved@,
                                                tracking@[ti as int].target,
                                            ));
                                            assert(!sources_ok(
                                                oracle,
                                                branches[i as int].target.local_target,
                                                srcs,
                                            ));
                                            assert(!listing_ok(
                                                oracle,
                                                *view,
                                                tracking@,
                                                reserved@,
                                            ));
                                        }
                                        return Err(BranchError::UnderlyingStore(se));
                                    }
                                }
                            }
                            None => None,
                        };
                        let ghost old_rows = rows@;
                        rows.push(
                            RemoteRow {
                                remote: reserved.clone(),
                                target: t.duplicate(),
                                divergence: div,
                            },
                        );
                        proof {
                            assert(rows@ =~= old_rows.push(rows@[rows@.len() - 1]));
                        }
                    } else {
                        proof {
                            assert(srcs =~= base_row_sources(local, rem_seq));
                        }
                    }
                    proof {
                        assert(collisions_of(branches.take(i + 1), tracking@, reserved@)
                            =~= collisions_of(branches.take(i as int), tracking@, reserved@)) by {
                            assert(branches.take(i + 1).drop_last() =~= branches.take(i as int));
                            assert(branches.take(i + 1).last() == branches[i as int]);
                        }
                    }
                }
            }
            None => {
                proof {
                    assert(srcs =~= base_row_sources(local, rem_seq));
                }
            }
        }
        proof {
            assert(branches.take(i + 1).drop_last() =~= branches.take(i as int));
            assert(branches.take(i + 1).last() == branches[i as int]);
            assert(collisions_of(branches.take(i + 1), tracking@, reserved@) == names_of(
                collisions@,
            ));
        }

        let ghost old_entries = entries@;
        entries.push(BranchListEntry { name: entry.name.clone(), state, remotes: rows });
        proof {
            assert(entries@ =~= old_entries.push(entries@[entries@.len() - 1]));
            assert(entry_matches(
                oracle,
                branches[i as int],
                tracking@,
                reserved@,
                entries@[i as int],
            ));
        }
        i = i + 1;
    }
    proof {
        assert(branches.take(branches.len() as int) =~= branches);
    }

    let ghost base_len = branches.len() as int;
    let mut ti: usize = 0;
    while ti < tracking.len()
        invariant
            view.wf(),
            oracle.inv(),
            tracked_unique(tracking@),
            branches == view.branches@,
            ti <= tracking@.len(),
            entries@.len() == base_len + fresh_tracked(*view, tracking@.take(ti as int)).len(),
            base_len == branches.len(),
            forall|j: int|
                0 <= j < base_len ==> entry_matches(
                    oracle,
                    branches[j],
                    tracking@,
                    reserved@,
                    #[trigger] entries@[j],
                ),
            forall|j: int|
                0 <= j < base_len ==> sources_ok(
                    oracle,
                    (#[trigger] branches[j]).target.local_target,
                    entry_row_sources(branches[j], tracking@, reserved@),
                ),
            forall|j: int|
                base_len <= j < entries@.len() ==> fresh_matches(
                    fresh_tracked(*view, tracking@.take(ti as int))[j - base_len],
                    reserved@,
                    #[trigger] entries@[j],
                ),
            names_of(collisions@) == collisions_of(branches, tracking@, reserved@),
        decreases tracking@.len() - ti,
    {
        let tb = &tracking[ti];
        proof {
            assert(tracking@.take(ti + 1).drop_last() =~= tracking@.take(ti as int));
            assert(tracking@.take(ti + 1).last() == tracking@[ti as int]);
        }
        if view.get_branch(&tb.name).is_none() {
            let mut rows: Vec<RemoteRow> = Vec::new();
            rows.push(
                RemoteRow { remote: reserved.clone(), target: tb.target.duplicate(), divergence: None },
            );
            let ghost old_entries = entries@;
            entries.push(
                BranchListEntry { name: tb.name.clone(), state: BranchState::Forgotten, remotes: rows },
            );
            proof {
                assert(entries@ =~= old_entries.push(entries@[entries@.len() - 1]));
                assert(fresh_tracked(*view, tracking@.take(ti + 1)) =~= fresh_tracked(
                    *view,
                    tracking@.take(ti as int),
                ).push(tracking@[ti as int]));
                assert(fresh_matches(
                    tracking@[ti as int],
                    reserved@,
                    entries@[entries@.len() - 1],
                ));
            }
        } else {
            proof {
                assert(fresh_tracked(*view, tracking@.take(ti + 1)) =~= fresh_tracked(
                    *view,
                    tracking@.take(ti as int),
                ));
            }
        }
        ti = ti + 1;
    }
    proof {
        assert(tracking@.take(tracking@.len() as int) =~= tracking@);
    }
    Ok(BranchListing { entries, collisions })
}

} // verus!

