//! The divergence counter: how far apart are the local and remote copies
//! of a branch?

use vstd::prelude::*;

use crate::oracle::{lemma_reach_all_iff, lemma_reach_all_same_sources, reach_all};
use crate::oracle::{AncestryOracle, StoreError};
use crate::target::RefTarget;

verus! {

/// How many commits the remote copy has that the local copy lacks.
pub open spec fn spec_ahead<O: AncestryOracle + ?Sized>(
    o: &O,
    local: RefTarget,
    remote: RefTarget,
) -> nat {
    reach_all(o, remote.spec_adds()).difference(reach_all(o, local.spec_adds())).len()
}

/// How many commits the local copy has that the remote copy lacks.
pub open spec fn spec_behind<O: AncestryOracle + ?Sized>(
    o: &O,
    local: RefTarget,
    remote: RefTarget,
) -> nat {
    reach_all(o, local.spec_adds()).difference(reach_all(o, remote.spec_adds())).len()
}

/// Counts `(ahead, behind)` for one branch: commits reachable from the
/// remote operative set but not the local one, and the reverse. The two
/// counts are independent enumerations — divergent histories can be
/// mutually ahead and behind.
pub fn divergence<O: AncestryOracle>(oracle: &O, local: &RefTarget, remote: &RefTarget) -> (r:
    Result<(usize, usize), StoreError>)
    requires
        oracle.inv(),
    ensures
        r is Ok <==> (oracle.walk_ok(remote.spec_adds(), local.spec_adds()) && oracle.walk_ok(
            local.spec_adds(),
            remote.spec_adds(),
        )),
        r matches Ok(counts) ==> counts.0 == spec_ahead(oracle, *local, *remote) && counts.1
            == spec_behind(oracle, *local, *remote),
{
    let local_adds = local.adds();
    let remote_adds = remote.adds();
    let ahead_revs = match oracle.walk_revs(&remote_adds, &local_adds) {
        Ok(v) => v,
        Err(e) => {
            return Err(e);
        }
    };
    let behind_revs = match oracle.walk_revs(&local_adds, &remote_adds) {
        Ok(v) => v,
        Err(e) => {
            return Err(e);
        }
    };
    proof {
        lemma_count_is_difference(oracle, ahead_revs@, remote.spec_adds(), local.spec_adds());
        lemma_count_is_difference(oracle, behind_revs@, local.spec_adds(), remote.spec_adds());
    }
    Ok((ahead_revs.len(), behind_revs.len()))
}

/// A duplicate-free enumeration of "reachable from `from` but not from
/// `exclude`" has exactly the cardinality of that difference set.
proof fn lemma_count_is_difference<O: AncestryOracle + ?Sized>(
    o: &O,
    v: Seq<crate::ids::CommitId>,
    from: Seq<crate::ids::CommitId>,
    exclude: Seq<crate::ids::CommitId>,
)
    requires
        v.no_duplicates(),
        forall|c: crate::ids::CommitId|
            #[trigger] v.contains(c) <==> ((exists|i: int|
                0 <= i < from.len() && (#[trigger] o.reachable_from(from[i])).contains(c)) && !(
            exists|i: int|
                0 <= i < exclude.len() && (#[trigger] o.reachable_from(exclude[i])).contains(c))),
    ensures
        v.len() == reach_all(o, from).difference(reach_all(o, exclude)).len(),
{
    let diff = reach_all(o, from).difference(reach_all(o, exclude));
    assert forall|c: crate::ids::CommitId| v.contains(c) == diff.contains(c) by {
        lemma_reach_all_iff(o, from, c);
        lemma_reach_all_iff(o, exclude, c);
    }
    assert(v.to_set() =~= diff);
    v.unique_seq_to_set();
}

/// What the listing renders of a divergence: nothing when the copies
/// agree, one direction when only one count is positive, both when the
/// histories have genuinely forked. A two-way divergence is never shown
/// as a one-way one.
#[derive(Clone, Copy, PartialEq, Eq, Structural, Debug)]
pub enum DivergenceDisplay {
    InSync,
    Ahead { ahead: usize },
    Behind { behind: usize },
    Diverged { ahead: usize, behind: usize },
}

/// Classifies a pair of divergence counts for presentation.
pub fn present_divergence(ahead: usize, behind: usize) -> (r: DivergenceDisplay)
    ensures
        ahead == 0 && behind == 0 ==> r == DivergenceDisplay::InSync,
        ahead != 0 && behind == 0 ==> r == (DivergenceDisplay::Ahead { ahead }),
        ahead == 0 && behind != 0 ==> r == (DivergenceDisplay::Behind { behind }),
        ahead != 0 && behind != 0 ==> r == (DivergenceDisplay::Diverged { ahead, behind }),
{
    if ahead != 0 && behind == 0 {
        DivergenceDisplay::Ahead { ahead }
    } else if ahead == 0 && behind != 0 {
        DivergenceDisplay::Behind { behind }
    } else if ahead != 0 && behind != 0 {
        DivergenceDisplay::Diverged { ahead, behind }
    } else {
        DivergenceDisplay::InSync
    }
}

/// Copies with identical operative sets diverge by nothing in either
/// direction.
pub proof fn lemma_identical_operative_in_sync<O: AncestryOracle + ?Sized>(
    o: &O,
    local: RefTarget,
    remote: RefTarget,
)
    requires
        local.operative() == remote.operative(),
    ensures
        spec_ahead(o, local, remote) == 0,
        spec_behind(o, local, remote) == 0,
{
    lemma_reach_all_same_sources(o, remote.spec_adds(), local.spec_adds());
    assert(reach_all(o, remote.spec_adds()).difference(reach_all(o, local.spec_adds()))
        =~= Set::empty());
    assert(reach_all(o, local.spec_adds()).difference(reach_all(o, remote.spec_adds()))
        =~= Set::empty());
}

} // verus!
