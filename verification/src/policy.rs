//! The fast-forward policy: when is replacing a branch's current target
//! with a new commit a strictly forward move?

use vstd::prelude::*;

use crate::ids::CommitId;
use crate::oracle::AncestryOracle;
use crate::target::RefTarget;

verus! {

/// A move is fast-forward when the branch has no local target yet, or
/// when at least one commit of the current operative set is an ancestor
/// of the new target: forward motion past any one branch of a conflict
/// is accepted.
pub open spec fn spec_is_fast_forward<O: AncestryOracle + ?Sized>(
    o: &O,
    current: Option<RefTarget>,
    new_target: CommitId,
) -> bool {
    match current {
        None => true,
        Some(t) => exists|i: int|
            0 <= i < t.spec_adds().len() && o.reachable_from(new_target).contains(
                #[trigger] t.spec_adds()[i],
            ),
    }
}

/// Decides whether moving a branch from `current_target` to `new_target`
/// is a fast-forward. A pure predicate over oracle queries.
pub fn is_fast_forward<O: AncestryOracle>(
    oracle: &O,
    current_target: Option<&RefTarget>,
    new_target: &CommitId,
) -> (r: bool)
    requires
        oracle.inv(),
    ensures
        current_target is None ==> r,
        current_target matches Some(t) ==> r == spec_is_fast_forward(
            oracle,
            Some(*t),
            *new_target,
        ),
{
    match current_target {
        None => true,
        Some(t) => {
            let adds = t.adds();
            let mut i: usize = 0;
            while i < adds.len()
                invariant
                    oracle.inv(),
                    current_target == Some(t),
                    i <= adds@.len(),
                    adds@ == t.spec_adds(),
                    forall|j: int|
                        0 <= j < i ==> !oracle.reachable_from(*new_target).contains(
                            #[trigger] adds@[j],
                        ),
                decreases adds@.len() - i,
            {
                if oracle.is_ancestor(&adds[i], new_target) {
                    proof {
                        assert(oracle.reachable_from(*new_target).contains(
                            t.spec_adds()[i as int],
                        ));
                    }
                    return true;
                }
                i = i + 1;
            }
            false
        }
    }
}

/// A branch with no local target can always be moved: there is nothing
/// to move backward from.
pub proof fn lemma_absent_always_fast_forward<O: AncestryOracle + ?Sized>(o: &O, c: CommitId)
    ensures
        spec_is_fast_forward(o, None::<RefTarget>, c),
{
}

/// Moving a branch that points normally at `c` is fast-forward exactly
/// when `c` is an ancestor of the new target.
pub proof fn lemma_normal_fast_forward_iff_ancestor<O: AncestryOracle + ?Sized>(
    o: &O,
    c: CommitId,
    new_target: CommitId,
)
    ensures
        spec_is_fast_forward(o, Some(RefTarget::Normal(c)), new_target) <==> o.reachable_from(
            new_target,
        ).contains(c),
{
    let t = RefTarget::Normal(c);
    assert(t.spec_adds() =~= seq![c]);
    if o.reachable_from(new_target).contains(c) {
        assert(t.spec_adds()[0] == c);
    }
}

/// Forward motion past any single operative commit of the current target
/// suffices, even when the other branches of a conflict are not ancestors
/// of the new target.
pub proof fn lemma_any_conflict_branch_suffices<O: AncestryOracle + ?Sized>(
    o: &O,
    t: RefTarget,
    i: int,
    new_target: CommitId,
)
    requires
        0 <= i < t.spec_adds().len(),
        o.reachable_from(new_target).contains(t.spec_adds()[i]),
    ensures
        spec_is_fast_forward(o, Some(t), new_target),
{
}

} // verus!
