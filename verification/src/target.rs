//! Where a branch points: a single commit, or an unresolved conflict.

use vstd::prelude::*;

use crate::ids::CommitId;

verus! {

/// The position of one copy of a branch.
///
/// `Normal` points unambiguously at one commit. `Conflict` records the
/// outcome of concurrent, irreconcilable moves: `adds` are the candidate
/// current positions and `removes` are the positions those moves superseded.
/// A conflicted branch is treated as pointing at all of its `adds` at once.
#[derive(Debug)]
pub enum RefTarget {
    Normal(CommitId),
    Conflict { removes: Vec<CommitId>, adds: Vec<CommitId> },
}

impl RefTarget {
    /// The operative positions: the commits this target points at.
    pub open spec fn spec_adds(self) -> Seq<CommitId> {
        match self {
            RefTarget::Normal(c) => seq![c],
            RefTarget::Conflict { removes: _, adds } => adds@,
        }
    }

    /// The superseded positions recorded by a conflict.
    pub open spec fn spec_removes(self) -> Seq<CommitId> {
        match self {
            RefTarget::Normal(_) => Seq::empty(),
            RefTarget::Conflict { removes, adds: _ } => removes@,
        }
    }

    /// The operative set: every ancestry or divergence question about this
    /// target is a question about these commits.
    pub open spec fn operative(self) -> Set<CommitId> {
        self.spec_adds().to_set()
    }

    /// Structural sameness of two targets: same variant, same commits in the
    /// same order.
    pub open spec fn same(self, other: RefTarget) -> bool {
        match (self, other) {
            (RefTarget::Normal(a), RefTarget::Normal(b)) => a == b,
            (
                RefTarget::Conflict { removes: r1, adds: a1 },
                RefTarget::Conflict { removes: r2, adds: a2 },
            ) => r1@ == r2@ && a1@ == a2@,
            _ => false,
        }
    }

    /// The operative positions, as a vector the caller may keep.
    pub fn adds(&self) -> (r: Vec<CommitId>)
        ensures
            r@ == self.spec_adds(),
    {
        match self {
            RefTarget::Normal(c) => {
                let mut v: Vec<CommitId> = Vec::new();
                v.push(*c);
                proof {
                    assert(v@ =~= self.spec_adds());
                }
                v
            }
            RefTarget::Conflict { removes: _, adds } => {
                let mut v: Vec<CommitId> = Vec::new();
                let mut i: usize = 0;
                while i < adds.len()
                    invariant
                        i <= adds.len(),
                        v@ == adds@.take(i as int),
                    decreases adds.len() - i,
                {
                    v.push(adds[i]);
                    proof {
                        assert(v@ =~= adds@.take(i + 1));
                    }
                    i = i + 1;
                }
                proof {
                    assert(v@ =~= adds@);
                }
                v
            }
        }
    }

    /// A fresh copy, structurally the same as the original.
    pub fn duplicate(&self) -> (r: RefTarget)
        ensures
            r.same(*self),
            self.same(r),
            r.spec_adds() == self.spec_adds(),
            r.spec_removes() == self.spec_removes(),
    {
        match self {
            RefTarget::Normal(c) => RefTarget::Normal(*c),
            RefTarget::Conflict { removes, adds } => {
                let r2 = copy_commit_vec(removes);
                let a2 = copy_commit_vec(adds);
                RefTarget::Conflict { removes: r2, adds: a2 }
            }
        }
    }

    /// Decides structural sameness.
    pub fn same_as(&self, other: &RefTarget) -> (r: bool)
        ensures
            r == self.same(*other),
    {
        match (self, other) {
            (RefTarget::Normal(a), RefTarget::Normal(b)) => a == b,
            (
                RefTarget::Conflict { removes: r1, adds: a1 },
                RefTarget::Conflict { removes: r2, adds: a2 },
            ) => commit_vec_eq(r1, r2) && commit_vec_eq(a1, a2),
            _ => false,
        }
    }
}

/// An element-wise copy of a commit vector.
fn copy_commit_vec(v: &Vec<CommitId>) -> (r: Vec<CommitId>)
    ensures
        r@ == v@,
{
    let mut out: Vec<CommitId> = Vec::new();
    let mut i: usize = 0;
    while i < v.len()
        invariant
            i <= v@.len(),
            out@ == v@.take(i as int),
        decreases v@.len() - i,
    {
        out.push(v[i]);
        proof {
            assert(out@ =~= v@.take(i + 1));
        }
        i = i + 1;
    }
    proof {
        assert(out@ =~= v@);
    }
    out
}

/// Element-wise equality of two commit vectors.
fn commit_vec_eq(a: &Vec<CommitId>, b: &Vec<CommitId>) -> (r: bool)
    ensures
        r == (a@ == b@),
{
    if a.len() != b.len() {
        proof {
            assert(a@ != b@) by {
                assert(a@.len() != b@.len());
            }
        }
        return false;
    }
    let mut i: usize = 0;
    while i < a.len()
        invariant
            i <= a.len(),
            a@.len() == b@.len(),
            forall|j: int| 0 <= j < i ==> a@[j] == b@[j],
        decreases a.len() - i,
    {
        if a[i] != b[i] {
            return false;
        }
        i = i + 1;
    }
    proof {
        assert(a@ =~= b@);
    }
    true
}

} // verus!
