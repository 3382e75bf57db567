//! The branch view: the single source of truth for which branches exist
//! and where their local and remote copies point.

use vstd::prelude::*;

use crate::target::RefTarget;

verus! {

/// One remote's copy of a branch.
#[derive(Debug)]
pub struct RemoteRef {
    pub remote: String,
    pub target: RefTarget,
}

/// Everything known about one branch: the optional local copy and the
/// tracked remote copies, keyed by remote name.
#[derive(Debug)]
pub struct BranchTarget {
    pub local_target: Option<RefTarget>,
    pub remote_targets: Vec<RemoteRef>,
}

impl BranchTarget {
    /// Remote names are unique keys.
    pub open spec fn remotes_unique(self) -> bool {
        forall|i: int, j: int|
            0 <= i < j < self.remote_targets@.len() ==> #[trigger] self.remote_targets@[i].remote@
                != #[trigger] self.remote_targets@[j].remote@
    }

    /// A branch with neither a local copy nor any remote copy does not
    /// exist; such a value never stands in a view.
    pub open spec fn wf(self) -> bool {
        &&& self.remotes_unique()
        &&& self.local_target is Some || self.remote_targets@.len() > 0
    }

    /// Whether some remote entry carries the given remote name.
    pub open spec fn has_remote(self, remote: Seq<char>) -> bool {
        exists|i: int|
            0 <= i < self.remote_targets@.len() && #[trigger] self.remote_targets@[i].remote@
                == remote
    }

    /// Decides whether a remote of the given name is tracked.
    pub fn contains_remote(&self, remote: &String) -> (r: bool)
        ensures
            r == self.has_remote(remote@),
    {
        let mut i: usize = 0;
        while i < self.remote_targets.len()
            invariant
                i <= self.remote_targets@.len(),
                forall|j: int| 0 <= j < i ==> #[trigger] self.remote_targets@[j].remote@ != remote@,
            decreases self.remote_targets@.len() - i,
        {
            if self.remote_targets[i].remote == *remote {
                return true;
            }
            i = i + 1;
        }
        false
    }
}

/// A named branch and everything known about it.
#[derive(Debug)]
pub struct BranchEntry {
    pub name: String,
    pub target: BranchTarget,
}

/// The view: a mapping from branch name to branch state, held as an
/// ordered list of entries with unique names.
#[derive(Debug)]
pub struct BranchView {
    pub branches: Vec<BranchEntry>,
}

impl BranchView {
    /// The name at position `i`.
    pub open spec fn entry_name(self, i: int) -> Seq<char> {
        self.branches@[i].name@
    }

    /// Branch names are unique keys.
    pub open spec fn names_unique(self) -> bool {
        forall|i: int, j: int|
            0 <= i < j < self.branches@.len() ==> #[trigger] self.entry_name(i)
                != #[trigger] self.entry_name(j)
    }

    /// Well-formed: unique names, and every entry is a live branch.
    pub open spec fn wf(self) -> bool {
        &&& self.names_unique()
        &&& forall|i: int| 0 <= i < self.branches@.len() ==> (#[trigger] self.branches@[i].target).wf()
    }

    /// Whether a branch of the given name exists in any form.
    pub open spec fn has_branch(self, name: Seq<char>) -> bool {
        exists|i: int| 0 <= i < self.branches@.len() && #[trigger] self.entry_name(i) == name
    }

    /// The position of the branch of the given name (meaningful only when
    /// `has_branch` holds and names are unique).
    pub open spec fn branch_ix(self, name: Seq<char>) -> int {
        choose|i: int| 0 <= i < self.branches@.len() && #[trigger] self.entry_name(i) == name
    }

    /// The state of the branch of the given name.
    pub open spec fn branch_at(self, name: Seq<char>) -> BranchTarget {
        self.branches@[self.branch_ix(name)].target
    }

    /// The local copy of the branch of the given name, if either exists.
    pub open spec fn local_of(self, name: Seq<char>) -> Option<RefTarget> {
        if self.has_branch(name) {
            self.branch_at(name).local_target
        } else {
            None
        }
    }

    /// An index holding `name` is the index `branch_ix` resolves to.
    pub proof fn lemma_found(self, name: Seq<char>, i: int)
        requires
            self.names_unique(),
            0 <= i < self.branches@.len(),
            self.entry_name(i) == name,
        ensures
            self.has_branch(name),
            self.branch_ix(name) == i,
            self.branch_at(name) == self.branches@[i].target,
    {
        assert(self.has_branch(name));
        let j = self.branch_ix(name);
        assert(0 <= j < self.branches@.len() && self.entry_name(j) == name);
        if i < j {
            assert(self.entry_name(i) != self.entry_name(j));
        } else if j < i {
            assert(self.entry_name(j) != self.entry_name(i));
        }
    }

    /// Finds the position of a branch by name.
    fn index_of(&self, name: &String) -> (r: Option<usize>)
        ensures
            match r {
                Some(i) => i < self.branches@.len() && self.entry_name(i as int) == name@,
                None => !self.has_branch(name@),
            },
    {
        let mut i: usize = 0;
        while i < self.branches.len()
            invariant
                i <= self.branches@.len(),
                forall|j: int| 0 <= j < i ==> #[trigger] self.entry_name(j) != name@,
            decreases self.branches@.len() - i,
        {
            if self.branches[i].name == *name {
                return Some(i);
            }
            i = i + 1;
        }
        None
    }

    /// Looks a branch up by name.
    pub fn get_branch<'a>(&'a self, name: &String) -> (r: Option<&'a BranchTarget>)
        requires
            self.wf(),
        ensures
            r is Some <==> self.has_branch(name@),
            r matches Some(t) ==> *t == self.branch_at(name@),
    {
        match self.index_of(name) {
            Some(i) => {
                proof {
                    self.lemma_found(name@, i as int);
                }
                Some(&self.branches[i].target)
            }
            None => None,
        }
    }

    /// Looks up the local copy of a branch.
    pub fn get_local_branch<'a>(&'a self, name: &String) -> (r: Option<&'a RefTarget>)
        requires
            self.wf(),
        ensures
            r is Some <==> self.local_of(name@) is Some,
            r matches Some(t) ==> self.local_of(name@) == Some(*t),
    {
        match self.get_branch(name) {
            Some(bt) => {
                match &bt.local_target {
                    Some(t) => Some(t),
                    None => None,
                }
            }
            None => None,
        }
    }

    /// Points the local copy of `name` at `target`, creating the branch if
    /// it does not exist. Remote copies and all other branches are left as
    /// they were.
    pub fn set_local_branch(&mut self, name: String, target: RefTarget)
        requires
            old(self).wf(),
        ensures
            final(self).wf(),
            final(self).has_branch(name@),
            final(self).branch_at(name@).local_target == Some(target),
            final(self).branch_at(name@).remote_targets@ == if old(self).has_branch(name@) {
                old(self).branch_at(name@).remote_targets@
            } else {
                Seq::<RemoteRef>::empty()
            },
            forall|k: Seq<char>|
                k != name@ ==> #[trigger] final(self).has_branch(k) == old(self).has_branch(k),
            forall|k: Seq<char>|
                k != name@ && old(self).has_branch(k) ==> #[trigger] final(self).branch_at(k)
                    == old(self).branch_at(k),
    {
        let ghost pre = *self;
        match self.index_of(&name) {
            Some(i) => {
                proof {
                    pre.lemma_found(name@, i as int);
                }
                let entry = self.branches.remove(i);
                let new_entry = BranchEntry {
                    name,
                    target: BranchTarget {
                        local_target: Some(target),
                        remote_targets: entry.target.remote_targets,
                    },
                };
                self.branches.insert(i, new_entry);
                proof {
                    assert(self.branches@ =~= pre.branches@.update(i as int, new_entry));
                    self.lemma_update_effect(pre, i as int, new_entry);
                }
            }
            None => {
                let new_entry = BranchEntry {
                    name,
                    target: BranchTarget {
                        local_target: Some(target),
                        remote_targets: Vec::new(),
                    },
                };
                self.branches.push(new_entry);
                proof {
                    self.lemma_push_effect(pre, new_entry);
                }
            }
        }
    }

    /// After replacing position `i` by an entry of the same name, lookups
    /// behave as a single-key update.
    proof fn lemma_update_effect(self, pre: BranchView, i: int, e: BranchEntry)
        requires
            pre.wf(),
            0 <= i < pre.branches@.len(),
            self.branches@ == pre.branches@.update(i, e),
            pre.entry_name(i) == e.name@,
            e.target.remotes_unique(),
            e.target.local_target is Some || e.target.remote_targets@.len() > 0,
        ensures
            self.wf(),
            self.has_branch(e.name@),
            self.branch_at(e.name@) == e.target,
            forall|k: Seq<char>|
                k != e.name@ ==> #[trigger] self.has_branch(k) == pre.has_branch(k),
            forall|k: Seq<char>|
                k != e.name@ && pre.has_branch(k) ==> #[trigger] self.branch_at(k) == pre.branch_at(
                    k,
                ),
    {
        assert(forall|j: int|
            0 <= j < self.branches@.len() && j != i ==> self.branches@[j] == pre.branches@[j]);
        assert(self.branches@[i] == e);
        assert(forall|j: int| 0 <= j < self.branches@.len() && j != i ==> #[trigger] self.entry_name(
            j,
        ) == pre.entry_name(j));
        assert(self.entry_name(i) == e.name@);
        assert(self.names_unique());
        assert(self.wf());
        self.lemma_found(e.name@, i);
        assert forall|k: Seq<char>| k != e.name@ implies #[trigger] self.has_branch(k)
            == pre.has_branch(k) by {
            if pre.has_branch(k) {
                let j = pre.branch_ix(k);
                assert(self.entry_name(j) == k);
                assert(self.has_branch(k));
            }
            if self.has_branch(k) {
                let j = self.branch_ix(k);
                assert(pre.entry_name(j) == k);
                assert(pre.has_branch(k));
            }
        }
        assert forall|k: Seq<char>| k != e.name@ && pre.has_branch(k) implies #[trigger] self
            .branch_at(k) == pre.branch_at(k) by {
            let j = pre.branch_ix(k);
            pre.lemma_found(k, j);
            assert(self.entry_name(j) == k);
            self.lemma_found(k, j);
        }
    }

    /// After appending an entry with a fresh name, lookups behave as a
    /// single-key insertion.
    proof fn lemma_push_effect(self, pre: BranchView, e: BranchEntry)
        requires
            pre.wf(),
            !pre.has_branch(e.name@),
            self.branches@ == pre.branches@.push(e),
            e.target.remotes_unique(),
            e.target.local_target is Some || e.target.remote_targets@.len() > 0,
        ensures
            self.wf(),
            self.has_branch(e.name@),
            self.branch_at(e.name@) == e.target,
            forall|k: Seq<char>|
                k != e.name@ ==> #[trigger] self.has_branch(k) == pre.has_branch(k),
            forall|k: Seq<char>|
                k != e.name@ && pre.has_branch(k) ==> #[trigger] self.branch_at(k) == pre.branch_at(
                    k,
                ),
    {
        let n = pre.branches@.len() as int;
        assert(forall|j: int| 0 <= j < n ==> self.branches@[j] == pre.branches@[j]);
        assert(self.branches@[n] == e);
        assert(forall|j: int| 0 <= j < n ==> #[trigger] self.entry_name(j) == pre.entry_name(j));
        assert(self.entry_name(n) == e.name@);
        assert forall|i: int, j: int| 0 <= i < j < self.branches@.len() implies #[trigger] self
            .entry_name(i) != #[trigger] self.entry_name(j) by {
            if j < n {
                assert(pre.entry_name(i) != pre.entry_name(j));
            } else {
                assert(j == n);
                if self.entry_name(i) == e.name@ {
                    assert(pre.entry_name(i) == e.name@);
                    assert(pre.has_branch(e.name@));
                }
            }
        }
        assert(self.wf());
        self.lemma_found(e.name@, n);
        assert forall|k: Seq<char>| k != e.name@ implies #[trigger] self.has_branch(k)
            == pre.has_branch(k) by {
            if pre.has_branch(k) {
                let j = pre.branch_ix(k);
                assert(self.entry_name(j) == k);
            }
            if self.has_branch(k) {
                let j = self.branch_ix(k);
                assert(j < n);
                assert(pre.entry_name(j) == k);
            }
        }
        assert forall|k: Seq<char>| k != e.name@ && pre.has_branch(k) implies #[trigger] self
            .branch_at(k) == pre.branch_at(k) by {
            let j = pre.branch_ix(k);
            pre.lemma_found(k, j);
            assert(self.entry_name(j) == k);
            self.lemma_found(k, j);
        }
    }

    /// After removing position `i`, lookups behave as a single-key removal.
    proof fn lemma_remove_effect(self, pre: BranchView, i: int)
        requires
            pre.wf(),
            0 <= i < pre.branches@.len(),
            self.branches@ == pre.branches@.remove(i),
        ensures
            self.wf(),
            !self.has_branch(pre.entry_name(i)),
            forall|k: Seq<char>|
                k != pre.entry_name(i) ==> #[trigger] self.has_branch(k) == pre.has_branch(k),
            forall|k: Seq<char>|
                k != pre.entry_name(i) && pre.has_branch(k) ==> #[trigger] self.branch_at(k)
                    == pre.branch_at(k),
    {
        let name = pre.entry_name(i);
        pre.branches@.remove_ensures(i);
        assert(forall|j: int| 0 <= j < i ==> self.branches@[j] == pre.branches@[j]);
        assert(forall|j: int|
            i <= j < self.branches@.len() ==> self.branches@[j] == pre.branches@[j + 1]);
        assert forall|a: int, b: int| 0 <= a < b < self.branches@.len() implies #[trigger] self
            .entry_name(a) != #[trigger] self.entry_name(b) by {
            let a0 = if a < i { a } else { a + 1 };
            let b0 = if b < i { b } else { b + 1 };
            assert(self.branches@[a] == pre.branches@[a0]);
            assert(self.branches@[b] == pre.branches@[b0]);
            assert(pre.entry_name(a0) != pre.entry_name(b0));
        }
        assert forall|j: int| 0 <= j < self.branches@.len() implies (#[trigger] self.branches@[j]
            .target).wf() by {
            let j0 = if j < i { j } else { j + 1 };
            assert(self.branches@[j] == pre.branches@[j0]);
            assert(pre.branches@[j0].target.wf());
        }
        assert(self.wf());
        if self.has_branch(name) {
            let j = self.branch_ix(name);
            let j0 = if j < i { j } else { j + 1 };
            assert(self.branches@[j] == pre.branches@[j0]);
            assert(pre.entry_name(j0) == name);
            pre.lemma_found(name, j0);
            assert(j0 == i);
            assert(false);
        }
        assert forall|k: Seq<char>| k != name implies #[trigger] self.has_branch(k)
            == pre.has_branch(k) by {
            if pre.has_branch(k) {
                let j = pre.branch_ix(k);
                pre.lemma_found(k, j);
                assert(j != i);
                let j1 = if j < i { j } else { j - 1 };
                assert(self.branches@[j1] == pre.branches@[j]);
                assert(self.entry_name(j1) == k);
            }
            if self.has_branch(k) {
                let j = self.branch_ix(k);
                let j0 = if j < i { j } else { j + 1 };
                assert(self.branches@[j] == pre.branches@[j0]);
                assert(pre.entry_name(j0) == k);
            }
        }
        assert forall|k: Seq<char>| k != name && pre.has_branch(k) implies #[trigger] self
            .branch_at(k) == pre.branch_at(k) by {
            let j = pre.branch_ix(k);
            pre.lemma_found(k, j);
            assert(j != i);
            let j1 = if j < i { j } else { j - 1 };
            assert(self.branches@[j1] == pre.branches@[j]);
            assert(self.entry_name(j1) == k);
            self.lemma_found(k, j1);
        }
    }

    /// Clears the local copy of `name`, keeping its remote copies exactly
    /// as they were; a branch left with no copy at all disappears from the
    /// view. Absent names and other branches are untouched.
    pub fn remove_local_branch(&mut self, name: &String)
        requires
            old(self).wf(),
        ensures
            final(self).wf(),
            !old(self).has_branch(name@) ==> *final(self) == *old(self),
            old(self).has_branch(name@) && old(self).branch_at(name@).remote_targets@.len() == 0
                ==> !final(self).has_branch(name@),
            old(self).has_branch(name@) && old(self).branch_at(name@).remote_targets@.len() > 0 ==> {
                &&& final(self).has_branch(name@)
                &&& final(self).branch_at(name@).local_target is None
                &&& final(self).branch_at(name@).remote_targets@ == old(self).branch_at(
                    name@,
                ).remote_targets@
            },
            forall|k: Seq<char>|
                k != name@ ==> #[trigger] final(self).has_branch(k) == old(self).has_branch(k),
            forall|k: Seq<char>|
                k != name@ && old(self).has_branch(k) ==> #[trigger] final(self).branch_at(k)
                    == old(self).branch_at(k),
    {
        let ghost pre = *self;
        match self.index_of(name) {
            Some(i) => {
                proof {
                    pre.lemma_found(name@, i as int);
                }
                let entry = self.branches.remove(i);
                if entry.target.remote_targets.len() == 0 {
                    proof {
                        assert(self.branches@ =~= pre.branches@.remove(i as int));
                        self.lemma_remove_effect(pre, i as int);
                    }
                } else {
                    let new_entry = BranchEntry {
                        name: entry.name,
                        target: BranchTarget {
                            local_target: None,
                            remote_targets: entry.target.remote_targets,
                        },
                    };
                    self.branches.insert(i, new_entry);
                    proof {
                        assert(self.branches@ =~= pre.branches@.update(i as int, new_entry));
                        self.lemma_update_effect(pre, i as int, new_entry);
                    }
                }
            }
            None => {},
        }
    }

    /// Removes every trace of `name` — local and remote copies alike.
    /// Other branches are untouched.
    pub fn remove_branch(&mut self, name: &String)
        requires
            old(self).wf(),
        ensures
            final(self).wf(),
            !old(self).has_branch(name@) ==> *final(self) == *old(self),
            !final(self).has_branch(name@),
            forall|k: Seq<char>|
                k != name@ ==> #[trigger] final(self).has_branch(k) == old(self).has_branch(k),
            forall|k: Seq<char>|
                k != name@ && old(self).has_branch(k) ==> #[trigger] final(self).branch_at(k)
                    == old(self).branch_at(k),
    {
        let ghost pre = *self;
        match self.index_of(name) {
            Some(i) => {
                proof {
                    pre.lemma_found(name@, i as int);
                }
                let _ = self.branches.remove(i);
                proof {
                    assert(self.branches@ =~= pre.branches@.remove(i as int));
                    self.lemma_remove_effect(pre, i as int);
                }
            }
            None => {},
        }
    }
}

} // verus!
