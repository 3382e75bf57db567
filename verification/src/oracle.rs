//! The ancestry and reachability oracle.
//!
//! The commit graph is an external collaborator: this layer only consumes
//! ancestry facts. The oracle interface states those facts as a contract,
//! and `TableOracle` implements it from an explicit reachability table so
//! the reconciliation logic can be exercised without a real commit store.

use vstd::prelude::*;

use crate::ids::CommitId;

verus! {

/// The commit store could not answer a query: a commit needed to reason
/// about safety is unavailable.
#[derive(Clone, Copy, PartialEq, Eq, Structural, Debug)]
pub struct StoreError;

/// A read-only, side-effect-free source of ancestry facts about the
/// commit graph.
pub trait AncestryOracle {
    /// The implementation's own well-formedness condition.
    spec fn inv(&self) -> bool;

    /// The set of commits reachable from `c`, `c` itself included.
    spec fn reachable_from(&self, c: CommitId) -> Set<CommitId>;

    /// Whether a reachability walk over these commits can be answered.
    spec fn walk_ok(&self, from: Seq<CommitId>, exclude: Seq<CommitId>) -> bool;

    /// Whether `ancestor` is an ancestor of `descendant` (a commit is an
    /// ancestor of itself).
    fn is_ancestor(&self, ancestor: &CommitId, descendant: &CommitId) -> (r: bool)
        requires
            self.inv(),
        ensures
            r == self.reachable_from(*descendant).contains(*ancestor),
    ;

    /// Enumerates the commits reachable from `from` but not reachable from
    /// `exclude`, each exactly once.
    fn walk_revs(&self, from: &Vec<CommitId>, exclude: &Vec<CommitId>) -> (r: Result<
        Vec<CommitId>,
        StoreError,
    >)
        requires
            self.inv(),
        ensures
            r is Ok <==> self.walk_ok(from@, exclude@),
            r matches Ok(v) ==> forall|c: CommitId|
                #[trigger] v@.contains(c) <==> ((exists|i: int|
                    0 <= i < from@.len() && (#[trigger] self.reachable_from(from@[i])).contains(c))
                    && !(exists|i: int|
                    0 <= i < exclude@.len() && (#[trigger] self.reachable_from(
                        exclude@[i],
                    )).contains(c))),
            r matches Ok(v) ==> v@.no_duplicates(),
    ;
}

/// The commits reachable from any commit of `cs`.
pub open spec fn reach_all<O: AncestryOracle + ?Sized>(o: &O, cs: Seq<CommitId>) -> Set<CommitId>
    decreases cs.len(),
{
    if cs.len() == 0 {
        Set::empty()
    } else {
        reach_all(o, cs.drop_last()).union(o.reachable_from(cs.last()))
    }
}

/// Membership in `reach_all` is membership in some source's reachable set.
pub proof fn lemma_reach_all_iff<O: AncestryOracle + ?Sized>(o: &O, cs: Seq<CommitId>, x: CommitId)
    ensures
        reach_all(o, cs).contains(x) <==> exists|i: int|
            0 <= i < cs.len() && #[trigger] o.reachable_from(cs[i]).contains(x),
    decreases cs.len(),
{
    if cs.len() == 0 {
    } else {
        let head = cs.drop_last();
        lemma_reach_all_iff(o, head, x);
        if reach_all(o, cs).contains(x) {
            if o.reachable_from(cs.last()).contains(x) {
                assert(o.reachable_from(cs[cs.len() - 1]).contains(x));
            } else {
                let i = choose|i: int|
                    0 <= i < head.len() && #[trigger] o.reachable_from(head[i]).contains(x);
                assert(o.reachable_from(cs[i]).contains(x));
            }
        }
        if exists|i: int| 0 <= i < cs.len() && #[trigger] o.reachable_from(cs[i]).contains(x) {
            let i = choose|i: int|
                0 <= i < cs.len() && #[trigger] o.reachable_from(cs[i]).contains(x);
            if i == cs.len() - 1 {
                assert(o.reachable_from(cs.last()).contains(x));
            } else {
                assert(o.reachable_from(head[i]).contains(x));
            }
        }
    }
}

/// `reach_all` only depends on which commits the sources are, not on
/// their order or multiplicity.
pub proof fn lemma_reach_all_same_sources<O: AncestryOracle + ?Sized>(
    o: &O,
    a: Seq<CommitId>,
    b: Seq<CommitId>,
)
    requires
        a.to_set() == b.to_set(),
    ensures
        reach_all(o, a) == reach_all(o, b),
{
    assert forall|x: CommitId| reach_all(o, a).contains(x) == reach_all(
        o,
        b,
    ).contains(x) by {
        lemma_reach_all_iff(o, a, x);
        lemma_reach_all_iff(o, b, x);
        if exists|i: int| 0 <= i < a.len() && #[trigger] o.reachable_from(a[i]).contains(x) {
            let i = choose|i: int|
                0 <= i < a.len() && #[trigger] o.reachable_from(a[i]).contains(x);
            assert(a.to_set().contains(a[i]));
            assert(b.to_set().contains(a[i]));
            assert(b.contains(a[i]));
            let j = choose|j: int| 0 <= j < b.len() && b[j] == a[i];
            assert(o.reachable_from(b[j]).contains(x));
        }
        if exists|j: int| 0 <= j < b.len() && #[trigger] o.reachable_from(b[j]).contains(x) {
            let j = choose|j: int|
                0 <= j < b.len() && #[trigger] o.reachable_from(b[j]).contains(x);
            assert(b.to_set().contains(b[j]));
            assert(a.to_set().contains(b[j]));
            assert(a.contains(b[j]));
            let i = choose|i: int| 0 <= i < a.len() && a[i] == b[j];
            assert(o.reachable_from(a[i]).contains(x));
        }
    }
    assert(reach_all(o, a) =~= reach_all(o, b));
}

/// The commits a reachability table gives as reachable from any commit
/// of `cs`.
pub open spec fn table_reach_all(o: TableOracle, cs: Seq<CommitId>) -> Set<CommitId>
    decreases cs.len(),
{
    if cs.len() == 0 {
        Set::empty()
    } else {
        table_reach_all(o, cs.drop_last()).union(o.reach_of(cs.last()))
    }
}

/// Membership in `table_reach_all` is membership in some source's row.
pub proof fn table_reach_all_iff(o: TableOracle, cs: Seq<CommitId>, x: CommitId)
    ensures
        table_reach_all(o, cs).contains(x) <==> exists|i: int|
            0 <= i < cs.len() && #[trigger] o.reach_of(cs[i]).contains(x),
    decreases cs.len(),
{
    if cs.len() == 0 {
    } else {
        let head = cs.drop_last();
        table_reach_all_iff(o, head, x);
        if table_reach_all(o, cs).contains(x) {
            if o.reach_of(cs.last()).contains(x) {
                assert(o.reach_of(cs[cs.len() - 1]).contains(x));
            } else {
                let i = choose|i: int|
                    0 <= i < head.len() && #[trigger] o.reach_of(head[i]).contains(x);
                assert(o.reach_of(cs[i]).contains(x));
            }
        }
        if exists|i: int| 0 <= i < cs.len() && #[trigger] o.reach_of(cs[i]).contains(x) {
            let i = choose|i: int| 0 <= i < cs.len() && #[trigger] o.reach_of(cs[i]).contains(x);
            if i == cs.len() - 1 {
                assert(o.reach_of(cs.last()).contains(x));
            } else {
                assert(o.reach_of(head[i]).contains(x));
            }
        }
    }
}

/// One row of a reachability table: a commit and every commit reachable
/// from it (itself included).
#[derive(Debug)]
pub struct CommitRecord {
    pub commit: CommitId,
    pub reachable: Vec<CommitId>,
}

/// An ancestry oracle backed by an explicit table: each known commit is
/// listed with its full reachable set. Commits absent from the table are
/// unknown; asking a walk about them fails, as a store whose data is
/// missing would.
#[derive(Debug)]
pub struct TableOracle {
    pub records: Vec<CommitRecord>,
}

impl TableOracle {
    /// Table keys are unique.
    pub open spec fn wf(self) -> bool {
        forall|i: int, j: int|
            0 <= i < j < self.records@.len() ==> #[trigger] self.records@[i].commit
                != #[trigger] self.records@[j].commit
    }

    /// Whether the table knows `c`.
    pub open spec fn known(self, c: CommitId) -> bool {
        exists|i: int| 0 <= i < self.records@.len() && #[trigger] self.records@[i].commit == c
    }

    /// The row index of `c` (meaningful only when `known` holds).
    pub open spec fn rec_ix(self, c: CommitId) -> int {
        choose|i: int| 0 <= i < self.records@.len() && #[trigger] self.records@[i].commit == c
    }

    /// The reachable set the table gives `c`: its row, or empty when
    /// unknown.
    pub open spec fn reach_of(self, c: CommitId) -> Set<CommitId> {
        if self.known(c) {
            self.records@[self.rec_ix(c)].reachable@.to_set()
        } else {
            Set::empty()
        }
    }

    /// All commits of `cs` are known to the table.
    pub open spec fn all_known(self, cs: Seq<CommitId>) -> bool {
        forall|i: int| 0 <= i < cs.len() ==> self.known(#[trigger] cs[i])
    }

    /// A row holding `c` is the row `rec_ix` resolves to.
    pub proof fn lemma_rec_found(self, c: CommitId, i: int)
        requires
            self.wf(),
            0 <= i < self.records@.len(),
            self.records@[i].commit == c,
        ensures
            self.known(c),
            self.rec_ix(c) == i,
    {
        assert(self.known(c));
        let j = self.rec_ix(c);
        if i < j {
            assert(self.records@[i].commit != self.records@[j].commit);
        } else if j < i {
            assert(self.records@[j].commit != self.records@[i].commit);
        }
    }

    /// Finds the row of `c`.
    fn find_record(&self, c: &CommitId) -> (r: Option<usize>)
        requires
            self.wf(),
        ensures
            match r {
                Some(i) => i < self.records@.len() && self.records@[i as int].commit == *c
                    && self.rec_ix(*c) == i,
                None => !self.known(*c),
            },
    {
        let mut i: usize = 0;
        while i < self.records.len()
            invariant
                self.wf(),
                i <= self.records@.len(),
                forall|j: int| 0 <= j < i ==> #[trigger] self.records@[j].commit != *c,
            decreases self.records@.len() - i,
        {
            if self.records[i].commit == *c {
                proof {
                    self.lemma_rec_found(*c, i as int);
                }
                return Some(i);
            }
            i = i + 1;
        }
        None
    }

    /// Decides membership of `x` in the reachable set of any of `sources`.
    fn reaches_any(&self, sources: &Vec<CommitId>, x: &CommitId) -> (r: bool)
        requires
            self.wf(),
        ensures
            r == table_reach_all(*self, sources@).contains(*x),
    {
        let mut i: usize = 0;
        while i < sources.len()
            invariant
                self.wf(),
                i <= sources@.len(),
                forall|j: int|
                    0 <= j < i ==> !(#[trigger] self.reach_of(sources@[j])).contains(*x),
            decreases sources@.len() - i,
        {
            match self.find_record(&sources[i]) {
                Some(k) => {
                    if vec_contains(&self.records[k].reachable, x) {
                        proof {
                            assert(self.reach_of(sources@[i as int]).contains(*x));
                            table_reach_all_iff(*self, sources@, *x);
                        }
                        return true;
                    }
                }
                None => {},
            }
            proof {
                assert(!self.reach_of(sources@[i as int]).contains(*x));
            }
            i = i + 1;
        }
        proof {
            table_reach_all_iff(*self, sources@, *x);
        }
        false
    }
}

/// Element-wise membership in a commit vector.
fn vec_contains(v: &Vec<CommitId>, x: &CommitId) -> (r: bool)
    ensures
        r == v@.contains(*x),
{
    let mut i: usize = 0;
    while i < v.len()
        invariant
            i <= v@.len(),
            forall|j: int| 0 <= j < i ==> v@[j] != *x,
        decreases v@.len() - i,
    {
        if v[i] == *x {
            return true;
        }
        i = i + 1;
    }
    false
}

impl AncestryOracle for TableOracle {
    open spec fn inv(&self) -> bool {
        self.wf()
    }

    open spec fn reachable_from(&self, c: CommitId) -> Set<CommitId> {
        self.reach_of(c)
    }

    open spec fn walk_ok(&self, from: Seq<CommitId>, exclude: Seq<CommitId>) -> bool {
        self.all_known(from) && self.all_known(exclude)
    }

    fn is_ancestor(&self, ancestor: &CommitId, descendant: &CommitId) -> (r: bool) {
        match self.find_record(descendant) {
            Some(i) => vec_contains(&self.records[i].reachable, ancestor),
            None => false,
        }
    }

    fn walk_revs(&self, from: &Vec<CommitId>, exclude: &Vec<CommitId>) -> (r: Result<
        Vec<CommitId>,
        StoreError,
    >) {
        let mut i: usize = 0;
        while i < from.len()
            invariant
                self.wf(),
                i <= from@.len(),
                forall|j: int| 0 <= j < i ==> self.known(#[trigger] from@[j]),
            decreases from@.len() - i,
        {
            if self.find_record(&from[i]).is_none() {
                return Err(StoreError);
            }
            i = i + 1;
        }
        let mut i: usize = 0;
        while i < exclude.len()
            invariant
                self.wf(),
                i <= exclude@.len(),
                self.all_known(from@),
                forall|j: int| 0 <= j < i ==> self.known(#[trigger] exclude@[j]),
            decreases exclude@.len() - i,
        {
            if self.find_record(&exclude[i]).is_none() {
                return Err(StoreError);
            }
            i = i + 1;
        }

        let mut result: Vec<CommitId> = Vec::new();
        let mut i: usize = 0;
        while i < from.len()
            invariant
                self.wf(),
                self.all_known(from@),
                i <= from@.len(),
                result@.no_duplicates(),
                forall|c: CommitId|
                    #[trigger] result@.contains(c) <==> (table_reach_all(
                        *self,
                        from@.take(i as int),
                    ).contains(c) && !table_reach_all(*self, exclude@).contains(c)),
            decreases from@.len() - i,
        {
            let k = match self.find_record(&from[i]) {
                Some(k) => k,
                None => {
                    proof {
                        assert(self.known(from@[i as int]));
                    }
                    return Err(StoreError);
                }
            };
            let ghost rec_seq = self.records@[k as int].reachable@;
            proof {
                assert(self.reach_of(from@[i as int]) =~= rec_seq.to_set());
            }
            let n = self.records[k].reachable.len();
            let mut j: usize = 0;
            while j < n
                invariant
                    self.wf(),
                    self.all_known(from@),
                    i < from@.len(),
                    k < self.records@.len(),
                    n == rec_seq.len(),
                    rec_seq == self.records@[k as int].reachable@,
                    self.reach_of(from@[i as int]) == rec_seq.to_set(),
                    j <= n,
                    result@.no_duplicates(),
                    forall|c: CommitId|
                        #[trigger] result@.contains(c) <==> ((table_reach_all(
                            *self,
                            from@.take(i as int),
                        ).contains(c) || rec_seq.take(j as int).contains(c)) && !table_reach_all(
                            *self,
                            exclude@,
                        ).contains(c)),
                decreases n - j,
            {
                let x = self.records[k].reachable[j];
                proof {
                    assert(rec_seq.take(j + 1) =~= rec_seq.take(j as int).push(rec_seq[j as int]));
                }
                if !self.reaches_any(exclude, &x) && !vec_contains(&result, &x) {
                    let ghost old_res = result@;
                    result.push(x);
                    proof {
                        assert(result@ =~= old_res.push(x));
                        assert forall|a: int, b: int|
                            0 <= a < result@.len() && 0 <= b < result@.len() && a != b implies
                        result@[a] != result@[b] by {
                            if a < old_res.len() && b < old_res.len() {
                            } else if a == old_res.len() {
                                assert(old_res[b] != x) by {
                                    if old_res[b] == x {
                                        assert(old_res.contains(x));
                                    }
                                }
                            } else {
                                assert(old_res[a] != x) by {
                                    if old_res[a] == x {
                                        assert(old_res.contains(x));
                                    }
                                }
                            }
                        }
                        assert(result@.no_duplicates());
                        assert forall|c: CommitId| #[trigger] result@.contains(c) <==> ((table_reach_all(
                            *self,
                            from@.take(i as int),
                        ).contains(c) || rec_seq.take(j + 1).contains(c)) && !table_reach_all(
                            *self,
                            exclude@,
                        ).contains(c)) by {
                            if c == x {
                                assert(result@[result@.len() - 1] == x);
                                assert(result@.contains(x));
                                assert(x == rec_seq[j as int]);
                                assert(rec_seq.take(j + 1)[j as int] == x);
                                assert(rec_seq.take(j + 1).contains(x));
                            } else {
                                assert(result@.contains(c) == old_res.contains(c)) by {
                                    if result@.contains(c) {
                                        let ix = choose|ix: int|
                                            0 <= ix < result@.len() && #[trigger] result@[ix] == c;
                                        assert(ix < old_res.len());
                                        assert(old_res[ix] == c);
                                    }
                                    if old_res.contains(c) {
                                        let ix = choose|ix: int|
                                            0 <= ix < old_res.len() && #[trigger] old_res[ix] == c;
                                        assert(result@[ix] == c);
                                    }
                                }
                                assert(rec_seq.take(j + 1).contains(c) == rec_seq.take(
                                    j as int,
                                ).contains(c)) by {
                                    if rec_seq.take(j + 1).contains(c) {
                                        let ix = choose|ix: int|
                                            0 <= ix < j + 1 && #[trigger] rec_seq.take(j + 1)[ix] == c;
                                        assert(ix < j);
                                        assert(rec_seq.take(j as int)[ix] == c);
                                    }
                                    if rec_seq.take(j as int).contains(c) {
                                        let ix = choose|ix: int|
                                            0 <= ix < j && #[trigger] rec_seq.take(j as int)[ix] == c;
                                        assert(rec_seq.take(j + 1)[ix] == c);
                                    }
                                }
                            }
                        }
                    }
                } else {
                    proof {
                        assert forall|c: CommitId| #[trigger] result@.contains(c) <==> ((table_reach_all(
                            *self,
                            from@.take(i as int),
                        ).contains(c) || rec_seq.take(j + 1).contains(c)) && !table_reach_all(
                            *self,
                            exclude@,
                        ).contains(c)) by {
                            if c == x {
                                if table_reach_all(*self, exclude@).contains(x) {
                                } else {
                                    assert(result@.contains(x));
                                }
                            } else {
                                assert(rec_seq.take(j + 1).contains(c) == rec_seq.take(
                                    j as int,
                                ).contains(c)) by {
                                    if rec_seq.take(j + 1).contains(c) {
                                        let ix = choose|ix: int|
                                            0 <= ix < j + 1 && #[trigger] rec_seq.take(j + 1)[ix] == c;
                                        assert(ix < j);
                                        assert(rec_seq.take(j as int)[ix] == c);
                                    }
                                    if rec_seq.take(j as int).contains(c) {
                                        let ix = choose|ix: int|
                                            0 <= ix < j && #[trigger] rec_seq.take(j as int)[ix] == c;
                                        assert(rec_seq.take(j + 1)[ix] == c);
                                    }
                                }
                            }
                        }
                    }
                }
                j = j + 1;
            }
            proof {
                assert(rec_seq.take(n as int) =~= rec_seq);
                assert(from@.take(i + 1).drop_last() =~= from@.take(i as int));
                assert(from@.take(i + 1).last() == from@[i as int]);
                assert(table_reach_all(*self, from@.take(i + 1)) == table_reach_all(
                    *self,
                    from@.take(i as int),
                ).union(self.reach_of(from@[i as int])));
                assert forall|c: CommitId| #[trigger] result@.contains(c) <==> (table_reach_all(
                    *self,
                    from@.take(i + 1),
                ).contains(c) && !table_reach_all(*self, exclude@).contains(c)) by {
                    assert(table_reach_all(*self, from@.take(i + 1)).contains(c) == (table_reach_all(
                        *self,
                        from@.take(i as int),
                    ).contains(c) || rec_seq.contains(c))) by {
                        assert(self.reach_of(from@[i as int]).contains(c) == rec_seq.to_set()
                            .contains(c));
                    }
                }
            }
            i = i + 1;
        }
        proof {
            assert(from@.take(from@.len() as int) =~= from@);
            assert forall|c: CommitId| #[trigger] result@.contains(c) <==> ((exists|ix: int|
                0 <= ix < from@.len() && (#[trigger] self.reachable_from(from@[ix])).contains(c))
                && !(exists|ix: int|
                0 <= ix < exclude@.len() && (#[trigger] self.reachable_from(
                    exclude@[ix],
                )).contains(c))) by {
                table_reach_all_iff(*self, from@, c);
                table_reach_all_iff(*self, exclude@, c);
                if exists|ix: int|
                    0 <= ix < from@.len() && (#[trigger] self.reach_of(from@[ix])).contains(c) {
                    let ix = choose|ix: int|
                        0 <= ix < from@.len() && (#[trigger] self.reach_of(from@[ix])).contains(c);
                    assert((self.reachable_from(from@[ix])).contains(c));
                }
                if exists|ix: int|
                    0 <= ix < from@.len() && (#[trigger] self.reachable_from(
                        from@[ix],
                    )).contains(c) {
                    let ix = choose|ix: int|
                        0 <= ix < from@.len() && (#[trigger] self.reachable_from(
                            from@[ix],
                        )).contains(c);
                    assert((self.reach_of(from@[ix])).contains(c));
                }
                if exists|ix: int|
                    0 <= ix < exclude@.len() && (#[trigger] self.reach_of(
                        exclude@[ix],
                    )).contains(c) {
                    let ix = choose|ix: int|
                        0 <= ix < exclude@.len() && (#[trigger] self.reach_of(
                            exclude@[ix],
                        )).contains(c);
                    assert((self.reachable_from(exclude@[ix])).contains(c));
                }
                if exists|ix: int|
                    0 <= ix < exclude@.len() && (#[trigger] self.reachable_from(
                        exclude@[ix],
                    )).contains(c) {
                    let ix = choose|ix: int|
                        0 <= ix < exclude@.len() && (#[trigger] self.reachable_from(
                            exclude@[ix],
                        )).contains(c);
                    assert((self.reach_of(exclude@[ix])).contains(c));
                }
            }
        }
        Ok(result)
    }
}

} // verus!
