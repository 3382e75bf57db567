//! The typed errors a branch operation can return.

use vstd::prelude::*;
use vstd::string::StringExecFns;

use crate::globs::names_of;
use crate::oracle::StoreError;

verus! {

/// Each name single-quoted, the names joined by a comma and a space:
/// how an error names the glob patterns that failed together.
pub open spec fn quoted_join(names: Seq<Seq<char>>) -> Seq<char>
    decreases names.len(),
{
    if names.len() == 0 {
        Seq::empty()
    } else if names.len() == 1 {
        quote_wrap(names[0])
    } else {
        quoted_join(names.drop_last()) + seq![',', ' '] + quote_wrap(names.last())
    }
}

/// A name between single quotes.
pub open spec fn quote_wrap(name: Seq<char>) -> Seq<char> {
    seq!['\''] + name + seq!['\'']
}

/// Renders the names single-quoted and comma-joined.
pub fn quoted_list(names: &Vec<String>) -> (r: String)
    ensures
        r@ == quoted_join(names_of(names@)),
{
    let ghost pats = names_of(names@);
    let mut out = String::new();
    let mut i: usize = 0;
    while i < names.len()
        invariant
            i <= names@.len(),
            pats == names_of(names@),
            out@ == quoted_join(pats.take(i as int)),
        decreases names@.len() - i,
    {
        proof {
            reveal_strlit("'");
            reveal_strlit(", ");
            assert(pats[i as int] == names@[i as int]@);
            assert(pats.take(i + 1).drop_last() =~= pats.take(i as int));
            assert(pats.take(i + 1).last() == pats[i as int]);
        }
        if i > 0 {
            out.append(", ");
        }
        out.append("'");
        out.append(names[i].as_str());
        out.append("'");
        proof {
            if i == 0 {
                assert(pats.take(1)[0] == pats[0]);
                assert(out@ =~= quoted_join(pats.take(1)));
            } else {
                assert(out@ =~= quoted_join(pats.take(i as int)) + seq![',', ' '] + quote_wrap(
                    pats[i as int],
                ));
            }
        }
        i = i + 1;
    }
    proof {
        assert(pats.take(pats.len() as int) =~= pats);
    }
    out
}

/// Why a branch operation was refused or failed. Every recoverable error
/// is detected before any change is staged, so a rejected operation
/// leaves the view unchanged.
#[derive(Debug)]
pub enum BranchError {
    /// Creating a branch whose local target already exists; use the set
    /// operation to move it instead.
    AlreadyExists(String),
    /// Deleting or forgetting a branch that is absent.
    NotFound(String),
    /// A glob pattern whose text is not a well-formed glob.
    InvalidGlob(String),
    /// One or more glob patterns matched nothing; every failing pattern
    /// is named.
    GlobNoMatch(Vec<String>),
    /// Moving a branch backwards or sideways without the override.
    NonFastForward,
    /// The commit store could not answer; the data needed to reason
    /// about safety is unavailable.
    UnderlyingStore(StoreError),
}

} // verus!
