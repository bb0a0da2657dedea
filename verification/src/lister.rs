//! The one-level listing interface that the expander consumes.

use vstd::prelude::*;
use crate::path::{Path, prefix_view};
use crate::listing::{ListingResult, ListError};
use crate::model::level_prefixes;

verus! {

/// A storage backend's one-level listing primitive. A listing is a pure point
/// read: it has no side effects on the namespace, and may be repeated and
/// issued for overlapping prefixes without coordination. `namespace()` is the
/// set of object keys the backend holds; `list_ok(p)` says whether a listing
/// below `p` succeeds.
pub trait OneLevelLister: Sized {
    spec fn namespace(&self) -> Set<Seq<Seq<u8>>>;

    spec fn list_ok(&self, prefix: Seq<Seq<u8>>) -> bool;

    /// Lists exactly one level below `prefix`: the immediate child objects
    /// and the immediate child common prefixes, each exactly once.
    fn list_one_level(&self, prefix: Option<&Path>) -> (r: Result<ListingResult, ListError>)
        ensures
            (r is Ok) == self.list_ok(prefix_view(prefix)),
            r matches Ok(lr) ==> lr.is_level_of(self.namespace(), prefix_view(prefix), 0),
    ;
}

/// Every one-level listing that an expansion to depth `d` below `p` performs
/// succeeds: the one at `p` itself, and one below every common prefix
/// discovered at the levels before the last.
pub open spec fn expansion_ok<L: OneLevelLister>(l: &L, p: Seq<Seq<u8>>, d: nat) -> bool {
    &&& l.list_ok(p)
    &&& forall|i: nat, q: Seq<Seq<u8>>|
        i < d && #[trigger] level_prefixes(l.namespace(), p, i).contains(q) ==> l.list_ok(q)
}

} // verus!
