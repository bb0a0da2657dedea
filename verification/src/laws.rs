//! Laws of depth-limited expansion, stated over the model and proved once
//! and for all. Each speaks about any result that satisfies the expander's
//! (or the lister's) postcondition.

use vstd::prelude::*;
use crate::listing::ListingResult;
use crate::lister::{OneLevelLister, expansion_ok};
use crate::model::{level_objects, level_prefixes, lemma_level_prefixes_member};

verus! {

broadcast use vstd::set::group_set_axioms;

/// Law: the listing that an expansion describes is a function of the
/// namespace, the prefix and the depth alone. Two results of expansions with
/// identical arguments against an unchanged namespace — in particular,
/// repeated calls — hold set-equal objects and set-equal common prefixes,
/// whatever order each lists them in.
pub proof fn lemma_expansion_deterministic(
    r1: ListingResult,
    r2: ListingResult,
    ns: Set<Seq<Seq<u8>>>,
    p: Seq<Seq<u8>>,
    d: nat,
)
    requires
        r1.is_level_of(ns, p, d),
        r2.is_level_of(ns, p, d),
    ensures
        r1.objs().to_set() == r2.objs().to_set(),
        r1.prefs().to_set() == r2.prefs().to_set(),
{
}

/// Law: an expansion with target depth zero describes exactly what one
/// one-level listing at the same prefix describes, since both are the level
/// zero of the namespace below that prefix.
pub proof fn lemma_depth_zero_is_one_level(
    expanded: ListingResult,
    listed: ListingResult,
    ns: Set<Seq<Seq<u8>>>,
    p: Seq<Seq<u8>>,
)
    requires
        expanded.is_level_of(ns, p, 0),
        listed.is_level_of(ns, p, 0),
    ensures
        expanded.objs().to_set() == listed.objs().to_set(),
        expanded.prefs().to_set() == listed.prefs().to_set(),
{
}

/// Law: against a backend none of whose listings fail, an expansion succeeds
/// whatever the prefix and the depth — in particular at depths beyond the
/// namespace's deepest key, where it returns an empty listing rather than an
/// error.
pub proof fn lemma_never_failing_lister_expands_ok<L: OneLevelLister>(
    l: &L,
    p: Seq<Seq<u8>>,
    d: nat,
)
    requires
        forall|q: Seq<Seq<u8>>| l.list_ok(q),
    ensures
        expansion_ok(l, p, d),
{
}

/// Law: every object an expansion to depth `d` below `p` returns lies exactly
/// `d` levels of descent below `p`: its key extends `p` and has `d + 1` more
/// segments — `d` descents plus the object's own name. Every common prefix
/// returned has the same shape.
pub proof fn lemma_objects_at_exact_depth(
    r: ListingResult,
    ns: Set<Seq<Seq<u8>>>,
    p: Seq<Seq<u8>>,
    d: nat,
)
    requires
        r.is_level_of(ns, p, d),
    ensures
        forall|k: Seq<Seq<u8>>|
            r.objs().contains(k) ==> p.is_prefix_of(k) && k.len() == p.len() + d + 1,
        forall|q: Seq<Seq<u8>>|
            r.prefs().contains(q) ==> p.is_prefix_of(q) && q.len() == p.len() + d + 1,
{
    assert forall|k: Seq<Seq<u8>>| r.objs().contains(k) implies p.is_prefix_of(k) && k.len()
        == p.len() + d + 1 by {
        assert(r.objs().to_set().contains(k));
        assert(level_objects(ns, p, d).contains(k));
    }
    assert forall|q: Seq<Seq<u8>>| r.prefs().contains(q) implies p.is_prefix_of(q) && q.len()
        == p.len() + d + 1 by {
        assert(r.prefs().to_set().contains(q));
        lemma_level_prefixes_member(ns, p, d, q);
    }
}

/// Law: a target depth strictly deeper than the namespace reaches below the
/// prefix yields an empty listing — no objects, no common prefixes. Depth
/// `d` returns keys of `p.len() + d + 1` segments, so it suffices that every
/// key is shorter than that.
pub proof fn lemma_beyond_max_depth(
    r: ListingResult,
    ns: Set<Seq<Seq<u8>>>,
    p: Seq<Seq<u8>>,
    d: nat,
    max_len: nat,
)
    requires
        r.is_level_of(ns, p, d),
        forall|k: Seq<Seq<u8>>| ns.contains(k) ==> k.len() <= max_len,
        p.len() + d + 1 > max_len,
    ensures
        r.objs() == Seq::<Seq<Seq<u8>>>::empty(),
        r.prefs() == Seq::<Seq<Seq<u8>>>::empty(),
{
    lemma_objects_at_exact_depth(r, ns, p, d);
    assert forall|k: Seq<Seq<u8>>| !r.objs().contains(k) by {
        if r.objs().contains(k) {
            assert(level_objects(ns, p, d).contains(k));
            assert(ns.contains(k));
        }
    }
    assert forall|q: Seq<Seq<u8>>| !r.prefs().contains(q) by {
        if r.prefs().contains(q) {
            lemma_level_prefixes_member(ns, p, d, q);
            let k = choose|k: Seq<Seq<u8>>|
                ns.contains(k) && crate::model::key_below_level(k, p, d) && q == k.take(
                    (p.len() + d + 1) as int,
                );
            assert(ns.contains(k));
        }
    }
    assert(r.objs() =~= Seq::<Seq<Seq<u8>>>::empty()) by {
        if r.objs().len() > 0 {
            assert(r.objs().contains(r.objs()[0]));
        }
    }
    assert(r.prefs() =~= Seq::<Seq<Seq<u8>>>::empty()) by {
        if r.prefs().len() > 0 {
            assert(r.prefs().contains(r.prefs()[0]));
        }
    }
}

} // verus!
