//! The depth-limited expander: the core of the crate.

use vstd::prelude::*;
use crate::path::{Path, prefix_view};
use crate::listing::{ListingResult, ListError, ExpandError, lemma_paths_view_len,
    lemma_paths_view_index};
use crate::lister::{OneLevelLister, expansion_ok};
use crate::model::{
    level_objects, level_prefixes, union_level_objects, union_level_prefixes,
    lemma_union_level_objects_member, lemma_union_level_prefixes_member,
    lemma_objects_branch_unique, lemma_prefixes_branch_unique, lemma_next_level,
    lemma_concat_to_set, lemma_concat_no_duplicates, lemma_empty_to_set,
};

verus! {

broadcast use vstd::set::group_set_axioms;

/// Lists the namespace `depth` levels of descent below `prefix`.
///
/// The result is exactly what exists at the terminal level: the objects
/// reachable by descending into `depth` common prefixes from `prefix`, and
/// the common prefixes discovered at that same level. What the intermediate
/// levels held is consumed by the descent, not returned. With `depth == 0`
/// the result is the one-level listing at `prefix` itself.
///
/// The call succeeds if and only if every one-level listing it depends on
/// succeeds; the first failure aborts the whole expansion, and no partial
/// result is ever returned.
pub fn list_with_depth<L: OneLevelLister>(
    lister: &L,
    prefix: Option<&Path>,
    depth: usize,
) -> (r: Result<ListingResult, ExpandError>)
    ensures
        (r is Ok) == expansion_ok(lister, prefix_view(prefix), depth as nat),
        r matches Ok(out) ==> out.is_level_of(lister.namespace(), prefix_view(prefix), depth as nat),
        r matches Err(e) ==> e is List,
{
    let ghost ns = lister.namespace();
    let ghost p0 = prefix_view(prefix);
    let mut current = match lister.list_one_level(prefix) {
        Ok(lr) => lr,
        Err(e) => {
            proof {
                assert(!expansion_ok(lister, p0, depth as nat));
            }
            return Err(ExpandError::List(e));
        },
    };
    let mut level: usize = 0;
    while level < depth
        invariant
            level <= depth,
            ns == lister.namespace(),
            p0 == prefix_view(prefix),
            current.is_level_of(ns, p0, level as nat),
            lister.list_ok(p0),
            forall|i: nat, q: Seq<Seq<u8>>|
                i < level && #[trigger] level_prefixes(ns, p0, i).contains(q)
                    ==> lister.list_ok(q),
        decreases depth - level,
    {
        let ghost qs = current.prefs();
        let mut combined = ListingResult::new_empty();
        proof {
            lemma_paths_view_len(current.common_prefixes@);
            lemma_empty_to_set(combined.objs());
            lemma_empty_to_set(combined.prefs());
        }
        let mut j: usize = 0;
        while j < current.common_prefixes.len()
            invariant
                j <= current.common_prefixes.len(),
                qs == current.prefs(),
                qs.len() == current.common_prefixes.len(),
                qs.no_duplicates(),
                qs.to_set() == level_prefixes(ns, p0, level as nat),
                ns == lister.namespace(),
                p0 == prefix_view(prefix),
                level < depth,
                combined.objs().no_duplicates(),
                combined.objs().to_set() == union_level_objects(ns, qs, j as int),
                combined.prefs().no_duplicates(),
                combined.prefs().to_set() == union_level_prefixes(ns, qs, j as int),
                forall|j2: int| 0 <= j2 < j ==> lister.list_ok(#[trigger] qs[j2]),
            decreases current.common_prefixes.len() - j,
        {
            let cp = &current.common_prefixes[j];
            proof {
                lemma_paths_view_index(current.common_prefixes@, j as int);
                assert(cp@ == qs[j as int]);
                assert(qs.contains(qs[j as int]));
                assert(level_prefixes(ns, p0, level as nat).contains(qs[j as int]));
            }
            match lister.list_one_level(Some(cp)) {
                Ok(lr) => {
                    proof {
                        let jj = j as int;
                        assert(lr.is_level_of(ns, cp@, 0));
                        assert forall|x: Seq<Seq<u8>>| combined.objs().contains(x) implies !lr
                            .objs().contains(x) by {
                            if lr.objs().contains(x) {
                                assert(combined.objs().to_set().contains(x));
                                lemma_union_level_objects_member(ns, qs, jj, x);
                                let j2 = choose|j2: int|
                                    0 <= j2 < jj && level_objects(ns, #[trigger] qs[j2], 0)
                                        .contains(x);
                                assert(qs.contains(qs[j2]));
                                assert(lr.objs().to_set().contains(x));
                                lemma_objects_branch_unique(
                                    ns,
                                    p0,
                                    level as nat,
                                    qs[j2],
                                    qs[jj],
                                    x,
                                );
                            }
                        }
                        assert forall|x: Seq<Seq<u8>>| combined.prefs().contains(x) implies !lr
                            .prefs().contains(x) by {
                            if lr.prefs().contains(x) {
                                assert(combined.prefs().to_set().contains(x));
                                lemma_union_level_prefixes_member(ns, qs, jj, x);
                                let j2 = choose|j2: int|
                                    0 <= j2 < jj && level_prefixes(ns, #[trigger] qs[j2], 0)
                                        .contains(x);
                                assert(qs.contains(qs[j2]));
                                assert(lr.prefs().to_set().contains(x));
                                lemma_prefixes_branch_unique(
                                    ns,
                                    p0,
                                    level as nat,
                                    qs[j2],
                                    qs[jj],
                                    x,
                                );
                            }
                        }
                        lemma_concat_no_duplicates(combined.objs(), lr.objs());
                        lemma_concat_no_duplicates(combined.prefs(), lr.prefs());
                        lemma_concat_to_set(combined.objs(), lr.objs());
                        lemma_concat_to_set(combined.prefs(), lr.prefs());
                    }
                    combined.merge(&lr);
                    j = j + 1;
                    proof {
                        assert(combined.objs().to_set() == union_level_objects(ns, qs, j as int));
                        assert(combined.prefs().to_set() == union_level_prefixes(
                            ns,
                            qs,
                            j as int,
                        ));
                    }
                },
                Err(e) => {
                    proof {
                        assert(!lister.list_ok(qs[j as int]));
                        assert(!expansion_ok(lister, p0, depth as nat)) by {
                            if expansion_ok(lister, p0, depth as nat) {
                                assert(level_prefixes(lister.namespace(), p0, level as nat)
                                    .contains(qs[j as int]));
                            }
                        }
                    }
                    return Err(ExpandError::List(e));
                },
            }
        }
        proof {
            lemma_next_level(ns, p0, level as nat, qs);
            assert forall|i: nat, q: Seq<Seq<u8>>|
                i < level as nat + 1 && #[trigger] level_prefixes(ns, p0, i).contains(q) implies
                lister.list_ok(q) by {
                if i == level as nat {
                    assert(qs.to_set().contains(q));
                    let j2 = choose|j2: int| 0 <= j2 < qs.len() && qs[j2] == q;
                    assert(lister.list_ok(qs[j2]));
                }
            }
        }
        current = combined;
        level = level + 1;
    }
    proof {
        assert(expansion_ok(lister, p0, depth as nat));
    }
    Ok(current)
}

} // verus!
