//! A verified in-memory namespace implementing the one-level lister, for use
//! as a test backend. Listings can be made to fail below chosen prefixes, to
//! exercise error propagation.

use vstd::prelude::*;
use crate::path::{Path, prefix_view};
use crate::listing::{
    ListingResult, ObjectEntry, ListError, paths_view, entries_view, lemma_paths_view_len,
    lemma_paths_view_index, lemma_paths_view_push, lemma_entries_view_push,
};
use crate::lister::OneLevelLister;
use crate::model::{
    key_at_level, key_below_level, level_objects, level_prefixes, lemma_level0_insert,
    lemma_take_succ_to_set, lemma_push_to_set, lemma_push_no_duplicates,
};

verus! {

broadcast use vstd::set::group_set_axioms;

/// The key that an optional prefix denotes: the namespace root (`None`) is
/// the empty key.
pub open spec fn opt_path_view(p: Option<Path>) -> Seq<Seq<u8>> {
    match p {
        None => Seq::empty(),
        Some(q) => q@,
    }
}

/// The keys of a sequence of optional prefixes.
pub open spec fn opt_paths_view(v: Seq<Option<Path>>) -> Seq<Seq<Seq<u8>>> {
    Seq::new(v.len(), |i: int| opt_path_view(v[i]))
}

proof fn lemma_opt_paths_view_push(v: Seq<Option<Path>>, p: Option<Path>)
    ensures
        opt_paths_view(v.push(p)) == opt_paths_view(v).push(opt_path_view(p)),
{
    assert forall|i: int| 0 <= i < v.len() + 1 implies opt_paths_view(v.push(p))[i]
        == opt_paths_view(v).push(opt_path_view(p))[i] by {
        if i < v.len() {
            assert(v.push(p)[i] == v[i]);
        } else {
            assert(v.push(p)[i] == p);
        }
    }
    assert(opt_paths_view(v.push(p)) =~= opt_paths_view(v).push(opt_path_view(p)));
}

/// An in-memory namespace: a set of object keys, listed one level at a time.
/// Listing below any prefix recorded by `fail_under` fails, as a real
/// backend's listing might.
pub struct InMemoryNamespace {
    keys: Vec<Path>,
    failing: Vec<Option<Path>>,
}

impl InMemoryNamespace {
    /// The keys held, in insertion order.
    pub closed spec fn keys_seq(&self) -> Seq<Seq<Seq<u8>>> {
        paths_view(self.keys@)
    }

    /// The prefixes whose listings fail.
    pub closed spec fn fail_set(&self) -> Set<Seq<Seq<u8>>> {
        opt_paths_view(self.failing@).to_set()
    }

    /// An empty namespace whose every listing succeeds.
    pub fn new() -> (r: Self)
        ensures
            r.namespace() == Set::<Seq<Seq<u8>>>::empty(),
            forall|p: Seq<Seq<u8>>| r.list_ok(p),
    {
        let r = InMemoryNamespace { keys: Vec::new(), failing: Vec::new() };
        proof {
            assert(r.keys_seq().len() == 0);
            assert forall|x: Seq<Seq<u8>>| !r.namespace().contains(x) by {
                if r.keys_seq().to_set().contains(x) {
                    let j = choose|j: int| 0 <= j < r.keys_seq().len() && r.keys_seq()[j] == x;
                }
            }
            assert(r.namespace() =~= Set::<Seq<Seq<u8>>>::empty());
            assert forall|p: Seq<Seq<u8>>| r.list_ok(p) by {
                assert(opt_paths_view(r.failing@).len() == 0);
                if r.fail_set().contains(p) {
                    let j = choose|j: int|
                        0 <= j < opt_paths_view(r.failing@).len() && opt_paths_view(r.failing@)[j]
                            == p;
                }
            }
        }
        r
    }

    /// Adds an object under `key`; adding a key already present changes
    /// nothing.
    pub fn put(&mut self, key: Path)
        ensures
            final(self).namespace() == old(self).namespace().insert(key@),
            forall|p: Seq<Seq<u8>>| final(self).list_ok(p) == old(self).list_ok(p),
    {
        let ghost kv = key@;
        let ghost before = self.keys@;
        self.keys.push(key);
        proof {
            lemma_paths_view_push(before, self.keys@[self.keys@.len() - 1]);
            assert(self.keys@ == before.push(self.keys@[self.keys@.len() - 1]));
            assert(self.keys_seq() =~= paths_view(before).push(kv));
            lemma_push_to_set(paths_view(before), kv);
        }
    }

    /// Makes every later listing below `prefix` fail.
    pub fn fail_under(&mut self, prefix: Option<Path>)
        ensures
            final(self).namespace() == old(self).namespace(),
            forall|p: Seq<Seq<u8>>|
                final(self).list_ok(p) == (old(self).list_ok(p) && p != opt_path_view(prefix)),
    {
        let ghost pv = opt_path_view(prefix);
        let ghost before = self.failing@;
        self.failing.push(prefix);
        proof {
            lemma_opt_paths_view_push(before, self.failing@[self.failing@.len() - 1]);
            lemma_push_to_set(opt_paths_view(before), pv);
        }
    }

    /// Whether a listing below `prefix` has been made to fail.
    fn is_failing(&self, prefix: Option<&Path>) -> (r: bool)
        ensures
            r == !self.list_ok(prefix_view(prefix)),
    {
        let ghost pv = prefix_view(prefix);
        let mut i: usize = 0;
        while i < self.failing.len()
            invariant
                i <= self.failing.len(),
                opt_paths_view(self.failing@).len() == self.failing.len(),
                pv == prefix_view(prefix),
                forall|j: int| 0 <= j < i ==> opt_paths_view(self.failing@)[j] != pv,
            decreases self.failing.len() - i,
        {
            if opt_matches(&self.failing[i], prefix) {
                proof {
                    assert(opt_paths_view(self.failing@)[i as int] == pv);
                    assert(opt_paths_view(self.failing@).contains(pv));
                }
                return true;
            }
            i = i + 1;
        }
        proof {
            assert(!self.fail_set().contains(pv)) by {
                if opt_paths_view(self.failing@).contains(pv) {
                    let j = choose|j: int|
                        0 <= j < opt_paths_view(self.failing@).len() && opt_paths_view(
                            self.failing@,
                        )[j] == pv;
                }
            }
        }
        false
    }
}

/// Whether a recorded prefix and a requested prefix denote the same key; the
/// root is denoted by `None` and by the path with no segments alike.
fn opt_matches(f: &Option<Path>, prefix: Option<&Path>) -> (r: bool)
    ensures
        r == (opt_path_view(*f) == prefix_view(prefix)),
{
    match (f, prefix) {
        (None, None) => true,
        (Some(q), Some(p)) => q.same_as(p),
        (None, Some(p)) => {
            let r = p.seg_count() == 0;
            proof {
                if p@.len() == 0 {
                    assert(p@ =~= Seq::<Seq<u8>>::empty());
                }
            }
            r
        },
        (Some(q), None) => {
            let r = q.seg_count() == 0;
            proof {
                if q@.len() == 0 {
                    assert(q@ =~= Seq::<Seq<u8>>::empty());
                }
            }
            r
        },
    }
}

/// Whether some entry in `v` has a location with the same segments as `p`.
fn contains_entry(v: &Vec<ObjectEntry>, p: &Path) -> (r: bool)
    ensures
        r == entries_view(v@).contains(p@),
{
    let mut i: usize = 0;
    while i < v.len()
        invariant
            i <= v.len(),
            entries_view(v@).len() == v.len(),
            forall|j: int| 0 <= j < i ==> entries_view(v@)[j] != p@,
        decreases v.len() - i,
    {
        if v[i].location.same_as(p) {
            proof {
                assert(entries_view(v@)[i as int] == p@);
                assert(entries_view(v@).contains(p@));
            }
            return true;
        }
        proof {
            assert(entries_view(v@)[i as int] == v@[i as int].location@);
        }
        i = i + 1;
    }
    proof {
        if entries_view(v@).contains(p@) {
            let j = choose|j: int| 0 <= j < entries_view(v@).len() && entries_view(v@)[j] == p@;
        }
    }
    false
}

/// Whether some path in `v` has the same segments as `p`.
fn contains_path(v: &Vec<Path>, p: &Path) -> (r: bool)
    ensures
        r == paths_view(v@).contains(p@),
{
    proof {
        lemma_paths_view_len(v@);
    }
    let mut i: usize = 0;
    while i < v.len()
        invariant
            i <= v.len(),
            paths_view(v@).len() == v.len(),
            forall|j: int| 0 <= j < i ==> paths_view(v@)[j] != p@,
        decreases v.len() - i,
    {
        if v[i].same_as(p) {
            proof {
                lemma_paths_view_index(v@, i as int);
                assert(paths_view(v@)[i as int] == p@);
            }
            return true;
        }
        proof {
            lemma_paths_view_index(v@, i as int);
        }
        i = i + 1;
    }
    proof {
        if paths_view(v@).contains(p@) {
            let j = choose|j: int| 0 <= j < paths_view(v@).len() && paths_view(v@)[j] == p@;
        }
    }
    false
}

impl OneLevelLister for InMemoryNamespace {
    closed spec fn namespace(&self) -> Set<Seq<Seq<u8>>> {
        self.keys_seq().to_set()
    }

    closed spec fn list_ok(&self, prefix: Seq<Seq<u8>>) -> bool {
        !self.fail_set().contains(prefix)
    }

    fn list_one_level(&self, prefix: Option<&Path>) -> (r: Result<ListingResult, ListError>) {
        proof {
            lemma_paths_view_len(self.keys@);
        }
        if self.is_failing(prefix) {
            let failed = match prefix {
                None => None,
                Some(p) => Some(p.clone()),
            };
            return Err(ListError { prefix: failed });
        }
        let plen: usize = match prefix {
            None => 0,
            Some(p) => p.seg_count(),
        };
        let ghost pv = prefix_view(prefix);
        let mut out = ListingResult::new_empty();
        proof {
            assert(out.objs().to_set() =~= level_objects(
                self.keys_seq().take(0).to_set(),
                pv,
                0,
            )) by {
                assert(self.keys_seq().take(0).to_set() =~= Set::<Seq<Seq<u8>>>::empty());
                assert forall|x: Seq<Seq<u8>>| !out.objs().to_set().contains(x) by {}
                assert forall|x: Seq<Seq<u8>>|
                    !level_objects(Set::<Seq<Seq<u8>>>::empty(), pv, 0).contains(x) by {}
                assert(level_objects(self.keys_seq().take(0).to_set(), pv, 0) =~= level_objects(
                    Set::<Seq<Seq<u8>>>::empty(),
                    pv,
                    0,
                ));
            }
            assert(out.prefs().to_set() =~= level_prefixes(
                self.keys_seq().take(0).to_set(),
                pv,
                0,
            )) by {
                assert(self.keys_seq().take(0).to_set() =~= Set::<Seq<Seq<u8>>>::empty());
                assert forall|x: Seq<Seq<u8>>|
                    !level_prefixes(self.keys_seq().take(0).to_set(), pv, 0).contains(x) by {
                    if level_prefixes(self.keys_seq().take(0).to_set(), pv, 0).contains(x) {
                        crate::model::lemma_level_prefixes_member(
                            self.keys_seq().take(0).to_set(),
                            pv,
                            0,
                            x,
                        );
                    }
                }
            }
        }
        let mut i: usize = 0;
        while i < self.keys.len()
            invariant
                i <= self.keys.len(),
                self.keys_seq().len() == self.keys.len(),
                plen == pv.len(),
                pv == prefix_view(prefix),
                out.objs().no_duplicates(),
                out.objs().to_set() == level_objects(self.keys_seq().take(i as int).to_set(), pv, 0),
                out.prefs().no_duplicates(),
                out.prefs().to_set() == level_prefixes(
                    self.keys_seq().take(i as int).to_set(),
                    pv,
                    0,
                ),
            decreases self.keys.len() - i,
        {
            let k = &self.keys[i];
            let ghost kv = self.keys_seq()[i as int];
            let ghost ns_i = self.keys_seq().take(i as int).to_set();
            proof {
                lemma_paths_view_index(self.keys@, i as int);
                assert(k@ == kv);
                lemma_take_succ_to_set(self.keys_seq(), i as int);
                lemma_level0_insert(ns_i, pv, kv);
            }
            if k.starts_with(prefix) {
                let kc = k.seg_count();
                if kc > plen && kc - plen == 1 {
                    proof {
                        assert(key_at_level(kv, pv, 0));
                    }
                    if !contains_entry(&out.objects, k) {
                        let ghost oldobjs = out.objects@;
                        out.objects.push(ObjectEntry { location: k.clone() });
                        proof {
                            assert(entries_view(out.objects@) == entries_view(oldobjs).push(kv))
                                by {
                                lemma_entries_view_push(
                                    oldobjs,
                                    out.objects@[out.objects@.len() - 1],
                                );
                                assert(out.objects@[out.objects@.len() - 1].location@ == kv);
                                assert(entries_view(oldobjs).push(
                                    out.objects@[out.objects@.len() - 1].location@,
                                ) =~= entries_view(oldobjs).push(kv));
                            }
                            lemma_push_no_duplicates(entries_view(oldobjs), kv);
                            lemma_push_to_set(entries_view(oldobjs), kv);
                        }
                    } else {
                        proof {
                            assert(out.objs().to_set().contains(kv));
                            assert(level_objects(ns_i, pv, 0).insert(kv) =~= level_objects(
                                ns_i,
                                pv,
                                0,
                            ));
                        }
                    }
                } else if kc > plen && kc - plen > 1 {
                    let cp = k.take_segments(plen + 1);
                    proof {
                        assert(key_below_level(kv, pv, 0));
                        assert(cp@ == kv.take((pv.len() + 1) as int));
                    }
                    if !contains_path(&out.common_prefixes, &cp) {
                        let ghost oldprefs = out.common_prefixes@;
                        let ghost cpv = cp@;
                        out.common_prefixes.push(cp);
                        proof {
                            lemma_paths_view_push(
                                oldprefs,
                                out.common_prefixes@[out.common_prefixes@.len() - 1],
                            );
                            assert(paths_view(out.common_prefixes@) =~= paths_view(
                                oldprefs,
                            ).push(cpv));
                            lemma_push_no_duplicates(paths_view(oldprefs), cpv);
                            lemma_push_to_set(paths_view(oldprefs), cpv);
                        }
                    } else {
                        proof {
                            assert(out.prefs().to_set().contains(cp@));
                            assert(level_prefixes(ns_i, pv, 0).insert(cp@) =~= level_prefixes(
                                ns_i,
                                pv,
                                0,
                            ));
                        }
                    }
                } else {
                    proof {
                        assert(kc <= plen);
                        assert(!key_at_level(kv, pv, 0));
                        assert(!key_below_level(kv, pv, 0));
                    }
                }
            } else {
                proof {
                    assert(!pv.is_prefix_of(kv));
                    assert(!key_at_level(kv, pv, 0));
                    assert(!key_below_level(kv, pv, 0));
                }
            }
            i = i + 1;
        }
        proof {
            assert(self.keys_seq().take(self.keys.len() as int) =~= self.keys_seq());
        }
        Ok(out)
    }
}

} // verus!
