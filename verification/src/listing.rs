//! Listing results and the errors of listing and expansion.

use vstd::prelude::*;
use crate::path::Path;
use crate::model::{level_objects, level_prefixes};

verus! {

/// A discovered object's identifying metadata: its full path.
#[derive(Debug, PartialEq, Eq)]
pub struct ObjectEntry {
    pub location: Path,
}

impl Clone for ObjectEntry {
    /// The clone names the same location.
    fn clone(&self) -> (r: Self)
        ensures
            r.location@ == self.location@,
    {
        ObjectEntry { location: self.location.clone() }
    }
}

/// The keys of a sequence of object entries.
pub open spec fn entries_view(v: Seq<ObjectEntry>) -> Seq<Seq<Seq<u8>>> {
    Seq::new(v.len(), |i: int| v[i].location@)
}

/// The keys of a sequence of paths.
pub open spec fn paths_view(v: Seq<Path>) -> Seq<Seq<Seq<u8>>> {
    Seq::new(v.len(), |i: int| v[i]@)
}

/// One level of one subtree: the objects and the common prefixes ("emulated
/// directories") discovered there. Produced by a one-level listing and, for
/// the terminal level, by the expander.
#[derive(Debug)]
pub struct ListingResult {
    pub objects: Vec<ObjectEntry>,
    pub common_prefixes: Vec<Path>,
}

impl ListingResult {
    /// The keys of the objects, in order.
    pub open spec fn objs(&self) -> Seq<Seq<Seq<u8>>> {
        entries_view(self.objects@)
    }

    /// The keys of the common prefixes, in order.
    pub open spec fn prefs(&self) -> Seq<Seq<Seq<u8>>> {
        paths_view(self.common_prefixes@)
    }

    /// The result holds, without repetition, exactly the objects and common
    /// prefixes of level `d` below `p` in the namespace `ns`.
    pub open spec fn is_level_of(&self, ns: Set<Seq<Seq<u8>>>, p: Seq<Seq<u8>>, d: nat) -> bool {
        &&& self.objs().no_duplicates()
        &&& self.objs().to_set() == level_objects(ns, p, d)
        &&& self.prefs().no_duplicates()
        &&& self.prefs().to_set() == level_prefixes(ns, p, d)
    }

    /// A listing with nothing in it.
    pub fn new_empty() -> (r: ListingResult)
        ensures
            r.objs() == Seq::<Seq<Seq<u8>>>::empty(),
            r.prefs() == Seq::<Seq<Seq<u8>>>::empty(),
    {
        let r = ListingResult { objects: Vec::new(), common_prefixes: Vec::new() };
        proof {
            assert(r.objs() =~= Seq::<Seq<Seq<u8>>>::empty());
            assert(r.prefs() =~= Seq::<Seq<Seq<u8>>>::empty());
        }
        r
    }

    /// Appends everything in `other` to this listing, in order.
    pub fn merge(&mut self, other: &ListingResult)
        ensures
            final(self).objs() == old(self).objs() + other.objs(),
            final(self).prefs() == old(self).prefs() + other.prefs(),
    {
        proof {
            lemma_entries_view_len(other.objects@);
            lemma_paths_view_len(other.common_prefixes@);
        }
        let mut i: usize = 0;
        while i < other.objects.len()
            invariant
                i <= other.objects.len(),
                other.objs().len() == other.objects.len(),
                self.objs() == old(self).objs() + other.objs().take(i as int),
                self.prefs() == old(self).prefs(),
            decreases other.objects.len() - i,
        {
            let e = other.objects[i].clone();
            let ghost ee = e;
            let ghost before = self.objects@;
            self.objects.push(e);
            i = i + 1;
            proof {
                lemma_entries_view_push(before, ee);
                lemma_entries_view_index(other.objects@, i - 1);
                assert(ee.location@ == other.objs()[i - 1]);
                assert(other.objs().take(i as int) =~= other.objs().take(i - 1).push(
                    other.objs()[i - 1],
                ));
                assert(old(self).objs() + other.objs().take(i as int) =~= (old(self).objs()
                    + other.objs().take(i - 1)).push(other.objs()[i - 1]));
                assert(self.prefs() =~= paths_view(self.common_prefixes@));
            }
        }
        proof {
            assert(other.objs().take(other.objects.len() as int) =~= other.objs());
        }
        let mut j: usize = 0;
        while j < other.common_prefixes.len()
            invariant
                j <= other.common_prefixes.len(),
                other.prefs().len() == other.common_prefixes.len(),
                self.objs() == old(self).objs() + other.objs(),
                self.prefs() == old(self).prefs() + other.prefs().take(j as int),
            decreases other.common_prefixes.len() - j,
        {
            let q = other.common_prefixes[j].clone();
            let ghost qq = q;
            let ghost before = self.common_prefixes@;
            self.common_prefixes.push(q);
            j = j + 1;
            proof {
                lemma_paths_view_push(before, qq);
                lemma_paths_view_index(other.common_prefixes@, j - 1);
                assert(qq@ == other.prefs()[j - 1]);
                assert(other.prefs().take(j as int) =~= other.prefs().take(j - 1).push(
                    other.prefs()[j - 1],
                ));
                assert(old(self).prefs() + other.prefs().take(j as int) =~= (old(self).prefs()
                    + other.prefs().take(j - 1)).push(other.prefs()[j - 1]));
                assert(self.objs() =~= entries_view(self.objects@));
            }
        }
        proof {
            assert(other.prefs().take(other.common_prefixes.len() as int) =~= other.prefs());
        }
    }
}

pub proof fn lemma_entries_view_len(v: Seq<ObjectEntry>)
    ensures
        entries_view(v).len() == v.len(),
{
}

pub proof fn lemma_paths_view_len(v: Seq<Path>)
    ensures
        paths_view(v).len() == v.len(),
{
}

pub proof fn lemma_entries_view_index(v: Seq<ObjectEntry>, i: int)
    requires
        0 <= i < v.len(),
    ensures
        entries_view(v)[i] == v[i].location@,
{
}

pub proof fn lemma_paths_view_index(v: Seq<Path>, i: int)
    requires
        0 <= i < v.len(),
    ensures
        paths_view(v)[i] == v[i]@,
{
}

pub proof fn lemma_entries_view_push(v: Seq<ObjectEntry>, e: ObjectEntry)
    ensures
        entries_view(v.push(e)) == entries_view(v).push(e.location@),
{
    lemma_entries_view_len(v);
    lemma_entries_view_len(v.push(e));
    assert forall|i: int| 0 <= i < v.len() + 1 implies entries_view(v.push(e))[i] == entries_view(
        v,
    ).push(e.location@)[i] by {
        if i < v.len() {
            assert(v.push(e)[i] == v[i]);
            lemma_entries_view_index(v, i);
            lemma_entries_view_index(v.push(e), i);
        } else {
            assert(v.push(e)[i] == e);
            lemma_entries_view_index(v.push(e), i);
        }
    }
    assert(entries_view(v.push(e)) =~= entries_view(v).push(e.location@));
}

pub proof fn lemma_paths_view_push(v: Seq<Path>, p: Path)
    ensures
        paths_view(v.push(p)) == paths_view(v).push(p@),
{
    lemma_paths_view_len(v);
    lemma_paths_view_len(v.push(p));
    assert forall|i: int| 0 <= i < v.len() + 1 implies paths_view(v.push(p))[i] == paths_view(
        v,
    ).push(p@)[i] by {
        if i < v.len() {
            assert(v.push(p)[i] == v[i]);
            lemma_paths_view_index(v, i);
            lemma_paths_view_index(v.push(p), i);
        } else {
            assert(v.push(p)[i] == p);
            lemma_paths_view_index(v.push(p), i);
        }
    }
    assert(paths_view(v.push(p)) =~= paths_view(v).push(p@));
}

/// A failure of one one-level listing; it names the prefix (none, for the
/// namespace root) whose listing failed.
#[derive(Debug)]
pub struct ListError {
    pub prefix: Option<Path>,
}

/// A failure of a whole expansion: either a one-level listing failed
/// somewhere in the tree, or a unit of work scheduled by a driver ended
/// without reporting a result.
#[derive(Debug)]
pub enum ExpandError {
    List(ListError),
    TaskLost,
}

} // verus!
