//! Paths: slash-segmented keys of the namespace, held as their segments.

use vstd::prelude::*;

verus! {

/// The sequence of byte-sequence views of a sequence of segments.
pub open spec fn segs_view(v: Seq<Vec<u8>>) -> Seq<Seq<u8>> {
    Seq::new(v.len(), |i: int| v[i]@)
}

/// A location in the namespace: a sequence of path segments. Two paths are
/// prefix-related on a segment basis, so `foo/bar` is a prefix of `foo/bar/x`
/// but not of `foo/bar_baz/x`. The view of a `Path` is the sequence of its
/// segments' byte sequences.
#[derive(Debug, PartialEq, Eq)]
pub struct Path {
    segments: Vec<Vec<u8>>,
}

impl View for Path {
    type V = Seq<Seq<u8>>;

    closed spec fn view(&self) -> Seq<Seq<u8>> {
        segs_view(self.segments@)
    }
}

/// The segments that an optional starting prefix denotes: the namespace root
/// (`None`) has no segments.
pub open spec fn prefix_view(prefix: Option<&Path>) -> Seq<Seq<u8>> {
    match prefix {
        None => Seq::empty(),
        Some(p) => p@,
    }
}

proof fn lemma_view_len(p: &Path)
    ensures
        p@.len() == p.segments@.len(),
{
    assert(segs_view(p.segments@).len() == p.segments@.len());
}

proof fn lemma_view_index(p: &Path, i: int)
    requires
        0 <= i < p.segments@.len(),
    ensures
        p@[i] == p.segments@[i]@,
{
    assert(segs_view(p.segments@)[i] == p.segments@[i]@);
}

fn clone_bytes(v: &Vec<u8>) -> (r: Vec<u8>)
    ensures
        r@ == v@,
{
    let mut r: Vec<u8> = Vec::new();
    let mut i: usize = 0;
    while i < v.len()
        invariant
            i <= v.len(),
            r@ == v@.take(i as int),
        decreases v.len() - i,
    {
        r.push(v[i]);
        i = i + 1;
        proof {
            assert(r@ =~= v@.take(i as int));
        }
    }
    proof {
        assert(v@.take(v.len() as int) =~= v@);
    }
    r
}

fn bytes_eq(a: &Vec<u8>, b: &Vec<u8>) -> (r: bool)
    ensures
        r == (a@ == b@),
{
    if a.len() != b.len() {
        return false;
    }
    let mut i: usize = 0;
    while i < a.len()
        invariant
            i <= a.len(),
            a.len() == b.len(),
            forall|j: int| 0 <= j < i ==> a@[j] == b@[j],
        decreases a.len() - i,
    {
        if a[i] != b[i] {
            return false;
        }
        i = i + 1;
    }
    proof {
        assert(a@ =~= b@);
    }
    true
}

impl Path {
    /// Builds a path from its segments.
    pub fn from_segments(segments: Vec<Vec<u8>>) -> (r: Path)
        ensures
            r@ == segs_view(segments@),
    {
        Path { segments }
    }

    /// The segments of the path, innermost bytes and all.
    pub fn segments(&self) -> (r: &Vec<Vec<u8>>)
        ensures
            segs_view(r@) == self@,
    {
        &self.segments
    }

    /// How many segments the path has.
    pub fn seg_count(&self) -> (n: usize)
        ensures
            n == self@.len(),
    {
        proof {
            lemma_view_len(self);
        }
        self.segments.len()
    }

    /// The path made of the first `n` segments of this one.
    pub fn take_segments(&self, n: usize) -> (r: Path)
        requires
            n <= self@.len(),
        ensures
            r@ == self@.take(n as int),
    {
        proof {
            lemma_view_len(self);
        }
        let mut segs: Vec<Vec<u8>> = Vec::new();
        let mut i: usize = 0;
        while i < n
            invariant
                i <= n,
                n <= self.segments.len(),
                self@.len() == self.segments.len(),
                segs_view(segs@) == self@.take(i as int),
            decreases n - i,
        {
            let ghost olds = segs@;
            segs.push(clone_bytes(&self.segments[i]));
            i = i + 1;
            proof {
                lemma_view_index(self, i - 1);
                assert(segs_view(olds).len() == olds.len());
                assert(segs_view(segs@) =~= self@.take(i as int));
            }
        }
        Path { segments: segs }
    }

    /// Whether the segments of `prefix` (none, for the namespace root) are an
    /// initial run of the segments of this path.
    pub fn starts_with(&self, prefix: Option<&Path>) -> (r: bool)
        ensures
            r == prefix_view(prefix).is_prefix_of(self@),
    {
        let p = match prefix {
            None => {
                proof {
                    assert(prefix_view(prefix) =~= self@.take(0));
                }
                return true;
            },
            Some(p) => p,
        };
        proof {
            lemma_view_len(p);
            lemma_view_len(self);
        }
        if p.segments.len() > self.segments.len() {
            return false;
        }
        let mut i: usize = 0;
        while i < p.segments.len()
            invariant
                prefix == Some(p),
                i <= p.segments.len(),
                p.segments.len() <= self.segments.len(),
                p@.len() == p.segments.len(),
                self@.len() == self.segments.len(),
                forall|j: int| 0 <= j < i ==> p@[j] == self@[j],
            decreases p.segments.len() - i,
        {
            if !bytes_eq(&p.segments[i], &self.segments[i]) {
                proof {
                    lemma_view_index(p, i as int);
                    lemma_view_index(self, i as int);
                    assert(p@[i as int] != self@[i as int]);
                    assert(!p@.is_prefix_of(self@)) by {
                        if p@.is_prefix_of(self@) {
                            assert(p@ == self@.subrange(0, p@.len() as int));
                            assert(p@[i as int] == self@[i as int]);
                        }
                    }
                    assert(prefix == Some(p));
                    assert(prefix_view(prefix) == p@);
                }
                return false;
            }
            i = i + 1;
            proof {
                lemma_view_index(p, i - 1);
                lemma_view_index(self, i - 1);
            }
        }
        proof {
            assert(p@ =~= self@.take(p@.len() as int));
        }
        true
    }

    /// Whether two paths have the same segments.
    pub fn same_as(&self, other: &Path) -> (r: bool)
        ensures
            r == (self@ == other@),
    {
        proof {
            lemma_view_len(self);
            lemma_view_len(other);
        }
        if self.segments.len() != other.segments.len() {
            return false;
        }
        let mut i: usize = 0;
        while i < self.segments.len()
            invariant
                i <= self.segments.len(),
                self.segments.len() == other.segments.len(),
                self@.len() == self.segments.len(),
                other@.len() == other.segments.len(),
                forall|j: int| 0 <= j < i ==> self@[j] == other@[j],
            decreases self.segments.len() - i,
        {
            if !bytes_eq(&self.segments[i], &other.segments[i]) {
                proof {
                    lemma_view_index(self, i as int);
                    lemma_view_index(other, i as int);
                    assert(self@[i as int] != other@[i as int]);
                }
                return false;
            }
            i = i + 1;
            proof {
                lemma_view_index(self, i - 1);
                lemma_view_index(other, i - 1);
            }
        }
        proof {
            assert(self@ =~= other@);
        }
        true
    }
}

impl Clone for Path {
    /// The clone has the same segments.
    fn clone(&self) -> (r: Self)
        ensures
            r@ == self@,
    {
        proof {
            lemma_view_len(self);
        }
        let mut segs: Vec<Vec<u8>> = Vec::new();
        let mut i: usize = 0;
        while i < self.segments.len()
            invariant
                i <= self.segments.len(),
                self@.len() == self.segments.len(),
                segs_view(segs@) == self@.take(i as int),
            decreases self.segments.len() - i,
        {
            let ghost olds = segs@;
            segs.push(clone_bytes(&self.segments[i]));
            i = i + 1;
            proof {
                lemma_view_index(self, i - 1);
                assert(segs_view(olds).len() == olds.len());
                assert(segs_view(segs@) =~= self@.take(i as int));
            }
        }
        proof {
            assert(self@.take(self.segments.len() as int) =~= self@);
        }
        Path { segments: segs }
    }
}

} // verus!
