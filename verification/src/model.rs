//! The mathematical model of depth-limited listing.
//!
//! A namespace is the set of its object keys, each key the sequence of its
//! path segments (`Seq<Seq<u8>>`). The model pins down, as sets of keys, what
//! one level of listing below a prefix contains, and how the listings of all
//! common prefixes of one level combine into the next level.

use vstd::prelude::*;

verus! {

broadcast use vstd::set::group_set_axioms;

/// `k` is an object key exactly `d` levels of descent below `p`: it extends
/// `p` by `d` intermediate segments plus its own final segment.
pub open spec fn key_at_level(k: Seq<Seq<u8>>, p: Seq<Seq<u8>>, d: nat) -> bool {
    p.is_prefix_of(k) && k.len() == p.len() + d + 1
}

/// `k` is an object key lying strictly deeper than `d` levels below `p`.
pub open spec fn key_below_level(k: Seq<Seq<u8>>, p: Seq<Seq<u8>>, d: nat) -> bool {
    p.is_prefix_of(k) && k.len() > p.len() + d + 1
}

/// The objects found at level `d` of an expansion below `p`.
pub open spec fn level_objects(ns: Set<Seq<Seq<u8>>>, p: Seq<Seq<u8>>, d: nat) -> Set<
    Seq<Seq<u8>>,
> {
    ns.filter(|k: Seq<Seq<u8>>| key_at_level(k, p, d))
}

/// The common prefixes discovered at level `d` of an expansion below `p`: the
/// truncations to `p.len() + d + 1` segments of the keys lying deeper.
pub open spec fn level_prefixes(ns: Set<Seq<Seq<u8>>>, p: Seq<Seq<u8>>, d: nat) -> Set<
    Seq<Seq<u8>>,
> {
    ns.filter(|k: Seq<Seq<u8>>| key_below_level(k, p, d)).map(
        |k: Seq<Seq<u8>>| k.take((p.len() + d + 1) as int),
    )
}

/// What the listings of the first `n` prefixes of `qs`, each taken one level
/// deep, contribute in objects.
pub open spec fn union_level_objects(ns: Set<Seq<Seq<u8>>>, qs: Seq<Seq<Seq<u8>>>, n: int) -> Set<
    Seq<Seq<u8>>,
>
    decreases n,
{
    if n <= 0 {
        Set::empty()
    } else {
        union_level_objects(ns, qs, n - 1).union(level_objects(ns, qs[n - 1], 0))
    }
}

/// What the listings of the first `n` prefixes of `qs` contribute in common
/// prefixes.
pub open spec fn union_level_prefixes(ns: Set<Seq<Seq<u8>>>, qs: Seq<Seq<Seq<u8>>>, n: int) -> Set<
    Seq<Seq<u8>>,
>
    decreases n,
{
    if n <= 0 {
        Set::empty()
    } else {
        union_level_prefixes(ns, qs, n - 1).union(level_prefixes(ns, qs[n - 1], 0))
    }
}

pub proof fn lemma_level_prefixes_member(ns: Set<Seq<Seq<u8>>>, p: Seq<Seq<u8>>, d: nat, q: Seq<
    Seq<u8>>,
)
    requires
        level_prefixes(ns, p, d).contains(q),
    ensures
        q.len() == p.len() + d + 1,
        p.is_prefix_of(q),
        exists|k: Seq<Seq<u8>>|
            ns.contains(k) && key_below_level(k, p, d) && q == k.take((p.len() + d + 1) as int),
{
    let m = (p.len() + d + 1) as int;
    let fil = ns.filter(|k: Seq<Seq<u8>>| key_below_level(k, p, d));
    let k = choose|k: Seq<Seq<u8>>| fil.contains(k) && q == k.take(m);
    assert(ns.contains(k) && key_below_level(k, p, d) && q == k.take(m));
    assert(q.len() == m);
    assert(p =~= q.take(p.len() as int)) by {
        assert(p =~= k.take(p.len() as int));
        assert(forall|i: int| 0 <= i < p.len() ==> q[i] == k[i]);
    }
}

pub proof fn lemma_level_prefixes_intro(
    ns: Set<Seq<Seq<u8>>>,
    p: Seq<Seq<u8>>,
    d: nat,
    k: Seq<Seq<u8>>,
)
    requires
        ns.contains(k),
        key_below_level(k, p, d),
    ensures
        level_prefixes(ns, p, d).contains(k.take((p.len() + d + 1) as int)),
{
    let m = (p.len() + d + 1) as int;
    let fil = ns.filter(|k2: Seq<Seq<u8>>| key_below_level(k2, p, d));
    assert(fil.contains(k));
    assert(fil.map(|k2: Seq<Seq<u8>>| k2.take(m)).contains(k.take(m)));
    assert(level_prefixes(ns, p, d) == fil.map(|k2: Seq<Seq<u8>>| k2.take((p.len() + d + 1) as int)));
}

pub proof fn lemma_push_to_set<A>(s: Seq<A>, x: A)
    ensures
        s.push(x).to_set() == s.to_set().insert(x),
{
    let t = s.push(x);
    assert forall|y: A| t.to_set().contains(y) implies s.to_set().insert(x).contains(y) by {
        let j = choose|j: int| 0 <= j < t.len() && t[j] == y;
        if j < s.len() {
            assert(s[j] == y);
            assert(s.contains(y));
        }
    }
    assert forall|y: A| s.to_set().insert(x).contains(y) implies t.to_set().contains(y) by {
        if y == x {
            assert(t[s.len() as int] == y);
        } else {
            let j = choose|j: int| 0 <= j < s.len() && s[j] == y;
            assert(t[j] == y);
        }
        assert(t.contains(y));
    }
    assert(t.to_set() =~= s.to_set().insert(x));
}

/// How inserting one key into a namespace changes what one level below `p`
/// lists.
pub proof fn lemma_level0_insert(ns: Set<Seq<Seq<u8>>>, p: Seq<Seq<u8>>, k: Seq<Seq<u8>>)
    ensures
        key_at_level(k, p, 0) ==> level_objects(ns.insert(k), p, 0) == level_objects(
            ns,
            p,
            0,
        ).insert(k),
        !key_at_level(k, p, 0) ==> level_objects(ns.insert(k), p, 0) == level_objects(ns, p, 0),
        key_below_level(k, p, 0) ==> level_prefixes(ns.insert(k), p, 0) == level_prefixes(
            ns,
            p,
            0,
        ).insert(k.take((p.len() + 1) as int)),
        !key_below_level(k, p, 0) ==> level_prefixes(ns.insert(k), p, 0) == level_prefixes(
            ns,
            p,
            0,
        ),
{
    let m = (p.len() + 1) as int;
    if key_at_level(k, p, 0) {
        assert(level_objects(ns.insert(k), p, 0) =~= level_objects(ns, p, 0).insert(k));
    } else {
        assert(level_objects(ns.insert(k), p, 0) =~= level_objects(ns, p, 0));
    }

    assert forall|x: Seq<Seq<u8>>|
        level_prefixes(ns, p, 0).contains(x) implies level_prefixes(ns.insert(k), p, 0).contains(
        x,
    ) by {
        lemma_level_prefixes_member(ns, p, 0, x);
        let k2 = choose|k2: Seq<Seq<u8>>|
            ns.contains(k2) && key_below_level(k2, p, 0) && x == k2.take(m);
        lemma_level_prefixes_intro(ns.insert(k), p, 0, k2);
    }
    if key_below_level(k, p, 0) {
        lemma_level_prefixes_intro(ns.insert(k), p, 0, k);
        assert forall|x: Seq<Seq<u8>>|
            level_prefixes(ns.insert(k), p, 0).contains(x) implies level_prefixes(
            ns,
            p,
            0,
        ).insert(k.take(m)).contains(x) by {
            lemma_level_prefixes_member(ns.insert(k), p, 0, x);
            let k2 = choose|k2: Seq<Seq<u8>>|
                ns.insert(k).contains(k2) && key_below_level(k2, p, 0) && x == k2.take(m);
            if k2 == k {
                assert(x == k.take(m));
            } else {
                assert(ns.contains(k2));
                lemma_level_prefixes_intro(ns, p, 0, k2);
            }
        }
        assert(level_prefixes(ns.insert(k), p, 0) =~= level_prefixes(ns, p, 0).insert(k.take(m)));
    } else {
        assert forall|x: Seq<Seq<u8>>|
            level_prefixes(ns.insert(k), p, 0).contains(x) implies level_prefixes(
            ns,
            p,
            0,
        ).contains(x) by {
            lemma_level_prefixes_member(ns.insert(k), p, 0, x);
            let k2 = choose|k2: Seq<Seq<u8>>|
                ns.insert(k).contains(k2) && key_below_level(k2, p, 0) && x == k2.take(m);
            assert(k2 != k);
            assert(ns.contains(k2));
            lemma_level_prefixes_intro(ns, p, 0, k2);
        }
        assert(level_prefixes(ns.insert(k), p, 0) =~= level_prefixes(ns, p, 0));
    }
}

pub proof fn lemma_empty_to_set<A>(s: Seq<A>)
    requires
        s.len() == 0,
    ensures
        s.to_set() == Set::<A>::empty(),
{
    assert forall|x: A| !s.to_set().contains(x) by {
        if s.contains(x) {
            let j = choose|j: int| 0 <= j < s.len() && s[j] == x;
        }
    }
    assert(s.to_set() =~= Set::<A>::empty());
}

pub proof fn lemma_take_succ_to_set<A>(s: Seq<A>, i: int)
    requires
        0 <= i < s.len(),
    ensures
        s.take(i + 1).to_set() == s.take(i).to_set().insert(s[i]),
{
    let a = s.take(i + 1);
    let b = s.take(i);
    assert forall|x: A| a.to_set().contains(x) implies b.to_set().insert(s[i]).contains(x) by {
        let j = choose|j: int| 0 <= j < a.len() && a[j] == x;
        if j < i {
            assert(b[j] == x);
            assert(b.contains(x));
        } else {
            assert(x == s[i]);
        }
    }
    assert forall|x: A| b.to_set().insert(s[i]).contains(x) implies a.to_set().contains(x) by {
        if x == s[i] {
            assert(a[i] == x);
            assert(a.contains(x));
        } else {
            let j = choose|j: int| 0 <= j < b.len() && b[j] == x;
            assert(a[j] == x);
            assert(a.contains(x));
        }
    }
    assert(a.to_set() =~= b.to_set().insert(s[i]));
}

pub proof fn lemma_push_no_duplicates<A>(s: Seq<A>, x: A)
    requires
        s.no_duplicates(),
        !s.contains(x),
    ensures
        s.push(x).no_duplicates(),
{
    let t = s.push(x);
    assert forall|i: int, j: int|
        0 <= i < t.len() && 0 <= j < t.len() && i != j implies t[i] != t[j] by {
        if i < s.len() && j < s.len() {
            assert(t[i] == s[i] && t[j] == s[j]);
        } else if i < s.len() {
            assert(t[j] == x && t[i] == s[i]);
            assert(s.contains(s[i]));
        } else {
            assert(t[i] == x && t[j] == s[j]);
            assert(s.contains(s[j]));
        }
    }
}

pub proof fn lemma_concat_to_set<A>(a: Seq<A>, b: Seq<A>)
    ensures
        (a + b).to_set() == a.to_set().union(b.to_set()),
{
    let c = a + b;
    assert forall|x: A| c.to_set().contains(x) implies a.to_set().union(b.to_set()).contains(x) by {
        let j = choose|j: int| 0 <= j < c.len() && c[j] == x;
        if j < a.len() {
            assert(a[j] == x);
            assert(a.contains(x));
        } else {
            assert(b[j - a.len()] == x);
            assert(b.contains(x));
        }
    }
    assert forall|x: A| a.to_set().union(b.to_set()).contains(x) implies c.to_set().contains(x) by {
        if a.to_set().contains(x) {
            let j = choose|j: int| 0 <= j < a.len() && a[j] == x;
            assert(c[j] == x);
            assert(c.contains(x));
        } else {
            let j = choose|j: int| 0 <= j < b.len() && b[j] == x;
            assert(c[a.len() + j] == x);
            assert(c.contains(x));
        }
    }
    assert(c.to_set() =~= a.to_set().union(b.to_set()));
}

pub proof fn lemma_concat_no_duplicates<A>(a: Seq<A>, b: Seq<A>)
    requires
        a.no_duplicates(),
        b.no_duplicates(),
        forall|x: A| a.contains(x) ==> !b.contains(x),
    ensures
        (a + b).no_duplicates(),
{
    let c = a + b;
    assert forall|i: int, j: int|
        0 <= i < c.len() && 0 <= j < c.len() && i != j implies c[i] != c[j] by {
        if i < a.len() && j < a.len() {
            assert(c[i] == a[i] && c[j] == a[j]);
        } else if i >= a.len() && j >= a.len() {
            assert(c[i] == b[i - a.len()] && c[j] == b[j - a.len()]);
        } else if i < a.len() {
            assert(c[i] == a[i] && c[j] == b[j - a.len()]);
            assert(a.contains(c[i]) && b.contains(c[j]));
        } else {
            assert(c[j] == a[j] && c[i] == b[i - a.len()]);
            assert(a.contains(c[j]) && b.contains(c[i]));
        }
    }
}

pub proof fn lemma_union_level_objects_member(
    ns: Set<Seq<Seq<u8>>>,
    qs: Seq<Seq<Seq<u8>>>,
    n: int,
    x: Seq<Seq<u8>>,
)
    requires
        0 <= n <= qs.len(),
    ensures
        union_level_objects(ns, qs, n).contains(x) <==> exists|j: int|
            0 <= j < n && level_objects(ns, #[trigger] qs[j], 0).contains(x),
    decreases n,
{
    if n > 0 {
        lemma_union_level_objects_member(ns, qs, n - 1, x);
        if union_level_objects(ns, qs, n).contains(x) {
            if level_objects(ns, qs[n - 1], 0).contains(x) {
                assert(exists|j: int|
                    0 <= j < n && level_objects(ns, #[trigger] qs[j], 0).contains(x));
            } else {
                assert(union_level_objects(ns, qs, n - 1).contains(x));
            }
        }
        if exists|j: int| 0 <= j < n && level_objects(ns, #[trigger] qs[j], 0).contains(x) {
            let j = choose|j: int| 0 <= j < n && level_objects(ns, #[trigger] qs[j], 0).contains(x);
            if j < n - 1 {
                assert(union_level_objects(ns, qs, n - 1).contains(x));
            }
        }
    }
}

pub proof fn lemma_union_level_prefixes_member(
    ns: Set<Seq<Seq<u8>>>,
    qs: Seq<Seq<Seq<u8>>>,
    n: int,
    x: Seq<Seq<u8>>,
)
    requires
        0 <= n <= qs.len(),
    ensures
        union_level_prefixes(ns, qs, n).contains(x) <==> exists|j: int|
            0 <= j < n && level_prefixes(ns, #[trigger] qs[j], 0).contains(x),
    decreases n,
{
    if n > 0 {
        lemma_union_level_prefixes_member(ns, qs, n - 1, x);
        if union_level_prefixes(ns, qs, n).contains(x) {
            if level_prefixes(ns, qs[n - 1], 0).contains(x) {
                assert(exists|j: int|
                    0 <= j < n && level_prefixes(ns, #[trigger] qs[j], 0).contains(x));
            } else {
                assert(union_level_prefixes(ns, qs, n - 1).contains(x));
            }
        }
        if exists|j: int| 0 <= j < n && level_prefixes(ns, #[trigger] qs[j], 0).contains(x) {
            let j = choose|j: int|
                0 <= j < n && level_prefixes(ns, #[trigger] qs[j], 0).contains(x);
            if j < n - 1 {
                assert(union_level_prefixes(ns, qs, n - 1).contains(x));
            }
        }
    }
}

/// Two different common prefixes of one level list disjoint objects: the
/// object's key determines the branch it came from.
pub proof fn lemma_objects_branch_unique(
    ns: Set<Seq<Seq<u8>>>,
    p: Seq<Seq<u8>>,
    d: nat,
    q1: Seq<Seq<u8>>,
    q2: Seq<Seq<u8>>,
    x: Seq<Seq<u8>>,
)
    requires
        level_prefixes(ns, p, d).contains(q1),
        level_prefixes(ns, p, d).contains(q2),
        level_objects(ns, q1, 0).contains(x),
        level_objects(ns, q2, 0).contains(x),
    ensures
        q1 == q2,
{
    lemma_level_prefixes_member(ns, p, d, q1);
    lemma_level_prefixes_member(ns, p, d, q2);
    assert(q1 =~= q2) by {
        assert(q1 =~= x.take(q1.len() as int));
        assert(q2 =~= x.take(q2.len() as int));
    }
}

/// Two different common prefixes of one level also discover disjoint common
/// prefixes one level further down.
pub proof fn lemma_prefixes_branch_unique(
    ns: Set<Seq<Seq<u8>>>,
    p: Seq<Seq<u8>>,
    d: nat,
    q1: Seq<Seq<u8>>,
    q2: Seq<Seq<u8>>,
    x: Seq<Seq<u8>>,
)
    requires
        level_prefixes(ns, p, d).contains(q1),
        level_prefixes(ns, p, d).contains(q2),
        level_prefixes(ns, q1, 0).contains(x),
        level_prefixes(ns, q2, 0).contains(x),
    ensures
        q1 == q2,
{
    lemma_level_prefixes_member(ns, p, d, q1);
    lemma_level_prefixes_member(ns, p, d, q2);
    lemma_level_prefixes_member(ns, q1, 0, x);
    lemma_level_prefixes_member(ns, q2, 0, x);
    assert(q1 =~= q2) by {
        assert(q1 =~= x.take(q1.len() as int));
        assert(q2 =~= x.take(q2.len() as int));
    }
}

/// The crux of the expansion: listing every common prefix of level `d` one
/// level deep yields, in union, exactly the objects and common prefixes of
/// level `d + 1`.
pub proof fn lemma_next_level(
    ns: Set<Seq<Seq<u8>>>,
    p: Seq<Seq<u8>>,
    d: nat,
    qs: Seq<Seq<Seq<u8>>>,
)
    requires
        qs.to_set() == level_prefixes(ns, p, d),
    ensures
        union_level_objects(ns, qs, qs.len() as int) == level_objects(ns, p, (d + 1) as nat),
        union_level_prefixes(ns, qs, qs.len() as int) == level_prefixes(ns, p, (d + 1) as nat),
{
    let m = (p.len() + d + 1) as int;
    let n = qs.len() as int;

    assert forall|x: Seq<Seq<u8>>| union_level_objects(ns, qs, n).contains(x) implies level_objects(
        ns,
        p,
        (d + 1) as nat,
    ).contains(x) by {
        lemma_union_level_objects_member(ns, qs, n, x);
        let j = choose|j: int| 0 <= j < n && level_objects(ns, #[trigger] qs[j], 0).contains(x);
        let q = qs[j];
        assert(qs.contains(q));
        assert(level_prefixes(ns, p, d).contains(q));
        lemma_level_prefixes_member(ns, p, d, q);
        assert(ns.contains(x) && key_at_level(x, q, 0));
        assert(p.is_prefix_of(x)) by {
            assert(p =~= x.take(p.len() as int)) by {
                assert(forall|i: int| 0 <= i < q.len() ==> q[i] == x[i]);
                assert(forall|i: int| 0 <= i < p.len() ==> p[i] == q[i]);
            }
        }
        assert(key_at_level(x, p, (d + 1) as nat));
    }

    assert forall|x: Seq<Seq<u8>>| level_objects(ns, p, (d + 1) as nat).contains(x) implies
        union_level_objects(ns, qs, n).contains(x) by {
        assert(ns.contains(x) && key_at_level(x, p, (d + 1) as nat));
        let q = x.take(m);
        assert(key_below_level(x, p, d));
        lemma_level_prefixes_intro(ns, p, d, x);
        assert(level_prefixes(ns, p, d).contains(q));
        assert(qs.to_set().contains(q));
        let j = choose|j: int| 0 <= j < qs.len() && qs[j] == q;
        assert(level_objects(ns, q, 0).contains(x)) by {
            assert(q.is_prefix_of(x)) by {
                assert(q =~= x.take(q.len() as int));
            }
            assert(key_at_level(x, q, 0));
        }
        lemma_union_level_objects_member(ns, qs, n, x);
        assert(level_objects(ns, qs[j], 0).contains(x));
    }

    assert(union_level_objects(ns, qs, n) =~= level_objects(ns, p, (d + 1) as nat));

    assert forall|x: Seq<Seq<u8>>| union_level_prefixes(ns, qs, n).contains(x) implies
        level_prefixes(ns, p, (d + 1) as nat).contains(x) by {
        lemma_union_level_prefixes_member(ns, qs, n, x);
        let j = choose|j: int| 0 <= j < n && level_prefixes(ns, #[trigger] qs[j], 0).contains(x);
        let q = qs[j];
        assert(qs.contains(q));
        assert(level_prefixes(ns, p, d).contains(q));
        lemma_level_prefixes_member(ns, p, d, q);
        lemma_level_prefixes_member(ns, q, 0, x);
        let k = choose|k: Seq<Seq<u8>>|
            ns.contains(k) && key_below_level(k, q, 0) && x == k.take((q.len() + 1) as int);
        assert(p.is_prefix_of(k)) by {
            assert(p =~= k.take(p.len() as int)) by {
                assert(forall|i: int| 0 <= i < q.len() ==> q[i] == k[i]);
                assert(forall|i: int| 0 <= i < p.len() ==> p[i] == q[i]);
            }
        }
        assert(key_below_level(k, p, (d + 1) as nat));
        lemma_level_prefixes_intro(ns, p, (d + 1) as nat, k);
        assert(x == k.take((p.len() + (d + 1) + 1) as int));
    }

    assert forall|x: Seq<Seq<u8>>| level_prefixes(ns, p, (d + 1) as nat).contains(x) implies
        union_level_prefixes(ns, qs, n).contains(x) by {
        lemma_level_prefixes_member(ns, p, (d + 1) as nat, x);
        let k = choose|k: Seq<Seq<u8>>|
            ns.contains(k) && key_below_level(k, p, (d + 1) as nat) && x == k.take(
                (p.len() + (d + 1) + 1) as int,
            );
        let q = k.take(m);
        assert(key_below_level(k, p, d));
        lemma_level_prefixes_intro(ns, p, d, k);
        assert(level_prefixes(ns, p, d).contains(q));
        assert(qs.to_set().contains(q));
        let j = choose|j: int| 0 <= j < qs.len() && qs[j] == q;
        assert(level_prefixes(ns, q, 0).contains(x)) by {
            assert(q.is_prefix_of(k)) by {
                assert(q =~= k.take(q.len() as int));
            }
            assert(key_below_level(k, q, 0));
            lemma_level_prefixes_intro(ns, q, 0, k);
            assert(x =~= k.take((q.len() + 1) as int));
        }
        lemma_union_level_prefixes_member(ns, qs, n, x);
        assert(level_prefixes(ns, qs[j], 0).contains(x));
    }

    assert(union_level_prefixes(ns, qs, n) =~= level_prefixes(ns, p, (d + 1) as nat));
}

} // verus!
