use depth_listing::{
    list_with_depth, ExpandError, InMemoryNamespace, ListingResult, OneLevelLister, Path,
};

fn path(s: &str) -> Path {
    let segs: Vec<Vec<u8>> = s.split('/').map(|seg| seg.as_bytes().to_vec()).collect();
    Path::from_segments(segs)
}

fn namespace_with(keys: &[&str]) -> InMemoryNamespace {
    let mut ns = InMemoryNamespace::new();
    for k in keys {
        ns.put(path(k));
    }
    ns
}

const KEYS: [&str; 6] = [
    "a.txt",
    "foo/b.txt",
    "foo/bar/c.txt",
    "foo/bar/d.txt",
    "foo/baz/e.txt",
    "foo/baz/bleh/f.txt",
];

/// Returns (object_paths, common_prefixes).
fn test_depth_n(depth: usize) -> (Vec<Path>, Vec<Path>) {
    let ns = namespace_with(&KEYS);
    let ListingResult {
        objects,
        common_prefixes,
    } = list_with_depth(&ns, None, depth).unwrap();
    let object_paths = objects
        .into_iter()
        .map(|object_entry| object_entry.location)
        .collect();
    (object_paths, common_prefixes)
}

#[test]
fn test_depth_0() {
    let (object_paths, common_prefixes) = test_depth_n(0);
    assert_eq!(object_paths.len(), 1);
    assert_eq!(object_paths[0], path("a.txt"));
    assert_eq!(common_prefixes, vec![path("foo")]);
}

#[test]
fn test_depth_1() {
    let (object_paths, common_prefixes) = test_depth_n(1);
    assert_eq!(object_paths.len(), 1);
    assert_eq!(object_paths[0], path("foo/b.txt"));
    assert_eq!(common_prefixes, vec![path("foo/bar"), path("foo/baz")]);
}

#[test]
fn test_depth_2() {
    let (object_paths, common_prefixes) = test_depth_n(2);
    assert_eq!(object_paths.len(), 3);
    assert_eq!(object_paths[0], path("foo/bar/c.txt"));
    assert_eq!(object_paths[1], path("foo/bar/d.txt"));
    assert_eq!(object_paths[2], path("foo/baz/e.txt"));
    assert_eq!(common_prefixes, vec![path("foo/baz/bleh")]);
}

#[test]
fn depth_zero_equals_one_level_listing() {
    let ns = namespace_with(&KEYS);
    let expanded = list_with_depth(&ns, None, 0).unwrap();
    let listed = ns.list_one_level(None).unwrap();
    assert_eq!(expanded.objects, listed.objects);
    assert_eq!(expanded.common_prefixes, listed.common_prefixes);

    let prefix = path("foo");
    let expanded = list_with_depth(&ns, Some(&prefix), 0).unwrap();
    let listed = ns.list_one_level(Some(&prefix)).unwrap();
    assert_eq!(expanded.objects, listed.objects);
    assert_eq!(expanded.common_prefixes, listed.common_prefixes);
}

#[test]
fn objects_lie_exactly_depth_levels_down() {
    let ns = namespace_with(&KEYS);
    for depth in 0..4usize {
        let r = list_with_depth(&ns, None, depth).unwrap();
        for o in &r.objects {
            assert_eq!(o.location.seg_count(), depth + 1);
        }
        for q in &r.common_prefixes {
            assert_eq!(q.seg_count(), depth + 1);
        }
    }
    for depth in 0..3usize {
        let prefix = path("foo");
        let r = list_with_depth(&ns, Some(&prefix), depth).unwrap();
        for o in &r.objects {
            assert_eq!(o.location.seg_count(), depth + 2);
        }
    }
}

#[test]
fn depth_beyond_namespace_is_empty_not_error() {
    let ns = namespace_with(&KEYS);
    let r = list_with_depth(&ns, None, 3).unwrap();
    assert_eq!(r.objects.len(), 1);
    assert_eq!(r.objects[0].location, path("foo/baz/bleh/f.txt"));
    assert_eq!(r.common_prefixes, Vec::<Path>::new());

    for depth in 4..7usize {
        let r = list_with_depth(&ns, None, depth).unwrap();
        assert_eq!(r.objects.len(), 0);
        assert_eq!(r.common_prefixes.len(), 0);
    }

    let empty = InMemoryNamespace::new();
    let r = list_with_depth(&empty, None, 0).unwrap();
    assert_eq!(r.objects.len(), 0);
    assert_eq!(r.common_prefixes.len(), 0);
}

#[test]
fn repeated_expansion_is_identical() {
    let ns = namespace_with(&KEYS);
    for depth in 0..5usize {
        let r1 = list_with_depth(&ns, None, depth).unwrap();
        let r2 = list_with_depth(&ns, None, depth).unwrap();
        assert_eq!(r1.objects, r2.objects);
        assert_eq!(r1.common_prefixes, r2.common_prefixes);
    }
}

#[test]
fn failing_listing_fails_whole_expansion() {
    let mut ns = namespace_with(&KEYS);
    ns.fail_under(Some(path("foo/bar")));

    assert!(list_with_depth(&ns, None, 0).is_ok());
    assert!(list_with_depth(&ns, None, 1).is_ok());
    let e = list_with_depth(&ns, None, 2).unwrap_err();
    assert!(matches!(e, ExpandError::List(_)));
    if let ExpandError::List(le) = e {
        assert_eq!(le.prefix, Some(path("foo/bar")));
    }

    let mut ns = namespace_with(&KEYS);
    ns.fail_under(None);
    for depth in 0..3usize {
        let e = list_with_depth(&ns, None, depth).unwrap_err();
        assert!(matches!(e, ExpandError::List(_)));
    }
}

#[test]
fn four_key_scenario() {
    let ns = namespace_with(&["a.txt", "foo/b.txt", "foo/bar/c.txt", "foo/bar/d.txt"]);

    let r = list_with_depth(&ns, None, 0).unwrap();
    assert_eq!(r.objects.len(), 1);
    assert_eq!(r.objects[0].location, path("a.txt"));
    assert_eq!(r.common_prefixes, vec![path("foo")]);

    let r = list_with_depth(&ns, None, 1).unwrap();
    assert_eq!(r.objects.len(), 1);
    assert_eq!(r.objects[0].location, path("foo/b.txt"));
    assert_eq!(r.common_prefixes, vec![path("foo/bar")]);

    let r = list_with_depth(&ns, None, 2).unwrap();
    assert_eq!(r.objects.len(), 2);
    assert_eq!(r.objects[0].location, path("foo/bar/c.txt"));
    assert_eq!(r.objects[1].location, path("foo/bar/d.txt"));
    assert_eq!(r.common_prefixes, Vec::<Path>::new());
}

#[test]
fn expansion_below_a_prefix() {
    let ns = namespace_with(&KEYS);
    let prefix = path("foo");

    let r = list_with_depth(&ns, Some(&prefix), 0).unwrap();
    assert_eq!(r.objects.len(), 1);
    assert_eq!(r.objects[0].location, path("foo/b.txt"));
    assert_eq!(r.common_prefixes, vec![path("foo/bar"), path("foo/baz")]);

    let r = list_with_depth(&ns, Some(&prefix), 1).unwrap();
    assert_eq!(r.objects.len(), 3);
    assert_eq!(r.objects[0].location, path("foo/bar/c.txt"));
    assert_eq!(r.objects[1].location, path("foo/bar/d.txt"));
    assert_eq!(r.objects[2].location, path("foo/baz/e.txt"));
    assert_eq!(r.common_prefixes, vec![path("foo/baz/bleh")]);
}

#[test]
fn segment_basis_prefix_matching() {
    let ns = namespace_with(&["foo/bar/x", "foo/bar_baz/x"]);
    let prefix = path("foo/bar");
    let r = list_with_depth(&ns, Some(&prefix), 0).unwrap();
    assert_eq!(r.objects.len(), 1);
    assert_eq!(r.objects[0].location, path("foo/bar/x"));
    assert_eq!(r.common_prefixes, Vec::<Path>::new());
}

#[test]
fn duplicate_puts_change_nothing() {
    let mut ns = namespace_with(&KEYS);
    ns.put(path("foo/bar/c.txt"));
    let r = list_with_depth(&ns, None, 2).unwrap();
    assert_eq!(r.objects.len(), 3);
    assert_eq!(r.common_prefixes, vec![path("foo/baz/bleh")]);
}
