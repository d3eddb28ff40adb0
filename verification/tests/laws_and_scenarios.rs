use marked_path::{Absolute, CanonicalPath, Component, MarkedPath, MarkedPathBuf, Relative};

const PATHS: &[&str] = &[
    "", "/", ".", "./", "..", "a", "a/", "a//b", "./a/b", "/a/b/", "/a/./b", "x.y/z.tar.gz",
    "/dir/.hidden", "dir/file.rs/", "a/..", "/..", "..a", "foo.",
];

fn join_bytes(a: &[u8], b: &[u8]) -> Vec<u8> {
    match MarkedPath::<Absolute>::new(a) {
        Ok(p) => p.join(b).unwrap().into_inner(),
        Err(_) => match MarkedPath::<Relative>::new(a).unwrap().join(b) {
            Ok(q) => q.into_inner(),
            Err(_) => b.to_vec(),
        },
    }
}

#[test]
fn readme_push_relative_onto_absolute() {
    let rel = MarkedPathBuf::<Relative>::new(b"documents/file.txt").unwrap();
    let mut abs = MarkedPathBuf::<Absolute>::new(b"/home").unwrap();
    abs.push(&rel.as_marked_path());
    assert_eq!(abs.as_path(), b"/home/documents/file.txt");
}

#[test]
fn readme_join_typed_paths() {
    let abs = MarkedPathBuf::<Absolute>::new(b"/home/user").unwrap();
    let rel = MarkedPathBuf::<Relative>::new(b"documents/file.txt").unwrap();
    let combined = abs.as_marked_path().join_relative(&rel.as_marked_path());
    assert_eq!(combined.as_path(), b"/home/user/documents/file.txt");
}

#[test]
fn readme_canonicalization() {
    let abs = MarkedPathBuf::<Absolute>::new(b"/etc/hosts").unwrap();
    let resolved = || Ok((b"/etc/hosts".to_vec(), Ok(b"/etc/hosts".to_vec())));
    let canonical = abs.as_marked_path().canonicalize(resolved()).unwrap();
    assert_eq!(canonical.as_path(), b"/etc/hosts");
    let canonical = CanonicalPath::from_path(resolved()).unwrap();
    let abs: MarkedPathBuf<Absolute> = canonical.into_marked();
    assert_eq!(abs.as_path(), b"/etc/hosts");
}

#[test]
fn readme_parsing_from_strings() {
    let abs: MarkedPathBuf<Absolute> = "/home/user".parse().unwrap();
    let rel: MarkedPathBuf<Relative> = "documents/file.txt".parse().unwrap();
    assert_eq!(rel.as_path(), b"documents/file.txt");
    let bytes: Vec<u8> = abs.into_inner();
    assert_eq!(bytes, b"/home/user".to_vec());
}

#[test]
fn law_join_is_absolute_on_examples() {
    let abs = MarkedPathBuf::<Absolute>::new(b"/base").unwrap();
    for p in PATHS {
        let joined = abs.as_marked_path().join(p.as_bytes()).unwrap();
        assert!(joined.has_root(), "{p:?}");
    }
    let rel = MarkedPathBuf::<Relative>::new(b"base").unwrap();
    for p in PATHS {
        let joined = rel.as_marked_path().join(p.as_bytes());
        assert_eq!(joined.is_ok(), !p.starts_with('/'), "{p:?}");
    }
}

#[test]
fn law_join_is_associative_on_examples() {
    for a in PATHS {
        for b in PATHS {
            for c in PATHS {
                let left = join_bytes(&join_bytes(a.as_bytes(), b.as_bytes()), c.as_bytes());
                let right = join_bytes(a.as_bytes(), &join_bytes(b.as_bytes(), c.as_bytes()));
                assert_eq!(left, right, "{a:?} {b:?} {c:?}");
            }
        }
    }
}

#[test]
fn law_parent_is_proper_prefix_on_examples() {
    for p in PATHS {
        if let Ok(q) = MarkedPath::<Relative>::new(p.as_bytes()) {
            if let Some(parent) = q.parent() {
                assert!(parent.as_path().len() < p.len(), "{p:?}");
                assert!(p.as_bytes().starts_with(parent.as_path()), "{p:?}");
            }
        }
    }
    let abs = MarkedPathBuf::<Absolute>::new(b"/a/b").unwrap();
    let parent = abs.parent().unwrap();
    assert!(parent.has_root());
}

#[test]
fn law_ancestors_end_on_examples() {
    for p in PATHS {
        let q = match MarkedPath::<Relative>::new(p.as_bytes()) {
            Ok(q) => q.to_owned().into_inner(),
            Err(_) => p.as_bytes().to_vec(),
        };
        if let Ok(rel) = MarkedPathBuf::<Relative>::new(&q) {
            let mut it = rel.ancestors();
            let mut count = 0;
            let mut last: Option<Vec<u8>> = None;
            while let Some(a) = it.next() {
                if let Some(prev) = &last {
                    assert!(a.as_path().len() < prev.len());
                }
                last = Some(a.as_path().to_vec());
                count += 1;
            }
            assert!(count <= p.len() + 1, "{p:?}");
        }
    }
}

#[test]
fn law_set_extension_sets_extension_on_examples() {
    for p in PATHS {
        if let Ok(mut q) = MarkedPathBuf::<Relative>::new(p.as_bytes()) {
            let stem = q.file_stem().map(|s| s.to_vec());
            if q.set_extension(b"md") {
                assert_eq!(q.extension(), Some(&b"md"[..]), "{p:?}");
                assert_eq!(q.file_stem().map(|s| s.to_vec()), stem, "{p:?}");
            } else {
                assert!(stem.is_none());
            }
        }
    }
}

#[test]
fn law_add_extension_sets_extension_on_examples() {
    for p in PATHS {
        if let Ok(mut q) = MarkedPathBuf::<Relative>::new(p.as_bytes()) {
            let name = q.file_name().map(|s| s.to_vec());
            if q.add_extension(b"bak") {
                assert_eq!(q.extension(), Some(&b"bak"[..]), "{p:?}");
                assert_eq!(q.file_stem().map(|s| s.to_vec()), name, "{p:?}");
            } else {
                assert!(name.is_none());
            }
        }
    }
}

fn comps(p: &[u8]) -> Vec<Vec<u8>> {
    let list = match MarkedPath::<Relative>::new(p) {
        Ok(q) => q.components(),
        Err(_) => MarkedPath::<Absolute>::new(p).unwrap().components(),
    };
    list.into_iter()
        .map(|c| match c {
            Component::RootDir => b"/".to_vec(),
            Component::CurDir => b".".to_vec(),
            Component::ParentDir => b"..".to_vec(),
            Component::Normal(n) => n.to_vec(),
        })
        .collect()
}

fn parent_of(p: &[u8]) -> Option<Vec<u8>> {
    match MarkedPath::<Relative>::new(p) {
        Ok(q) => q.parent().map(|x| x.as_path().to_vec()),
        Err(_) => MarkedPath::<Absolute>::new(p).unwrap().parent().map(|x| x.as_path().to_vec()),
    }
}

fn file_name_of(p: &[u8]) -> Option<Vec<u8>> {
    match MarkedPath::<Relative>::new(p) {
        Ok(q) => q.file_name().map(|x| x.to_vec()),
        Err(_) => MarkedPath::<Absolute>::new(p).unwrap().file_name().map(|x| x.to_vec()),
    }
}

#[test]
fn law_parent_drops_final_component_on_examples() {
    for p in PATHS {
        let c = comps(p.as_bytes());
        match parent_of(p.as_bytes()) {
            Some(q) => {
                let mut expected = c.clone();
                expected.pop();
                assert_eq!(comps(&q), expected, "{p:?}");
            }
            None => assert!(c.is_empty() || c == vec![b"/".to_vec()], "{p:?}"),
        }
    }
}

#[test]
fn law_file_name_is_final_component_on_examples() {
    for p in PATHS {
        let c = comps(p.as_bytes());
        let expected = match c.last() {
            Some(last) if last != b"/" && last != b"." && last != b".." => Some(last.clone()),
            _ => None,
        };
        assert_eq!(file_name_of(p.as_bytes()), expected, "{p:?}");
    }
}

#[test]
fn law_starts_with_parent_and_ends_with_file_name_on_examples() {
    for p in PATHS {
        let rel = MarkedPath::<Relative>::new(p.as_bytes());
        if let Ok(q) = rel {
            if let Some(parent) = q.parent() {
                assert!(q.starts_with(parent.as_path()), "{p:?}");
            }
            if let Some(name) = q.file_name() {
                assert!(q.ends_with(name), "{p:?}");
            }
        }
    }
}
