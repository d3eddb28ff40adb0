use std::hash::Hasher;
use std::path::{Path, PathBuf};

use marked_path::{Absolute, Component, MarkedPath, MarkedPathBuf, Relative};

const SAMPLES: &[&str] = &[
    "", "/", "//", "///", ".", "./", ".//", "./.", "..", "../", "/.", "/./", "/..", "/../",
    "a", "a/", "a//", "a/.", "a/./", "./a", ".//a", "././a", "a/b", "a//b", "a/./b", "a/b/",
    "a/b/.", "a/b/..", "a/../b", "/a", "/a/", "/a/b", "//a", "/./a", "/a/./", "a.txt",
    "a.tar.gz", ".bashrc", ".config.toml", "..a", "a.", "dir/file.rs", "/dir/file.rs/",
    "dir/.hidden", "dir/..", "dir/...", "x/y.z/w", "/x/y.z/", ".a/b", "..", "a/b.c.d/",
    "foo.", "foo..", "/foo.bar/baz.qux", "./foo.rs", "../foo.rs", ". /a", "a /b", "\u{e9}/\u{e8}.t",
];

fn std_path(s: &str) -> &Path {
    Path::new(s)
}

fn bytes<S: AsRef<Path> + ?Sized>(o: Option<&S>) -> Option<Vec<u8>> {
    o.map(|s| s.as_ref().as_os_str().as_encoded_bytes().to_vec())
}

fn mine_parent(s: &str) -> Option<Vec<u8>> {
    if Path::new(s).is_absolute() {
        let p = MarkedPathBuf::<Absolute>::new(s.as_bytes()).unwrap();
        p.parent().map(|q| q.as_path().to_vec())
    } else {
        let p = MarkedPathBuf::<Relative>::new(s.as_bytes()).unwrap();
        p.parent().map(|q| q.as_path().to_vec())
    }
}

#[test]
fn absoluteness_agrees_with_std() {
    for s in SAMPLES {
        let abs = MarkedPath::<Absolute>::new(s.as_bytes()).is_ok();
        let rel = MarkedPath::<Relative>::new(s.as_bytes()).is_ok();
        assert_eq!(abs, std_path(s).is_absolute(), "{s:?}");
        assert_eq!(rel, std_path(s).is_relative(), "{s:?}");
    }
}

#[test]
fn parent_agrees_with_std() {
    for s in SAMPLES {
        let expected = std_path(s).parent().map(|p| p.as_os_str().as_encoded_bytes().to_vec());
        assert_eq!(mine_parent(s), expected, "{s:?}");
    }
}

#[test]
fn pop_agrees_with_std() {
    for s in SAMPLES {
        let mut expected = PathBuf::from(s);
        let expected_r = expected.pop();
        let (r, got) = if Path::new(s).is_absolute() {
            let mut p = MarkedPathBuf::<Absolute>::new(s.as_bytes()).unwrap();
            (p.pop(), p.into_inner())
        } else {
            let mut p = MarkedPathBuf::<Relative>::new(s.as_bytes()).unwrap();
            (p.pop(), p.into_inner())
        };
        assert_eq!(r, expected_r, "{s:?}");
        assert_eq!(got, expected.as_os_str().as_encoded_bytes().to_vec(), "{s:?}");
    }
}

#[test]
fn file_name_parts_agree_with_std() {
    for s in SAMPLES {
        let p = std_path(s);
        let (name, stem, ext, prefix) = if p.is_absolute() {
            let q = MarkedPath::<Absolute>::new(s.as_bytes()).unwrap();
            (q.file_name(), q.file_stem(), q.extension(), q.file_prefix())
        } else {
            let q = MarkedPath::<Relative>::new(s.as_bytes()).unwrap();
            (q.file_name(), q.file_stem(), q.extension(), q.file_prefix())
        };
        assert_eq!(name.map(|b| b.to_vec()), bytes(p.file_name()), "name {s:?}");
        assert_eq!(stem.map(|b| b.to_vec()), bytes(p.file_stem()), "stem {s:?}");
        assert_eq!(ext.map(|b| b.to_vec()), bytes(p.extension()), "ext {s:?}");
        assert_eq!(prefix.map(|b| b.to_vec()), bytes(p.file_prefix()), "prefix {s:?}");
    }
}

#[test]
fn extensions_agree_with_std() {
    for s in SAMPLES {
        for ext in ["", "md", "tar.gz", ".x"] {
            let mut expected = PathBuf::from(s);
            let er = expected.set_extension(ext);
            let mut expected_add = PathBuf::from(s);
            let ear = expected_add.add_extension(ext);
            if Path::new(s).is_absolute() {
                let mut p = MarkedPathBuf::<Absolute>::new(s.as_bytes()).unwrap();
                assert_eq!(p.set_extension(ext.as_bytes()), er, "{s:?} {ext:?}");
                assert_eq!(p.as_path(), expected.as_os_str().as_encoded_bytes(), "{s:?} {ext:?}");
                let mut p = MarkedPathBuf::<Absolute>::new(s.as_bytes()).unwrap();
                assert_eq!(p.add_extension(ext.as_bytes()), ear, "{s:?} {ext:?}");
                assert_eq!(p.as_path(), expected_add.as_os_str().as_encoded_bytes(), "{s:?} {ext:?}");
            } else {
                let mut p = MarkedPathBuf::<Relative>::new(s.as_bytes()).unwrap();
                assert_eq!(p.set_extension(ext.as_bytes()), er, "{s:?} {ext:?}");
                assert_eq!(p.as_path(), expected.as_os_str().as_encoded_bytes(), "{s:?} {ext:?}");
                let mut p = MarkedPathBuf::<Relative>::new(s.as_bytes()).unwrap();
                assert_eq!(p.add_extension(ext.as_bytes()), ear, "{s:?} {ext:?}");
                assert_eq!(p.as_path(), expected_add.as_os_str().as_encoded_bytes(), "{s:?} {ext:?}");
            }
        }
    }
}

#[test]
fn join_agrees_with_std() {
    for base in SAMPLES {
        for other in SAMPLES {
            let expected = std_path(base).join(other);
            let expected = expected.as_os_str().as_encoded_bytes();
            if Path::new(base).is_absolute() {
                let b = MarkedPath::<Absolute>::new(base.as_bytes()).unwrap();
                let j = b.join(other.as_bytes()).unwrap();
                assert_eq!(j.as_path(), expected, "{base:?} {other:?}");
            } else {
                let b = MarkedPath::<Relative>::new(base.as_bytes()).unwrap();
                match b.join(other.as_bytes()) {
                    Ok(j) => assert_eq!(j.as_path(), expected, "{base:?} {other:?}"),
                    Err(_) => assert!(Path::new(other).is_absolute()),
                }
            }
        }
    }
}

fn my_components(s: &str) -> Vec<Vec<u8>> {
    let q = MarkedPath::<Relative>::new(s.as_bytes());
    let comps = match q {
        Ok(q) => q.components(),
        Err(_) => MarkedPath::<Absolute>::new(s.as_bytes()).unwrap().components(),
    };
    comps
        .into_iter()
        .map(|c| match c {
            Component::RootDir => b"/".to_vec(),
            Component::CurDir => b".".to_vec(),
            Component::ParentDir => b"..".to_vec(),
            Component::Normal(n) => n.to_vec(),
        })
        .collect()
}

#[test]
fn components_agree_with_std() {
    for s in SAMPLES {
        let expected: Vec<Vec<u8>> = std_path(s)
            .components()
            .map(|c| c.as_os_str().as_encoded_bytes().to_vec())
            .collect();
        assert_eq!(my_components(s), expected, "{s:?}");
    }
}

#[test]
fn starts_and_ends_with_agree_with_std() {
    for s in SAMPLES {
        for t in SAMPLES {
            let (sw, ew) = match MarkedPath::<Relative>::new(s.as_bytes()) {
                Ok(q) => (q.starts_with(t.as_bytes()), q.ends_with(t.as_bytes())),
                Err(_) => {
                    let q = MarkedPath::<Absolute>::new(s.as_bytes()).unwrap();
                    (q.starts_with(t.as_bytes()), q.ends_with(t.as_bytes()))
                }
            };
            assert_eq!(sw, std_path(s).starts_with(t), "{s:?} starts_with {t:?}");
            assert_eq!(ew, std_path(s).ends_with(t), "{s:?} ends_with {t:?}");
        }
    }
}

fn hash_of<T: std::hash::Hash>(t: &T) -> u64 {
    let mut h = std::hash::DefaultHasher::new();
    t.hash(&mut h);
    h.finish()
}

#[test]
fn equality_and_order_agree_with_std() {
    for s in SAMPLES {
        for t in SAMPLES {
            let (ps, pt) = (std_path(s), std_path(t));
            if ps.is_absolute() != pt.is_absolute() {
                continue;
            }
            if ps.is_absolute() {
                let a = MarkedPathBuf::<Absolute>::new(s.as_bytes()).unwrap();
                let b = MarkedPathBuf::<Absolute>::new(t.as_bytes()).unwrap();
                assert_eq!(a == b, ps == pt, "{s:?} == {t:?}");
                assert_eq!(a.partial_cmp(&b), Some(ps.cmp(pt)), "{s:?} cmp {t:?}");
                assert_eq!(a.as_marked_path() == b.as_marked_path(), ps == pt, "{s:?} == {t:?}");
                if a == b {
                    assert_eq!(hash_of(&a), hash_of(&b), "{s:?} {t:?}");
                }
            } else {
                let a = MarkedPathBuf::<Relative>::new(s.as_bytes()).unwrap();
                let b = MarkedPathBuf::<Relative>::new(t.as_bytes()).unwrap();
                assert_eq!(a == b, ps == pt, "{s:?} == {t:?}");
                assert_eq!(a.partial_cmp(&b), Some(ps.cmp(pt)), "{s:?} cmp {t:?}");
                assert_eq!(
                    a.as_marked_path().partial_cmp(&b.as_marked_path()),
                    Some(ps.cmp(pt)),
                    "{s:?} cmp {t:?}"
                );
                if a == b {
                    assert_eq!(hash_of(&a.as_marked_path()), hash_of(&b.as_marked_path()));
                }
            }
        }
    }
}
