use std::collections::HashSet;
use std::hash::{DefaultHasher, Hash, Hasher};

use marked_path::{
    Absolute, CanonicalPath, Component, MarkedPath, MarkedPathBuf, PathError, Relative,
};

fn io_error() -> std::io::Error {
    std::io::Error::new(std::io::ErrorKind::NotFound, "no such file")
}

/// A canonical path for `p`, as the filesystem would give it when `p` is
/// already canonical.
fn canonical(p: &[u8]) -> CanonicalPath {
    CanonicalPath::from_path(Ok((p.to_vec(), Ok(p.to_vec())))).unwrap()
}

// Absolute paths.

#[test]
fn absolute_new_accepts_absolute_path() {
    let result = MarkedPathBuf::<Absolute>::new(b"/some/path");
    assert!(result.is_ok());
}

#[test]
fn absolute_new_rejects_relative_path() {
    let result = MarkedPathBuf::<Absolute>::new(b"some/relative/path");
    assert!(result.is_err());
    assert!(matches!(result, Err(PathError::NotAbsolute)));
}

#[test]
fn push_path_on_absolute_accepts_relative() {
    let mut absolute = MarkedPathBuf::<Absolute>::new(b"/base").unwrap();
    let relative = MarkedPathBuf::<Relative>::new(b"subdir/file.txt").unwrap();
    absolute.push(&relative.as_marked_path());
    assert_eq!(absolute.as_path(), b"/base/subdir/file.txt");
}

#[test]
fn join_absolute_with_relative_raw() {
    let absolute = MarkedPathBuf::<Absolute>::new(b"/base").unwrap();
    let result = absolute.as_marked_path().join(b"subdir/file.txt");
    assert!(result.is_ok());
    assert_eq!(result.unwrap().as_path(), b"/base/subdir/file.txt");
}

#[test]
fn join_absolute_with_absolute_raw_replaces_base() {
    let absolute = MarkedPathBuf::<Absolute>::new(b"/base").unwrap();
    let result = absolute.as_marked_path().join(b"/other");
    assert!(result.is_ok());
    assert_eq!(result.unwrap().as_path(), b"/other");
}

#[test]
fn join_relative_on_absolute() {
    let absolute = MarkedPathBuf::<Absolute>::new(b"/base").unwrap();
    let relative = MarkedPathBuf::<Relative>::new(b"subdir/file.txt").unwrap();
    let result = absolute.as_marked_path().join_relative(&relative.as_marked_path());
    assert_eq!(result.as_path(), b"/base/subdir/file.txt");
}

#[test]
fn absolute_from_str() {
    let abs: MarkedPathBuf<Absolute> = "/home/user".parse().unwrap();
    assert_eq!(abs.as_path(), b"/home/user");
    assert!("home/user".parse::<MarkedPathBuf<Absolute>>().is_err());
}

#[test]
fn absolute_canonicalize_gives_resolved_path() {
    let abs = MarkedPathBuf::<Absolute>::new(b"/etc/./hosts").unwrap();
    let resolved = Ok((b"/etc/hosts".to_vec(), Ok(b"/etc/hosts".to_vec())));
    let canonical = abs.as_marked_path().canonicalize(resolved).unwrap();
    assert_eq!(canonical.as_path(), b"/etc/hosts");
}

#[test]
fn absolute_canonicalize_reports_io_error() {
    let abs = MarkedPathBuf::<Absolute>::new(b"/missing").unwrap();
    let result = abs.as_marked_path().canonicalize(Err(io_error()));
    assert!(matches!(result, Err(PathError::Io(_))));
}

// Relative paths.

#[test]
fn relative_new_accepts_relative_path() {
    assert!(MarkedPathBuf::<Relative>::new(b"some/relative/path").is_ok());
}

#[test]
fn relative_new_accepts_empty_path() {
    assert!(MarkedPathBuf::<Relative>::new(b"").is_ok());
}

#[test]
fn relative_new_rejects_absolute_path() {
    let result = MarkedPathBuf::<Relative>::new(b"/some/path");
    assert!(matches!(result, Err(PathError::NotRelative)));
}

#[test]
fn push_path_on_relative_accepts_relative() {
    let mut base = MarkedPathBuf::<Relative>::new(b"base").unwrap();
    let other = MarkedPathBuf::<Relative>::new(b"subdir/file.txt").unwrap();
    base.push(&other.as_marked_path());
    assert_eq!(base.as_path(), b"base/subdir/file.txt");
}

#[test]
fn join_relative_with_relative_raw() {
    let base = MarkedPathBuf::<Relative>::new(b"base").unwrap();
    let result = base.as_marked_path().join(b"subdir/file.txt");
    assert!(result.is_ok());
    assert_eq!(result.unwrap().as_path(), b"base/subdir/file.txt");
}

#[test]
fn join_relative_rejects_absolute_raw() {
    let base = MarkedPathBuf::<Relative>::new(b"base").unwrap();
    let result = base.as_marked_path().join(b"/other");
    assert!(result.is_err());
    assert!(matches!(result.unwrap_err(), PathError::NotRelative));
}

#[test]
fn join_relative_on_relative() {
    let base = MarkedPathBuf::<Relative>::new(b"base").unwrap();
    let other = MarkedPathBuf::<Relative>::new(b"subdir/file.txt").unwrap();
    let result = base.as_marked_path().join_relative(&other.as_marked_path());
    assert_eq!(result.as_path(), b"base/subdir/file.txt");
}

#[test]
fn canonicalize_relative_path() {
    let relative = MarkedPathBuf::<Relative>::new(b"test_file.txt").unwrap();
    let resolved = b"/tmp/marked_path_test_canonicalize_dir/test_file.txt".to_vec();
    let result = relative
        .as_marked_path()
        .canonicalize(Ok((resolved.clone(), Ok(resolved.clone()))));
    assert!(result.is_ok());
    assert_eq!(result.unwrap().as_path(), resolved.as_slice());
}

#[test]
fn relative_from_str() {
    let rel: MarkedPathBuf<Relative> = "documents/file.txt".parse().unwrap();
    assert_eq!(rel.as_path(), b"documents/file.txt");
    assert!("/documents".parse::<MarkedPathBuf<Relative>>().is_err());
}

// Marked paths.

#[test]
fn marked_path_display() {
    let path = MarkedPathBuf::<Relative>::new(b"some/relative/path").unwrap();
    assert_eq!(path.to_string(), "some/relative/path");
}

#[test]
fn marked_path_display_replaces_invalid_bytes() {
    let path = MarkedPathBuf::<Absolute>::new(b"/a\xffb").unwrap();
    assert_eq!(path.to_string(), "/a\u{FFFD}b");
    assert_eq!(path.as_marked_path().to_string(), "/a\u{FFFD}b");
}

#[test]
fn marked_path_to_path_buf() {
    let path = MarkedPathBuf::<Relative>::new(b"some/relative/path").unwrap();
    assert_eq!(path.to_path_buf(), b"some/relative/path".to_vec());
}

#[test]
fn marked_path_into_inner() {
    let path = MarkedPathBuf::<Relative>::new(b"some/relative/path").unwrap();
    assert_eq!(path.into_inner(), b"some/relative/path".to_vec());
}

#[test]
fn marked_path_parent_on_relative() {
    let buf = MarkedPathBuf::<Relative>::new(b"a/b/c").unwrap();
    let parent = buf.parent().unwrap();
    assert_eq!(parent.as_path(), b"a/b");
}

#[test]
fn marked_path_parent_on_absolute() {
    let buf = MarkedPathBuf::<Absolute>::new(b"/a/b/c").unwrap();
    let parent = buf.parent().unwrap();
    assert_eq!(parent.as_path(), b"/a/b");
}

#[test]
fn marked_path_parent_on_root() {
    let buf = MarkedPathBuf::<Absolute>::new(b"/").unwrap();
    assert!(buf.parent().is_none());
}

#[test]
fn marked_path_parent_on_single_component() {
    let buf = MarkedPathBuf::<Relative>::new(b"foo").unwrap();
    let parent = buf.parent().unwrap();
    assert_eq!(parent.as_path(), b"");
}

#[test]
fn marked_path_parent_on_empty() {
    let buf = MarkedPathBuf::<Relative>::new(b"").unwrap();
    assert!(buf.parent().is_none());
}

#[test]
fn marked_ancestors_yields_typed_paths() {
    let buf = MarkedPathBuf::<Relative>::new(b"a/b/c").unwrap();
    let mut it = buf.ancestors();
    let mut ancestors: Vec<MarkedPath<Relative>> = Vec::new();
    while let Some(a) = it.next() {
        ancestors.push(a);
    }
    assert_eq!(ancestors.len(), 4);
    assert_eq!(ancestors[0].as_path(), b"a/b/c");
    assert_eq!(ancestors[1].as_path(), b"a/b");
    assert_eq!(ancestors[2].as_path(), b"a");
    assert_eq!(ancestors[3].as_path(), b"");
}

#[test]
fn deref_from_buf_to_path() {
    let buf = MarkedPathBuf::<Relative>::new(b"a/b").unwrap();
    let borrowed: MarkedPath<Relative> = buf.as_marked_path();
    assert_eq!(borrowed.as_path(), b"a/b");
}

#[test]
fn to_owned_from_borrowed() {
    let buf = MarkedPathBuf::<Relative>::new(b"a/b").unwrap();
    let borrowed: MarkedPath<Relative> = buf.as_marked_path();
    let owned = borrowed.to_owned();
    assert_eq!(owned.as_path(), b"a/b");
}

#[test]
fn marked_path_into_pathbuf() {
    let path = MarkedPathBuf::<Relative>::new(b"some/relative/path").unwrap();
    let bytes: Vec<u8> = path.into_inner();
    assert_eq!(bytes, b"some/relative/path".to_vec());
}

#[test]
fn pop_truncates_to_parent() {
    let mut buf = MarkedPathBuf::<Absolute>::new(b"/a/b/").unwrap();
    assert!(buf.pop());
    assert_eq!(buf.as_path(), b"/a");
    assert!(buf.pop());
    assert_eq!(buf.as_path(), b"/");
    assert!(!buf.pop());
    assert_eq!(buf.as_path(), b"/");
}

#[test]
fn extension_methods() {
    let buf = MarkedPathBuf::<Relative>::new(b"dir/archive.tar.gz").unwrap();
    assert_eq!(buf.file_name(), Some(&b"archive.tar.gz"[..]));
    assert_eq!(buf.file_stem(), Some(&b"archive.tar"[..]));
    assert_eq!(buf.extension(), Some(&b"gz"[..]));
    assert_eq!(buf.file_prefix(), Some(&b"archive"[..]));
    assert_eq!(buf.with_extension(b"zip").as_path(), b"dir/archive.tar.zip");
    assert_eq!(buf.with_added_extension(b"bak").as_path(), b"dir/archive.tar.gz.bak");
    let mut root = MarkedPathBuf::<Absolute>::new(b"/").unwrap();
    assert!(!root.set_extension(b"txt"));
    assert!(!root.add_extension(b"txt"));
    assert_eq!(root.as_path(), b"/");
}

#[test]
fn has_root_follows_marker() {
    assert!(MarkedPathBuf::<Absolute>::new(b"/x").unwrap().has_root());
    assert!(!MarkedPathBuf::<Relative>::new(b"x").unwrap().has_root());
    assert!(MarkedPathBuf::<Relative>::new(b"").unwrap().is_empty());
}

// Canonical paths.

#[test]
fn canonical_path_from_existing_file() {
    let canonical = CanonicalPath::from_path(Ok((b"/tmp/file".to_vec(), Ok(b"/tmp/file".to_vec()))));
    assert!(canonical.is_ok());
    assert!(canonical.unwrap().has_root());
}

#[test]
fn canonical_path_hash_and_eq() {
    let canonical1 = canonical(b"/tmp/file");
    let canonical2 = canonical(b"/tmp/file");
    assert_eq!(canonical1, canonical2);
    let mut set = HashSet::new();
    set.insert(canonical1.clone());
    assert!(set.contains(&canonical2));
}

#[test]
fn canonical_path_to_path_buf() {
    let canonical = canonical(b"/tmp/file");
    assert_eq!(canonical.to_path_buf(), b"/tmp/file".to_vec());
}

#[test]
fn canonical_path_into_inner() {
    let canonical = canonical(b"/tmp/file");
    assert_eq!(canonical.into_inner(), b"/tmp/file".to_vec());
}

#[test]
fn canonical_path_not_equal_different_paths() {
    assert_ne!(canonical(b"/tmp/one"), canonical(b"/tmp/two"));
}

#[test]
fn canonical_path_hash_different_paths() {
    let mut hasher1 = DefaultHasher::new();
    canonical(b"/tmp/one").hash(&mut hasher1);
    let mut hasher2 = DefaultHasher::new();
    canonical(b"/tmp/two").hash(&mut hasher2);
    assert_ne!(hasher1.finish(), hasher2.finish());
}

#[test]
fn canonical_path_into_pathbuf() {
    let canonical = canonical(b"/tmp/file");
    let marked: MarkedPathBuf<Absolute> = canonical.into();
    assert_eq!(marked.into_inner(), b"/tmp/file".to_vec());
}

#[test]
fn canonical_new_rejects_path_that_resolves_elsewhere() {
    let result = CanonicalPath::new(b"/tmp/link".to_vec(), Ok(b"/tmp/target".to_vec()));
    assert!(matches!(result, Err(PathError::NotCanonical)));
}

#[test]
fn canonical_new_rejects_relative_path() {
    let result = CanonicalPath::new(b"tmp".to_vec(), Ok(b"tmp".to_vec()));
    assert!(matches!(result, Err(PathError::NotCanonical)));
}

#[test]
fn canonical_new_reports_io_error() {
    let result = CanonicalPath::new(b"/missing".to_vec(), Err(io_error()));
    assert!(matches!(result, Err(PathError::Io(_))));
}

#[test]
fn canonical_from_path_reports_second_io_error() {
    let result = CanonicalPath::from_path(Ok((b"/gone".to_vec(), Err(io_error()))));
    assert!(matches!(result, Err(PathError::Io(_))));
}

#[test]
fn canonical_into_marked_and_back_to_marked_path() {
    let canonical = canonical(b"/etc/hosts");
    assert_eq!(canonical.as_marked_path().file_name(), Some(&b"hosts"[..]));
    let abs: MarkedPathBuf<Absolute> = canonical.into_marked();
    assert_eq!(abs.as_path(), b"/etc/hosts");
}

#[test]
fn canonical_new_accepts_trailing_separator() {
    let result = CanonicalPath::new(b"/tmp/".to_vec(), Ok(b"/tmp".to_vec()));
    let canonical = result.unwrap();
    assert_eq!(canonical.as_path(), b"/tmp/");
}

#[test]
fn canonical_new_accepts_doubled_separator() {
    let result = CanonicalPath::new(b"/tmp//file".to_vec(), Ok(b"/tmp/file".to_vec()));
    assert_eq!(result.unwrap().as_path(), b"/tmp//file");
}

#[test]
fn canonical_new_rejects_cur_dir_item() {
    let result = CanonicalPath::new(b"/etc/./hosts".to_vec(), Ok(b"/etc/hosts".to_vec()));
    assert!(matches!(result, Err(PathError::NotCanonical)));
    let result = CanonicalPath::new(b"/tmp/.".to_vec(), Ok(b"/tmp".to_vec()));
    assert!(matches!(result, Err(PathError::NotCanonical)));
    let result = CanonicalPath::new(b"/.".to_vec(), Ok(b"/".to_vec()));
    assert!(matches!(result, Err(PathError::NotCanonical)));
}

#[test]
fn canonical_new_accepts_dot_inside_names() {
    let result = CanonicalPath::new(b"/tmp/.hidden/a.b".to_vec(), Ok(b"/tmp/.hidden/a.b".to_vec()));
    assert!(result.is_ok());
}

#[test]
fn canonical_new_rejects_parent_dir() {
    let result = CanonicalPath::new(b"/tmp/a/..".to_vec(), Ok(b"/tmp".to_vec()));
    assert!(matches!(result, Err(PathError::NotCanonical)));
}

#[test]
fn canonical_paths_with_same_components_are_equal() {
    let a = CanonicalPath::new(b"/tmp/".to_vec(), Ok(b"/tmp".to_vec())).unwrap();
    let b = canonical(b"/tmp");
    assert_eq!(a, b);
    let mut hasher1 = DefaultHasher::new();
    a.hash(&mut hasher1);
    let mut hasher2 = DefaultHasher::new();
    b.hash(&mut hasher2);
    assert_eq!(hasher1.finish(), hasher2.finish());
    assert!(a.partial_cmp(&b) == Some(std::cmp::Ordering::Equal));
    assert!(canonical(b"/tmp/a") < canonical(b"/tmp/b"));
}

#[test]
fn canonical_path_read_only_methods() {
    let c = canonical(b"/etc/archive.tar.gz");
    assert_eq!(c.file_name(), Some(&b"archive.tar.gz"[..]));
    assert_eq!(c.file_stem(), Some(&b"archive.tar"[..]));
    assert_eq!(c.extension(), Some(&b"gz"[..]));
    assert_eq!(c.file_prefix(), Some(&b"archive"[..]));
    assert_eq!(c.parent().unwrap().as_path(), b"/etc");
    assert!(c.starts_with(b"/etc"));
    assert!(c.ends_with(b"archive.tar.gz"));
    assert!(!c.is_empty());
    assert_eq!(c.components().len(), 3);
    assert_eq!(c.with_extension(b"zip").as_path(), b"/etc/archive.tar.zip");
    assert_eq!(c.with_added_extension(b"bak").as_path(), b"/etc/archive.tar.gz.bak");
    let mut ancestors = c.ancestors();
    let mut all: Vec<Vec<u8>> = Vec::new();
    while let Some(p) = ancestors.next() {
        all.push(p.as_path().to_vec());
    }
    assert_eq!(all, vec![b"/etc/archive.tar.gz".to_vec(), b"/etc".to_vec(), b"/".to_vec()]);
}

#[test]
fn components_tell_kinds_apart() {
    let rel = MarkedPathBuf::<Relative>::new(b"./a/../b").unwrap();
    let parts = rel.components();
    assert_eq!(parts.len(), 4);
    assert!(matches!(parts[0], Component::CurDir));
    assert!(matches!(parts[1], Component::Normal(n) if n == b"a"));
    assert!(matches!(parts[2], Component::ParentDir));
    assert!(matches!(parts[3], Component::Normal(n) if n == b"b"));
    let abs = MarkedPathBuf::<Absolute>::new(b"/x/./...").unwrap();
    let parts = abs.components();
    assert_eq!(parts.len(), 3);
    assert!(matches!(parts[0], Component::RootDir));
    assert!(matches!(parts[1], Component::Normal(n) if n == b"x"));
    assert!(matches!(parts[2], Component::Normal(n) if n == b"..."));
}

#[test]
fn canonical_path_remade_from_its_bytes() {
    let c = CanonicalPath::new(b"/tmp//file/".to_vec(), Ok(b"/tmp/file".to_vec())).unwrap();
    let bytes = c.clone().into_inner();
    let d = CanonicalPath::new(bytes.clone(), Ok(b"/tmp/file".to_vec())).unwrap();
    assert_eq!(d, c);
    assert_eq!(d.as_path(), c.as_path());
}

#[test]
fn canonical_new_rejects_parent_dir_item_even_if_resolved_alike() {
    let result = CanonicalPath::new(b"/tmp/../tmp".to_vec(), Ok(b"/tmp/../tmp".to_vec()));
    assert!(matches!(result, Err(PathError::NotCanonical)));
}
