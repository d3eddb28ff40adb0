//! The marker for relative paths and the operations that keep a path relative.

use std::marker::PhantomData;

use vstd::prelude::*;
use vstd::string::StringSliceAdditionalSpecFns;

use crate::canonical::{
    CanonicalPath, canonicalization_outcome,
};
use crate::marked_path::{
    MarkedPath, MarkedPathBuf, Marker, PathError,
};
use crate::grammar::{
    lemma_push_is_absolute, spec_is_absolute, spec_push,
};
use crate::path_bytes::{
    copy_bytes, is_absolute, push_bytes,
};

verus! {

broadcast use {crate::marked_path::lemma_buf_view, crate::marked_path::lemma_path_view};

/// Marker type for relative paths: paths that do not start at the root
/// (`path/to/file`, or the empty path).
#[derive(Debug, Clone, Copy, Hash, PartialEq, Eq, PartialOrd, Ord)]
pub struct Relative;

impl Marker for Relative {
    open spec fn marks_absolute() -> bool {
        false
    }
}

impl MarkedPathBuf<Relative> {
    /// Creates a relative path holding a copy of `path`.
    ///
    /// # Errors
    ///
    /// Returns [`PathError::NotRelative`] if `path` is absolute.
    pub fn new(path: &[u8]) -> (r: Result<Self, PathError>)
        ensures
            match r {
                Ok(q) => !spec_is_absolute(path@) && q@ == path@,
                Err(e) => spec_is_absolute(path@) && e is NotRelative,
            },
    {
        if !is_absolute(path) {
            Ok(MarkedPathBuf { path: copy_bytes(path), marker: PhantomData })
        } else {
            Err(PathError::NotRelative)
        }
    }

    /// Appends another relative path to this relative path.
    pub fn push(&mut self, other: &MarkedPath<'_, Relative>)
        ensures
            final(self)@ == spec_push(old(self)@, other@),
    {
        proof {
            use_type_invariant(&*self);
            use_type_invariant(other);
            lemma_push_is_absolute(self@, other@);
        }
        let mut path = copy_bytes(self.path.as_slice());
        push_bytes(&mut path, other.as_path());
        self.path = path;
    }
}

impl<'a> MarkedPath<'a, Relative> {
    /// Borrows `path` as a relative path.
    ///
    /// # Errors
    ///
    /// Returns [`PathError::NotRelative`] if `path` is absolute.
    pub fn new(path: &'a [u8]) -> (r: Result<Self, PathError>)
        ensures
            match r {
                Ok(q) => !spec_is_absolute(path@) && q@ == path@,
                Err(e) => spec_is_absolute(path@) && e is NotRelative,
            },
    {
        if !is_absolute(path) {
            Ok(MarkedPath { path, marker: PhantomData })
        } else {
            Err(PathError::NotRelative)
        }
    }

    /// Joins `path` onto this path.
    ///
    /// # Errors
    ///
    /// Returns [`PathError::NotRelative`] when `path` is absolute, since it
    /// would replace this path and the result would not be relative.
    pub fn join(&self, path: &[u8]) -> (r: Result<MarkedPathBuf<Relative>, PathError>)
        ensures
            match r {
                Ok(q) => !spec_is_absolute(path@) && q@ == spec_push(self@, path@),
                Err(e) => spec_is_absolute(path@) && e is NotRelative,
            },
    {
        proof {
            use_type_invariant(self);
            lemma_push_is_absolute(self@, path@);
        }
        let mut joined = copy_bytes(self.as_path());
        push_bytes(&mut joined, path);
        if !is_absolute(joined.as_slice()) {
            Ok(MarkedPathBuf { path: joined, marker: PhantomData })
        } else {
            Err(PathError::NotRelative)
        }
    }

    /// Joins another relative path onto this path. Joining a relative path
    /// onto a relative one always gives a relative path.
    pub fn join_relative(&self, other: &MarkedPath<'_, Relative>) -> (r: MarkedPathBuf<Relative>)
        ensures
            r@ == spec_push(self@, other@),
    {
        proof {
            use_type_invariant(self);
            use_type_invariant(other);
            lemma_push_is_absolute(self@, other@);
        }
        let mut joined = copy_bytes(self.as_path());
        push_bytes(&mut joined, other.as_path());
        MarkedPathBuf { path: joined, marker: PhantomData }
    }

    /// Canonicalizes this path, given what the filesystem resolved it to
    /// (against the current directory).
    ///
    /// `resolved` is the filesystem's canonical form of this path and, when
    /// there is one, the filesystem's canonical form of that form in turn.
    ///
    /// # Errors
    ///
    /// Returns [`PathError::Io`] when the filesystem failed, and
    /// [`PathError::NotCanonical`] when the resolved form is not canonical.
    ///
    /// `resolved` is taken as the filesystem's answer for this path; nothing
    /// here checks that it is, and the result depends on `resolved` alone,
    /// as [`CanonicalPath::from_path`] does.
    pub fn canonicalize(
        &self,
        resolved: Result<(Vec<u8>, Result<Vec<u8>, std::io::Error>), std::io::Error>,
    ) -> (r: Result<CanonicalPath, PathError>)
        ensures
            match resolved {
                Err(e) => r matches Err(PathError::Io(e2)) && e2 == e,
                Ok((c, again)) => canonicalization_outcome(c@, again, r),
            },
    {
        CanonicalPath::from_path(resolved)
    }
}

impl std::str::FromStr for MarkedPathBuf<Relative> {
    type Err = PathError;

    fn from_str(s: &str) -> (r: Result<Self, PathError>)
        ensures
            match r {
                Ok(q) => !spec_is_absolute(s.spec_bytes()) && q@ == s.spec_bytes(),
                Err(e) => spec_is_absolute(s.spec_bytes()) && e is NotRelative,
            },
    {
        Self::new(s.as_bytes())
    }
}

} // verus!
