//! Absolute paths in canonical form: the filesystem resolves each to a path
//! with the same components.

use std::cmp::Ordering;
use std::hash::{Hash, Hasher};
use std::marker::PhantomData;

use vstd::prelude::*;

use crate::absolute::Absolute;
use crate::marked_path::{
    MarkedAncestors, MarkedPath, MarkedPathBuf, PathError, ordering_of_order,
};
use crate::grammar::{
    Component, bytes_view, component_bytes, extension_range, file_name_range, file_prefix_range,
    canonical_shape, file_stem_range, is_component_for, is_extension, path_order, same_path,
    slice_of, spec_add_extension, spec_components, spec_ends_with, spec_is_absolute, spec_parent,
    spec_set_extension, spec_starts_with,
};
use crate::path_bytes::{
    has_cur_dir_item_bytes, has_parent_dir_item_bytes, hash_path, is_absolute, path_order_of, same_path_bytes,
};

verus! {

broadcast use {crate::marked_path::lemma_buf_view, crate::marked_path::lemma_path_view};

/// An absolute path in canonical form: the filesystem resolved it to a path
/// with the same components, so it has no `..` components and no symbolic
/// links, it holds no item `.`, and it existed when it was made.
#[derive(Debug)]
pub struct CanonicalPath(MarkedPathBuf<Absolute>);

impl CanonicalPath {
    /// Every canonical path is absolute and holds no item `.` or `..`.
    #[verifier::type_invariant]
    spec fn holds_canonical_shape(self) -> bool {
        canonical_shape(self.0@)
    }
}

impl View for CanonicalPath {
    type V = Seq<u8>;

    closed spec fn view(&self) -> Seq<u8> {
        self.0@
    }
}

/// Whether `path` is canonical, given the filesystem's canonical form `c` of
/// it: `path` is absolute, holds no item `.` or `..`, and has the same
/// components as `c` (so it names no symbolic link). A repeated or trailing
/// separator does not change the components and is kept as written.
pub open spec fn is_canonical_form(path: Seq<u8>, c: Seq<u8>) -> bool {
    canonical_shape(path) && same_path(c, path)
}

/// What making a canonical path of `path` gives, given the filesystem's
/// canonical form of `path` in `resolved`: the filesystem's error, or the path
/// as given when it is canonical, or else `NotCanonical`.
pub open spec fn canonicalization_outcome(
    path: Seq<u8>,
    resolved: Result<Vec<u8>, std::io::Error>,
    r: Result<CanonicalPath, PathError>,
) -> bool {
    match resolved {
        Err(e) => r matches Err(PathError::Io(e2)) && e2 == e,
        Ok(c) => if is_canonical_form(path, c@) {
            r matches Ok(q) && q@ == path
        } else {
            r matches Err(PathError::NotCanonical)
        },
    }
}

impl Clone for CanonicalPath {
    fn clone(&self) -> (r: Self)
        ensures
            r@ == self@,
    {
        proof {
            use_type_invariant(self);
        }
        CanonicalPath(self.0.clone())
    }
}

/// Two canonical paths are equal when they have the same components.
impl PartialEq for CanonicalPath {
    fn eq(&self, other: &Self) -> (r: bool) {
        same_path_bytes(self.0.path.as_slice(), other.0.path.as_slice())
    }
}

impl vstd::std_specs::cmp::PartialEqSpecImpl for CanonicalPath {
    open spec fn obeys_eq_spec() -> bool {
        true
    }

    open spec fn eq_spec(&self, other: &Self) -> bool {
        same_path(self@, other@)
    }
}

impl Eq for CanonicalPath {

}

/// Canonical paths are hashed by feeding their components to the hasher;
/// nothing is proved of the hasher's state.
impl Hash for CanonicalPath {
    fn hash<H: Hasher>(&self, state: &mut H) {
        hash_path(self.0.path.as_slice(), state)
    }
}

/// Canonical paths are ordered by their components, first to last.
impl PartialOrd for CanonicalPath {
    fn partial_cmp(&self, other: &Self) -> (r: Option<Ordering>) {
        let o = path_order_of(self.0.path.as_slice(), other.0.path.as_slice());
        if o < 0 {
            Some(Ordering::Less)
        } else if o == 0 {
            Some(Ordering::Equal)
        } else {
            Some(Ordering::Greater)
        }
    }
}

impl vstd::std_specs::cmp::PartialOrdSpecImpl for CanonicalPath {
    open spec fn obeys_partial_cmp_spec() -> bool {
        true
    }

    open spec fn partial_cmp_spec(&self, other: &Self) -> Option<Ordering> {
        ordering_of_order(path_order(self@, other@))
    }
}

impl CanonicalPath {
    /// Makes a canonical path of `path`, given the filesystem's canonical form
    /// of it in `resolved`.
    ///
    /// # Errors
    ///
    /// Returns [`PathError::Io`] when the filesystem failed to resolve `path`,
    /// and [`PathError::NotCanonical`] when `path` is not absolute, holds an
    /// item `.` or `..`, or has components other than those of what the
    /// filesystem resolved it to (it names a symbolic link). A path that
    /// differs from its resolved form only by repeated or trailing separators
    /// is accepted and kept as given.
    pub fn new(path: Vec<u8>, resolved: Result<Vec<u8>, std::io::Error>) -> (r: Result<
        Self,
        PathError,
    >)
        ensures
            canonicalization_outcome(path@, resolved, r),
    {
        match resolved {
            Err(e) => Err(PathError::Io(e)),
            Ok(c) => {
                if is_absolute(path.as_slice()) && same_path_bytes(c.as_slice(), path.as_slice())
                    && !has_cur_dir_item_bytes(path.as_slice())
                    && !has_parent_dir_item_bytes(path.as_slice()) {
                    Ok(CanonicalPath(MarkedPathBuf { path, marker: PhantomData }))
                } else {
                    Err(PathError::NotCanonical)
                }
            },
        }
    }

    /// Makes a canonical path from what the filesystem resolved a path to.
    ///
    /// `resolved` is the filesystem's canonical form of the path and, when
    /// there is one, the filesystem's canonical form of that form in turn.
    ///
    /// # Errors
    ///
    /// Returns [`PathError::Io`] when the filesystem failed, and
    /// [`PathError::NotCanonical`] when the resolved form does not resolve to
    /// itself.
    pub fn from_path(
        resolved: Result<(Vec<u8>, Result<Vec<u8>, std::io::Error>), std::io::Error>,
    ) -> (r: Result<Self, PathError>)
        ensures
            match resolved {
                Err(e) => r matches Err(PathError::Io(e2)) && e2 == e,
                Ok((c, again)) => canonicalization_outcome(c@, again, r),
            },
    {
        match resolved {
            Err(e) => Err(PathError::Io(e)),
            Ok((c, again)) => CanonicalPath::new(c, again),
        }
    }

    /// The bytes of this path.
    pub fn as_path(&self) -> (r: &[u8])
        ensures
            r@ == self@,
            canonical_shape(r@),
    {
        proof {
            use_type_invariant(&self);
        }
        self.0.as_path()
    }

    /// A copy of the bytes of this path.
    pub fn to_path_buf(&self) -> (r: Vec<u8>)
        ensures
            r@ == self@,
            canonical_shape(r@),
    {
        proof {
            use_type_invariant(&self);
        }
        self.0.to_path_buf()
    }

    /// Consumes this path and returns its bytes.
    pub fn into_inner(self) -> (r: Vec<u8>)
        ensures
            r@ == self@,
            canonical_shape(r@),
    {
        proof {
            use_type_invariant(&self);
        }
        self.0.into_inner()
    }

    /// Consumes this path and returns it as a [`MarkedPathBuf<Absolute>`].
    pub fn into_marked(self) -> (r: MarkedPathBuf<Absolute>)
        ensures
            r@ == self@,
    {
        self.0
    }

    /// A borrowed [`MarkedPath<Absolute>`] view of this path.
    pub fn as_marked_path(&self) -> (r: MarkedPath<'_, Absolute>)
        ensures
            r@ == self@,
    {
        self.0.as_marked_path()
    }

    /// Whether this path is absolute, which it always is.
    pub fn has_root(&self) -> (r: bool)
        ensures
            r,
            spec_is_absolute(self@),
    {
        self.0.has_root()
    }

    /// Whether this path is empty, which it never is.
    pub fn is_empty(&self) -> (r: bool)
        ensures
            r == (self@.len() == 0),
            !r,
    {
        proof {
            use_type_invariant(&self.0);
        }
        self.0.is_empty()
    }

    /// The parent of this path, if it has one.
    pub fn parent(&self) -> (r: Option<MarkedPath<'_, Absolute>>)
        ensures
            match r {
                Some(q) => spec_parent(self@) == Some(q@),
                None => spec_parent(self@) is None,
            },
    {
        self.0.parent()
    }

    /// This path and its ancestors, from the longest.
    pub fn ancestors(&self) -> (r: MarkedAncestors<'_, Absolute>)
        ensures
            r@ == Some(self@),
    {
        self.0.ancestors()
    }

    /// The final component of this path, when it is a name.
    pub fn file_name(&self) -> (r: Option<&[u8]>)
        ensures
            bytes_view(r) == slice_of(self@, file_name_range(self@)),
    {
        self.0.file_name()
    }

    /// The file name without its extension.
    pub fn file_stem(&self) -> (r: Option<&[u8]>)
        ensures
            bytes_view(r) == slice_of(self@, file_stem_range(self@)),
    {
        self.0.file_stem()
    }

    /// The extension of the file name.
    pub fn extension(&self) -> (r: Option<&[u8]>)
        ensures
            bytes_view(r) == slice_of(self@, extension_range(self@)),
    {
        self.0.extension()
    }

    /// The file name up to its first dot.
    pub fn file_prefix(&self) -> (r: Option<&[u8]>)
        ensures
            bytes_view(r) == slice_of(self@, file_prefix_range(self@)),
    {
        self.0.file_prefix()
    }

    /// The components of this path, first to last.
    pub fn components(&self) -> (r: Vec<Component<'_>>)
        ensures
            r@.len() == spec_components(self@).len(),
            forall|i: int|
                0 <= i < r@.len() ==> is_component_for(#[trigger] r@[i], spec_components(self@)[i]),
            forall|i: int|
                0 <= i < r@.len() ==> component_bytes(#[trigger] r@[i]) == spec_components(self@)[i],
    {
        self.0.components()
    }

    /// Whether this path starts with `base`, whole component by whole
    /// component.
    pub fn starts_with(&self, base: &[u8]) -> (r: bool)
        ensures
            r == spec_starts_with(self@, base@),
    {
        self.0.starts_with(base)
    }

    /// Whether this path ends with `child`, whole component by whole
    /// component.
    pub fn ends_with(&self, child: &[u8]) -> (r: bool)
        ensures
            r == spec_ends_with(self@, child@),
    {
        self.0.ends_with(child)
    }

    /// A new absolute path like this one with the extension replaced; it need
    /// no longer be canonical.
    pub fn with_extension(&self, extension: &[u8]) -> (r: MarkedPathBuf<Absolute>)
        requires
            is_extension(extension@),
        ensures
            r@ == match spec_set_extension(self@, extension@) {
                Some(q) => q,
                None => self@,
            },
    {
        self.0.with_extension(extension)
    }

    /// A new absolute path like this one with an extension appended; it need
    /// no longer be canonical.
    pub fn with_added_extension(&self, extension: &[u8]) -> (r: MarkedPathBuf<Absolute>)
        requires
            is_extension(extension@),
        ensures
            r@ == match spec_add_extension(self@, extension@) {
                Some(q) => q,
                None => self@,
            },
    {
        self.0.with_added_extension(extension)
    }
}

impl From<CanonicalPath> for MarkedPathBuf<Absolute> {
    fn from(value: CanonicalPath) -> (r: Self) {
        value.0
    }
}

impl vstd::std_specs::convert::FromSpecImpl<CanonicalPath> for MarkedPathBuf<Absolute> {
    open spec fn obeys_from_spec() -> bool {
        true
    }

    closed spec fn from_spec(v: CanonicalPath) -> Self {
        v.0
    }
}

/// Converting a canonical path into an absolute path keeps the path.
pub proof fn lemma_from_canonical_keeps_path(v: CanonicalPath)
    ensures
        <MarkedPathBuf<Absolute> as vstd::std_specs::convert::FromSpec<CanonicalPath>>::from_spec(v)@ == v@,
{
}

} // verus!
