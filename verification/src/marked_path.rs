//! Owned and borrowed paths whose type records whether they are absolute.

use std::cmp::Ordering;
use std::hash::{Hash, Hasher};
use std::marker::PhantomData;

use vstd::prelude::*;
use vstd::utf8::{decode_utf8, valid_utf8};

use crate::grammar::{
    Component, bytes_view, component_bytes, is_component_for, extension_range, file_name_range, file_prefix_range,
    file_stem_range, is_extension, lemma_extension_keeps_absoluteness, lemma_file_name_range_bounds,
    lemma_parent_keeps_absoluteness, lemma_parent_len_bounds, path_order, same_path, slice_of,
    spec_add_extension, spec_components, spec_ends_with, spec_is_absolute, spec_parent,
    spec_set_extension, spec_starts_with,
};
use crate::path_bytes::{
    add_extension_bytes, components_of, copy_bytes, ends_with_bytes, extension_bounds,
    file_name_bounds, file_prefix_bounds, file_stem_bounds, hash_path, is_absolute, lossy_text,
    parent_len,
    path_order_of, same_path_bytes, set_extension_bytes, starts_with_bytes,
};

verus! {

/// The error that path operations return.
#[derive(Debug)]
pub enum PathError {
    /// The path was expected to be absolute but was relative.
    NotAbsolute,
    /// The path was expected to be relative but was absolute.
    NotRelative,
    /// The path is not in canonical form: the filesystem resolves it to
    /// another path.
    NotCanonical,
    /// The filesystem could not resolve the path.
    Io(std::io::Error),
}

/// The errors that the filesystem reports.
#[verifier::external_type_specification]
#[verifier::external_body]
pub struct ExIoError(std::io::Error);

/// A marker type that says which paths a marked path may hold.
pub trait Marker {
    /// Whether the paths carrying this marker are the absolute ones.
    spec fn marks_absolute() -> bool;
}

/// Whether `p` may carry the marker `M`.
pub open spec fn admits<M: Marker>(p: Seq<u8>) -> bool {
    spec_is_absolute(p) == M::marks_absolute()
}

/// An owned path whose marker says whether it is absolute.
///
/// See [`MarkedPath`] for the borrowed equivalent.
#[derive(Debug)]
pub struct MarkedPathBuf<M: Marker> {
    pub(crate) path: Vec<u8>,
    pub(crate) marker: PhantomData<M>,
}

impl<M: Marker> MarkedPathBuf<M> {
    /// The held path always agrees with the marker.
    #[verifier::type_invariant]
    pub(crate) open spec fn marker_holds(self) -> bool {
        admits::<M>(self.path@)
    }
}

impl<M: Marker> View for MarkedPathBuf<M> {
    type V = Seq<u8>;

    closed spec fn view(&self) -> Seq<u8> {
        self.path@
    }
}

/// Within the crate, the view of an owned path is its held bytes.
pub(crate) broadcast proof fn lemma_buf_view<M: Marker>(p: &MarkedPathBuf<M>)
    ensures
        #[trigger] p@ == p.path@,
{
}

/// A borrowed path whose marker says whether it is absolute.
///
/// See [`MarkedPathBuf`] for the owned equivalent.
#[derive(Debug)]
pub struct MarkedPath<'a, M: Marker> {
    pub(crate) path: &'a [u8],
    pub(crate) marker: PhantomData<M>,
}

impl<'a, M: Marker> MarkedPath<'a, M> {
    /// The held path always agrees with the marker.
    #[verifier::type_invariant]
    pub(crate) open spec fn marker_holds(self) -> bool {
        admits::<M>(self.path@)
    }
}

impl<'a, M: Marker> Clone for MarkedPath<'a, M> {
    fn clone(&self) -> (r: Self)
        ensures
            r@ == self@,
    {
        proof {
            use_type_invariant(self);
        }
        MarkedPath { path: self.path, marker: PhantomData }
    }
}

impl<'a, M: Marker> Copy for MarkedPath<'a, M> {

}

impl<'a, M: Marker> View for MarkedPath<'a, M> {
    type V = Seq<u8>;

    closed spec fn view(&self) -> Seq<u8> {
        self.path@
    }
}

/// How two paths compare, given how their components compare.
pub open spec fn ordering_of_order(o: int) -> Option<Ordering> {
    if o < 0 {
        Some(Ordering::Less)
    } else if o == 0 {
        Some(Ordering::Equal)
    } else {
        Some(Ordering::Greater)
    }
}

/// Two owned paths are equal when they have the same components, so `a/b`,
/// `a//b/` and `a/./b` are equal.
impl<M: Marker> PartialEq for MarkedPathBuf<M> {
    fn eq(&self, other: &Self) -> (r: bool) {
        same_path_bytes(self.path.as_slice(), other.path.as_slice())
    }
}

impl<M: Marker> vstd::std_specs::cmp::PartialEqSpecImpl for MarkedPathBuf<M> {
    open spec fn obeys_eq_spec() -> bool {
        true
    }

    open spec fn eq_spec(&self, other: &Self) -> bool {
        same_path(self@, other@)
    }
}

impl<M: Marker> Eq for MarkedPathBuf<M> {

}

/// Owned paths are hashed by feeding their components to the hasher; nothing
/// is proved of the hasher's state.
impl<M: Marker> Hash for MarkedPathBuf<M> {
    fn hash<H: Hasher>(&self, state: &mut H) {
        hash_path(self.path.as_slice(), state)
    }
}

/// Owned paths are ordered by their components, first to last.
impl<M: Marker> PartialOrd for MarkedPathBuf<M> {
    fn partial_cmp(&self, other: &Self) -> (r: Option<Ordering>) {
        let o = path_order_of(self.path.as_slice(), other.path.as_slice());
        if o < 0 {
            Some(Ordering::Less)
        } else if o == 0 {
            Some(Ordering::Equal)
        } else {
            Some(Ordering::Greater)
        }
    }
}

impl<M: Marker> vstd::std_specs::cmp::PartialOrdSpecImpl for MarkedPathBuf<M> {
    open spec fn obeys_partial_cmp_spec() -> bool {
        true
    }

    open spec fn partial_cmp_spec(&self, other: &Self) -> Option<Ordering> {
        ordering_of_order(path_order(self@, other@))
    }
}

/// Two borrowed paths are equal when they have the same components.
impl<'a, M: Marker> PartialEq for MarkedPath<'a, M> {
    fn eq(&self, other: &Self) -> (r: bool) {
        same_path_bytes(self.path, other.path)
    }
}

impl<'a, M: Marker> vstd::std_specs::cmp::PartialEqSpecImpl for MarkedPath<'a, M> {
    open spec fn obeys_eq_spec() -> bool {
        true
    }

    open spec fn eq_spec(&self, other: &Self) -> bool {
        same_path(self@, other@)
    }
}

impl<'a, M: Marker> Eq for MarkedPath<'a, M> {

}

/// Borrowed paths are hashed by feeding their components to the hasher;
/// nothing is proved of the hasher's state.
impl<'a, M: Marker> Hash for MarkedPath<'a, M> {
    fn hash<H: Hasher>(&self, state: &mut H) {
        hash_path(self.path, state)
    }
}

/// Borrowed paths are ordered by their components, first to last.
impl<'a, M: Marker> PartialOrd for MarkedPath<'a, M> {
    fn partial_cmp(&self, other: &Self) -> (r: Option<Ordering>) {
        let o = path_order_of(self.path, other.path);
        if o < 0 {
            Some(Ordering::Less)
        } else if o == 0 {
            Some(Ordering::Equal)
        } else {
            Some(Ordering::Greater)
        }
    }
}

impl<'a, M: Marker> vstd::std_specs::cmp::PartialOrdSpecImpl for MarkedPath<'a, M> {
    open spec fn obeys_partial_cmp_spec() -> bool {
        true
    }

    open spec fn partial_cmp_spec(&self, other: &Self) -> Option<Ordering> {
        ordering_of_order(path_order(self@, other@))
    }
}

impl<M: Marker> Clone for MarkedPathBuf<M> {
    fn clone(&self) -> (r: Self)
        ensures
            r@ == self@,
    {
        proof {
            use_type_invariant(self);
        }
        MarkedPathBuf { path: copy_bytes(self.path.as_slice()), marker: PhantomData }
    }
}

impl<M: Marker> MarkedPathBuf<M> {
    /// This path as text, the way it is displayed: its bytes decoded as UTF-8,
    /// with each invalid sequence replaced by U+FFFD.
    pub fn to_string(&self) -> (r: String)
        ensures
            valid_utf8(self@) ==> r@ == decode_utf8(self@),
    {
        lossy_text(self.path.as_slice())
    }

    /// Consumes this path and returns its bytes.
    pub fn into_inner(self) -> (r: Vec<u8>)
        ensures
            r@ == self@,
    {
        self.path
    }

    /// The bytes of this path.
    pub fn as_path(&self) -> (r: &[u8])
        ensures
            r@ == self@,
    {
        self.path.as_slice()
    }

    /// A copy of the bytes of this path.
    pub fn to_path_buf(&self) -> (r: Vec<u8>)
        ensures
            r@ == self@,
    {
        copy_bytes(self.path.as_slice())
    }

    /// A borrowed [`MarkedPath`] view of this path.
    pub fn as_marked_path(&self) -> (r: MarkedPath<'_, M>)
        ensures
            r@ == self@,
    {
        proof {
            use_type_invariant(self);
        }
        MarkedPath { path: self.path.as_slice(), marker: PhantomData }
    }

    /// Whether this path has a root, which is what its marker says.
    pub fn has_root(&self) -> (r: bool)
        ensures
            r == spec_is_absolute(self@),
            r == M::marks_absolute(),
    {
        proof {
            use_type_invariant(self);
        }
        is_absolute(self.path.as_slice())
    }

    /// Whether this path is empty.
    pub fn is_empty(&self) -> (r: bool)
        ensures
            r == (self@.len() == 0),
    {
        self.path.len() == 0
    }

    /// Truncates this path to its parent. Returns `false`, leaving the path
    /// unchanged, when there is no parent (the path is empty or ends in the root).
    pub fn pop(&mut self) -> (r: bool)
        ensures
            r == spec_parent(old(self)@).is_some(),
            final(self)@ == match spec_parent(old(self)@) {
                Some(q) => q,
                None => old(self)@,
            },
    {
        proof {
            use_type_invariant(&*self);
            lemma_parent_len_bounds(self.path@);
            lemma_parent_keeps_absoluteness(self.path@);
            reveal(spec_parent);
        }
        match parent_len(self.path.as_slice()) {
            Some(k) => {
                let mut path = copy_bytes(self.path.as_slice());
                path.truncate(k);
                self.path = path;
                true
            },
            None => false,
        }
    }

    /// Replaces the extension of the file name (removes it when `extension`
    /// is empty). Returns `false`, leaving the path unchanged, when the path
    /// has no file name.
    pub fn set_extension(&mut self, extension: &[u8]) -> (r: bool)
        requires
            is_extension(extension@),
        ensures
            r == spec_set_extension(old(self)@, extension@).is_some(),
            final(self)@ == match spec_set_extension(old(self)@, extension@) {
                Some(q) => q,
                None => old(self)@,
            },
    {
        proof {
            use_type_invariant(&*self);
            lemma_extension_keeps_absoluteness(self.path@, extension@);
        }
        let mut path = copy_bytes(self.path.as_slice());
        let r = set_extension_bytes(&mut path, extension);
        self.path = path;
        r
    }

    /// Appends an extension to the file name (nothing changes when
    /// `extension` is empty). Returns `false`, leaving the path unchanged,
    /// when the path has no file name.
    pub fn add_extension(&mut self, extension: &[u8]) -> (r: bool)
        requires
            is_extension(extension@),
        ensures
            r == spec_add_extension(old(self)@, extension@).is_some(),
            final(self)@ == match spec_add_extension(old(self)@, extension@) {
                Some(q) => q,
                None => old(self)@,
            },
    {
        proof {
            use_type_invariant(&*self);
            lemma_extension_keeps_absoluteness(self.path@, extension@);
        }
        let mut path = copy_bytes(self.path.as_slice());
        let r = add_extension_bytes(&mut path, extension);
        self.path = path;
        r
    }

    /// The parent of this path, if it has one.
    pub fn parent(&self) -> (r: Option<MarkedPath<'_, M>>)
        ensures
            match r {
                Some(q) => spec_parent(self@) == Some(q@),
                None => spec_parent(self@) is None,
            },
    {
        self.as_marked_path().parent()
    }

    /// This path and its ancestors, from the longest.
    pub fn ancestors(&self) -> (r: MarkedAncestors<'_, M>)
        ensures
            r@ == Some(self@),
    {
        self.as_marked_path().ancestors()
    }

    /// The final component of this path, when it is a name.
    pub fn file_name(&self) -> (r: Option<&[u8]>)
        ensures
            bytes_view(r) == slice_of(self@, file_name_range(self@)),
    {
        self.as_marked_path().file_name()
    }

    /// The file name without its extension.
    pub fn file_stem(&self) -> (r: Option<&[u8]>)
        ensures
            bytes_view(r) == slice_of(self@, file_stem_range(self@)),
    {
        self.as_marked_path().file_stem()
    }

    /// The extension of the file name.
    pub fn extension(&self) -> (r: Option<&[u8]>)
        ensures
            bytes_view(r) == slice_of(self@, extension_range(self@)),
    {
        self.as_marked_path().extension()
    }

    /// The file name up to its first dot.
    pub fn file_prefix(&self) -> (r: Option<&[u8]>)
        ensures
            bytes_view(r) == slice_of(self@, file_prefix_range(self@)),
    {
        self.as_marked_path().file_prefix()
    }

    /// The components of this path, first to last.
    pub fn components(&self) -> (r: Vec<Component<'_>>)
        ensures
            r@.len() == spec_components(self@).len(),
            forall|i: int|
                0 <= i < r@.len() ==> is_component_for(#[trigger] r@[i], spec_components(self@)[i]),
            forall|i: int|
                0 <= i < r@.len() ==> component_bytes(#[trigger] r@[i]) == spec_components(self@)[i],
    {
        components_of(self.path.as_slice())
    }

    /// Whether this path starts with `base`, whole component by whole
    /// component.
    pub fn starts_with(&self, base: &[u8]) -> (r: bool)
        ensures
            r == spec_starts_with(self@, base@),
    {
        starts_with_bytes(self.path.as_slice(), base)
    }

    /// Whether this path ends with `child`, whole component by whole
    /// component.
    pub fn ends_with(&self, child: &[u8]) -> (r: bool)
        ensures
            r == spec_ends_with(self@, child@),
    {
        ends_with_bytes(self.path.as_slice(), child)
    }

    /// A new path like this one with the extension replaced.
    pub fn with_extension(&self, extension: &[u8]) -> (r: MarkedPathBuf<M>)
        requires
            is_extension(extension@),
        ensures
            r@ == match spec_set_extension(self@, extension@) {
                Some(q) => q,
                None => self@,
            },
    {
        self.as_marked_path().with_extension(extension)
    }

    /// A new path like this one with an extension appended.
    pub fn with_added_extension(&self, extension: &[u8]) -> (r: MarkedPathBuf<M>)
        requires
            is_extension(extension@),
        ensures
            r@ == match spec_add_extension(self@, extension@) {
                Some(q) => q,
                None => self@,
            },
    {
        self.as_marked_path().with_added_extension(extension)
    }
}

impl<'a, M: Marker> MarkedPath<'a, M> {
    /// This path as text, the way it is displayed: its bytes decoded as UTF-8,
    /// with each invalid sequence replaced by U+FFFD.
    pub fn to_string(&self) -> (r: String)
        ensures
            valid_utf8(self@) ==> r@ == decode_utf8(self@),
    {
        lossy_text(self.path)
    }

    /// An owned [`MarkedPathBuf`] holding a copy of this path.
    pub fn to_owned(&self) -> (r: MarkedPathBuf<M>)
        ensures
            r@ == self@,
    {
        proof {
            use_type_invariant(self);
        }
        MarkedPathBuf { path: copy_bytes(self.path), marker: PhantomData }
    }

    /// The bytes of this path.
    pub fn as_path(&self) -> (r: &'a [u8])
        ensures
            r@ == self@,
    {
        self.path
    }

    /// A copy of the bytes of this path.
    pub fn to_path_buf(&self) -> (r: Vec<u8>)
        ensures
            r@ == self@,
    {
        copy_bytes(self.path)
    }

    /// Whether this path has a root, which is what its marker says.
    pub fn has_root(&self) -> (r: bool)
        ensures
            r == spec_is_absolute(self@),
            r == M::marks_absolute(),
    {
        proof {
            use_type_invariant(self);
        }
        is_absolute(self.path)
    }

    /// Whether this path is empty.
    pub fn is_empty(&self) -> (r: bool)
        ensures
            r == (self@.len() == 0),
    {
        self.path.len() == 0
    }

    /// The parent of this path, if it has one: the path without its final
    /// component. There is none when the path is empty or ends in the root.
    pub fn parent(&self) -> (r: Option<MarkedPath<'a, M>>)
        ensures
            match r {
                Some(q) => spec_parent(self@) == Some(q@),
                None => spec_parent(self@) is None,
            },
    {
        proof {
            use_type_invariant(self);
            lemma_parent_len_bounds(self.path@);
            lemma_parent_keeps_absoluteness(self.path@);
            reveal(spec_parent);
        }
        match parent_len(self.path) {
            Some(k) => Some(MarkedPath { path: &self.path[0..k], marker: PhantomData }),
            None => None,
        }
    }

    /// This path and its ancestors, from the longest.
    pub fn ancestors(&self) -> (r: MarkedAncestors<'a, M>)
        ensures
            r@ == Some(self@),
    {
        proof {
            use_type_invariant(self);
        }
        MarkedAncestors { next: Some(self.path), marker: PhantomData }
    }

    /// The final component of this path, when it is a name (neither the root,
    /// `.` nor `..`).
    pub fn file_name(&self) -> (r: Option<&'a [u8]>)
        ensures
            bytes_view(r) == slice_of(self@, file_name_range(self@)),
    {
        proof {
            lemma_file_name_range_bounds(self.path@);
        }
        match file_name_bounds(self.path) {
            Some((s, e)) => Some(&self.path[s..e]),
            None => None,
        }
    }

    /// The file name without its extension.
    pub fn file_stem(&self) -> (r: Option<&'a [u8]>)
        ensures
            bytes_view(r) == slice_of(self@, file_stem_range(self@)),
    {
        proof {
            stem_bounds(self.path@);
        }
        match file_stem_bounds(self.path) {
            Some((s, e)) => Some(&self.path[s..e]),
            None => None,
        }
    }

    /// The extension of the file name: what follows its last dot, unless that
    /// dot begins the name.
    pub fn extension(&self) -> (r: Option<&'a [u8]>)
        ensures
            bytes_view(r) == slice_of(self@, extension_range(self@)),
    {
        proof {
            stem_bounds(self.path@);
        }
        match extension_bounds(self.path) {
            Some((s, e)) => Some(&self.path[s..e]),
            None => None,
        }
    }

    /// The file name up to its first dot after its first byte.
    pub fn file_prefix(&self) -> (r: Option<&'a [u8]>)
        ensures
            bytes_view(r) == slice_of(self@, file_prefix_range(self@)),
    {
        proof {
            stem_bounds(self.path@);
        }
        match file_prefix_bounds(self.path) {
            Some((s, e)) => Some(&self.path[s..e]),
            None => None,
        }
    }

    /// A new path like this one with the extension replaced (removed when
    /// `extension` is empty); a copy when there is no file name.
    pub fn with_extension(&self, extension: &[u8]) -> (r: MarkedPathBuf<M>)
        requires
            is_extension(extension@),
        ensures
            r@ == match spec_set_extension(self@, extension@) {
                Some(q) => q,
                None => self@,
            },
    {
        let mut r = self.to_owned();
        r.set_extension(extension);
        r
    }

    /// The components of this path, first to last.
    pub fn components(&self) -> (r: Vec<Component<'a>>)
        ensures
            r@.len() == spec_components(self@).len(),
            forall|i: int|
                0 <= i < r@.len() ==> is_component_for(#[trigger] r@[i], spec_components(self@)[i]),
            forall|i: int|
                0 <= i < r@.len() ==> component_bytes(#[trigger] r@[i]) == spec_components(self@)[i],
    {
        components_of(self.path)
    }

    /// Whether this path starts with `base`, whole component by whole
    /// component.
    pub fn starts_with(&self, base: &[u8]) -> (r: bool)
        ensures
            r == spec_starts_with(self@, base@),
    {
        starts_with_bytes(self.path, base)
    }

    /// Whether this path ends with `child`, whole component by whole
    /// component.
    pub fn ends_with(&self, child: &[u8]) -> (r: bool)
        ensures
            r == spec_ends_with(self@, child@),
    {
        ends_with_bytes(self.path, child)
    }

    /// A new path like this one with an extension appended; a copy when
    /// there is no file name or `extension` is empty.
    pub fn with_added_extension(&self, extension: &[u8]) -> (r: MarkedPathBuf<M>)
        requires
            is_extension(extension@),
        ensures
            r@ == match spec_add_extension(self@, extension@) {
                Some(q) => q,
                None => self@,
            },
    {
        let mut r = self.to_owned();
        r.add_extension(extension);
        r
    }
}

/// The bounds of the stem, extension and prefix lie within the path.
proof fn stem_bounds(p: Seq<u8>)
    ensures
        file_stem_range(p) matches Some((s, e)) ==> 0 <= s <= e <= p.len(),
        extension_range(p) matches Some((s, e)) ==> 0 <= s <= e <= p.len(),
        file_prefix_range(p) matches Some((s, e)) ==> 0 <= s <= e <= p.len(),
{
    crate::grammar::lemma_file_name_range_bounds(p);
    if let Some((s, e)) = file_name_range(p) {
        crate::grammar::lemma_last_index_of(p, crate::grammar::DOT, s, e);
        crate::grammar::lemma_first_index_of(p, crate::grammar::DOT, s + 1, e);
    }
}

/// Within the crate, the view of a borrowed path is its held bytes.
pub(crate) broadcast proof fn lemma_path_view<'a, M: Marker>(p: &MarkedPath<'a, M>)
    ensures
        #[trigger] p@ == p.path@,
{
}

/// The ancestors of a marked path: the path itself, then each parent in turn.
pub struct MarkedAncestors<'a, M: Marker> {
    next: Option<&'a [u8]>,
    marker: PhantomData<M>,
}

impl<'a, M: Marker> MarkedAncestors<'a, M> {
    /// Every path still to come agrees with the marker.
    #[verifier::type_invariant]
    spec fn marker_holds(self) -> bool {
        match self.next {
            Some(p) => admits::<M>(p@),
            None => true,
        }
    }
}

impl<'a, M: Marker> View for MarkedAncestors<'a, M> {
    type V = Option<Seq<u8>>;

    /// The path that comes next, if any.
    closed spec fn view(&self) -> Option<Seq<u8>> {
        bytes_view(self.next)
    }
}

impl<'a, M: Marker> MarkedAncestors<'a, M> {
    /// The next ancestor, if any; the one after it is its parent.
    pub fn next(&mut self) -> (r: Option<MarkedPath<'a, M>>)
        ensures
            match r {
                Some(q) => old(self)@ == Some(q@),
                None => old(self)@ is None,
            },
            final(self)@ == match old(self)@ {
                Some(p) => spec_parent(p),
                None => None,
            },
    {
        proof {
            use_type_invariant(&*self);
        }
        match self.next {
            Some(p) => {
                let current = MarkedPath { path: p, marker: PhantomData };
                let parent = match current.parent() {
                    Some(q) => Some(q.as_path()),
                    None => None,
                };
                proof {
                    lemma_parent_keeps_absoluteness(p@);
                }
                self.next = parent;
                Some(current)
            },
            None => None,
        }
    }
}

} // verus!
