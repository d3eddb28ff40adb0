//! Paths that carry, in their type, whether they are absolute or relative.
//!
//! A path is held as its bytes and read with the Unix path grammar: `/`
//! separates components, a leading `/` is the root, `.` is the current
//! directory and `..` the parent directory. [`MarkedPathBuf<M>`] owns a path
//! and [`MarkedPath<'a, M>`] borrows one; the marker `M` is [`Absolute`] or
//! [`Relative`], and every value agrees with its marker. [`CanonicalPath`] is
//! an absolute path that the filesystem resolves to a path with the same
//! components, holding no item `.`.
//!
//! Errors are reported as [`PathError`].
//!
//! `grammar` states the path grammar as spec functions, `path_bytes` computes
//! it over bytes, and `laws` proves properties that span operations.

pub mod absolute;
pub mod canonical;
pub mod grammar;
pub mod laws;
pub mod marked_path;
pub mod path_bytes;
pub mod relative;

pub use absolute::Absolute;
pub use canonical::CanonicalPath;
pub use grammar::Component;
pub use marked_path::{MarkedAncestors, MarkedPath, MarkedPathBuf, Marker, PathError};
pub use relative::Relative;
