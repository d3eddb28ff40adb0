# marked_path

Paths whose type says whether they are absolute or relative, with the path
grammar and the operations on it proved in Verus. Hashing is the exception:
it feeds a path's components to std's hashing, on any hasher, and nothing is
proved of the hasher's state.

A path is held as its bytes and read with the Unix grammar: `/` separates
components, a leading `/` is the root, `.` is the current directory and `..`
the parent directory.

- `src/grammar.rs` — the grammar as spec functions: absoluteness, pushing,
  the walk back over a path's components, parent, file name, stem,
  extension, prefix, components, ordering.
- `src/path_bytes.rs` — the same operations computed over bytes, each proved
  to return what the grammar says.
- `src/marked_path.rs` — `MarkedPathBuf<M>` (owned), `MarkedPath<'a, M>`
  (borrowed) and `MarkedAncestors`, whose type invariant ties the held path
  to the marker `M`; `PathError`.
- `src/absolute.rs`, `src/relative.rs` — the markers and the operations that
  keep a path absolute or relative (`new`, `push`, `join`, `join_relative`,
  `canonicalize`).
- `src/canonical.rs` — `CanonicalPath`, made from the filesystem's answer.
- `src/laws.rs` — properties across operations: joining and absoluteness,
  associativity of joining, parents and ancestors, extensions, components,
  ordering and equality.
- `app/` — the filesystem side: conversions to and from `std::path`,
  canonicalization through `std::fs`, filesystem queries, and the error type
  with its `Display` and `Error` impls.
- `tests/` — the behaviour of each operation, including agreement with
  `std::path` on a set of tricky paths.
