//! Properties of the path grammar that hold across operations.

use vstd::prelude::*;

use crate::canonical::{CanonicalPath, canonicalization_outcome};
use crate::grammar::{canonical_shape, file_prefix_range, last_sep_in, lemma_first_index_of};
use crate::marked_path::ordering_of_order;
use crate::marked_path::PathError;
use crate::grammar::{
    DOT, SEPARATOR, back_step, body_ranges, body_start, bytes_order, component_order,
    component_ranges, components_order, dotted, extension_range, file_name_range, file_stem_range,
    is_extension, is_skipped, last_index_of, lemma_append_to_file_name, lemma_body_ranges_bounds,
    lemma_file_name_range_bounds, lemma_last_index_of, lemma_last_index_of_tail, lemma_last_sep_in,
    lemma_next_back_body_bounds, lemma_next_back_body_item, lemma_parent_len_bounds,
    lemma_push_is_absolute, lemma_trim_back_bounds, lemma_trim_keeps_ranges, lemma_walk_on_prefix,
    lemma_walk_stops_at_cut, next_back_body, path_order, same_path, slice_of, spec_add_extension,
    spec_components, spec_ends_with, spec_file_name, spec_has_root, spec_is_absolute, spec_parent,
    spec_push, spec_set_extension, spec_starts_with, starts_with_cur_dir, trim_back,
};

verus! {

/// Joining gives an absolute path exactly when the base or the joined path is
/// absolute: a relative path joined onto an absolute one stays absolute, and
/// onto a relative one stays relative.
pub proof fn law_join_is_absolute(base: Seq<u8>, other: Seq<u8>)
    ensures
        spec_is_absolute(spec_push(base, other)) == (spec_is_absolute(base) || spec_is_absolute(
            other,
        )),
{
    lemma_push_is_absolute(base, other);
}

/// Joining is associative: joining `b` then `c` onto `a` gives what joining
/// onto `a` the join of `c` onto `b` gives.
pub proof fn law_join_is_associative(a: Seq<u8>, b: Seq<u8>, c: Seq<u8>)
    ensures
        spec_push(spec_push(a, b), c) == spec_push(a, spec_push(b, c)),
{
    lemma_push_is_absolute(b, c);
    if !spec_is_absolute(c) && !spec_is_absolute(b) {
        let ab = spec_push(a, b);
        let bc = spec_push(b, c);
        let sa: Seq<u8> = if a.len() > 0 && a.last() != SEPARATOR {
            seq![SEPARATOR]
        } else {
            Seq::empty()
        };
        let sb: Seq<u8> = if b.len() > 0 && b.last() != SEPARATOR {
            seq![SEPARATOR]
        } else {
            Seq::empty()
        };
        assert(ab =~= a + sa + b);
        assert(bc =~= b + sb + c);
        if b.len() > 0 {
            assert(ab.last() == b.last());
        }
        let sab: Seq<u8> = if ab.len() > 0 && ab.last() != SEPARATOR {
            seq![SEPARATOR]
        } else {
            Seq::empty()
        };
        assert(sab == sb);
        assert(spec_push(ab, c) =~= a + sa + b + sb + c);
        assert(spec_push(a, bc) =~= a + sa + (b + sb + c));
    }
}

/// The parent of a path is a proper prefix of it, absolute or relative as the
/// path is.
pub proof fn law_parent_is_proper_prefix(p: Seq<u8>)
    ensures
        spec_parent(p) matches Some(q) ==> q.len() < p.len() && q == p.subrange(0, q.len() as int)
            && spec_is_absolute(q) == spec_is_absolute(p),
{
    reveal(spec_parent);
    lemma_parent_len_bounds(p);
}

/// The ancestors of `p`: `p`, then its parent, its parent's parent, and so on
/// while there is a parent.
pub open spec fn ancestors_of(p: Seq<u8>) -> Seq<Seq<u8>>
    decreases p.len(),
{
    match spec_parent(p) {
        Some(q) => if q.len() < p.len() {
            seq![p] + ancestors_of(q)
        } else {
            seq![p]
        },
        None => seq![p],
    }
}

/// The ancestors of a path end: there are at most one more of them than the
/// path has bytes, and each one is a prefix of the path with its parent next.
#[verifier::rlimit(40)]
pub proof fn law_ancestors_end(p: Seq<u8>)
    ensures
        ancestors_of(p).len() <= p.len() + 1,
        ancestors_of(p)[0] == p,
        forall|i: int|
            0 <= i < ancestors_of(p).len() ==> (#[trigger] ancestors_of(p)[i]).len() <= p.len(),
        forall|i: int|
            0 <= i < ancestors_of(p).len() ==> #[trigger] ancestors_of(p)[i] == p.subrange(
                0,
                ancestors_of(p)[i].len() as int,
            ),
        forall|i: int|
            0 <= i < ancestors_of(p).len() - 1 ==> spec_parent(#[trigger] ancestors_of(p)[i])
                == Some(ancestors_of(p)[i + 1]),
        spec_parent(ancestors_of(p).last()) is None,
    decreases p.len(),
{
    law_parent_is_proper_prefix(p);
    match spec_parent(p) {
        Some(q) => {
            law_ancestors_end(q);
            let a = ancestors_of(p);
            let aq = ancestors_of(q);
            assert(a =~= seq![p] + aq);
            assert forall|i: int| 0 <= i < a.len() implies #[trigger] a[i] == p.subrange(
                0,
                a[i].len() as int,
            ) by {
                if i > 0 {
                    assert(a[i] == aq[i - 1]);
                    assert(aq[i - 1].len() <= q.len());
                    assert(aq[i - 1] == q.subrange(0, aq[i - 1].len() as int));
                    assert(q.subrange(0, aq[i - 1].len() as int) =~= p.subrange(
                        0,
                        aq[i - 1].len() as int,
                    ));
                } else {
                    assert(p.subrange(0, p.len() as int) =~= p);
                }
            }
            assert forall|i: int| 0 <= i < a.len() implies (#[trigger] a[i]).len() <= p.len() by {
                if i > 0 {
                    assert(a[i] == aq[i - 1]);
                }
            }
            assert forall|i: int| 0 <= i < a.len() - 1 implies spec_parent(#[trigger] a[i]) == Some(
                a[i + 1],
            ) by {
                if i > 0 {
                    assert(a[i] == aq[i - 1]);
                    assert(a[i + 1] == aq[i]);
                }
            }
        },
        None => {
            assert(p.subrange(0, p.len() as int) =~= p);
        },
    }
}

/// Whether `ext` holds no dot, so that it is a single extension.
pub open spec fn is_single_extension(ext: Seq<u8>) -> bool {
    &&& ext.len() > 0
    &&& is_extension(ext)
    &&& forall|i: int| 0 <= i < ext.len() ==> ext[i] != DOT
}

/// In `p.subrange(0, m) + dotted(ext)`, for a single extension `ext`, the
/// last dot after `s` is the one at `m`.
proof fn lemma_last_dot_is_added(p: Seq<u8>, s: int, m: int, ext: Seq<u8>)
    requires
        0 <= s < m <= p.len(),
        is_single_extension(ext),
    ensures
        last_index_of(p.subrange(0, m) + dotted(ext), DOT, s, m + 1 + ext.len()) == m,
        (p.subrange(0, m) + dotted(ext)).subrange(m + 1, m + 1 + ext.len()) == ext,
        (p.subrange(0, m) + dotted(ext)).subrange(s, m) == p.subrange(s, m),
{
    let q = p.subrange(0, m) + dotted(ext);
    assert(q =~= p.subrange(0, m) + seq![DOT] + ext);
    assert forall|k: int| m + 1 <= k < m + 1 + ext.len() implies q[k] != DOT by {
        assert(q[k] == ext[k - m - 1]);
    }
    lemma_last_index_of_tail(q, DOT, s, m + 1, m + 1 + ext.len());
    assert(q[m] == DOT);
    assert(q.subrange(m + 1, m + 1 + ext.len()) =~= ext);
    assert(q.subrange(s, m) =~= p.subrange(s, m));
}

/// Setting a single extension makes it the extension, and leaves the file
/// stem as it was.
pub proof fn law_set_extension_sets_extension(p: Seq<u8>, ext: Seq<u8>)
    requires
        is_single_extension(ext),
    ensures
        spec_set_extension(p, ext) matches Some(q) ==> slice_of(q, extension_range(q)) == Some(ext)
            && slice_of(q, file_stem_range(q)) == slice_of(p, file_stem_range(p)),
{
    lemma_file_name_range_bounds(p);
    if let Some((s, e)) = file_name_range(p) {
        lemma_last_index_of(p, DOT, s, e);
        let se = file_stem_range(p).unwrap().1;
        let q = spec_set_extension(p, ext).unwrap();
        assert(q =~= p.subrange(0, se) + seq![DOT] + ext);
        lemma_append_to_file_name(p, se, ext);
        lemma_last_dot_is_added(p, s, se, ext);
    }
}

/// Adding a single extension makes it the extension, and makes the former
/// file name the file stem.
pub proof fn law_add_extension_sets_extension(p: Seq<u8>, ext: Seq<u8>)
    requires
        is_single_extension(ext),
    ensures
        spec_add_extension(p, ext) matches Some(q) ==> slice_of(q, extension_range(q)) == Some(ext)
            && slice_of(q, file_stem_range(q)) == slice_of(p, file_name_range(p)),
{
    lemma_file_name_range_bounds(p);
    if let Some((s, e)) = file_name_range(p) {
        let q = spec_add_extension(p, ext).unwrap();
        assert(q =~= p.subrange(0, e) + seq![DOT] + ext);
        lemma_append_to_file_name(p, e, ext);
        lemma_last_dot_is_added(p, s, e, ext);
    }
}

/// The parent of a path is the path without its final component; a path has
/// no parent exactly when it has no component or only the root.
#[verifier::rlimit(40)]
pub proof fn law_parent_drops_final_component(p: Seq<u8>)
    ensures
        spec_parent(p) matches Some(q) ==> spec_components(p).len() >= 1 && spec_components(q)
            == spec_components(p).drop_last(),
        spec_parent(p) is None <==> (spec_components(p).len() == 0 || spec_components(p) == seq![
            seq![SEPARATOR],
        ]),
{
    reveal(spec_parent);
    let n = p.len() as int;
    lemma_next_back_body_bounds(p, n);
    lemma_next_back_body_item(p, n);
    lemma_walk_stops_at_cut(p, n);
    let (n1, item) = next_back_body(p, n);
    let front = spec_has_root(p) || starts_with_cur_dir(p, n);
    let fr: Seq<(int, int)> = if front {
        seq![(0, 1)]
    } else {
        Seq::empty()
    };
    assert(component_ranges(p) == fr + body_ranges(p, n));
    if starts_with_cur_dir(p, n) && n1 >= 1 {
        assert(starts_with_cur_dir(p, n1));
    }
    if n1 >= 1 && n1 < n && starts_with_cur_dir(p, n1) {
        assert(p[n1] == SEPARATOR || spec_has_root(p));
        assert(starts_with_cur_dir(p, n));
    }
    match item {
        Some((s, e)) => {
            lemma_trim_back_bounds(p, n1);
            lemma_walk_stops_at_cut(p, n1);
            let k = trim_back(p, n1);
            let q = p.subrange(0, k);
            assert(spec_parent(p) == Some(q));
            if spec_has_root(p) {
                assert(q[0] == p[0]);
            } else if k > 0 {
                assert(q[0] == p[0]);
            }
            lemma_walk_on_prefix(p, q, k);
            lemma_trim_keeps_ranges(p, n1);
            lemma_body_ranges_bounds(p, k);
            if k >= 1 {
                assert(q[0] == p[0]);
            }
            if k >= 2 {
                assert(q[1] == p[1]);
            }
            assert((spec_has_root(q) || starts_with_cur_dir(q, k)) == front);
            assert(component_ranges(q) == fr + body_ranges(p, n1));
            assert(body_ranges(p, n) == body_ranges(p, n1).push((s, e)));
            let cq = spec_components(q);
            let cp = spec_components(p);
            assert(cp.len() == component_ranges(p).len());
            assert forall|i: int| 0 <= i < cq.len() implies cq[i] == cp.drop_last()[i] by {
                let r = component_ranges(q)[i];
                assert(component_ranges(p)[i] == r);
                if front && i == 0 {
                    assert(r == (0int, 1int));
                } else {
                    let j = if front { i - 1 } else { i };
                    assert(r == body_ranges(p, k)[j]);
                }
                assert(q.subrange(r.0, r.1) =~= p.subrange(r.0, r.1));
            }
            assert(cq =~= cp.drop_last());
            if spec_components(p) == seq![seq![SEPARATOR]] {
                assert(cp.len() == 1);
                assert(!front);
                assert(component_ranges(p)[0] == (s, e));
                crate::grammar::lemma_last_sep_in(p, crate::grammar::body_start(p, e), e);
                assert(p[s] != SEPARATOR);
                assert(cp[0] == p.subrange(s, e));
                assert(cp[0] == seq![SEPARATOR]);
                assert(p.subrange(s, e)[0] == p[s]);
            }
        },
        None => {
            assert(body_ranges(p, n) == Seq::<(int, int)>::empty());
            assert(component_ranges(p) == fr);
            if spec_parent(p) is Some {
                assert(spec_components(p) =~= seq![p.subrange(0, 1)]);
                assert(p[0] == DOT);
                assert(p.subrange(0, 1)[0] == DOT);
                assert(spec_components(p).drop_last() =~= Seq::<Seq<u8>>::empty());
                assert(spec_parent(p) == Some(p.subrange(0, 0)));
                assert(spec_components(p.subrange(0, 0)) =~= Seq::<Seq<u8>>::empty()) by {
                    let e: Seq<u8> = p.subrange(0, 0);
                    assert(body_ranges(e, 0) == Seq::<(int, int)>::empty());
                    assert(component_ranges(e) =~= Seq::<(int, int)>::empty());
                }
                assert(seq![SEPARATOR][0] == SEPARATOR);
                if spec_components(p) == seq![seq![SEPARATOR]] {
                    assert(spec_components(p)[0] == p.subrange(0, 1));
                    assert(seq![seq![SEPARATOR]][0] == seq![SEPARATOR]);
                    assert(p.subrange(0, 1)[0] == seq![SEPARATOR][0]);
                }
            } else if spec_has_root(p) {
                assert(p.subrange(0, 1) =~= seq![SEPARATOR]);
                assert(spec_components(p) =~= seq![seq![SEPARATOR]]);
            } else {
                assert(spec_components(p) =~= Seq::<Seq<u8>>::empty());
            }
        },
    }
}

/// Whether a component is a name: neither the root, `.` nor `..`.
pub open spec fn is_name(c: Seq<u8>) -> bool {
    c != seq![SEPARATOR] && c != seq![DOT] && c != seq![DOT, DOT]
}

/// The file name of a path is its final component when that is a name, and
/// there is none otherwise.
pub proof fn law_file_name_is_final_component(p: Seq<u8>)
    ensures
        spec_file_name(p) == if spec_components(p).len() > 0 && is_name(spec_components(p).last()) {
            Some(spec_components(p).last())
        } else {
            None
        },
{
    let n = p.len() as int;
    lemma_next_back_body_bounds(p, n);
    lemma_next_back_body_item(p, n);
    let (n1, item) = next_back_body(p, n);
    let front = spec_has_root(p) || starts_with_cur_dir(p, n);
    let fr: Seq<(int, int)> = if front {
        seq![(0, 1)]
    } else {
        Seq::empty()
    };
    assert(component_ranges(p) == fr + body_ranges(p, n));
    let cp = spec_components(p);
    match item {
        Some((s, e)) => {
            assert(body_ranges(p, n) == body_ranges(p, n1).push((s, e)));
            assert(cp.last() == p.subrange(s, e));
            crate::grammar::lemma_last_sep_in(p, crate::grammar::body_start(p, e), e);
            assert(p[s] != SEPARATOR);
            assert(p.subrange(s, e)[0] == p[s]);
            assert(seq![SEPARATOR][0] == SEPARATOR);
        },
        None => {
            assert(body_ranges(p, n) == Seq::<(int, int)>::empty());
            if front {
                assert(cp.last() == p.subrange(0, 1));
                if spec_has_root(p) {
                    assert(p.subrange(0, 1) =~= seq![SEPARATOR]);
                } else {
                    assert(p.subrange(0, 1) =~= seq![DOT]);
                }
            }
        },
    }
}

/// A path starts with its parent.
pub proof fn law_starts_with_parent(p: Seq<u8>)
    ensures
        spec_parent(p) matches Some(q) ==> spec_starts_with(p, q),
{
    law_parent_drops_final_component(p);
    if let Some(q) = spec_parent(p) {
        let cp = spec_components(p);
        assert(cp.subrange(0, cp.len() - 1) =~= cp.drop_last());
    }
}

/// A name that holds no separator has itself as its only component.
proof fn lemma_name_components(x: Seq<u8>)
    requires
        x.len() > 0,
        is_name(x),
        forall|i: int| 0 <= i < x.len() ==> x[i] != SEPARATOR,
    ensures
        spec_components(x) == seq![x],
{
    let n = x.len() as int;
    assert(!spec_has_root(x));
    if starts_with_cur_dir(x, n) {
        if n == 1 {
            assert(x =~= seq![DOT]);
        }
    }
    assert(body_start(x, n) == 0);
    lemma_last_sep_in(x, 0, n);
    assert(back_step(x, n) == (0int, 0int));
    assert(x.subrange(0, n) =~= x);
    assert(!is_skipped(x));
    assert(next_back_body(x, n) == (0int, Some((0int, n))));
    assert(next_back_body(x, 0).1 is None);
    assert(body_ranges(x, 0) == Seq::<(int, int)>::empty());
    assert(body_ranges(x, n) =~= seq![(0int, n)]);
    assert(component_ranges(x) =~= seq![(0int, n)]);
    assert(spec_components(x) =~= seq![x]);
}

/// A path ends with its file name.
pub proof fn law_ends_with_file_name(p: Seq<u8>)
    ensures
        spec_file_name(p) matches Some(x) ==> spec_ends_with(p, x),
{
    law_file_name_is_final_component(p);
    crate::grammar::lemma_file_name_range_bounds(p);
    if let Some(x) = spec_file_name(p) {
        let n = p.len() as int;
        lemma_next_back_body_bounds(p, n);
        lemma_next_back_body_item(p, n);
        let (s, e) = next_back_body(p, n).1.unwrap();
        lemma_last_sep_in(p, body_start(p, e), e);
        assert(x == p.subrange(s, e));
        assert forall|i: int| 0 <= i < x.len() implies x[i] != SEPARATOR by {
            assert(x[i] == p[s + i]);
        }
        lemma_name_components(x);
        let cp = spec_components(p);
        assert(cp.subrange(cp.len() - 1, cp.len() as int) =~= seq![cp.last()]);
    }
}

/// Bytes compare equal exactly when they are equal, and swapping them flips
/// the result.
proof fn lemma_bytes_order(a: Seq<u8>, b: Seq<u8>)
    ensures
        (bytes_order(a, b) == 0) == (a == b),
        bytes_order(a, b) == -bytes_order(b, a),
        -1 <= bytes_order(a, b) <= 1,
    decreases a.len(),
{
    if a.len() == 0 && b.len() == 0 {
        assert(a =~= b);
    }
    if a.len() > 0 && b.len() > 0 {
        lemma_bytes_order(a.drop_first(), b.drop_first());
        if a[0] == b[0] {
            if a.drop_first() == b.drop_first() {
                assert(a =~= seq![a[0]] + a.drop_first());
                assert(b =~= seq![b[0]] + b.drop_first());
            }
        }
    }
    if a == b {
        assert(a.len() == b.len());
    }
}

/// Components compare equal exactly when they are equal, and swapping them
/// flips the result.
proof fn lemma_component_order(a: Seq<u8>, b: Seq<u8>)
    ensures
        (component_order(a, b) == 0) == (a == b),
        component_order(a, b) == -component_order(b, a),
        -1 <= component_order(a, b) <= 1,
{
    lemma_bytes_order(a, b);
}

/// Lists of components compare equal exactly when they are equal, and
/// swapping them flips the result.
proof fn lemma_components_order(a: Seq<Seq<u8>>, b: Seq<Seq<u8>>)
    ensures
        (components_order(a, b) == 0) == (a == b),
        components_order(a, b) == -components_order(b, a),
    decreases a.len(),
{
    if a.len() == 0 && b.len() == 0 {
        assert(a =~= b);
    }
    if a.len() > 0 && b.len() > 0 {
        lemma_component_order(a[0], b[0]);
        lemma_components_order(a.drop_first(), b.drop_first());
        if a[0] == b[0] && a.drop_first() == b.drop_first() {
            assert(a =~= seq![a[0]] + a.drop_first());
            assert(b =~= seq![b[0]] + b.drop_first());
        }
        if a == b {
            assert(a.drop_first() == b.drop_first());
        }
    }
    if a == b {
        assert(a.len() == b.len());
    }
}

/// Paths are ordered consistently with their equality: two paths compare
/// equal exactly when they have the same components, and swapping them flips
/// the order.
pub proof fn law_order_agrees_with_equality(p: Seq<u8>, q: Seq<u8>)
    ensures
        (path_order(p, q) == 0) == same_path(p, q),
        path_order(p, q) == -path_order(q, p),
{
    lemma_components_order(spec_components(p), spec_components(q));
}

/// A canonical path holds the path it was made of, and two canonical paths
/// have the same components exactly when the filesystem resolved them to
/// paths with the same components.
pub proof fn law_canonical_equality_follows_resolution(
    path1: Seq<u8>,
    resolved1: Vec<u8>,
    a: CanonicalPath,
    path2: Seq<u8>,
    resolved2: Vec<u8>,
    b: CanonicalPath,
)
    requires
        canonicalization_outcome(path1, Ok(resolved1), Ok(a)),
        canonicalization_outcome(path2, Ok(resolved2), Ok(b)),
    ensures
        a@ == path1,
        b@ == path2,
        same_path(a@, b@) == same_path(resolved1@, resolved2@),
{
}

/// The bytes of a canonical path have the canonical shape, so a canonical
/// path made again from its own bytes, which the filesystem resolves to a path
/// with the same components, is made: it holds those bytes and equals the
/// first.
pub proof fn law_canonical_remade_from_its_bytes(
    p: Seq<u8>,
    resolved: Vec<u8>,
    r: Result<CanonicalPath, PathError>,
)
    requires
        canonical_shape(p),
        same_path(resolved@, p),
        canonicalization_outcome(p, Ok(resolved), r),
    ensures
        r matches Ok(q) && q@ == p && same_path(q@, p),
{
}

/// The parts of a file name, read from its bytes. A path without a file name
/// has no stem, extension or prefix. Otherwise, with the file name at
/// `p[s..e]`:
/// - the prefix starts the file name and runs up to its first dot after its
///   first byte, or to its end when there is none, and holds no dot after its
///   first byte;
/// - the stem starts the file name; when it stops short of the end, it stops
///   at the last dot, no dot follows, and the extension is what follows that
///   dot; when it is the whole name, the name has no dot after its first byte
///   and there is no extension.
pub proof fn law_file_name_parts(p: Seq<u8>)
    ensures
        file_name_range(p) is None ==> file_stem_range(p) is None && extension_range(p) is None
            && file_prefix_range(p) is None,
        file_name_range(p) matches Some((s, e)) ==> (file_prefix_range(p) matches Some((s1, f))
            && s1 == s && s < f <= e && (f == e || p[f] == DOT) && forall|k: int|
            s < k < f ==> p[k] != DOT),
        file_name_range(p) matches Some((s, e)) ==> (file_stem_range(p) matches Some((s2, m))
            && s2 == s && s < m <= e && (m < e ==> p[m] == DOT && extension_range(p) == Some(
            (m + 1, e),
        ) && forall|k: int| m < k < e ==> p[k] != DOT) && (m == e ==> extension_range(p) is None
            && forall|k: int| s < k < e ==> p[k] != DOT)),
{
    lemma_file_name_range_bounds(p);
    match file_name_range(p) {
        Some((s, e)) => {
            lemma_first_index_of(p, DOT, s + 1, e);
            lemma_last_index_of(p, DOT, s, e);
        },
        None => {},
    }
}

/// Bytes compare as their first differing byte does: where `a` and `b` agree
/// on their first `i` bytes and `a[i] < b[i]`, `a` comes first.
pub proof fn law_bytes_order_first_difference(a: Seq<u8>, b: Seq<u8>, i: int)
    requires
        0 <= i < a.len(),
        i < b.len(),
        a.subrange(0, i) == b.subrange(0, i),
        a[i] < b[i],
    ensures
        bytes_order(a, b) == -1,
        bytes_order(b, a) == 1,
    decreases i,
{
    if i > 0 {
        assert(a[0] == a.subrange(0, i)[0]);
        assert(b[0] == b.subrange(0, i)[0]);
        assert(a.drop_first().subrange(0, i - 1) =~= a.subrange(0, i).drop_first());
        assert(b.drop_first().subrange(0, i - 1) =~= b.subrange(0, i).drop_first());
        law_bytes_order_first_difference(a.drop_first(), b.drop_first(), i - 1);
    }
}

/// Bytes that begin longer bytes come before them.
pub proof fn law_bytes_order_prefix_first(a: Seq<u8>, b: Seq<u8>)
    requires
        a.len() < b.len(),
        b.subrange(0, a.len() as int) == a,
    ensures
        bytes_order(a, b) == -1,
        bytes_order(b, a) == 1,
    decreases a.len(),
{
    if a.len() > 0 {
        assert(a[0] == b.subrange(0, a.len() as int)[0]);
        assert(b.drop_first().subrange(0, a.len() - 1) =~= a.drop_first());
        law_bytes_order_prefix_first(a.drop_first(), b.drop_first());
    }
}

/// Components are ordered by kind: the root first, then `.`, then `..`, then
/// names; two names compare by their bytes.
pub proof fn law_component_order_kinds(c: Seq<u8>, d: Seq<u8>)
    ensures
        c != seq![SEPARATOR] ==> component_order(seq![SEPARATOR], c) == -1,
        c != seq![SEPARATOR] && c != seq![DOT] ==> component_order(seq![DOT], c) == -1,
        is_name(c) ==> component_order(seq![DOT, DOT], c) == -1,
        is_name(c) && is_name(d) ==> component_order(c, d) == bytes_order(c, d),
{
}

/// Lists of components compare as their first differing component does.
proof fn lemma_components_order_first_difference(a: Seq<Seq<u8>>, b: Seq<Seq<u8>>, i: int)
    requires
        0 <= i < a.len(),
        i < b.len(),
        a.subrange(0, i) == b.subrange(0, i),
        component_order(a[i], b[i]) == -1,
    ensures
        components_order(a, b) == -1,
    decreases i,
{
    if i > 0 {
        assert(a[0] == a.subrange(0, i)[0]);
        assert(b[0] == b.subrange(0, i)[0]);
        lemma_component_order(a[0], b[0]);
        assert(a.drop_first().subrange(0, i - 1) =~= a.subrange(0, i).drop_first());
        assert(b.drop_first().subrange(0, i - 1) =~= b.subrange(0, i).drop_first());
        lemma_components_order_first_difference(a.drop_first(), b.drop_first(), i - 1);
    }
}

/// A list of components that begins a longer one comes before it.
proof fn lemma_components_order_prefix_first(a: Seq<Seq<u8>>, b: Seq<Seq<u8>>)
    requires
        a.len() < b.len(),
        b.subrange(0, a.len() as int) == a,
    ensures
        components_order(a, b) == -1,
    decreases a.len(),
{
    if a.len() > 0 {
        assert(a[0] == b.subrange(0, a.len() as int)[0]);
        lemma_component_order(a[0], b[0]);
        assert(b.drop_first().subrange(0, a.len() - 1) =~= a.drop_first());
        lemma_components_order_prefix_first(a.drop_first(), b.drop_first());
    }
}

/// Paths compare as their first differing component does, and a path whose
/// components begin those of a longer path comes before it.
pub proof fn law_path_order_first_difference(p: Seq<u8>, q: Seq<u8>, i: int)
    requires
        0 <= i <= spec_components(p).len(),
        i <= spec_components(q).len(),
        spec_components(p).subrange(0, i) == spec_components(q).subrange(0, i),
    ensures
        i < spec_components(p).len() && i < spec_components(q).len() && component_order(
            spec_components(p)[i],
            spec_components(q)[i],
        ) == -1 ==> path_order(p, q) == -1,
        i == spec_components(p).len() && i < spec_components(q).len() ==> path_order(p, q) == -1,
{
    let cp = spec_components(p);
    let cq = spec_components(q);
    if i < cp.len() && i < cq.len() && component_order(cp[i], cq[i]) == -1 {
        lemma_components_order_first_difference(cp, cq, i);
    }
    if i == cp.len() && i < cq.len() {
        assert(cp.subrange(0, i) =~= cp);
        lemma_components_order_prefix_first(cp, cq);
    }
}

/// Two paths that agree on their first `i` components, whose next components
/// are names that agree on their first `j` bytes and whose byte `j` is smaller
/// in `p`, are ordered with `p` first: `partial_cmp` gives `Less` for `p` and
/// `Greater` for `q`.
pub proof fn law_paths_ordered_by_first_differing_name(p: Seq<u8>, q: Seq<u8>, i: int, j: int)
    requires
        0 <= i < spec_components(p).len(),
        i < spec_components(q).len(),
        spec_components(p).subrange(0, i) == spec_components(q).subrange(0, i),
        is_name(spec_components(p)[i]),
        is_name(spec_components(q)[i]),
        0 <= j < spec_components(p)[i].len(),
        j < spec_components(q)[i].len(),
        spec_components(p)[i].subrange(0, j) == spec_components(q)[i].subrange(0, j),
        spec_components(p)[i][j] < spec_components(q)[i][j],
    ensures
        path_order(p, q) == -1,
        ordering_of_order(path_order(p, q)) == Some(std::cmp::Ordering::Less),
        ordering_of_order(path_order(q, p)) == Some(std::cmp::Ordering::Greater),
{
    let c = spec_components(p)[i];
    let d = spec_components(q)[i];
    law_bytes_order_first_difference(c, d, j);
    law_component_order_kinds(c, d);
    law_path_order_first_difference(p, q, i);
    law_order_agrees_with_equality(p, q);
}

/// A path starts with `base` exactly when `base` has no more components and
/// each of its components is the component of the path at the same place.
pub proof fn law_starts_with_componentwise(p: Seq<u8>, base: Seq<u8>)
    ensures
        spec_starts_with(p, base) <==> (spec_components(base).len() <= spec_components(p).len()
            && forall|i: int|
            0 <= i < spec_components(base).len() ==> spec_components(p)[i] == spec_components(
                base,
            )[i]),
{
    let cp = spec_components(p);
    let cb = spec_components(base);
    if cb.len() <= cp.len() {
        if spec_starts_with(p, base) {
            assert forall|i: int| 0 <= i < cb.len() implies cp[i] == cb[i] by {
                assert(cp.subrange(0, cb.len() as int)[i] == cp[i]);
            }
        }
        if forall|i: int| 0 <= i < cb.len() ==> cp[i] == cb[i] {
            assert(cp.subrange(0, cb.len() as int) =~= cb);
        }
    }
}

/// A path ends with `child` exactly when `child` has no more components and
/// each of its components is the component of the path at the same place
/// counted from the end.
pub proof fn law_ends_with_componentwise(p: Seq<u8>, child: Seq<u8>)
    ensures
        spec_ends_with(p, child) <==> (spec_components(child).len() <= spec_components(p).len()
            && forall|i: int|
            0 <= i < spec_components(child).len() ==> spec_components(p)[spec_components(p).len()
                - spec_components(child).len() + i] == spec_components(child)[i]),
{
    let cp = spec_components(p);
    let cc = spec_components(child);
    if cc.len() <= cp.len() {
        let k = cp.len() - cc.len();
        if spec_ends_with(p, child) {
            assert forall|i: int| 0 <= i < cc.len() implies cp[k + i] == cc[i] by {
                assert(cp.subrange(k, cp.len() as int)[i] == cp[k + i]);
            }
        }
        if forall|i: int| 0 <= i < cc.len() ==> cp[k + i] == cc[i] {
            assert(cp.subrange(k, cp.len() as int) =~= cc);
        }
    }
}

/// Whether `p[k..l]` is an item of `p`: a run of bytes without a separator,
/// with a separator or an end of `p` on each side.
pub open spec fn is_item(p: Seq<u8>, k: int, l: int) -> bool {
    &&& 0 <= k <= l <= p.len()
    &&& forall|m: int| k <= m < l ==> p[m] != SEPARATOR
    &&& (k == 0 || p[k - 1] == SEPARATOR)
    &&& (l == p.len() || p[l] == SEPARATOR)
}

/// Whether an item is kept as a component: it is neither empty nor `.`.
pub open spec fn is_kept(c: Seq<u8>) -> bool {
    c.len() > 0 && c != seq![DOT]
}

/// Where the walk back may start: the end, a separator, or no further than
/// the body's start.
spec fn walk_point(p: Seq<u8>, n: int) -> bool {
    0 <= n <= p.len() && (n == p.len() || p[n] == SEPARATOR || n <= body_start(p, n))
}

/// One step of the walk back from a walk point: the item it finds is a kept
/// item ending there, it resumes at a walk point before that item, and every
/// kept item up to `n` is that item or lies before where it resumes; when it
/// finds none, no item up to `n` is kept.
proof fn lemma_walk_finds_items(p: Seq<u8>, n: int)
    requires
        walk_point(p, n),
    ensures
        next_back_body(p, n).1 is None ==> forall|k: int, l: int|
            #[trigger] is_item(p, k, l) && l <= n ==> !is_kept(p.subrange(k, l)),
        next_back_body(p, n).1 matches Some((s, e)) ==> {
            &&& is_item(p, s, e)
            &&& is_kept(p.subrange(s, e))
            &&& e <= n
            &&& next_back_body(p, n).0 <= s
            &&& walk_point(p, next_back_body(p, n).0)
            &&& forall|k: int, l: int|
                #[trigger] is_item(p, k, l) && l <= n && is_kept(p.subrange(k, l)) ==> (k == s
                    && l == e) || l <= next_back_body(p, n).0
        },
    decreases n,
{
    let bs = body_start(p, n);
    if n > bs {
        lemma_last_sep_in(p, bs, n);
        let j = last_sep_in(p, bs, n);
        let (cs, nn) = back_step(p, n);
        if starts_with_cur_dir(p, n) && n > 1 {
            assert(p[1] == SEPARATOR);
            assert(j >= 1);
        }
        assert(is_item(p, cs, n)) by {
            if j < 0 {
                assert(cs == bs);
                if bs == 1 {
                    assert(spec_has_root(p));
                }
            }
        }
        // Every item up to `n` is the one found here or lies before `nn`.
        assert forall|k: int, l: int| #[trigger] is_item(p, k, l) && l <= n implies (k == cs && l
            == n) || l <= nn by {
            if k >= cs {
                if k > cs {
                    assert(p[k - 1] != SEPARATOR);
                }
                if l < n {
                    assert(p[l] != SEPARATOR);
                }
            } else if j >= 0 {
                if l > j {
                    assert(p[j] == SEPARATOR);
                }
            } else {
                assert(k == 0 && bs == 1);
                if l > 0 {
                    assert(spec_has_root(p) || starts_with_cur_dir(p, n));
                    assert(p[0] == SEPARATOR);
                }
            }
        }
        if is_skipped(p.subrange(cs, n)) {
            assert(walk_point(p, nn)) by {
                if j < 0 {
                    if bs == 1 {
                        assert(spec_has_root(p));
                    }
                }
            }
            lemma_walk_finds_items(p, nn);
        } else {
            assert(walk_point(p, nn)) by {
                if j < 0 {
                    if bs == 1 {
                        assert(spec_has_root(p));
                    }
                }
            }
        }
    } else {
        assert forall|k: int, l: int| #[trigger] is_item(p, k, l) && l <= n implies !is_kept(
            p.subrange(k, l),
        ) by {
            if l > k {
                assert(k == 0 && l == 1);
                if spec_has_root(p) {
                    assert(p[0] == SEPARATOR);
                } else {
                    assert(p.subrange(k, l) =~= seq![DOT]);
                }
            }
        }
    }
}

/// The items that the walk back collects up to a walk point `n` are kept
/// items, in order, and they are all the kept items that end by `n`.
proof fn lemma_body_ranges_are_items(p: Seq<u8>, n: int)
    requires
        walk_point(p, n),
    ensures
        forall|i: int|
            0 <= i < body_ranges(p, n).len() ==> is_item(
                p,
                (#[trigger] body_ranges(p, n)[i]).0,
                body_ranges(p, n)[i].1,
            ) && is_kept(p.subrange(body_ranges(p, n)[i].0, body_ranges(p, n)[i].1))
                && body_ranges(p, n)[i].1 <= n,
        forall|i: int, j: int|
            0 <= i < j < body_ranges(p, n).len() ==> (#[trigger] body_ranges(p, n)[i]).1 <= (
            #[trigger] body_ranges(p, n)[j]).0,
        forall|k: int, l: int|
            #[trigger] is_item(p, k, l) && l <= n && is_kept(p.subrange(k, l)) ==> exists|i: int|
                0 <= i < body_ranges(p, n).len() && #[trigger] body_ranges(p, n)[i] == (k, l),
    decreases n,
{
    lemma_walk_finds_items(p, n);
    lemma_next_back_body_bounds(p, n);
    lemma_next_back_body_item(p, n);
    let (n1, item) = next_back_body(p, n);
    let b = body_ranges(p, n);
    match item {
        Some((s, e)) => {
            lemma_body_ranges_are_items(p, n1);
            let b1 = body_ranges(p, n1);
            assert(b == b1.push((s, e)));
            assert forall|i: int| 0 <= i < b.len() implies is_item(p, (#[trigger] b[i]).0, b[i].1)
                && is_kept(p.subrange(b[i].0, b[i].1)) && b[i].1 <= n by {
                if i < b1.len() {
                    assert(b[i] == b1[i]);
                }
            }
            assert forall|i: int, j: int| 0 <= i < j < b.len() implies (#[trigger] b[i]).1 <= (
            #[trigger] b[j]).0 by {
                assert(b[i] == b1[i]);
                if j < b1.len() {
                    assert(b[j] == b1[j]);
                }
            }
            assert forall|k: int, l: int| #[trigger]
                is_item(p, k, l) && l <= n && is_kept(p.subrange(k, l)) implies exists|i: int|
                0 <= i < b.len() && #[trigger] b[i] == (k, l) by {
                if k == s && l == e {
                    assert(b[b.len() - 1] == (k, l));
                } else {
                    let i = choose|i: int| 0 <= i < b1.len() && #[trigger] b1[i] == (k, l);
                    assert(b[i] == b1[i]);
                }
            }
        },
        None => {
            assert(b.len() == 0);
        },
    }
}

/// How many components come before the items: one for a leading `/` (the
/// root) or a leading `.` item (the current directory), else none.
pub open spec fn front_count(p: Seq<u8>) -> int {
    if p.len() > 0 && (p[0] == SEPARATOR || (p[0] == DOT && (p.len() == 1 || p[1] == SEPARATOR))) {
        1
    } else {
        0
    }
}

/// The components of a path, read from its bytes: first the root for a
/// leading `/`, or the current directory for a leading `.` item; then, in
/// order, exactly the items of the path that are neither empty nor `.`, each
/// component being the bytes of its item.
pub proof fn law_components_are_the_kept_items(p: Seq<u8>)
    ensures
        component_ranges(p).len() == spec_components(p).len(),
        forall|i: int|
            0 <= i < spec_components(p).len() ==> #[trigger] spec_components(p)[i] == p.subrange(
                component_ranges(p)[i].0,
                component_ranges(p)[i].1,
            ),
        p.len() > 0 && p[0] == SEPARATOR ==> spec_components(p).len() > 0 && spec_components(p)[0]
            == seq![SEPARATOR],
        p.len() > 0 && p[0] == DOT && (p.len() == 1 || p[1] == SEPARATOR) ==> spec_components(
            p,
        ).len() > 0 && spec_components(p)[0] == seq![DOT],
        front_count(p) <= spec_components(p).len(),
        forall|i: int|
            front_count(p) <= i < spec_components(p).len() ==> is_item(
                p,
                (#[trigger] component_ranges(p)[i]).0,
                component_ranges(p)[i].1,
            ) && is_kept(spec_components(p)[i]),
        forall|i: int, j: int|
            front_count(p) <= i < j < spec_components(p).len() ==> (#[trigger] component_ranges(
                p,
            )[i]).1 <= (#[trigger] component_ranges(p)[j]).0,
        forall|k: int, l: int|
            #[trigger] is_item(p, k, l) && is_kept(p.subrange(k, l)) ==> exists|i: int|
                front_count(p) <= i < spec_components(p).len() && #[trigger] component_ranges(p)[i]
                    == (k, l),
{
    let n = p.len() as int;
    lemma_body_ranges_are_items(p, n);
    let b = body_ranges(p, n);
    let cr = component_ranges(p);
    let cp = spec_components(p);
    let front = spec_has_root(p) || starts_with_cur_dir(p, n);
    let f = front_count(p);
    assert(front == (f == 1));
    let fr: Seq<(int, int)> = if front {
        seq![(0, 1)]
    } else {
        Seq::empty()
    };
    assert(cr == fr + b);
    assert(cr.len() == f + b.len());
    assert forall|i: int| f <= i < cr.len() implies #[trigger] cr[i] == b[i - f] by {}
    if front {
        assert(cr[0] == (0int, 1int));
        if p[0] == SEPARATOR {
            assert(cp[0] =~= seq![SEPARATOR]);
        } else {
            assert(cp[0] =~= seq![DOT]);
        }
    }
    assert forall|i: int| f <= i < cp.len() implies is_item(p, (#[trigger] cr[i]).0, cr[i].1)
        && is_kept(cp[i]) by {
        assert(cr[i] == b[i - f]);
    }
    assert forall|i: int, j: int| f <= i < j < cp.len() implies (#[trigger] cr[i]).1 <= (
    #[trigger] cr[j]).0 by {
        assert(cr[i] == b[i - f]);
        assert(cr[j] == b[j - f]);
    }
    assert forall|k: int, l: int| #[trigger] is_item(p, k, l) && is_kept(p.subrange(k, l)) implies exists|i: int|
        f <= i < cp.len() && #[trigger] cr[i] == (k, l) by {
        let i = choose|i: int| 0 <= i < b.len() && #[trigger] b[i] == (k, l);
        assert(cr[i + f] == b[i]);
    }
}

/// Pushing an absolute path replaces the base. Pushing a relative path keeps
/// the base as it is, then adds one separator exactly when the base is
/// non-empty and does not already end with one, then the pushed path as it is.
pub proof fn law_push_keeps_both_parts(base: Seq<u8>, other: Seq<u8>)
    ensures
        other.len() > 0 && other[0] == SEPARATOR ==> spec_push(base, other) == other,
        !(other.len() > 0 && other[0] == SEPARATOR) ==> {
            let q = spec_push(base, other);
            let gap: int = if base.len() > 0 && base[base.len() - 1] != SEPARATOR {
                1
            } else {
                0
            };
            &&& q.len() == base.len() + gap + other.len()
            &&& q.subrange(0, base.len() as int) == base
            &&& (gap == 1 ==> q[base.len() as int] == SEPARATOR)
            &&& q.subrange(base.len() + gap, q.len() as int) == other
        },
{
    if !(other.len() > 0 && other[0] == SEPARATOR) {
        let q = spec_push(base, other);
        if base.len() > 0 && base.last() != SEPARATOR {
            assert(q.subrange(0, base.len() as int) =~= base);
            assert(q.subrange(base.len() + 1int, q.len() as int) =~= other);
        } else {
            assert(q.subrange(0, base.len() as int) =~= base);
            assert(q.subrange(base.len() as int, q.len() as int) =~= other);
        }
    }
}

/// Setting an extension gives nothing exactly when there is no file name.
/// Otherwise it keeps the path up to the end of the file stem and adds
/// nothing more for an empty extension, or a dot and the extension.
pub proof fn law_set_extension_cuts_at_stem(p: Seq<u8>, ext: Seq<u8>)
    ensures
        spec_set_extension(p, ext) is None <==> file_name_range(p) is None,
        file_stem_range(p) matches Some((s, m)) ==> (spec_set_extension(p, ext) matches Some(q)
            && q.len() == m + (if ext.len() == 0 { 0int } else { 1 + ext.len() as int })
            && q.subrange(0, m) == p.subrange(0, m) && (ext.len() > 0 ==> q[m] == DOT
            && q.subrange(m + 1, q.len() as int) == ext)),
{
    lemma_file_name_range_bounds(p);
    law_file_name_parts(p);
    if let Some((s, m)) = file_stem_range(p) {
        let q = spec_set_extension(p, ext).unwrap();
        assert(q.subrange(0, m) =~= p.subrange(0, m));
        if ext.len() > 0 {
            assert(q.subrange(m + 1, q.len() as int) =~= ext);
        }
    }
}

/// Adding an extension gives nothing exactly when there is no file name. An
/// empty extension leaves the path as it is; otherwise the path is kept up to
/// the end of its file name, followed by a dot and the extension.
pub proof fn law_add_extension_appends_to_name(p: Seq<u8>, ext: Seq<u8>)
    ensures
        spec_add_extension(p, ext) is None <==> file_name_range(p) is None,
        file_name_range(p) matches Some((s, e)) ==> (spec_add_extension(p, ext) matches Some(q) && (
        ext.len() == 0 ==> q == p) && (ext.len() > 0 ==> q.len() == e + 1 + ext.len()
            && q.subrange(0, e) == p.subrange(0, e) && q[e] == DOT && q.subrange(
            e + 1,
            q.len() as int,
        ) == ext)),
{
    lemma_file_name_range_bounds(p);
    if let Some((s, e)) = file_name_range(p) {
        let q = spec_add_extension(p, ext).unwrap();
        if ext.len() > 0 {
            assert(q.subrange(0, e) =~= p.subrange(0, e));
            assert(q.subrange(e + 1, q.len() as int) =~= ext);
        }
    }
}

/// Trimming stops at the start of the body or after an item that is kept.
proof fn lemma_trim_stops_after_kept(p: Seq<u8>, m: int)
    requires
        0 <= m <= p.len(),
    ensures
        trim_back(p, m) <= body_start(p, trim_back(p, m)) || !is_skipped(
            p.subrange(back_step(p, trim_back(p, m)).0, trim_back(p, m)),
        ),
    decreases m,
{
    if m > body_start(p, m) {
        lemma_last_sep_in(p, body_start(p, m), m);
        let (cs, nn) = back_step(p, m);
        if is_skipped(p.subrange(cs, m)) {
            lemma_trim_stops_after_kept(p, nn);
        }
    }
}

/// The parent of a path does not end in an empty item or a `.` item: it is at
/// most one byte long (empty, the root, or `.`), or it ends with an item that
/// is kept as a component.
pub proof fn law_parent_ends_with_kept_item(p: Seq<u8>)
    ensures
        spec_parent(p) matches Some(q) ==> q.len() <= 1 || exists|k: int|
            #[trigger] is_item(q, k, q.len() as int) && is_kept(q.subrange(k, q.len() as int)),
{
    reveal(spec_parent);
    let n = p.len() as int;
    lemma_next_back_body_bounds(p, n);
    lemma_parent_len_bounds(p);
    let (n1, item) = next_back_body(p, n);
    if item is Some {
        lemma_trim_back_bounds(p, n1);
        let t = trim_back(p, n1);
        lemma_trim_stops_after_kept(p, n1);
        let bs = body_start(p, t);
        if t > bs {
            let q = p.subrange(0, t);
            lemma_last_sep_in(p, bs, t);
            let j = last_sep_in(p, bs, t);
            let cs = back_step(p, t).0;
            if starts_with_cur_dir(p, t) && t > 1 {
                assert(p[1] == SEPARATOR);
            }
            assert(is_item(q, cs, t)) by {
                if j < 0 && bs == 1 {
                    assert(spec_has_root(p));
                }
            }
            assert(q.subrange(cs, t) =~= p.subrange(cs, t));
            assert(is_kept(q.subrange(cs, t)));
        }
    }
}

/// A path is absolute exactly when it starts with a separator, and exactly
/// when its first component is the root.
pub proof fn law_absolute_means_root_first(p: Seq<u8>)
    ensures
        spec_is_absolute(p) <==> (p.len() > 0 && p[0] == SEPARATOR),
        spec_is_absolute(p) <==> (spec_components(p).len() > 0 && spec_components(p)[0] == seq![
            SEPARATOR,
        ]),
{
    law_components_are_the_kept_items(p);
    let cp = spec_components(p);
    let cr = component_ranges(p);
    if cp.len() > 0 && cp[0] == seq![SEPARATOR] && !(p.len() > 0 && p[0] == SEPARATOR) {
        if front_count(p) == 1 {
            assert(cp[0] == seq![DOT]);
            assert(seq![DOT][0] != seq![SEPARATOR][0]);
        } else {
            assert(is_item(p, cr[0].0, cr[0].1));
            assert(cp[0] == p.subrange(cr[0].0, cr[0].1));
            assert(cp[0][0] == p[cr[0].0]);
        }
    }
}

} // verus!
