//! The Unix path grammar over bytes, as spec functions: what is absolute, how
//! a path is extended, how its components are found from its end, and the
//! lemmas that relate them.

use vstd::prelude::*;

verus! {

/// The path separator.
pub const SEPARATOR: u8 = 0x2Fu8;

/// The byte `.`.
pub const DOT: u8 = 0x2Eu8;

/// A path is absolute when it starts at the root, that is with a separator.
pub open spec fn spec_is_absolute(p: Seq<u8>) -> bool {
    p.len() > 0 && p[0] == SEPARATOR
}

/// The path that results from pushing `other` onto `base`: an absolute `other`
/// replaces `base`; otherwise `other` is appended, after a separator where
/// `base` is non-empty and does not already end with one.
pub open spec fn spec_push(base: Seq<u8>, other: Seq<u8>) -> Seq<u8> {
    if spec_is_absolute(other) {
        other
    } else if base.len() > 0 && base.last() != SEPARATOR {
        base + seq![SEPARATOR] + other
    } else {
        base + other
    }
}

/// Whether the path has a root, which on Unix is whether it is absolute.
pub open spec fn spec_has_root(p: Seq<u8>) -> bool {
    spec_is_absolute(p)
}

/// Whether the first `n` bytes of `p` begin with a `.` item that the grammar
/// keeps as the current directory: a relative path that is `.` or starts `./`.
pub open spec fn starts_with_cur_dir(p: Seq<u8>, n: int) -> bool {
    &&& !spec_has_root(p)
    &&& 1 <= n <= p.len()
    &&& p[0] == DOT
    &&& (n == 1 || p[1] == SEPARATOR)
}

/// How many leading bytes of the first `n` bytes of `p` come before its body:
/// the root, or a leading current directory.
pub open spec fn body_start(p: Seq<u8>, n: int) -> int {
    if spec_has_root(p) || starts_with_cur_dir(p, n) {
        1
    } else {
        0
    }
}

/// The index of the last byte `x` in `p[lo..n]`, or -1 when there is none.
pub open spec fn last_index_of(p: Seq<u8>, x: u8, lo: int, n: int) -> int
    decreases n - lo,
{
    if n <= lo {
        -1
    } else if p[n - 1] == x {
        n - 1
    } else {
        last_index_of(p, x, lo, n - 1)
    }
}

/// The index of the first byte `x` in `p[lo..n]`, or -1 when there is none.
pub open spec fn first_index_of(p: Seq<u8>, x: u8, lo: int, n: int) -> int
    decreases n - lo,
{
    if n <= lo {
        -1
    } else if p[lo] == x {
        lo
    } else {
        first_index_of(p, x, lo + 1, n)
    }
}

/// The index of the last separator in `p[lo..n]`, or -1 when there is none.
pub open spec fn last_sep_in(p: Seq<u8>, lo: int, n: int) -> int {
    last_index_of(p, SEPARATOR, lo, n)
}

/// `last_index_of` is -1 or the index of the last `x` in the range.
pub proof fn lemma_last_index_of(p: Seq<u8>, x: u8, lo: int, n: int)
    requires
        0 <= lo,
        n <= p.len(),
    ensures
        last_index_of(p, x, lo, n) == -1 || (lo <= last_index_of(p, x, lo, n) < n && p[last_index_of(
            p,
            x,
            lo,
            n,
        )] == x),
        last_index_of(p, x, lo, n) == -1 ==> forall|k: int| lo <= k < n ==> p[k] != x,
        forall|k: int| last_index_of(p, x, lo, n) < k < n && lo <= k ==> p[k] != x,
    decreases n - lo,
{
    if n > lo && p[n - 1] != x {
        lemma_last_index_of(p, x, lo, n - 1);
        assert forall|k: int| lo <= k < n && last_index_of(p, x, lo, n) < k implies p[k] != x by {
            if k < n - 1 {
            }
        }
    }
}

/// `first_index_of` is -1 or the index of the first `x` in the range.
pub proof fn lemma_first_index_of(p: Seq<u8>, x: u8, lo: int, n: int)
    requires
        0 <= lo,
        n <= p.len(),
    ensures
        first_index_of(p, x, lo, n) == -1 || (lo <= first_index_of(p, x, lo, n) < n && p[first_index_of(
            p,
            x,
            lo,
            n,
        )] == x),
        first_index_of(p, x, lo, n) == -1 ==> forall|k: int| lo <= k < n ==> p[k] != x,
        forall|k: int| lo <= k < n && k < first_index_of(p, x, lo, n) ==> p[k] != x,
    decreases n - lo,
{
    if n > lo && p[lo] != x {
        lemma_first_index_of(p, x, lo + 1, n);
    }
}

/// `last_sep_in` is -1 or the index of the last separator in the range.
pub proof fn lemma_last_sep_in(p: Seq<u8>, lo: int, n: int)
    requires
        0 <= lo,
        n <= p.len(),
    ensures
        last_sep_in(p, lo, n) == -1 || (lo <= last_sep_in(p, lo, n) < n && p[last_sep_in(p, lo, n)]
            == SEPARATOR),
        last_sep_in(p, lo, n) == -1 ==> forall|k: int| lo <= k < n ==> p[k] != SEPARATOR,
        forall|k: int| last_sep_in(p, lo, n) < k < n && lo <= k ==> p[k] != SEPARATOR,
{
    lemma_last_index_of(p, SEPARATOR, lo, n);
}

/// One step back over the body of the first `n` bytes of `p`: the start of the
/// last item and the length that remains once it and its separator are gone.
pub open spec fn back_step(p: Seq<u8>, n: int) -> (int, int) {
    let start = body_start(p, n);
    let j = last_sep_in(p, start, n);
    if j >= 0 {
        (j + 1, j)
    } else {
        (start, start)
    }
}

/// An item that the grammar drops: empty (from a repeated or trailing
/// separator) or `.`.
pub open spec fn is_skipped(c: Seq<u8>) -> bool {
    c.len() == 0 || c == seq![DOT]
}

/// The item `..`.
pub open spec fn is_parent_dir(c: Seq<u8>) -> bool {
    c == seq![DOT, DOT]
}

/// Where the next kept item from the back of the body lies, if any, and the
/// length that remains before it: the body is walked from its end, dropping
/// empty and `.` items.
pub open spec fn next_back_body(p: Seq<u8>, n: int) -> (int, Option<(int, int)>)
    decreases n,
{
    if 0 <= n <= p.len() && n > body_start(p, n) {
        let (cs, nn) = back_step(p, n);
        proof {
            lemma_last_sep_in(p, body_start(p, n), n);
        }
        if is_skipped(p.subrange(cs, n)) {
            next_back_body(p, nn)
        } else {
            (nn, Some((cs, n)))
        }
    } else {
        (n, None)
    }
}

/// The first `n` bytes of `p` with the dropped items at their end removed, as
/// far as the body reaches.
pub open spec fn trim_back(p: Seq<u8>, n: int) -> int
    decreases n,
{
    if 0 <= n <= p.len() && n > body_start(p, n) {
        let (cs, nn) = back_step(p, n);
        proof {
            lemma_last_sep_in(p, body_start(p, n), n);
        }
        if is_skipped(p.subrange(cs, n)) {
            trim_back(p, nn)
        } else {
            n
        }
    } else {
        n
    }
}

/// The walk back over the body stays within the first `n` bytes, and an item
/// it finds lies after what remains.
pub proof fn lemma_next_back_body_bounds(p: Seq<u8>, n: int)
    requires
        0 <= n <= p.len(),
    ensures
        0 <= next_back_body(p, n).0 <= n,
        next_back_body(p, n).1 matches Some((s, e)) ==> next_back_body(p, n).0 <= s <= e <= n
            && next_back_body(p, n).0 < e,
        next_back_body(p, n).1 matches Some((s, e)) ==> !is_skipped(p.subrange(s, e)),
        next_back_body(p, n).1 is None ==> next_back_body(p, n).0 <= body_start(
            p,
            next_back_body(p, n).0,
        ),
        spec_has_root(p) && n >= 1 ==> next_back_body(p, n).0 >= 1,
        starts_with_cur_dir(p, n) ==> next_back_body(p, n).0 >= 1,
    decreases n,
{
    if n > body_start(p, n) {
        lemma_last_sep_in(p, body_start(p, n), n);
        let (cs, nn) = back_step(p, n);
        if is_skipped(p.subrange(cs, n)) {
            lemma_next_back_body_bounds(p, nn);
        }
    }
}

/// Trimming keeps a length between zero and `n`.
pub proof fn lemma_trim_back_bounds(p: Seq<u8>, n: int)
    requires
        0 <= n <= p.len(),
    ensures
        0 <= trim_back(p, n) <= n,
        spec_has_root(p) && n >= 1 ==> trim_back(p, n) >= 1,
        starts_with_cur_dir(p, n) ==> trim_back(p, n) >= 1,
    decreases n,
{
    if n > body_start(p, n) {
        lemma_last_sep_in(p, body_start(p, n), n);
        let (cs, nn) = back_step(p, n);
        if is_skipped(p.subrange(cs, n)) {
            lemma_trim_back_bounds(p, nn);
        }
    }
}

/// The length of the parent of `p`, if it has one: `p` without its final
/// component. There is none when `p` ends in the root or is empty.
pub open spec fn spec_parent_len(p: Seq<u8>) -> Option<int> {
    let (n1, item) = next_back_body(p, p.len() as int);
    match item {
        Some(_) => Some(trim_back(p, n1)),
        None => if starts_with_cur_dir(p, n1) {
            Some(0)
        } else {
            None
        },
    }
}

/// The parent of a path is a shorter prefix of it, and keeps the root of an
/// absolute path.
pub proof fn lemma_parent_len_bounds(p: Seq<u8>)
    ensures
        spec_parent_len(p) matches Some(k) ==> 0 <= k < p.len() && (spec_has_root(p) ==> k >= 1),
{
    let n = p.len() as int;
    lemma_next_back_body_bounds(p, n);
    let n1 = next_back_body(p, n).0;
    lemma_trim_back_bounds(p, n1);
}

/// The name of the final component is non-empty, and in an absolute path it
/// comes after the root.
pub proof fn lemma_file_name_range_bounds(p: Seq<u8>)
    ensures
        file_name_range(p) matches Some((s, e)) ==> 0 <= s < e <= p.len() && (spec_has_root(p) ==> s
            >= 1),
{
    lemma_next_back_body_bounds(p, p.len() as int);
}

/// The bytes that an extension adds: nothing for an empty one, else a dot and
/// the extension.
pub open spec fn dotted(ext: Seq<u8>) -> Seq<u8> {
    if ext.len() == 0 {
        Seq::empty()
    } else {
        seq![DOT] + ext
    }
}

/// The bounds of the file stem: the file name up to its last dot, unless that
/// dot is its first byte or there is none.
pub open spec fn file_stem_range(p: Seq<u8>) -> Option<(int, int)> {
    match file_name_range(p) {
        Some((s, e)) => {
            let d = last_index_of(p, DOT, s, e);
            if d <= s {
                Some((s, e))
            } else {
                Some((s, d))
            }
        },
        None => None,
    }
}

/// The bounds of the extension: the file name after its last dot, unless that
/// dot is its first byte or there is none.
pub open spec fn extension_range(p: Seq<u8>) -> Option<(int, int)> {
    match file_name_range(p) {
        Some((s, e)) => {
            let d = last_index_of(p, DOT, s, e);
            if d <= s {
                None
            } else {
                Some((d + 1, e))
            }
        },
        None => None,
    }
}

/// The bounds of the file prefix: the file name up to its first dot after its
/// first byte, or all of it.
pub open spec fn file_prefix_range(p: Seq<u8>) -> Option<(int, int)> {
    match file_name_range(p) {
        Some((s, e)) => {
            let f = first_index_of(p, DOT, s + 1, e);
            if f < 0 {
                Some((s, e))
            } else {
                Some((s, f))
            }
        },
        None => None,
    }
}

/// The bytes that `r` bounds in `p`.
pub open spec fn slice_of(p: Seq<u8>, r: Option<(int, int)>) -> Option<Seq<u8>> {
    match r {
        Some((s, e)) => Some(p.subrange(s, e)),
        None => None,
    }
}

/// `p` with the extension of its file name replaced by `ext` (removed when
/// `ext` is empty), or nothing when `p` has no file name.
pub open spec fn spec_set_extension(p: Seq<u8>, ext: Seq<u8>) -> Option<Seq<u8>> {
    match file_stem_range(p) {
        Some((s, se)) => Some(p.subrange(0, se) + dotted(ext)),
        None => None,
    }
}

/// `p` with `ext` appended to its file name after a dot (unchanged when `ext`
/// is empty), or nothing when `p` has no file name.
pub open spec fn spec_add_extension(p: Seq<u8>, ext: Seq<u8>) -> Option<Seq<u8>> {
    match file_name_range(p) {
        Some((s, e)) => if ext.len() == 0 {
            Some(p)
        } else {
            Some(p.subrange(0, e) + dotted(ext))
        },
        None => None,
    }
}

/// Whether `ext` may be given as an extension: it holds no separator.
pub open spec fn is_extension(ext: Seq<u8>) -> bool {
    forall|i: int| 0 <= i < ext.len() ==> ext[i] != SEPARATOR
}

/// Bytes other than `x` at the end of the range do not move the last `x`.
pub proof fn lemma_last_index_of_tail(p: Seq<u8>, x: u8, lo: int, m: int, n: int)
    requires
        0 <= lo <= m <= n <= p.len(),
        forall|k: int| m <= k < n ==> p[k] != x,
    ensures
        last_index_of(p, x, lo, n) == last_index_of(p, x, lo, m),
    decreases n - m,
{
    if n > m {
        lemma_last_index_of_tail(p, x, lo, m, n - 1);
    }
}

/// The last `x` before `m` depends only on the bytes before `m`.
pub proof fn lemma_last_index_of_agree(p: Seq<u8>, q: Seq<u8>, x: u8, lo: int, m: int)
    requires
        0 <= lo,
        m <= p.len(),
        m <= q.len(),
        forall|k: int| 0 <= k < m ==> p[k] == q[k],
    ensures
        last_index_of(p, x, lo, m) == last_index_of(q, x, lo, m),
    decreases m - lo,
{
    if m > lo {
        lemma_last_index_of_agree(p, q, x, lo, m - 1);
    }
}

/// The item that the walk back over the body finds is the one a single step
/// back from its end finds.
pub proof fn lemma_next_back_body_item(p: Seq<u8>, n: int)
    requires
        0 <= n <= p.len(),
    ensures
        next_back_body(p, n).1 matches Some((s, e)) ==> e > body_start(p, e) && back_step(p, e).0
            == s && e <= n,
    decreases n,
{
    if n > body_start(p, n) {
        lemma_last_sep_in(p, body_start(p, n), n);
        let (cs, nn) = back_step(p, n);
        if is_skipped(p.subrange(cs, n)) {
            lemma_next_back_body_item(p, nn);
        }
    }
}

/// Cutting the file name of `p` after its first `m - s` bytes and appending a
/// dot and `ext` gives a path whose file name is that cut name, the dot and
/// `ext`.
pub proof fn lemma_append_to_file_name(p: Seq<u8>, m: int, ext: Seq<u8>)
    requires
        file_name_range(p) matches Some((s, e)) && s < m <= e,
        is_extension(ext),
        ext.len() > 0,
    ensures
        file_name_range(p.subrange(0, m) + seq![DOT] + ext) == Some(
            (file_name_range(p).unwrap().0, m + 1 + ext.len()),
        ),
{
    let (s, e) = file_name_range(p).unwrap();
    let q = p.subrange(0, m) + seq![DOT] + ext;
    let n = q.len() as int;
    lemma_next_back_body_bounds(p, p.len() as int);
    lemma_next_back_body_item(p, p.len() as int);
    let st = body_start(p, e);
    lemma_last_sep_in(p, st, e);
    assert forall|k: int| s <= k < e implies p[k] != SEPARATOR by {
    }
    assert(q[0] == p[0]);
    if m >= 2 {
        assert(q[1] == p[1]);
    } else {
        assert(q[1] == DOT);
    }
    assert(body_start(q, n) == st);
    assert forall|k: int| s <= k < n implies q[k] != SEPARATOR by {
        if k < m {
            assert(q[k] == p[k]);
        } else if k > m {
            assert(q[k] == ext[k - m - 1]);
        }
    }
    lemma_last_index_of_tail(q, SEPARATOR, st, s, n);
    lemma_last_index_of_agree(p, q, SEPARATOR, st, s);
    lemma_last_index_of_tail(p, SEPARATOR, st, s, e);
    assert(back_step(q, n).0 == s);
    lemma_last_sep_in(q, st, n);
    let c = q.subrange(s, n);
    assert(c.len() >= 3);
    assert(!is_skipped(c)) by {
        if c == seq![DOT] {
            assert(seq![DOT].len() == 1);
        }
    }
    assert(!is_parent_dir(c)) by {
        if c == seq![DOT, DOT] {
            assert(seq![DOT, DOT].len() == 2);
        }
    }
    assert(next_back_body(q, n).1 == Some((s, n)));
}

/// A component of a path.
#[derive(Debug, Clone, Copy, PartialEq, Eq, PartialOrd, Ord, Hash)]
pub enum Component<'a> {
    /// The root, `/`.
    RootDir,
    /// A leading `.`.
    CurDir,
    /// `..`.
    ParentDir,
    /// A name.
    Normal(&'a [u8]),
}

/// The bytes that stand for a component in the path.
pub open spec fn component_bytes(c: Component) -> Seq<u8> {
    match c {
        Component::RootDir => seq![SEPARATOR],
        Component::CurDir => seq![DOT],
        Component::ParentDir => seq![DOT, DOT],
        Component::Normal(s) => s@,
    }
}

/// Whether `c` is the component that the bytes `b` stand for: the root for
/// `/`, the current directory for `.`, the parent directory for `..`, and a
/// name holding exactly `b` for anything else.
pub open spec fn is_component_for(c: Component, b: Seq<u8>) -> bool {
    match c {
        Component::RootDir => b == seq![SEPARATOR],
        Component::CurDir => b == seq![DOT],
        Component::ParentDir => b == seq![DOT, DOT],
        Component::Normal(s) => s@ == b && b != seq![SEPARATOR] && b != seq![DOT] && b != seq![
            DOT,
            DOT,
        ],
    }
}

/// The bounds of the items of the body of `p[..n]`, first to last.
pub open spec fn body_ranges(p: Seq<u8>, n: int) -> Seq<(int, int)>
    decreases n,
{
    if 0 <= n <= p.len() {
        let (n1, item) = next_back_body(p, n);
        proof {
            lemma_next_back_body_bounds(p, n);
            lemma_next_back_body_item(p, n);
        }
        match item {
            Some(r) => body_ranges(p, n1).push(r),
            None => Seq::empty(),
        }
    } else {
        Seq::empty()
    }
}

/// The bounds of the components of `p`, first to last: the root or a
/// leading `.` (each the first byte), then the items of the body.
pub open spec fn component_ranges(p: Seq<u8>) -> Seq<(int, int)> {
    let front: Seq<(int, int)> = if spec_has_root(p) || starts_with_cur_dir(p, p.len() as int) {
        seq![(0, 1)]
    } else {
        Seq::empty()
    };
    front + body_ranges(p, p.len() as int)
}

/// The components of `p`, each as its bytes: `/` for the root, `.` for a
/// leading current directory, `..` for a parent directory, and the name
/// otherwise.
pub open spec fn spec_components(p: Seq<u8>) -> Seq<Seq<u8>> {
    component_ranges(p).map_values(|r: (int, int)| p.subrange(r.0, r.1))
}

/// Whether the components of `base` begin the components of `p`.
pub open spec fn spec_starts_with(p: Seq<u8>, base: Seq<u8>) -> bool {
    let cp = spec_components(p);
    let cb = spec_components(base);
    cb.len() <= cp.len() && cp.subrange(0, cb.len() as int) == cb
}

/// Whether the components of `child` end the components of `p`.
pub open spec fn spec_ends_with(p: Seq<u8>, child: Seq<u8>) -> bool {
    let cp = spec_components(p);
    let cc = spec_components(child);
    cc.len() <= cp.len() && cp.subrange(cp.len() - cc.len(), cp.len() as int) == cc
}

/// The bounds of the body items lie within the first `n` bytes.
pub proof fn lemma_body_ranges_bounds(p: Seq<u8>, n: int)
    requires
        0 <= n <= p.len(),
    ensures
        forall|i: int|
            0 <= i < body_ranges(p, n).len() ==> 0 <= (#[trigger] body_ranges(p, n)[i]).0 <= body_ranges(
                p,
                n,
            )[i].1 <= n,
    decreases n,
{
    lemma_next_back_body_bounds(p, n);
    lemma_next_back_body_item(p, n);
    let (n1, item) = next_back_body(p, n);
    if let Some(r) = item {
        lemma_body_ranges_bounds(p, n1);
        let b = body_ranges(p, n);
        assert forall|i: int| 0 <= i < b.len() implies 0 <= (#[trigger] b[i]).0 <= b[i].1 <= n by {
            if i < b.len() - 1 {
                assert(b[i] == body_ranges(p, n1)[i]);
            }
        }
    }
}

/// The bounds of the components lie within the path.
pub proof fn lemma_component_ranges_bounds(p: Seq<u8>)
    ensures
        forall|i: int|
            0 <= i < component_ranges(p).len() ==> 0 <= (#[trigger] component_ranges(p)[i]).0
                <= component_ranges(p)[i].1 <= p.len(),
{
    let b = body_ranges(p, p.len() as int);
    lemma_body_ranges_bounds(p, p.len() as int);
    let c = component_ranges(p);
    assert forall|i: int| 0 <= i < c.len() implies 0 <= (#[trigger] c[i]).0 <= c[i].1 <= p.len() by {
        if spec_has_root(p) || starts_with_cur_dir(p, p.len() as int) {
            if i > 0 {
                assert(c[i] == b[i - 1]);
            }
        } else {
            assert(c[i] == b[i]);
        }
    }
}

/// Where the walk back may stop: the start, just before a separator, or just
/// after the root.
pub open spec fn is_cut(p: Seq<u8>, r: int) -> bool {
    ||| r == 0
    ||| (0 <= r < p.len() && p[r] == SEPARATOR)
    ||| (r == 1 && spec_has_root(p))
}

/// The walk back and the trim stop where they started or at a cut.
pub proof fn lemma_walk_stops_at_cut(p: Seq<u8>, n: int)
    requires
        0 <= n <= p.len(),
    ensures
        next_back_body(p, n).0 == n || is_cut(p, next_back_body(p, n).0),
        trim_back(p, n) == n || is_cut(p, trim_back(p, n)),
    decreases n,
{
    if n > body_start(p, n) {
        lemma_last_sep_in(p, body_start(p, n), n);
        let (cs, nn) = back_step(p, n);
        assert(is_cut(p, nn));
        if is_skipped(p.subrange(cs, n)) {
            lemma_walk_stops_at_cut(p, nn);
        }
    }
}

/// The walk back over a prefix depends only on the bytes of the prefix.
pub proof fn lemma_walk_on_prefix(p: Seq<u8>, q: Seq<u8>, m: int)
    requires
        0 <= m <= p.len(),
        m <= q.len(),
        forall|i: int| 0 <= i < m ==> p[i] == q[i],
        spec_has_root(p) == spec_has_root(q),
    ensures
        next_back_body(p, m) == next_back_body(q, m),
        trim_back(p, m) == trim_back(q, m),
        body_ranges(p, m) == body_ranges(q, m),
    decreases m,
{
    if m >= 1 {
        assert(p[0] == q[0]);
    }
    if m >= 2 {
        assert(p[1] == q[1]);
    }
    assert(body_start(p, m) == body_start(q, m));
    lemma_next_back_body_bounds(p, m);
    lemma_next_back_body_bounds(q, m);
    if m > body_start(p, m) {
        let st = body_start(p, m);
        lemma_last_sep_in(p, st, m);
        lemma_last_index_of_agree(p, q, SEPARATOR, st, m);
        let (cs, nn) = back_step(p, m);
        assert(back_step(q, m) == (cs, nn));
        assert(p.subrange(cs, m) =~= q.subrange(cs, m));
        lemma_walk_on_prefix(p, q, nn);
        let n1 = next_back_body(p, m).0;
        lemma_walk_on_prefix(p, q, n1);
    }
}

/// Trimming the dropped items off the end does not change the items.
pub proof fn lemma_trim_keeps_ranges(p: Seq<u8>, n: int)
    requires
        0 <= n <= p.len(),
    ensures
        body_ranges(p, trim_back(p, n)) == body_ranges(p, n),
    decreases n,
{
    if n > body_start(p, n) {
        lemma_last_sep_in(p, body_start(p, n), n);
        let (cs, nn) = back_step(p, n);
        if is_skipped(p.subrange(cs, n)) {
            lemma_trim_keeps_ranges(p, nn);
            assert(next_back_body(p, n) == next_back_body(p, nn));
        }
    }
}

/// How bytes compare, first to last, a shorter prefix coming first: -1 when
/// `a` comes before `b`, 0 when they are equal, 1 when it comes after.
pub open spec fn bytes_order(a: Seq<u8>, b: Seq<u8>) -> int
    decreases a.len(),
{
    if a.len() == 0 {
        if b.len() == 0 {
            0
        } else {
            -1
        }
    } else if b.len() == 0 {
        1
    } else if a[0] < b[0] {
        -1
    } else if a[0] > b[0] {
        1
    } else {
        bytes_order(a.drop_first(), b.drop_first())
    }
}

/// The rank of a component kind: the root, then `.`, then `..`, then names.
pub open spec fn component_rank(c: Seq<u8>) -> int {
    if c == seq![SEPARATOR] {
        1
    } else if c == seq![DOT] {
        2
    } else if c == seq![DOT, DOT] {
        3
    } else {
        4
    }
}

/// How two components compare: by kind, and names by their bytes.
pub open spec fn component_order(a: Seq<u8>, b: Seq<u8>) -> int {
    if component_rank(a) < component_rank(b) {
        -1
    } else if component_rank(a) > component_rank(b) {
        1
    } else if component_rank(a) == 4 {
        bytes_order(a, b)
    } else {
        0
    }
}

/// How two lists of components compare, first to last, a shorter prefix
/// coming first.
pub open spec fn components_order(a: Seq<Seq<u8>>, b: Seq<Seq<u8>>) -> int
    decreases a.len(),
{
    if a.len() == 0 {
        if b.len() == 0 {
            0
        } else {
            -1
        }
    } else if b.len() == 0 {
        1
    } else if component_order(a[0], b[0]) != 0 {
        component_order(a[0], b[0])
    } else {
        components_order(a.drop_first(), b.drop_first())
    }
}

/// How two paths compare: by their components.
pub open spec fn path_order(p: Seq<u8>, q: Seq<u8>) -> int {
    components_order(spec_components(p), spec_components(q))
}

/// Two paths are the same path when they have the same components.
pub open spec fn same_path(p: Seq<u8>, q: Seq<u8>) -> bool {
    spec_components(p) == spec_components(q)
}

/// Whether `p[i]` is an item `.`: a dot with a separator or an end of `p` on
/// each side.
pub open spec fn is_cur_dir_item_at(p: Seq<u8>, i: int) -> bool {
    &&& 0 <= i < p.len()
    &&& p[i] == DOT
    &&& (i == 0 || p[i - 1] == SEPARATOR)
    &&& (i + 1 == p.len() || p[i + 1] == SEPARATOR)
}

/// Whether `p` holds an item `.` anywhere, which the components of `p` do not
/// show past its start.
pub open spec fn has_cur_dir_item(p: Seq<u8>) -> bool {
    exists|i: int| #[trigger] is_cur_dir_item_at(p, i)
}

/// Whether `p[i..i + 2]` is an item `..`: two dots with a separator or an end
/// of `p` on each side.
pub open spec fn is_parent_dir_item_at(p: Seq<u8>, i: int) -> bool {
    &&& 0 <= i
    &&& i + 1 < p.len()
    &&& p[i] == DOT
    &&& p[i + 1] == DOT
    &&& (i == 0 || p[i - 1] == SEPARATOR)
    &&& (i + 2 == p.len() || p[i + 2] == SEPARATOR)
}

/// Whether `p` holds an item `..` anywhere.
pub open spec fn has_parent_dir_item(p: Seq<u8>) -> bool {
    exists|i: int| #[trigger] is_parent_dir_item_at(p, i)
}

/// The shape of a canonical path: absolute, with no item `.` and no item `..`.
pub open spec fn canonical_shape(p: Seq<u8>) -> bool {
    spec_is_absolute(p) && !has_cur_dir_item(p) && !has_parent_dir_item(p)
}

/// The parent of `p`, if it has one.
#[verifier::opaque]
pub open spec fn spec_parent(p: Seq<u8>) -> Option<Seq<u8>> {
    match spec_parent_len(p) {
        Some(k) => Some(p.subrange(0, k)),
        None => None,
    }
}

/// The bounds of the final component of `p` when it is a name (neither the
/// root, `.` nor `..`).
pub open spec fn file_name_range(p: Seq<u8>) -> Option<(int, int)> {
    match next_back_body(p, p.len() as int).1 {
        Some((s, e)) => if is_parent_dir(p.subrange(s, e)) {
            None
        } else {
            Some((s, e))
        },
        None => None,
    }
}

/// The final component of `p` when it is a name.
pub open spec fn spec_file_name(p: Seq<u8>) -> Option<Seq<u8>> {
    match file_name_range(p) {
        Some((s, e)) => Some(p.subrange(s, e)),
        None => None,
    }
}

/// The bytes that an optional slice holds.
pub open spec fn bytes_view(o: Option<&[u8]>) -> Option<Seq<u8>> {
    match o {
        Some(s) => Some(s@),
        None => None,
    }
}

/// Pushing onto a path gives an absolute path exactly when the base or the
/// pushed path is absolute.
pub proof fn lemma_push_is_absolute(base: Seq<u8>, other: Seq<u8>)
    ensures
        spec_is_absolute(spec_push(base, other)) == (spec_is_absolute(base) || spec_is_absolute(
            other,
        )),
{
    if !spec_is_absolute(other) && base.len() > 0 {
        let q = spec_push(base, other);
        assert(q[0] == base[0]);
    }
}

/// Replacing or adding an extension keeps a path absolute or relative as it
/// was.
pub proof fn lemma_extension_keeps_absoluteness(p: Seq<u8>, ext: Seq<u8>)
    ensures
        spec_set_extension(p, ext) matches Some(q) ==> spec_is_absolute(q) == spec_is_absolute(p),
        spec_add_extension(p, ext) matches Some(q) ==> spec_is_absolute(q) == spec_is_absolute(p),
{
    lemma_file_name_range_bounds(p);
    if let Some((s, e)) = file_name_range(p) {
        lemma_last_index_of(p, DOT, s, e);
        let se = file_stem_range(p).unwrap().1;
        let q = spec_set_extension(p, ext).unwrap();
        assert(q[0] == p[0]);
        if ext.len() > 0 {
            let q2 = spec_add_extension(p, ext).unwrap();
            assert(q2[0] == p[0]);
        }
    }
}

/// The parent of a path is absolute or relative as the path is.
pub proof fn lemma_parent_keeps_absoluteness(p: Seq<u8>)
    ensures
        spec_parent(p) matches Some(q) ==> spec_is_absolute(q) == spec_is_absolute(p),
{
    reveal(spec_parent);
    lemma_parent_len_bounds(p);
}

} // verus!
