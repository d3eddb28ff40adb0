//! Operations on paths held as bytes, each proved to compute what the
//! grammar says.

use vstd::prelude::*;
use vstd::utf8::{decode_utf8, valid_utf8};

use crate::grammar::{
    Component, DOT, SEPARATOR, back_step, body_ranges, body_start, bytes_order, component_bytes,
    has_cur_dir_item, has_parent_dir_item, is_component_for, is_cur_dir_item_at,
    is_parent_dir_item_at,
    component_order, component_ranges, component_rank, components_order, extension_range,
    file_name_range, file_prefix_range, file_stem_range, first_index_of, is_parent_dir, is_skipped,
    last_index_of, lemma_component_ranges_bounds, lemma_file_name_range_bounds, lemma_last_index_of,
    lemma_last_sep_in, lemma_next_back_body_bounds, lemma_next_back_body_item, next_back_body,
    path_order, same_path, spec_add_extension, spec_components, spec_ends_with, spec_is_absolute,
    spec_parent_len, spec_push, spec_set_extension, spec_starts_with, trim_back,
};

verus! {

/// Returns whether `p` is absolute.
pub fn is_absolute(p: &[u8]) -> (r: bool)
    ensures
        r == spec_is_absolute(p@),
{
    p.len() > 0 && p[0] == SEPARATOR
}

/// Appends the bytes of `other` to `dst`.
fn extend_bytes(dst: &mut Vec<u8>, other: &[u8])
    ensures
        final(dst)@ == old(dst)@ + other@,
{
    let mut i: usize = 0;
    while i < other.len()
        invariant
            i <= other@.len(),
            dst@ == old(dst)@ + other@.subrange(0, i as int),
        decreases other@.len() - i,
    {
        dst.push(other[i]);
        i += 1;
        assert(other@.subrange(0, i as int) == other@.subrange(0, i - 1) + seq![other@[i - 1]]);
    }
    assert(other@.subrange(0, other@.len() as int) == other@);
}

/// A copy of the bytes of `p`.
pub fn copy_bytes(p: &[u8]) -> (r: Vec<u8>)
    ensures
        r@ == p@,
{
    let mut r: Vec<u8> = Vec::new();
    extend_bytes(&mut r, p);
    assert(r@ =~= p@);
    r
}

/// Whether `a` and `b` hold the same bytes.
pub fn bytes_equal(a: &[u8], b: &[u8]) -> (r: bool)
    ensures
        r == (a@ == b@),
{
    if a.len() != b.len() {
        return false;
    }
    let mut i: usize = 0;
    while i < a.len()
        invariant
            a@.len() == b@.len(),
            i <= a@.len(),
            forall|k: int| 0 <= k < i ==> a@[k] == b@[k],
        decreases a@.len() - i,
    {
        if a[i] != b[i] {
            return false;
        }
        i += 1;
    }
    assert(a@ =~= b@);
    true
}

/// Pushes `other` onto the path held in `base`.
pub fn push_bytes(base: &mut Vec<u8>, other: &[u8])
    ensures
        final(base)@ == spec_push(old(base)@, other@),
{
    if is_absolute(other) {
        base.clear();
        extend_bytes(base, other);
    } else {
        let n = base.len();
        if n > 0 && base[n - 1] != SEPARATOR {
            base.push(SEPARATOR);
        }
        extend_bytes(base, other);
    }
}

/// The bounds held in `r`, as integers.
pub open spec fn range_view(r: Option<(usize, usize)>) -> Option<(int, int)> {
    match r {
        Some((s, e)) => Some((s as int, e as int)),
        None => None,
    }
}

/// How many leading bytes of `p[..n]` come before its body.
fn body_start_of(p: &[u8], n: usize) -> (r: usize)
    requires
        n <= p@.len(),
    ensures
        r == body_start(p@, n as int),
{
    if p.len() > 0 && p[0] == SEPARATOR {
        1
    } else if n >= 1 && p[0] == DOT && (n == 1 || p[1] == SEPARATOR) {
        1
    } else {
        0
    }
}

/// The index of the last byte `x` in `p[lo..n]`.
fn last_index(p: &[u8], x: u8, lo: usize, n: usize) -> (r: Option<usize>)
    requires
        lo <= n <= p@.len(),
    ensures
        match r {
            Some(j) => last_index_of(p@, x, lo as int, n as int) == j,
            None => last_index_of(p@, x, lo as int, n as int) == -1,
        },
{
    let mut k = n;
    while k > lo
        invariant
            lo <= k <= n <= p@.len(),
            last_index_of(p@, x, lo as int, n as int) == last_index_of(p@, x, lo as int, k as int),
        decreases k,
    {
        if p[k - 1] == x {
            return Some(k - 1);
        }
        k -= 1;
    }
    None
}

/// The index of the first byte `x` in `p[lo..n]`.
fn first_index(p: &[u8], x: u8, lo: usize, n: usize) -> (r: Option<usize>)
    requires
        lo <= n <= p@.len(),
    ensures
        match r {
            Some(j) => first_index_of(p@, x, lo as int, n as int) == j,
            None => first_index_of(p@, x, lo as int, n as int) == -1,
        },
{
    let mut k = lo;
    while k < n
        invariant
            lo <= k <= n <= p@.len(),
            first_index_of(p@, x, lo as int, n as int) == first_index_of(p@, x, k as int, n as int),
        decreases n - k,
    {
        if p[k] == x {
            return Some(k);
        }
        k += 1;
    }
    None
}

/// Whether `p[s..e]` is an item the grammar drops.
fn is_skipped_at(p: &[u8], s: usize, e: usize) -> (r: bool)
    requires
        s <= e <= p@.len(),
    ensures
        r == is_skipped(p@.subrange(s as int, e as int)),
{
    let ghost c = p@.subrange(s as int, e as int);
    let ghost dot: Seq<u8> = seq![DOT];
    assert(dot.len() == 1 && dot[0] == DOT);
    if s == e {
        true
    } else if e - s == 1 && p[s] == DOT {
        assert(c =~= dot);
        true
    } else {
        if e - s == 1 {
            assert(c[0] == p@[s as int]);
            assert(c[0] != dot[0]);
        } else {
            assert(c.len() != dot.len());
        }
        false
    }
}

/// Whether `p[s..e]` is `..`.
fn is_parent_dir_at(p: &[u8], s: usize, e: usize) -> (r: bool)
    requires
        s <= e <= p@.len(),
    ensures
        r == is_parent_dir(p@.subrange(s as int, e as int)),
{
    let ghost c = p@.subrange(s as int, e as int);
    let ghost dots: Seq<u8> = seq![DOT, DOT];
    assert(dots.len() == 2 && dots[0] == DOT && dots[1] == DOT);
    if e - s == 2 && p[s] == DOT && p[s + 1] == DOT {
        assert(c =~= dots);
        true
    } else {
        if e - s == 2 {
            assert(c[0] == p@[s as int]);
            assert(c[1] == p@[s + 1]);
            assert(c[0] != dots[0] || c[1] != dots[1]);
        } else {
            assert(c.len() != dots.len());
        }
        false
    }
}

/// One step back over the body of `p[..n]`.
fn back_step_at(p: &[u8], n: usize) -> (r: (usize, usize))
    requires
        n <= p@.len(),
        n > body_start(p@, n as int),
    ensures
        (r.0 as int, r.1 as int) == back_step(p@, n as int),
        r.1 < n,
        r.1 <= r.0 <= n,
{
    let start = body_start_of(p, n);
    proof {
        lemma_last_sep_in(p@, start as int, n as int);
    }
    match last_index(p, SEPARATOR, start, n) {
        Some(j) => (j + 1, j),
        None => (start, start),
    }
}

/// Walks back over the body of `p[..n]` to its last kept item.
fn next_back_in_body(p: &[u8], n: usize) -> (r: (usize, Option<(usize, usize)>))
    requires
        n <= p@.len(),
    ensures
        (r.0 as int, range_view(r.1)) == next_back_body(p@, n as int),
{
    let mut k = n;
    while k > body_start_of(p, k)
        invariant
            k <= n <= p@.len(),
            next_back_body(p@, n as int) == next_back_body(p@, k as int),
        decreases k,
    {
        let (cs, nn) = back_step_at(p, k);
        if !is_skipped_at(p, cs, k) {
            return (nn, Some((cs, k)));
        }
        k = nn;
    }
    (k, None)
}

/// Drops the skipped items at the end of the body of `p[..n]`.
fn trim_back_at(p: &[u8], n: usize) -> (r: usize)
    requires
        n <= p@.len(),
    ensures
        r == trim_back(p@, n as int),
{
    let mut k = n;
    while k > body_start_of(p, k)
        invariant
            k <= n <= p@.len(),
            trim_back(p@, n as int) == trim_back(p@, k as int),
        decreases k,
    {
        let (cs, nn) = back_step_at(p, k);
        if !is_skipped_at(p, cs, k) {
            return k;
        }
        k = nn;
    }
    k
}

/// The length of the parent of `p`, if it has one.
pub fn parent_len(p: &[u8]) -> (r: Option<usize>)
    ensures
        match r {
            Some(k) => spec_parent_len(p@) == Some(k as int),
            None => spec_parent_len(p@).is_none(),
        },
{
    let (n1, item) = next_back_in_body(p, p.len());
    proof {
        lemma_next_back_body_bounds(p@, p@.len() as int);
    }
    match item {
        Some(_) => Some(trim_back_at(p, n1)),
        None => {
            if n1 >= 1 && !is_absolute(p) && p[0] == DOT && (n1 == 1 || p[1] == SEPARATOR) {
                Some(0)
            } else {
                None
            }
        },
    }
}

/// The bounds of the final component of `p` when it is a name.
pub fn file_name_bounds(p: &[u8]) -> (r: Option<(usize, usize)>)
    ensures
        range_view(r) == file_name_range(p@),
{
    let (_, item) = next_back_in_body(p, p.len());
    proof {
        lemma_next_back_body_bounds(p@, p@.len() as int);
    }
    match item {
        Some((s, e)) => {
            if is_parent_dir_at(p, s, e) {
                None
            } else {
                Some((s, e))
            }
        },
        None => None,
    }
}

/// The bounds of the components of `p`, first to last.
pub fn component_bounds(p: &[u8]) -> (r: Vec<(usize, usize)>)
    ensures
        r@.len() == component_ranges(p@).len(),
        forall|i: int|
            0 <= i < r@.len() ==> (r@[i].0 as int, r@[i].1 as int) == #[trigger] component_ranges(
                p@,
            )[i],
{
    let mut back: Vec<(usize, usize)> = Vec::new();
    let mut k = p.len();
    let ghost all = body_ranges(p@, p@.len() as int);
    loop
        invariant
            k <= p@.len(),
            all.len() == body_ranges(p@, k as int).len() + back@.len(),
            forall|i: int|
                0 <= i < body_ranges(p@, k as int).len() ==> #[trigger] all[i] == body_ranges(
                    p@,
                    k as int,
                )[i],
            forall|i: int|
                0 <= i < back@.len() ==> (back@[i].0 as int, back@[i].1 as int) == #[trigger] all[all.len()
                    - 1 - i],
        ensures
            all.len() == back@.len(),
            forall|i: int|
                0 <= i < back@.len() ==> (back@[i].0 as int, back@[i].1 as int) == #[trigger] all[all.len()
                    - 1 - i],
        decreases k,
    {
        proof {
            lemma_next_back_body_bounds(p@, k as int);
            lemma_next_back_body_item(p@, k as int);
        }
        let (n1, item) = next_back_in_body(p, k);
        match item {
            Some((s, e)) => {
                let ghost before = body_ranges(p@, k as int);
                assert(before == body_ranges(p@, n1 as int).push((s as int, e as int)));
                back.push((s, e));
                k = n1;
            },
            None => {
                assert(body_ranges(p@, k as int).len() == 0);
                break ;
            },
        }
    }
    let mut r: Vec<(usize, usize)> = Vec::new();
    let front = if is_absolute(p) {
        true
    } else {
        let n = p.len();
        n >= 1 && p[0] == DOT && (n == 1 || p[1] == SEPARATOR)
    };
    if front {
        r.push((0, 1));
    }
    let ghost f: int = if front { 1 } else { 0 };
    let mut i = back.len();
    while i > 0
        invariant
            i <= back@.len(),
            all.len() == back@.len(),
            f == (if front { 1int } else { 0int }),
            r@.len() == f + (back@.len() - i),
            front ==> r@[0] == (0usize, 1usize),
            forall|j: int|
                f <= j < r@.len() ==> (r@[j].0 as int, r@[j].1 as int) == #[trigger] all[j - f],
            forall|j: int|
                0 <= j < back@.len() ==> (back@[j].0 as int, back@[j].1 as int) == #[trigger] all[all.len()
                    - 1 - j],
        decreases i,
    {
        i -= 1;
        let ghost old_r = r@;
        r.push(back[i]);
        assert(r@[r@.len() - 1] == back@[i as int]);
        if front {
            assert(r@[0] == old_r[0]);
        }
        assert forall|j: int| f <= j < r@.len() implies (r@[j].0 as int, r@[j].1 as int)
            == #[trigger] all[j - f] by {
            if j < r@.len() - 1 {
                assert(r@[j] == old_r[j]);
            } else {
                assert(all.len() - 1 - i == j - f);
            }
        }
    }
    assert(component_ranges(p@) =~= (if front { seq![(0int, 1int)] } else { Seq::<(int, int)>::empty() }) + all);
    r
}

/// Whether the components of `p` from the `off`-th on begin with all the
/// components of `q`.
fn components_match_at(p: &[u8], cp: &Vec<(usize, usize)>, off: usize, q: &[u8], cq: &Vec<(usize, usize)>) -> (r: bool)
    requires
        cp@.len() == component_ranges(p@).len(),
        forall|i: int|
            0 <= i < cp@.len() ==> (cp@[i].0 as int, cp@[i].1 as int) == #[trigger] component_ranges(
                p@,
            )[i],
        cq@.len() == component_ranges(q@).len(),
        forall|i: int|
            0 <= i < cq@.len() ==> (cq@[i].0 as int, cq@[i].1 as int) == #[trigger] component_ranges(
                q@,
            )[i],
        off + cq@.len() <= cp@.len(),
    ensures
        r == (spec_components(p@).subrange(off as int, off + cq@.len()) == spec_components(q@)),
{
    proof {
        lemma_component_ranges_bounds(p@);
        lemma_component_ranges_bounds(q@);
    }
    let ghost sp = spec_components(p@);
    let ghost sq = spec_components(q@);
    let mut i: usize = 0;
    while i < cq.len()
        invariant
            i <= cq@.len(),
            off + cq@.len() <= cp@.len(),
            sp == spec_components(p@),
            sq == spec_components(q@),
            cp@.len() == component_ranges(p@).len(),
            cq@.len() == component_ranges(q@).len(),
            forall|j: int|
                0 <= j < cp@.len() ==> (cp@[j].0 as int, cp@[j].1 as int) == #[trigger] component_ranges(
                    p@,
                )[j],
            forall|j: int|
                0 <= j < cq@.len() ==> (cq@[j].0 as int, cq@[j].1 as int) == #[trigger] component_ranges(
                    q@,
                )[j],
            forall|j: int|
                0 <= j < component_ranges(p@).len() ==> 0 <= (#[trigger] component_ranges(p@)[j]).0
                    <= component_ranges(p@)[j].1 <= p@.len(),
            forall|j: int|
                0 <= j < component_ranges(q@).len() ==> 0 <= (#[trigger] component_ranges(q@)[j]).0
                    <= component_ranges(q@)[j].1 <= q@.len(),
            forall|j: int| 0 <= j < i ==> sp[off + j] == sq[j],
        decreases cq@.len() - i,
    {
        assert(cp@.len() == cp.len());
        let (ps, pe) = cp[off + i];
        let (qs, qe) = cq[i];
        assert(component_ranges(p@)[off + i] == (ps as int, pe as int));
        assert(component_ranges(q@)[i as int] == (qs as int, qe as int));
        let same = bytes_equal(&p[ps..pe], &q[qs..qe]);
        assert(sp[off + i] == p@.subrange(ps as int, pe as int));
        assert(sq[i as int] == q@.subrange(qs as int, qe as int));
        if !same {
            assert(sp.subrange(off as int, off + cq@.len())[i as int] == sp[off + i]);
            return false;
        }
        i += 1;
    }
    assert(sp.subrange(off as int, off + cq@.len()) =~= sq);
    true
}

/// Whether the components of `base` begin the components of `p`.
pub fn starts_with_bytes(p: &[u8], base: &[u8]) -> (r: bool)
    ensures
        r == spec_starts_with(p@, base@),
{
    let cp = component_bounds(p);
    let cb = component_bounds(base);
    if cb.len() > cp.len() {
        return false;
    }
    components_match_at(p, &cp, 0, base, &cb)
}

/// Whether the components of `child` end the components of `p`.
pub fn ends_with_bytes(p: &[u8], child: &[u8]) -> (r: bool)
    ensures
        r == spec_ends_with(p@, child@),
{
    let cp = component_bounds(p);
    let cc = component_bounds(child);
    if cc.len() > cp.len() {
        return false;
    }
    components_match_at(p, &cp, cp.len() - cc.len(), child, &cc)
}

/// The component that `p[s..e]` stands for.
fn component_at<'a>(p: &'a [u8], s: usize, e: usize) -> (r: Component<'a>)
    requires
        s <= e <= p@.len(),
    ensures
        is_component_for(r, p@.subrange(s as int, e as int)),
        component_bytes(r) == p@.subrange(s as int, e as int),
{
    let c = &p[s..e];
    let ghost b = p@.subrange(s as int, e as int);
    let ghost root: Seq<u8> = seq![SEPARATOR];
    let ghost dot: Seq<u8> = seq![DOT];
    assert(root.len() == 1 && root[0] == SEPARATOR);
    assert(dot.len() == 1 && dot[0] == DOT);
    if e - s == 1 && p[s] == SEPARATOR {
        assert(c@ =~= root);
        Component::RootDir
    } else if e - s == 1 && p[s] == DOT {
        assert(c@ =~= dot);
        Component::CurDir
    } else if is_parent_dir_at(p, s, e) {
        Component::ParentDir
    } else {
        proof {
            assert(c@ == b);
            if b.len() == 1 {
                assert(b[0] == p@[s as int]);
            }
            assert(b != root && b != dot);
        }
        Component::Normal(c)
    }
}

/// The components of `p`, first to last.
pub fn components_of<'a>(p: &'a [u8]) -> (r: Vec<Component<'a>>)
    ensures
        r@.len() == spec_components(p@).len(),
        forall|i: int| 0 <= i < r@.len() ==> is_component_for(#[trigger] r@[i], spec_components(p@)[i]),
        forall|i: int| 0 <= i < r@.len() ==> component_bytes(#[trigger] r@[i]) == spec_components(p@)[i],
{
    let bounds = component_bounds(p);
    proof {
        lemma_component_ranges_bounds(p@);
    }
    let mut r: Vec<Component<'a>> = Vec::new();
    let mut i: usize = 0;
    while i < bounds.len()
        invariant
            i <= bounds@.len(),
            r@.len() == i,
            bounds@.len() == component_ranges(p@).len(),
            forall|j: int|
                0 <= j < bounds@.len() ==> (bounds@[j].0 as int, bounds@[j].1 as int)
                    == #[trigger] component_ranges(p@)[j],
            forall|j: int|
                0 <= j < component_ranges(p@).len() ==> 0 <= (#[trigger] component_ranges(p@)[j]).0
                    <= component_ranges(p@)[j].1 <= p@.len(),
            forall|j: int| 0 <= j < i ==> is_component_for(#[trigger] r@[j], spec_components(p@)[j]),
            forall|j: int| 0 <= j < i ==> component_bytes(#[trigger] r@[j]) == spec_components(p@)[j],
        decreases bounds@.len() - i,
    {
        let (s, e) = bounds[i];
        assert(component_ranges(p@)[i as int] == (s as int, e as int));
        r.push(component_at(p, s, e));
        i += 1;
    }
    r
}

/// How the bytes `a` and `b` compare.
fn bytes_order_of(a: &[u8], b: &[u8]) -> (r: i8)
    ensures
        r == bytes_order(a@, b@),
{
    let mut i: usize = 0;
    let n = if a.len() < b.len() {
        a.len()
    } else {
        b.len()
    };
    assert(a@.skip(0) =~= a@);
    assert(b@.skip(0) =~= b@);
    while i < n
        invariant
            i <= n,
            n <= a@.len(),
            n <= b@.len(),
            n == a@.len() || n == b@.len(),
            bytes_order(a@, b@) == bytes_order(a@.skip(i as int), b@.skip(i as int)),
        decreases n - i,
    {
        assert(a@.skip(i as int)[0] == a@[i as int]);
        assert(b@.skip(i as int)[0] == b@[i as int]);
        assert(a@.skip(i as int).len() > 0 && b@.skip(i as int).len() > 0);
        if a[i] < b[i] {
            return -1;
        } else if a[i] > b[i] {
            return 1;
        }
        assert(a@.skip(i as int).drop_first() =~= a@.skip(i + 1));
        assert(b@.skip(i as int).drop_first() =~= b@.skip(i + 1));
        i += 1;
    }
    assert(a@.skip(i as int).len() == a@.len() - i);
    assert(b@.skip(i as int).len() == b@.len() - i);
    assert(i == n);
    if a.len() == b.len() {
        0
    } else if a.len() < b.len() {
        -1
    } else {
        1
    }
}

/// The rank of the component `p[s..e]`.
fn component_rank_at(p: &[u8], s: usize, e: usize) -> (r: i8)
    requires
        s <= e <= p@.len(),
    ensures
        r == component_rank(p@.subrange(s as int, e as int)),
{
    let ghost x = p@.subrange(s as int, e as int);
    let ghost root: Seq<u8> = seq![SEPARATOR];
    let ghost dot: Seq<u8> = seq![DOT];
    let ghost dots: Seq<u8> = seq![DOT, DOT];
    assert(root.len() == 1 && root[0] == SEPARATOR);
    assert(dot.len() == 1 && dot[0] == DOT);
    assert(dots.len() == 2);
    if e - s == 1 {
        assert(x.len() == 1 && x[0] == p@[s as int]);
    }
    if e - s == 1 && p[s] == SEPARATOR {
        assert(x =~= root);
        1
    } else if e - s == 1 && p[s] == DOT {
        assert(x =~= dot);
        assert(x != root);
        2
    } else if is_parent_dir_at(p, s, e) {
        assert(x != root && x != dot);
        3
    } else {
        assert(x != root && x != dot);
        4
    }
}

/// How the components `p[s..e]` and `q[t..f]` compare.
fn component_order_at(p: &[u8], s: usize, e: usize, q: &[u8], t: usize, f: usize) -> (r: i8)
    requires
        s <= e <= p@.len(),
        t <= f <= q@.len(),
    ensures
        r == component_order(p@.subrange(s as int, e as int), q@.subrange(t as int, f as int)),
{
    let ra = component_rank_at(p, s, e);
    let rb = component_rank_at(q, t, f);
    if ra < rb {
        -1
    } else if ra > rb {
        1
    } else if ra == 4 {
        bytes_order_of(&p[s..e], &q[t..f])
    } else {
        0
    }
}

/// How the paths `p` and `q` compare, by their components.
pub fn path_order_of(p: &[u8], q: &[u8]) -> (r: i8)
    ensures
        r == path_order(p@, q@),
{
    let cp = component_bounds(p);
    let cq = component_bounds(q);
    proof {
        lemma_component_ranges_bounds(p@);
        lemma_component_ranges_bounds(q@);
    }
    let ghost sp = spec_components(p@);
    let ghost sq = spec_components(q@);
    assert(sp.skip(0) =~= sp);
    assert(sq.skip(0) =~= sq);
    let mut i: usize = 0;
    while i < cp.len() && i < cq.len()
        invariant
            i <= cp@.len(),
            i <= cq@.len(),
            sp == spec_components(p@),
            sq == spec_components(q@),
            cp@.len() == component_ranges(p@).len(),
            cq@.len() == component_ranges(q@).len(),
            forall|j: int|
                0 <= j < cp@.len() ==> (cp@[j].0 as int, cp@[j].1 as int) == #[trigger] component_ranges(
                    p@,
                )[j],
            forall|j: int|
                0 <= j < cq@.len() ==> (cq@[j].0 as int, cq@[j].1 as int) == #[trigger] component_ranges(
                    q@,
                )[j],
            forall|j: int|
                0 <= j < component_ranges(p@).len() ==> 0 <= (#[trigger] component_ranges(p@)[j]).0
                    <= component_ranges(p@)[j].1 <= p@.len(),
            forall|j: int|
                0 <= j < component_ranges(q@).len() ==> 0 <= (#[trigger] component_ranges(q@)[j]).0
                    <= component_ranges(q@)[j].1 <= q@.len(),
            path_order(p@, q@) == components_order(sp.skip(i as int), sq.skip(i as int)),
        decreases cp@.len() - i,
    {
        let (s, e) = cp[i];
        let (t, f) = cq[i];
        assert(component_ranges(p@)[i as int] == (s as int, e as int));
        assert(component_ranges(q@)[i as int] == (t as int, f as int));
        assert(sp.skip(i as int)[0] == p@.subrange(s as int, e as int));
        assert(sq.skip(i as int)[0] == q@.subrange(t as int, f as int));
        let o = component_order_at(p, s, e, q, t, f);
        if o != 0 {
            return o;
        }
        assert(sp.skip(i as int).drop_first() =~= sp.skip(i + 1));
        assert(sq.skip(i as int).drop_first() =~= sq.skip(i + 1));
        i += 1;
    }
    assert(sp.len() == cp@.len());
    assert(sq.len() == cq@.len());
    assert(sp.skip(i as int).len() == sp.len() - i);
    assert(sq.skip(i as int).len() == sq.len() - i);
    if cp.len() == cq.len() {
        0
    } else if cp.len() < cq.len() {
        -1
    } else {
        1
    }
}

/// Whether `p` and `q` have the same components.
pub fn same_path_bytes(p: &[u8], q: &[u8]) -> (r: bool)
    ensures
        r == same_path(p@, q@),
{
    let cp = component_bounds(p);
    let cq = component_bounds(q);
    assert(spec_components(p@).len() == cp@.len());
    assert(spec_components(q@).len() == cq@.len());
    if cp.len() != cq.len() {
        return false;
    }
    assert(spec_components(p@).subrange(0, cq@.len() as int) =~= spec_components(p@));
    components_match_at(p, &cp, 0, q, &cq)
}

/// The bytes `b` as text, made by `String::from_utf8_lossy`.
///
/// Bytes that are valid UTF-8 give the text they encode. Where they are not,
/// std replaces each invalid sequence with U+FFFD; which sequences those are
/// is left unsaid here.
#[verifier::external_body]
pub(crate) fn lossy_text(b: &[u8]) -> (r: String)
    ensures
        valid_utf8(b@) ==> r@ == decode_utf8(b@),
{
    String::from_utf8_lossy(b).into_owned()
}

/// Whether `p` holds an item `.` anywhere.
pub fn has_cur_dir_item_bytes(p: &[u8]) -> (r: bool)
    ensures
        r == has_cur_dir_item(p@),
{
    let n = p.len();
    let mut i: usize = 0;
    while i < n
        invariant
            n == p@.len(),
            i <= n,
            forall|k: int| 0 <= k < i ==> !#[trigger] is_cur_dir_item_at(p@, k),
        decreases n - i,
    {
        if p[i] == DOT && (i == 0 || p[i - 1] == SEPARATOR) && (i + 1 == n || p[i + 1] == SEPARATOR) {
            assert(is_cur_dir_item_at(p@, i as int));
            return true;
        }
        i += 1;
    }
    proof {
        assert forall|k: int| !#[trigger] is_cur_dir_item_at(p@, k) by {
            if 0 <= k < n {
            }
        }
    }
    false
}

/// Whether `p` holds an item `..` anywhere.
pub fn has_parent_dir_item_bytes(p: &[u8]) -> (r: bool)
    ensures
        r == has_parent_dir_item(p@),
{
    let n = p.len();
    let mut i: usize = 0;
    while i < n
        invariant
            n == p@.len(),
            i <= n,
            forall|k: int| 0 <= k < i ==> !#[trigger] is_parent_dir_item_at(p@, k),
        decreases n - i,
    {
        if i + 1 < n && p[i] == DOT && p[i + 1] == DOT && (i == 0 || p[i - 1] == SEPARATOR) && (i
            + 2 == n || p[i + 2] == SEPARATOR) {
            assert(is_parent_dir_item_at(p@, i as int));
            return true;
        }
        i += 1;
    }
    proof {
        assert forall|k: int| !#[trigger] is_parent_dir_item_at(p@, k) by {
            if 0 <= k < n {
            }
        }
    }
    false
}

/// Feeds `parts` to `state` with `<[&[u8]] as Hash>::hash`.
///
/// No contract is given: `H` is any hasher, and what its state holds after
/// the call is left unsaid.
#[verifier::external_body]
fn hash_parts<H: core::hash::Hasher>(parts: &[&[u8]], state: &mut H) {
    core::hash::Hash::hash(parts, state)
}

/// The components of `p`, first to last, each as the bytes of `p` that stand
/// for it.
pub fn component_slices<'a>(p: &'a [u8]) -> (r: Vec<&'a [u8]>)
    ensures
        r@.len() == spec_components(p@).len(),
        forall|i: int| 0 <= i < r@.len() ==> (#[trigger] r@[i])@ == spec_components(p@)[i],
{
    let bounds = component_bounds(p);
    proof {
        lemma_component_ranges_bounds(p@);
    }
    let mut parts: Vec<&'a [u8]> = Vec::new();
    let mut i: usize = 0;
    while i < bounds.len()
        invariant
            i <= bounds@.len(),
            parts@.len() == i,
            bounds@.len() == component_ranges(p@).len(),
            forall|j: int|
                0 <= j < bounds@.len() ==> (bounds@[j].0 as int, bounds@[j].1 as int)
                    == #[trigger] component_ranges(p@)[j],
            forall|j: int|
                0 <= j < component_ranges(p@).len() ==> 0 <= (#[trigger] component_ranges(p@)[j]).0
                    <= component_ranges(p@)[j].1 <= p@.len(),
            forall|j: int| 0 <= j < i ==> (#[trigger] parts@[j])@ == spec_components(p@)[j],
        decreases bounds@.len() - i,
    {
        let (s, e) = bounds[i];
        assert(component_ranges(p@)[i as int] == (s as int, e as int));
        parts.push(&p[s..e]);
        i += 1;
    }
    parts
}

/// Feeds the components of `p` to `state`, as byte slices, first to last.
///
/// What `state` holds afterwards is left unsaid: the hasher is any type, and
/// the feeding is std's hashing of a slice of byte slices.
pub fn hash_path<H: core::hash::Hasher>(p: &[u8], state: &mut H) {
    let parts = component_slices(p);
    hash_parts(parts.as_slice(), state);
}

/// The bounds of the file stem of `p`.
pub fn file_stem_bounds(p: &[u8]) -> (r: Option<(usize, usize)>)
    ensures
        range_view(r) == file_stem_range(p@),
{
    proof {
        lemma_file_name_range_bounds(p@);
    }
    match file_name_bounds(p) {
        Some((s, e)) => match last_index(p, DOT, s, e) {
            Some(d) => if d <= s {
                Some((s, e))
            } else {
                Some((s, d))
            },
            None => Some((s, e)),
        },
        None => None,
    }
}

/// The bounds of the extension of `p`.
pub fn extension_bounds(p: &[u8]) -> (r: Option<(usize, usize)>)
    ensures
        range_view(r) == extension_range(p@),
{
    proof {
        lemma_file_name_range_bounds(p@);
    }
    match file_name_bounds(p) {
        Some((s, e)) => {
            proof {
                lemma_last_index_of(p@, DOT, s as int, e as int);
            }
            match last_index(p, DOT, s, e) {
                Some(d) => if d <= s {
                    None
                } else {
                    Some((d + 1, e))
                },
                None => None,
            }
        },
        None => None,
    }
}

/// The bounds of the file prefix of `p`.
pub fn file_prefix_bounds(p: &[u8]) -> (r: Option<(usize, usize)>)
    ensures
        range_view(r) == file_prefix_range(p@),
{
    proof {
        lemma_file_name_range_bounds(p@);
    }
    match file_name_bounds(p) {
        Some((s, e)) => match first_index(p, DOT, s + 1, e) {
            Some(f) => Some((s, f)),
            None => Some((s, e)),
        },
        None => None,
    }
}

/// Replaces the extension of the file name held in `path`.
pub fn set_extension_bytes(path: &mut Vec<u8>, ext: &[u8]) -> (r: bool)
    ensures
        match spec_set_extension(old(path)@, ext@) {
            Some(q) => r && final(path)@ == q,
            None => !r && final(path)@ == old(path)@,
        },
{
    proof {
        lemma_file_name_range_bounds(path@);
        if let Some((s, e)) = file_name_range(path@) {
            lemma_last_index_of(path@, DOT, s, e);
        }
    }
    match file_stem_bounds(path.as_slice()) {
        Some((_, stem_end)) => {
            path.truncate(stem_end);
            if ext.len() > 0 {
                path.push(DOT);
                extend_bytes(path, ext);
            }
            true
        },
        None => false,
    }
}

/// Appends an extension to the file name held in `path`.
pub fn add_extension_bytes(path: &mut Vec<u8>, ext: &[u8]) -> (r: bool)
    ensures
        match spec_add_extension(old(path)@, ext@) {
            Some(q) => r && final(path)@ == q,
            None => !r && final(path)@ == old(path)@,
        },
{
    proof {
        lemma_file_name_range_bounds(path@);
    }
    match file_name_bounds(path.as_slice()) {
        Some((_, name_end)) => {
            if ext.len() > 0 {
                path.truncate(name_end);
                path.push(DOT);
                extend_bytes(path, ext);
            }
            true
        },
        None => false,
    }
}

} // verus!
