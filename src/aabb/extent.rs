use vstd::prelude::*;

verus! {

/// The mathematical model of an axis-aligned box of any dimension: on axis
/// `i` it spans the closed interval `[lo[i], hi[i]]`.
pub struct Extent {
    pub lo: Seq<int>,
    pub hi: Seq<int>,
}

/// `e` has `d` axes and `lo <= hi` on each of them.
pub open spec fn well_formed(e: Extent, d: nat) -> bool {
    &&& e.lo.len() == d
    &&& e.hi.len() == d
    &&& forall|i: int| 0 <= i < d ==> e.lo[i] <= e.hi[i]
}

/// `e` has positive extent on each of its `d` axes.
pub open spec fn solid(e: Extent, d: nat) -> bool {
    forall|i: int| 0 <= i < d ==> e.lo[i] < e.hi[i]
}

/// `a` holds all of `b`, boundaries included.
pub open spec fn encloses(a: Extent, b: Extent, d: nat) -> bool {
    forall|i: int| 0 <= i < d ==> a.lo[i] <= b.lo[i] && b.hi[i] <= a.hi[i]
}

/// The open intervals of `a` and `b` meet on every axis. Boxes that share
/// only a face, an edge or a corner do not meet.
pub open spec fn meets(a: Extent, b: Extent, d: nat) -> bool {
    forall|i: int| 0 <= i < d ==> a.lo[i] < b.hi[i] && b.lo[i] < a.hi[i]
}

/// The point `q` lies in `e`, boundaries included.
pub open spec fn within(e: Extent, q: Seq<int>, d: nat) -> bool {
    forall|i: int| 0 <= i < d ==> e.lo[i] <= q[i] && q[i] <= e.hi[i]
}

/// Area (two axes) or volume (three axes) of `e`: the product of its extents
/// over the first `d` axes.
pub open spec fn measure(e: Extent, d: nat) -> int
    decreases d,
{
    if d == 0 {
        1
    } else {
        measure(e, (d - 1) as nat) * (e.hi[d - 1] - e.lo[d - 1])
    }
}

/// Length of the intersection of `[lo1, hi1]` and `[lo2, hi2]`, zero when
/// they do not meet.
pub open spec fn overlap_len(lo1: int, hi1: int, lo2: int, hi2: int) -> int {
    let l = if lo1 < lo2 { lo2 } else { lo1 };
    let h = if hi1 < hi2 { hi1 } else { hi2 };
    if l < h { h - l } else { 0 }
}

/// Measure of the intersection of `a` and `b` over the first `d` axes.
pub open spec fn common_measure(a: Extent, b: Extent, d: nat) -> int
    decreases d,
{
    if d == 0 {
        1
    } else {
        common_measure(a, b, (d - 1) as nat) * overlap_len(
            a.lo[d - 1],
            a.hi[d - 1],
            b.lo[d - 1],
            b.hi[d - 1],
        )
    }
}

/// Sum of the measures of the boxes of `s`.
pub open spec fn total_measure(s: Seq<Extent>, d: nat) -> int
    decreases s.len(),
{
    if s.len() == 0 {
        0
    } else {
        total_measure(s.drop_last(), d) + measure(s.last(), d)
    }
}

/// No two boxes of `s` meet.
pub open spec fn pairwise_apart(s: Seq<Extent>, d: nat) -> bool {
    forall|i: int, j: int|
        0 <= i < s.len() && 0 <= j < s.len() && i != j ==> !meets(#[trigger] s[i], #[trigger] s[j], d)
}

/// Every box of `s` is well formed.
pub open spec fn all_well_formed(s: Seq<Extent>, d: nat) -> bool {
    forall|i: int| 0 <= i < s.len() ==> well_formed(#[trigger] s[i], d)
}

/// The face of `a` on `axis` in direction `dir`: its lower bound for `dir == 0`,
/// its upper bound for `dir == 1`.
pub open spec fn face(a: Extent, axis: int, dir: int) -> int {
    if dir == 0 {
        a.lo[axis]
    } else {
        a.hi[axis]
    }
}

/// The face `(axis, dir)` of `a` lies strictly inside `b` on `axis`.
pub open spec fn face_inside(a: Extent, b: Extent, axis: int, dir: int) -> bool {
    b.lo[axis] < face(a, axis, dir) && face(a, axis, dir) < b.hi[axis]
}

/// The face `(axis, dir)` of `a` passes through the interior of `b`: it lies
/// strictly inside `b` on `axis`, and the boxes' open intervals meet on every
/// other axis.
pub open spec fn cuts_at(a: Extent, b: Extent, axis: int, dir: int, d: nat) -> bool {
    &&& face_inside(a, b, axis, dir)
    &&& forall|j: int| 0 <= j < d && j != axis ==> a.lo[j] < b.hi[j] && b.lo[j] < a.hi[j]
}

/// Candidate `k` (axis `k / 2`, direction `k % 2`) of `a` passes through `b`.
pub open spec fn cuts(a: Extent, b: Extent, k: int, d: nat) -> bool {
    cuts_at(a, b, k / 2, k % 2, d)
}

/// The first candidate `k >= start` (candidate `k` is axis `k / 2`, direction
/// `k % 2`) whose face of `a` passes through `b`.
pub open spec fn first_cut(a: Extent, b: Extent, start: int, d: nat) -> Option<int>
    decreases 2 * d - start,
{
    if start < 0 || start >= 2 * d {
        None
    } else if cuts(a, b, start, d) {
        Some(start)
    } else {
        first_cut(a, b, start + 1, d)
    }
}

/// `b` with its bound `(axis, side)` replaced by `p` (side 0: lower, 1: upper).
pub open spec fn with_bound(b: Extent, axis: int, side: int, p: int) -> Extent {
    if side == 0 {
        Extent { lo: b.lo.update(axis, p), hi: b.hi }
    } else {
        Extent { lo: b.lo, hi: b.hi.update(axis, p) }
    }
}

/// Cutting `b` along the face `(axis, dir)` of `a`: the part of `b` on `a`'s
/// side of the plane.
pub open spec fn near_part(a: Extent, b: Extent, axis: int, dir: int) -> Extent {
    with_bound(b, axis, dir, face(a, axis, dir))
}

/// Cutting `b` along the face `(axis, dir)` of `a`: the part of `b` beyond the
/// plane, which does not meet `a`.
pub open spec fn far_part(a: Extent, b: Extent, axis: int, dir: int) -> Extent {
    with_bound(b, axis, 1 - dir, face(a, axis, dir))
}

/// The cut of `b` by the first face of `a` that passes through it, as the
/// pair (near part, far part); `None` when no face of `a` passes through `b`.
pub open spec fn cut_of(a: Extent, b: Extent, d: nat) -> Option<(Extent, Extent)> {
    match first_cut(a, b, 0, d) {
        Some(k) => Some((near_part(a, b, k / 2, k % 2), far_part(a, b, k / 2, k % 2))),
        None => None,
    }
}

/// What cutting `p` by the faces of `a` leaves outside `a`: while `p` is not
/// inside `a`, the far part of the first cut, and then what is left of the
/// near part; `p` itself once no face of `a` passes through it. At most `fuel`
/// cuts are made (`2 * d + 1` is always enough).
pub open spec fn trim(a: Extent, p: Extent, d: nat, fuel: nat) -> Seq<Extent>
    decreases fuel,
{
    if fuel == 0 {
        Seq::empty()
    } else if encloses(a, p, d) {
        Seq::empty()
    } else {
        match cut_of(a, p, d) {
            None => seq![p],
            Some((n, f)) => seq![f] + trim(a, n, d, (fuel - 1) as nat),
        }
    }
}

/// Number of candidates `k` in `start .. 2 * d` whose face of `a` lies strictly
/// inside `b`.
pub open spec fn inner_faces(a: Extent, b: Extent, start: int, d: nat) -> nat
    decreases 2 * d - start,
{
    if start < 0 || start >= 2 * d {
        0
    } else {
        (if face_inside(a, b, start / 2, start % 2) { 1nat } else { 0nat }) + inner_faces(
            a,
            b,
            start + 1,
            d,
        )
    }
}

/// Size of a full binary tree of depth `n`: bounds how many pieces a box with
/// `n` faces of a cutter inside it can still turn into.
pub open spec fn tree_size(n: nat) -> nat
    decreases n,
{
    if n == 0 {
        1
    } else {
        2 * tree_size((n - 1) as nat) + 1
    }
}

/// Work left in a stack of pieces that are still to be cut by `a`.
pub open spec fn pending_work(a: Extent, s: Seq<Extent>, d: nat) -> nat
    decreases s.len(),
{
    if s.len() == 0 {
        0
    } else {
        pending_work(a, s.drop_last(), d) + tree_size(inner_faces(a, s.last(), 0, d))
    }
}

pub proof fn lemma_measure_nonneg(e: Extent, n: nat)
    requires
        forall|i: int| 0 <= i < n ==> e.lo[i] <= e.hi[i],
    ensures
        measure(e, n) >= 0,
    decreases n,
{
    if n > 0 {
        lemma_measure_nonneg(e, (n - 1) as nat);
        let m = measure(e, (n - 1) as nat);
        let f = e.hi[n - 1] - e.lo[n - 1];
        assert(m * f >= 0) by (nonlinear_arith)
            requires
                m >= 0,
                f >= 0,
        ;
    }
}

pub proof fn lemma_total_measure_nonneg(s: Seq<Extent>, d: nat)
    requires
        all_well_formed(s, d),
    ensures
        total_measure(s, d) >= 0,
    decreases s.len(),
{
    if s.len() > 0 {
        assert(well_formed(s[s.len() - 1], d));
        lemma_measure_nonneg(s.last(), d);
        assert(all_well_formed(s.drop_last(), d)) by {
            assert forall|i: int| 0 <= i < s.drop_last().len() implies well_formed(
                #[trigger] s.drop_last()[i],
                d,
            ) by {
                assert(s.drop_last()[i] == s[i]);
            }
        }
        lemma_total_measure_nonneg(s.drop_last(), d);
    }
}

pub proof fn lemma_total_measure_push(s: Seq<Extent>, e: Extent, d: nat)
    ensures
        total_measure(s.push(e), d) == total_measure(s, d) + measure(e, d),
{
    assert(s.push(e).drop_last() =~= s);
}

/// Splitting `b` at `p` on `axis` splits its measure, and the measure of its
/// intersection with any `a`.
proof fn lemma_split_upto(a: Extent, b: Extent, axis: int, p: int, n: nat)
    requires
        b.lo[axis] <= p <= b.hi[axis],
        0 <= axis,
        axis < b.lo.len(),
        axis < b.hi.len(),
        n <= b.lo.len(),
        n <= b.hi.len(),
    ensures
        n <= axis ==> measure(with_bound(b, axis, 1, p), n) == measure(b, n) && measure(
            with_bound(b, axis, 0, p),
            n,
        ) == measure(b, n) && common_measure(a, with_bound(b, axis, 1, p), n) == common_measure(
            a,
            b,
            n,
        ) && common_measure(a, with_bound(b, axis, 0, p), n) == common_measure(a, b, n),
        n > axis ==> measure(b, n) == measure(with_bound(b, axis, 1, p), n) + measure(
            with_bound(b, axis, 0, p),
            n,
        ) && common_measure(a, b, n) == common_measure(a, with_bound(b, axis, 1, p), n)
            + common_measure(a, with_bound(b, axis, 0, p), n),
    decreases n,
{
    let low = with_bound(b, axis, 1, p);
    let high = with_bound(b, axis, 0, p);
    if n > 0 {
        let m = (n - 1) as nat;
        lemma_split_upto(a, b, axis, p, m);
        let mb = measure(b, m);
        let ml = measure(low, m);
        let mh = measure(high, m);
        let cb = common_measure(a, b, m);
        let cl = common_measure(a, low, m);
        let ch = common_measure(a, high, m);
        let ob = overlap_len(a.lo[m as int], a.hi[m as int], b.lo[m as int], b.hi[m as int]);
        let ol = overlap_len(a.lo[m as int], a.hi[m as int], low.lo[m as int], low.hi[m as int]);
        let oh = overlap_len(a.lo[m as int], a.hi[m as int], high.lo[m as int], high.hi[m as int]);
        let fb = b.hi[m as int] - b.lo[m as int];
        let fl = low.hi[m as int] - low.lo[m as int];
        let fh = high.hi[m as int] - high.lo[m as int];
        if m == axis {
            assert(fb == fl + fh);
            assert(ob == ol + oh);
            assert(mb * fb == mb * fl + mb * fh) by (nonlinear_arith)
                requires
                    fb == fl + fh,
            ;
            assert(cb * ob == cb * ol + cb * oh) by (nonlinear_arith)
                requires
                    ob == ol + oh,
            ;
        } else if m > axis {
            assert(fb == fl && fb == fh);
            assert(ob == ol && ob == oh);
            assert(mb * fb == ml * fb + mh * fb) by (nonlinear_arith)
                requires
                    mb == ml + mh,
            ;
            assert(cb * ob == cl * ob + ch * ob) by (nonlinear_arith)
                requires
                    cb == cl + ch,
            ;
        }
    }
}

/// Cutting `b` at `p` on `axis` leaves two boxes whose measures, and whose
/// intersections with `a`, add up to those of `b`.
pub proof fn lemma_split(a: Extent, b: Extent, axis: int, p: int, d: nat)
    requires
        well_formed(b, d),
        0 <= axis < d,
        b.lo[axis] <= p <= b.hi[axis],
    ensures
        measure(b, d) == measure(with_bound(b, axis, 1, p), d) + measure(
            with_bound(b, axis, 0, p),
            d,
        ),
        common_measure(a, b, d) == common_measure(a, with_bound(b, axis, 1, p), d)
            + common_measure(a, with_bound(b, axis, 0, p), d),
{
    lemma_split_upto(a, b, axis, p, d);
}

proof fn lemma_common_enclosed_upto(a: Extent, b: Extent, n: nat)
    requires
        forall|i: int| 0 <= i < n ==> a.lo[i] <= b.lo[i] && b.lo[i] <= b.hi[i] && b.hi[i] <= a.hi[i],
    ensures
        common_measure(a, b, n) == measure(b, n),
    decreases n,
{
    if n > 0 {
        lemma_common_enclosed_upto(a, b, (n - 1) as nat);
    }
}

/// The intersection of `a` with a box that it encloses is that box.
pub proof fn lemma_common_enclosed(a: Extent, b: Extent, d: nat)
    requires
        well_formed(b, d),
        encloses(a, b, d),
    ensures
        common_measure(a, b, d) == measure(b, d),
{
    lemma_common_enclosed_upto(a, b, d);
}

proof fn lemma_common_apart_upto(a: Extent, b: Extent, k: int, n: nat)
    requires
        0 <= k < n,
        !(a.lo[k] < b.hi[k] && b.lo[k] < a.hi[k]),
    ensures
        common_measure(a, b, n) == 0,
    decreases n,
{
    let m = (n - 1) as nat;
    if k < m {
        lemma_common_apart_upto(a, b, k, m);
        assert(common_measure(a, b, n) == 0 * overlap_len(
            a.lo[m as int],
            a.hi[m as int],
            b.lo[m as int],
            b.hi[m as int],
        ));
    } else {
        assert(overlap_len(a.lo[m as int], a.hi[m as int], b.lo[m as int], b.hi[m as int]) == 0);
        assert(common_measure(a, b, n) == common_measure(a, b, m) * 0);
    }
}

/// Boxes that do not meet have an intersection of measure zero.
pub proof fn lemma_common_apart(a: Extent, b: Extent, d: nat)
    requires
        !meets(a, b, d),
    ensures
        common_measure(a, b, d) == 0,
{
    let k = choose|k: int| 0 <= k < d && !(a.lo[k] < b.hi[k] && b.lo[k] < a.hi[k]);
    lemma_common_apart_upto(a, b, k, d);
}

/// The measure of an intersection does not depend on the order of the boxes.
pub proof fn lemma_common_symmetric(a: Extent, b: Extent, n: nat)
    ensures
        common_measure(a, b, n) == common_measure(b, a, n),
    decreases n,
{
    if n > 0 {
        lemma_common_symmetric(a, b, (n - 1) as nat);
    }
}

proof fn lemma_first_cut_from(a: Extent, b: Extent, start: int, d: nat)
    requires
        0 <= start <= 2 * d,
    ensures
        match first_cut(a, b, start, d) {
            Some(k) => start <= k < 2 * d && cuts(a, b, k, d) && forall|j: int|
                start <= j < k ==> !#[trigger] cuts(a, b, j, d),
            None => forall|j: int| start <= j < 2 * d ==> !#[trigger] cuts(a, b, j, d),
        },
    decreases 2 * d - start,
{
    if start < 2 * d {
        lemma_first_cut_from(a, b, start + 1, d);
    }
}

/// Skipping candidates that do not cut leaves the first cut unchanged.
pub proof fn lemma_first_cut_skip(a: Extent, b: Extent, start: int, d: nat)
    requires
        0 <= start <= 2 * d,
        forall|j: int| 0 <= j < start ==> !#[trigger] cuts(a, b, j, d),
    ensures
        first_cut(a, b, 0, d) == first_cut(a, b, start, d),
    decreases start,
{
    if start > 0 {
        lemma_first_cut_skip(a, b, start - 1, d);
    }
}

proof fn lemma_inner_faces_shrink(a: Extent, b: Extent, c: Extent, start: int, d: nat, k: int)
    requires
        0 <= start,
        encloses(b, c, d),
    ensures
        inner_faces(a, c, start, d) <= inner_faces(a, b, start, d),
        start <= k < 2 * d && face_inside(a, b, k / 2, k % 2) && !face_inside(a, c, k / 2, k % 2)
            ==> inner_faces(a, c, start, d) < inner_faces(a, b, start, d),
    decreases 2 * d - start,
{
    if start < 2 * d {
        lemma_inner_faces_shrink(a, b, c, start + 1, d, k);
        assert(face_inside(a, c, start / 2, start % 2) ==> face_inside(a, b, start / 2, start % 2));
    }
}

pub proof fn lemma_inner_faces_bound(a: Extent, b: Extent, start: int, d: nat)
    requires
        0 <= start <= 2 * d,
    ensures
        inner_faces(a, b, start, d) <= 2 * d - start,
    decreases 2 * d - start,
{
    if start < 2 * d {
        lemma_inner_faces_bound(a, b, start + 1, d);
    }
}

pub proof fn lemma_tree_size_monotone(m: nat, n: nat)
    requires
        m <= n,
    ensures
        tree_size(m) <= tree_size(n),
    decreases n,
{
    if m < n {
        lemma_tree_size_monotone(m, (n - 1) as nat);
    }
}

pub proof fn lemma_pending_work_push(a: Extent, s: Seq<Extent>, e: Extent, d: nat)
    ensures
        pending_work(a, s.push(e), d) == pending_work(a, s, d) + tree_size(
            inner_faces(a, e, 0, d),
        ),
{
    assert(s.push(e).drop_last() =~= s);
}

/// What a cut of `b` by `a` yields: two well-formed parts of `b` that touch
/// only along the cutting plane, the far one apart from `a`; they split the
/// measure of `b`, its intersection with `a`, and its points; and each has
/// fewer faces of `a` inside it than `b`.
pub proof fn lemma_cut(a: Extent, b: Extent, d: nat)
    requires
        well_formed(a, d),
        well_formed(b, d),
        cut_of(a, b, d) is Some,
    ensures
        ({
            let (n, f) = cut_of(a, b, d)->Some_0;
            &&& well_formed(n, d)
            &&& well_formed(f, d)
            &&& encloses(b, n, d)
            &&& encloses(b, f, d)
            &&& !meets(a, f, d)
            &&& !meets(n, f, d)
            &&& measure(b, d) == measure(n, d) + measure(f, d)
            &&& common_measure(a, b, d) == common_measure(a, n, d) + common_measure(a, f, d)
            &&& forall|q: Seq<int>| within(b, q, d) ==> #[trigger] within(n, q, d) || within(f, q, d)
            &&& inner_faces(a, n, 0, d) < inner_faces(a, b, 0, d)
            &&& inner_faces(a, f, 0, d) < inner_faces(a, b, 0, d)
            &&& meets(a, b, d)
            &&& solid(b, d) ==> solid(n, d) && solid(f, d)
        }),
{
    lemma_first_cut_from(a, b, 0, d);
    let k = first_cut(a, b, 0, d)->Some_0;
    let axis = k / 2;
    let dir = k % 2;
    let p = face(a, axis, dir);
    let (n, f) = cut_of(a, b, d)->Some_0;
    assert(cuts_at(a, b, axis, dir, d));
    lemma_split(a, b, axis, p, d);
    assert(n == with_bound(b, axis, dir, p));
    assert(f == with_bound(b, axis, 1 - dir, p));
    assert(well_formed(n, d));
    assert(well_formed(f, d));
    assert(encloses(b, n, d));
    assert(encloses(b, f, d));
    assert(!(a.lo[axis] < f.hi[axis] && f.lo[axis] < a.hi[axis]));
    assert(!(n.lo[axis] < f.hi[axis] && f.lo[axis] < n.hi[axis]));
    assert forall|q: Seq<int>| within(b, q, d) implies #[trigger] within(n, q, d) || within(
        f,
        q,
        d,
    ) by {
        if q[axis] <= p {
            if dir == 0 {
                assert(within(f, q, d));
            } else {
                assert(within(n, q, d));
            }
        } else {
            if dir == 0 {
                assert(within(n, q, d));
            } else {
                assert(within(f, q, d));
            }
        }
    }
    lemma_inner_faces_shrink(a, b, n, 0, d, k);
    lemma_inner_faces_shrink(a, b, f, 0, d, k);
    assert(!face_inside(a, n, axis, dir));
    assert(!face_inside(a, f, axis, dir));
    assert forall|i: int| 0 <= i < d implies a.lo[i] < b.hi[i] && b.lo[i] < a.hi[i] by {
        if i != axis {
            assert(cuts_at(a, b, axis, dir, d));
        }
    }
}

/// When no face of `a` passes through `b`, either `a` encloses `b` or the two
/// do not meet.
pub proof fn lemma_no_cut(a: Extent, b: Extent, d: nat)
    requires
        well_formed(a, d),
        well_formed(b, d),
        cut_of(a, b, d) is None,
    ensures
        encloses(a, b, d) || !meets(a, b, d),
{
    lemma_first_cut_from(a, b, 0, d);
    if meets(a, b, d) && !encloses(a, b, d) {
        let i = choose|i: int| 0 <= i < d && !(a.lo[i] <= b.lo[i] && b.hi[i] <= a.hi[i]);
        if b.lo[i] < a.lo[i] {
            assert(cuts(a, b, 2 * i, d));
        } else {
            assert(cuts(a, b, 2 * i + 1, d));
        }
    }
}

/// A box enclosed by `a` has all its points in `a`.
pub proof fn lemma_within_enclosed(a: Extent, b: Extent, d: nat)
    requires
        encloses(a, b, d),
    ensures
        forall|q: Seq<int>| #[trigger] within(b, q, d) ==> within(a, q, d),
{
}

/// A box that does not meet `x` keeps apart from `x` when it shrinks.
pub proof fn lemma_apart_shrink(x: Extent, p: Extent, c: Extent, d: nat)
    requires
        !meets(x, p, d),
        encloses(p, c, d),
    ensures
        !meets(x, c, d),
        !meets(c, x, d),
{
    let i = choose|i: int| 0 <= i < d && !(x.lo[i] < p.hi[i] && p.lo[i] < x.hi[i]);
    assert(!(x.lo[i] < c.hi[i] && c.lo[i] < x.hi[i]));
}

pub proof fn lemma_measure_two(e: Extent)
    ensures
        measure(e, 2) == (e.hi[0] - e.lo[0]) * (e.hi[1] - e.lo[1]),
{
    reveal_with_fuel(measure, 3);
}

pub proof fn lemma_measure_three(e: Extent)
    ensures
        measure(e, 3) == (e.hi[0] - e.lo[0]) * (e.hi[1] - e.lo[1]) * (e.hi[2] - e.lo[2]),
{
    reveal_with_fuel(measure, 4);
}

/// Sum, over the boxes of `s`, of the measure of their intersection with `a`.
pub open spec fn total_common(a: Extent, s: Seq<Extent>, d: nat) -> int
    decreases s.len(),
{
    if s.len() == 0 {
        0
    } else {
        total_common(a, s.drop_last(), d) + common_measure(a, s.last(), d)
    }
}

pub proof fn lemma_total_common_push(a: Extent, s: Seq<Extent>, e: Extent, d: nat)
    ensures
        total_common(a, s.push(e), d) == total_common(a, s, d) + common_measure(a, e, d),
{
    assert(s.push(e).drop_last() =~= s);
}

pub proof fn lemma_meets_symmetric(a: Extent, b: Extent, d: nat)
    ensures
        meets(a, b, d) == meets(b, a, d),
{
}

/// Adding a box apart from every box of `s` keeps the boxes pairwise apart.
pub proof fn lemma_pairwise_push(s: Seq<Extent>, e: Extent, d: nat)
    requires
        pairwise_apart(s, d),
        forall|i: int| 0 <= i < s.len() ==> !meets(#[trigger] s[i], e, d),
    ensures
        pairwise_apart(s.push(e), d),
{
    let t = s.push(e);
    assert forall|i: int, j: int|
        0 <= i < t.len() && 0 <= j < t.len() && i != j implies !meets(
        #[trigger] t[i],
        #[trigger] t[j],
        d,
    ) by {
        if i == s.len() {
            assert(!meets(s[j], e, d));
            lemma_meets_symmetric(s[j], e, d);
        } else if j == s.len() {
            assert(!meets(s[i], e, d));
        } else {
            assert(t[i] == s[i] && t[j] == s[j]);
        }
    }
}

/// Dropping the last box keeps the rest pairwise apart.
pub proof fn lemma_pairwise_drop_last(s: Seq<Extent>, d: nat)
    requires
        pairwise_apart(s, d),
        s.len() > 0,
    ensures
        pairwise_apart(s.drop_last(), d),
        forall|i: int| 0 <= i < s.len() - 1 ==> !meets(#[trigger] s[i], s.last(), d),
{
    let t = s.drop_last();
    assert forall|i: int, j: int|
        0 <= i < t.len() && 0 <= j < t.len() && i != j implies !meets(
        #[trigger] t[i],
        #[trigger] t[j],
        d,
    ) by {
        assert(t[i] == s[i] && t[j] == s[j]);
    }
    assert forall|i: int| 0 <= i < s.len() - 1 implies !meets(#[trigger] s[i], s.last(), d) by {
        assert(s.last() == s[s.len() - 1]);
    }
}

pub proof fn lemma_total_small(x: Extent, y: Extent, d: nat)
    ensures
        total_measure(seq![x], d) == measure(x, d),
        total_measure(seq![x, y], d) == measure(x, d) + measure(y, d),
        pairwise_apart(seq![x], d),
        !meets(x, y, d) ==> pairwise_apart(seq![x, y], d),
{
    assert(seq![x].drop_last() =~= Seq::<Extent>::empty());
    assert(seq![x, y].drop_last() =~= seq![x]);
    assert(total_measure(Seq::<Extent>::empty(), d) == 0);
    assert(total_measure(seq![x], d) == measure(x, d));
    if !meets(x, y, d) {
        lemma_meets_symmetric(x, y, d);
        let t = seq![x, y];
        assert forall|i: int, j: int|
            0 <= i < 2 && 0 <= j < 2 && i != j implies !meets(#[trigger] t[i], #[trigger] t[j], d) by {
            if i == 0 {
                assert(t[i] == x && t[j] == y);
            } else {
                assert(t[i] == y && t[j] == x);
            }
        }
    }
}

proof fn lemma_measure_positive_upto(e: Extent, n: nat)
    requires
        forall|i: int| 0 <= i < n ==> e.lo[i] < e.hi[i],
    ensures
        measure(e, n) >= 1,
    decreases n,
{
    if n > 0 {
        lemma_measure_positive_upto(e, (n - 1) as nat);
        let m = measure(e, (n - 1) as nat);
        let f = e.hi[n - 1] - e.lo[n - 1];
        assert(m * f >= 1) by (nonlinear_arith)
            requires
                m >= 1,
                f >= 1,
        ;
    }
}

/// A solid box has measure at least one.
pub proof fn lemma_measure_positive(e: Extent, d: nat)
    requires
        solid(e, d),
    ensures
        measure(e, d) >= 1,
{
    lemma_measure_positive_upto(e, d);
}

proof fn lemma_common_positive_upto(a: Extent, b: Extent, n: nat)
    requires
        forall|i: int| 0 <= i < n ==> a.lo[i] < b.hi[i] && b.lo[i] < a.hi[i],
        forall|i: int| 0 <= i < n ==> a.lo[i] < a.hi[i] && b.lo[i] < b.hi[i],
    ensures
        common_measure(a, b, n) >= 1,
    decreases n,
{
    if n > 0 {
        lemma_common_positive_upto(a, b, (n - 1) as nat);
        let m = common_measure(a, b, (n - 1) as nat);
        let f = overlap_len(a.lo[n - 1], a.hi[n - 1], b.lo[n - 1], b.hi[n - 1]);
        assert(m * f >= 1) by (nonlinear_arith)
            requires
                m >= 1,
                f >= 1,
        ;
    }
}

/// Solid boxes that meet share a measure of at least one.
pub proof fn lemma_common_positive(a: Extent, b: Extent, d: nat)
    requires
        meets(a, b, d),
        solid(a, d),
        solid(b, d),
    ensures
        common_measure(a, b, d) >= 1,
{
    lemma_common_positive_upto(a, b, d);
}

/// Cutting `p` by a solid `a` leaves a near part that still meets `a`.
pub proof fn lemma_near_meets(a: Extent, p: Extent, d: nat)
    requires
        well_formed(a, d),
        well_formed(p, d),
        solid(a, d),
        cut_of(a, p, d) is Some,
    ensures
        meets(a, cut_of(a, p, d)->Some_0.0, d),
{
    lemma_cut(a, p, d);
    lemma_first_cut_from(a, p, 0, d);
    let k = first_cut(a, p, 0, d)->Some_0;
    let axis = k / 2;
    let n = cut_of(a, p, d)->Some_0.0;
    assert(cuts_at(a, p, axis, k % 2, d));
    assert forall|i: int| 0 <= i < d implies a.lo[i] < n.hi[i] && n.lo[i] < a.hi[i] by {
        if i != axis {
            assert(n.lo[i] == p.lo[i] && n.hi[i] == p.hi[i]);
        }
    }
}

/// Cutting a box that meets a solid `a` by the faces of `a` leaves no more
/// pieces outside `a` than `a` has faces inside the box.
pub proof fn lemma_trim_len(a: Extent, p: Extent, d: nat, fuel: nat)
    requires
        well_formed(a, d),
        well_formed(p, d),
        solid(a, d),
        meets(a, p, d),
        fuel > inner_faces(a, p, 0, d),
    ensures
        trim(a, p, d, fuel).len() <= inner_faces(a, p, 0, d),
    decreases fuel,
{
    if !encloses(a, p, d) {
        if cut_of(a, p, d) is None {
            lemma_no_cut(a, p, d);
        } else {
            let (n, f) = cut_of(a, p, d)->Some_0;
            lemma_cut(a, p, d);
            lemma_near_meets(a, p, d);
            lemma_trim_len(a, n, d, (fuel - 1) as nat);
        }
    }
}

} // verus!
