use vstd::prelude::*;

use crate::aabb::extent::{
    common_measure, cut_of, cuts, cuts_at, encloses, face,
    inner_faces, lemma_apart_shrink, lemma_common_apart, lemma_common_enclosed,
    lemma_common_symmetric, lemma_cut, lemma_first_cut_skip,
    lemma_measure_two, lemma_no_cut, lemma_pending_work_push, lemma_total_common_push,
    lemma_total_measure_push, lemma_tree_size_monotone, lemma_within_enclosed, lemma_inner_faces_bound, trim, lemma_near_meets, lemma_trim_len, measure, meets,
    lemma_meets_symmetric, lemma_pairwise_push, lemma_pairwise_drop_last, lemma_total_small,
    pairwise_apart, pending_work, solid, total_common, total_measure, tree_size, well_formed, with_bound,
    within, Extent,
};

verus! {

/// A point of the plane, in the same fixed-point units as the boxes.
#[derive(Debug, Clone, Copy, PartialEq, Eq, Structural)]
pub struct Point2D {
    pub x: i32,
    pub y: i32,
}

/// An axis-aligned rectangle `[min_x, max_x] x [min_y, max_y]` in integer
/// fixed-point units. Rectangles that share only an edge or a corner are
/// disjoint for every operation here.
#[derive(Debug, Clone, Copy, PartialEq, Eq, Structural)]
pub struct Aabb2D {
    pub min_x: i32,
    pub min_y: i32,
    pub max_x: i32,
    pub max_y: i32,
}

/// How two rectangles compare: the first holds the second (`Superset`), the
/// second holds the first (`Subset`), or `Neither`.
#[derive(Debug, Clone, Copy, PartialEq, Eq, Structural)]
pub enum Aabb2CmpResult {
    Superset,
    Subset,
    Neither,
}

/// A box was asked for with a lower bound above its upper bound.
#[derive(Debug, Clone, Copy, PartialEq, Eq, Structural)]
pub struct InvertedBounds;

impl View for Aabb2D {
    type V = Extent;

    open spec fn view(&self) -> Extent {
        Extent {
            lo: seq![self.min_x as int, self.min_y as int],
            hi: seq![self.max_x as int, self.max_y as int],
        }
    }
}

/// The models of a sequence of rectangles.
pub open spec fn views(s: Seq<Aabb2D>) -> Seq<Extent> {
    s.map_values(|b: Aabb2D| b@)
}

/// The comparison of `a` with `b`, with boundaries counting as inside.
pub open spec fn classify(a: Aabb2D, b: Aabb2D) -> Aabb2CmpResult {
    if encloses(a@, b@, 2) {
        Aabb2CmpResult::Superset
    } else if encloses(b@, a@, 2) {
        Aabb2CmpResult::Subset
    } else {
        Aabb2CmpResult::Neither
    }
}

/// Corner `i` of `a` (x from bit 0 of `i`, y from bit 1; 0 for min, 1 for
/// max) lies strictly inside `b`.
pub open spec fn corner_in(a: Aabb2D, b: Aabb2D, i: int) -> bool {
    let x = if i % 2 == 0 { a.min_x } else { a.max_x };
    let y = if i / 2 == 0 { a.min_y } else { a.max_y };
    b.min_x < x && b.min_y < y && x < b.max_x && y < b.max_y
}

/// Number of the first `n` corners of `a` that lie strictly inside `b`.
pub open spec fn corners_in(a: Aabb2D, b: Aabb2D, n: int) -> int
    decreases n,
{
    if n <= 0 {
        0
    } else {
        corners_in(a, b, n - 1) + if corner_in(a, b, n - 1) { 1int } else { 0int }
    }
}

/// The pieces that `a.union(b)` returns, as models: the larger box when one
/// holds the other; otherwise, with the operands ordered (`b` first when
/// exactly two corners of `a` lie inside `b`), both unchanged when no edge of
/// the first passes through the second, else the first, the far part of the
/// first cut, and what cutting the near part leaves outside the first.
pub open spec fn union_of(a: Aabb2D, b: Aabb2D) -> Seq<Extent> {
    if encloses(a@, b@, 2) {
        seq![a@]
    } else if encloses(b@, a@, 2) {
        seq![b@]
    } else {
        let (f, s) = if corners_in(a, b, 4) == 2 { (b, a) } else { (a, b) };
        match cut_of(f@, s@, 2) {
            None => seq![a@, b@],
            Some((n, far)) => seq![f@, far] + trim(f@, n, 2, 5),
        }
    }
}

/// The models of the two parts of a cut.
pub open spec fn cut_view(r: Option<(Aabb2D, Aabb2D)>) -> Option<(Extent, Extent)> {
    match r {
        Some((n, f)) => Some((n@, f@)),
        None => None,
    }
}

proof fn lemma_views_push(s: Seq<Aabb2D>, b: Aabb2D)
    ensures
        views(s.push(b)) == views(s).push(b@),
{
    assert(views(s.push(b)) =~= views(s).push(b@));
}

proof fn lemma_views_small(a: Aabb2D, b: Aabb2D)
    ensures
        views(seq![a]) == seq![a@],
        views(seq![a, b]) == seq![a@, b@],
{
    assert(views(seq![a]) =~= seq![a@]);
    assert(views(seq![a, b]) =~= seq![a@, b@]);
}

proof fn lemma_views_pop(s: Seq<Aabb2D>)
    requires
        s.len() > 0,
    ensures
        views(s.drop_last()) == views(s).drop_last(),
        views(s).last() == s.last()@,
{
    assert(views(s.drop_last()) =~= views(s).drop_last());
}

/// The relations of the model, spelled out on the fields.
pub proof fn lemma_relations(a: Aabb2D, b: Aabb2D)
    ensures
        a@.lo[0] == a.min_x && a@.lo[1] == a.min_y && a@.hi[0] == a.max_x && a@.hi[1] == a.max_y,
        a.wf() <==> well_formed(a@, 2),
        encloses(a@, b@, 2) <==> (a.min_x <= b.min_x && a.min_y <= b.min_y && b.max_x <= a.max_x
            && b.max_y <= a.max_y),
        meets(a@, b@, 2) <==> (a.min_x < b.max_x && b.min_x < a.max_x && a.min_y < b.max_y
            && b.min_y < a.max_y),
{
    let (x, y) = (a@, b@);
    assert(x.lo[0] == a.min_x && x.lo[1] == a.min_y && x.hi[0] == a.max_x && x.hi[1] == a.max_y);
    assert(y.lo[0] == b.min_x && y.lo[1] == b.min_y && y.hi[0] == b.max_x && y.hi[1] == b.max_y);
    if a.wf() {
        assert forall|i: int| 0 <= i < 2 implies x.lo[i] <= x.hi[i] by {
            if i == 0 {
            } else {
            }
        }
    }
    if a.min_x <= b.min_x && a.min_y <= b.min_y && b.max_x <= a.max_x && b.max_y <= a.max_y {
        assert forall|i: int| 0 <= i < 2 implies x.lo[i] <= y.lo[i] && y.hi[i] <= x.hi[i] by {
            if i == 0 {
            } else {
            }
        }
    }
    if a.min_x < b.max_x && b.min_x < a.max_x && a.min_y < b.max_y && b.min_y < a.max_y {
        assert forall|i: int| 0 <= i < 2 implies x.lo[i] < y.hi[i] && y.lo[i] < x.hi[i] by {
            if i == 0 {
            } else {
            }
        }
    }
}

impl Aabb2D {
    /// The rectangle holds `lo <= hi` on both axes.
    pub open spec fn wf(&self) -> bool {
        self.min_x <= self.max_x && self.min_y <= self.max_y
    }

    /// A rectangle from its bounds; inverted bounds are refused.
    pub fn new(min_x: i32, min_y: i32, max_x: i32, max_y: i32) -> (r: Result<Aabb2D, InvertedBounds>)
        ensures
            r is Ok <==> (min_x <= max_x && min_y <= max_y),
            r is Ok ==> r->Ok_0 == (Aabb2D { min_x, min_y, max_x, max_y }),
    {
        if min_x <= max_x && min_y <= max_y {
            Ok(Aabb2D { min_x, min_y, max_x, max_y })
        } else {
            Err(InvertedBounds)
        }
    }

    /// `p` lies strictly inside the rectangle; boundary points do not.
    pub fn contains(&self, p: &Point2D) -> (r: bool)
        ensures
            r == (self.min_x < p.x && self.min_y < p.y && p.x < self.max_x && p.y < self.max_y),
    {
        self.min_x < p.x && self.min_y < p.y && self.max_x > p.x && self.max_y > p.y
    }

    /// `[[min_x, min_y], [max_x, max_y]]`.
    pub fn to_array(&self) -> (r: [[i32; 2]; 2])
        ensures
            r@[0]@ == seq![self.min_x, self.min_y],
            r@[1]@ == seq![self.max_x, self.max_y],
    {
        let r = [[self.min_x, self.min_y], [self.max_x, self.max_y]];
        assert(r@[0]@ =~= seq![self.min_x, self.min_y]);
        assert(r@[1]@ =~= seq![self.max_x, self.max_y]);
        r
    }

    /// The area, `(max_x - min_x) * (max_y - min_y)`.
    pub fn area(&self) -> (r: u64)
        requires
            self.wf(),
        ensures
            r == measure(self@, 2),
            r == (self.max_x - self.min_x) * (self.max_y - self.min_y),
    {
        proof {
            lemma_measure_two(self@);
        }
        let dx = (self.max_x as i64 - self.min_x as i64) as u64;
        let dy = (self.max_y as i64 - self.min_y as i64) as u64;
        assert(dx * dy <= 0xffff_ffffu64 * 0xffff_ffffu64) by (nonlinear_arith)
            requires
                dx <= 0xffff_ffffu64,
                dy <= 0xffff_ffffu64,
        ;
        dx * dy
    }

    /// Compares the rectangle with `other`: `Superset` when it holds `other`
    /// (shared boundaries count as inside), `Subset` when `other` holds it, and
    /// `Neither` otherwise, disjoint and partly overlapping rectangles alike.
    pub fn cmp(&self, other: &Self) -> (r: Aabb2CmpResult)
        ensures
            r == classify(*self, *other),
    {
        proof {
            lemma_relations(*self, *other);
            lemma_relations(*other, *self);
        }
        if self.min_x <= other.min_x && self.min_y <= other.min_y && self.max_x >= other.max_x
            && self.max_y >= other.max_y {
            return Aabb2CmpResult::Superset;
        }
        if self.min_x >= other.min_x && self.min_y >= other.min_y && self.max_x <= other.max_x
            && self.max_y <= other.max_y {
            return Aabb2CmpResult::Subset;
        }
        Aabb2CmpResult::Neither
    }

    /// The open interiors of the two rectangles meet: touching along an edge or
    /// at a corner is no overlap.
    pub fn overlaps(&self, other: &Self) -> (r: bool)
        ensures
            r == meets(self@, other@, 2),
    {
        proof {
            lemma_relations(*self, *other);
        }
        self.min_x < other.max_x && other.min_x < self.max_x && self.min_y < other.max_y
            && other.min_y < self.max_y
    }

    /// The lower (`dir == 0`) or upper (`dir == 1`) bound on `axis`.
    fn bound(&self, axis: usize, dir: usize) -> (r: i32)
        requires
            axis < 2,
            dir < 2,
        ensures
            r == face(self@, axis as int, dir as int),
    {
        if dir == 0 {
            if axis == 0 {
                self.min_x
            } else {
                self.min_y
            }
        } else {
            if axis == 0 {
                self.max_x
            } else {
                self.max_y
            }
        }
    }

    /// The rectangle with its bound `(axis, side)` set to `v`.
    fn set_bound(&self, axis: usize, side: usize, v: i32) -> (r: Aabb2D)
        requires
            axis < 2,
            side < 2,
        ensures
            r@ == with_bound(self@, axis as int, side as int, v as int),
    {
        let mut r = *self;
        if side == 0 {
            if axis == 0 {
                r.min_x = v;
            } else {
                r.min_y = v;
            }
        } else {
            if axis == 0 {
                r.max_x = v;
            } else {
                r.max_y = v;
            }
        }
        assert(r@.lo =~= with_bound(self@, axis as int, side as int, v as int).lo);
        assert(r@.hi =~= with_bound(self@, axis as int, side as int, v as int).hi);
        r
    }

    /// Cuts `other` along the first of this rectangle's edges that passes
    /// through `other`'s interior, scanning the fixed axis (x, then y) in the
    /// outer loop and the direction (min edge, then max edge) in the inner one.
    /// An edge passes through when its coordinate lies strictly inside
    /// `other`'s extent on the fixed axis and the two rectangles' open extents
    /// meet on the other axis. Returns `(before, after)`: `before` is the part
    /// of `other` on this rectangle's side of the line, `after` the part
    /// beyond it, which does not meet this rectangle. `None` when no edge
    /// passes through.
    pub fn cut(&self, other: &Self) -> (r: Option<(Aabb2D, Aabb2D)>)
        ensures
            cut_view(r) == cut_of(self@, other@, 2),
    {
        let mut fixed_axis: usize = 0;
        while fixed_axis < 2
            invariant
                0 <= fixed_axis <= 2,
                forall|k: int| 0 <= k < 2 * fixed_axis ==> !#[trigger] cuts(self@, other@, k, 2),
            decreases 2 - fixed_axis,
        {
            let mut dir: usize = 0;
            while dir < 2
                invariant
                    0 <= fixed_axis < 2,
                    0 <= dir <= 2,
                    forall|k: int|
                        0 <= k < 2 * fixed_axis + dir ==> !#[trigger] cuts(self@, other@, k, 2),
                decreases 2 - dir,
            {
                let cut_axis: usize = 1 - fixed_axis;
                let fixed_value = self.bound(fixed_axis, dir);
                let k = Ghost(2 * fixed_axis + dir);
                assert(k@ / 2 == fixed_axis && k@ % 2 == dir);
                if other.bound(fixed_axis, 0) < fixed_value && fixed_value < other.bound(
                    fixed_axis,
                    1,
                ) && other.bound(cut_axis, 0) < self.bound(cut_axis, 1) && self.bound(cut_axis, 0)
                    < other.bound(cut_axis, 1) {
                    let before = other.set_bound(fixed_axis, dir, fixed_value);
                    let after = other.set_bound(fixed_axis, 1 - dir, fixed_value);
                    proof {
                        assert(cuts(self@, other@, k@, 2));
                        lemma_first_cut_skip(self@, other@, k@, 2);
                    }
                    return Some((before, after));
                }
                assert(!cuts(self@, other@, k@, 2)) by {
                    if cuts(self@, other@, k@, 2) {
                        assert(cuts_at(self@, other@, fixed_axis as int, dir as int, 2));
                        let j = cut_axis as int;
                        assert(0 <= j < 2 && j != fixed_axis);
                    }
                }
                dir = dir + 1;
            }
            fixed_axis = fixed_axis + 1;
        }
        proof {
            lemma_first_cut_skip(self@, other@, 4, 2);
        }
        None
    }

    /// Number of this rectangle's corners that lie strictly inside `other`.
    fn corners_inside(&self, other: &Self) -> (r: usize)
        ensures
            r == corners_in(*self, *other, 4),
    {
        let mut count: usize = 0;
        let mut i: usize = 0;
        while i < 4
            invariant
                i <= 4,
                count <= i,
                count == corners_in(*self, *other, i as int),
            decreases 4 - i,
        {
            let x = if i % 2 == 0 {
                self.min_x
            } else {
                self.max_x
            };
            let y = if i / 2 == 0 {
                self.min_y
            } else {
                self.max_y
            };
            if other.contains(&Point2D { x, y }) {
                count = count + 1;
            }
            i = i + 1;
        }
        count
    }

    /// The union of the two rectangles as rectangles that do not overlap.
    ///
    /// When one holds the other, the larger alone. Otherwise the operands are
    /// put in order (when exactly two of this rectangle's corners lie inside
    /// `other`, `other` goes first), and the second is cut by the first's edges
    /// until what is left of it lies inside the first or no edge passes through
    /// it: the result is the first, the parts cut off, and that remainder if it
    /// is not inside the first. Rectangles that do not overlap come back
    /// unchanged, in argument order.
    /// The pieces are exactly `union_of(self, other)`; for solid rectangles
    /// there are one to three of them (`lemma_union_pieces`).
    pub fn union(&self, other: &Self) -> (r: Vec<Aabb2D>)
        requires
            self.wf(),
            other.wf(),
        ensures
            views(r@) == union_of(*self, *other),
            classify(*self, *other) == Aabb2CmpResult::Superset ==> r@ == seq![*self],
            classify(*self, *other) == Aabb2CmpResult::Subset ==> r@ == seq![*other],
            classify(*self, *other) == Aabb2CmpResult::Neither && !meets(self@, other@, 2) ==> r@
                == seq![*self, *other],
            forall|i: int|
                0 <= i < r.len() ==> (#[trigger] r@[i]).wf() && (encloses(self@, r@[i]@, 2)
                    || encloses(other@, r@[i]@, 2)),
            pairwise_apart(views(r@), 2),
            total_measure(views(r@), 2) + common_measure(self@, other@, 2) == measure(self@, 2)
                + measure(other@, 2),
            forall|q: Seq<int>|
                within(self@, q, 2) || within(other@, q, 2) ==> exists|i: int|
                    0 <= i < r.len() && #[trigger] within(r@[i]@, q, 2),
    {
        proof {
            lemma_relations(*self, *other);
            lemma_relations(*other, *self);
            lemma_common_symmetric(self@, other@, 2);
            lemma_meets_symmetric(self@, other@, 2);
            lemma_views_small(*self, *other);
            lemma_views_small(*other, *self);
            lemma_total_small(self@, other@, 2);
            lemma_total_small(other@, self@, 2);
        }
        match self.cmp(other) {
            Aabb2CmpResult::Superset => {
                proof {
                    lemma_common_enclosed(self@, other@, 2);
                    lemma_within_enclosed(self@, other@, 2);
                    assert(total_measure(views(seq![*self]), 2) == measure(self@, 2));
                    let one = seq![*self];
                    assert forall|q: Seq<int>|
                        within(self@, q, 2) || within(other@, q, 2) implies exists|i: int|
                        0 <= i < 1 && #[trigger] within(one[i]@, q, 2) by {
                        assert(within(one[0]@, q, 2));
                    }
                }
                return vec![*self];
            },
            Aabb2CmpResult::Subset => {
                proof {
                    lemma_common_enclosed(other@, self@, 2);
                    lemma_within_enclosed(other@, self@, 2);
                    assert(total_measure(views(seq![*other]), 2) == measure(other@, 2));
                    let one = seq![*other];
                    assert forall|q: Seq<int>|
                        within(self@, q, 2) || within(other@, q, 2) implies exists|i: int|
                        0 <= i < 1 && #[trigger] within(one[i]@, q, 2) by {
                        assert(within(one[0]@, q, 2));
                    }
                }
                return vec![*other];
            },
            Aabb2CmpResult::Neither => {},
        }
        let (a, b) = if self.corners_inside(other) == 2 {
            (*other, *self)
        } else {
            (*self, *other)
        };
        let ghost target = measure(a@, 2) + measure(b@, 2) - common_measure(a@, b@, 2);
        proof {
            lemma_common_symmetric(a@, b@, 2);
            lemma_relations(a, b);
            lemma_relations(b, a);
        }
        match a.cut(&b) {
            Option::None => {
                proof {
                    assert(views(seq![*self, *other]) == seq![self@, other@]);
                    lemma_no_cut(a@, b@, 2);
                    lemma_meets_symmetric(a@, b@, 2);
                    lemma_common_apart(self@, other@, 2);
                    let both = seq![*self, *other];
                    assert forall|q: Seq<int>|
                        within(self@, q, 2) || within(other@, q, 2) implies exists|i: int|
                        0 <= i < 2 && #[trigger] within(both[i]@, q, 2) by {
                        if within(self@, q, 2) {
                            assert(within(both[0]@, q, 2));
                        } else {
                            assert(within(both[1]@, q, 2));
                        }
                    }
                }
                vec![*self, *other]
            },
            Option::Some((near, far)) => {
                proof {
                    lemma_cut(a@, b@, 2);
                    lemma_common_apart(a@, far@, 2);
                    lemma_meets_symmetric(a@, far@, 2);
                    lemma_relations(near, far);
                    lemma_relations(far, near);
                    lemma_relations(a, far);
                    lemma_relations(a, near);
                }
                assert(classify(*self, *other) == Aabb2CmpResult::Neither ==> meets(
                    self@,
                    other@,
                    2,
                ));
                let mut out: Vec<Aabb2D> = Vec::new();
                out.push(a);
                out.push(far);
                proof {
                    lemma_views_small(a, far);
                    lemma_total_small(a@, far@, 2);
                    assert(out@ == seq![a, far]);
                }
                let mut piece = near;
                let mut done = false;
                let ghost mut fuel: nat = 5;
                proof {
                    lemma_inner_faces_bound(a@, b@, 0, 2);
                    assert(views(out@) + trim(a@, piece@, 2, fuel) =~= union_of(*self, *other));
                }
                while !done
                    invariant
                        !done ==> views(out@) + trim(a@, piece@, 2, fuel) == union_of(*self, *other),
                        !done ==> fuel > inner_faces(a@, piece@, 0, 2),
                        done ==> views(out@) == union_of(*self, *other),
                        a.wf(),
                        piece.wf(),
                        out.len() >= 1,
                        out@[0] == a,
                        forall|i: int| 0 <= i < out.len() ==> (#[trigger] out@[i]).wf(),
                        forall|i: int| 1 <= i < out.len() ==> encloses(b@, (#[trigger] out@[i])@, 2),
                        pairwise_apart(views(out@), 2),
                        !done ==> encloses(b@, piece@, 2),
                        !done ==> forall|i: int|
                            1 <= i < out.len() ==> !meets((#[trigger] out@[i])@, piece@, 2),
                        !done ==> total_measure(views(out@), 2) + measure(piece@, 2)
                            - common_measure(a@, piece@, 2) == target,
                        done ==> total_measure(views(out@), 2) == target,
                        forall|q: Seq<int>|
                            within(a@, q, 2) || within(b@, q, 2) ==> (!done && within(piece@, q, 2))
                                || exists|i: int| 0 <= i < out.len() && #[trigger] within(out@[i]@, q, 2),
                    decreases (if done {
                        0
                    } else {
                        inner_faces(a@, piece@, 0, 2) + 1
                    }),
                {
                    let ghost old_out = out@;
                    let ghost p = piece;
                    proof {
                        lemma_relations(a, p);
                    }
                    if a.cmp(&piece) == Aabb2CmpResult::Superset {
                        proof {
                            lemma_common_enclosed(a@, p@, 2);
                            lemma_within_enclosed(a@, p@, 2);
                            assert forall|q: Seq<int>| within(a@, q, 2) || within(b@, q, 2) implies exists|i: int|
                                0 <= i < out.len() && #[trigger] within(out@[i]@, q, 2) by {
                                if within(p@, q, 2) {
                                    assert(within(out@[0]@, q, 2));
                                }
                            }
                        }
                        done = true;
                    } else {
                        match a.cut(&piece) {
                            Option::None => {
                                proof {
                                    lemma_no_cut(a@, p@, 2);
                                    lemma_common_apart(a@, p@, 2);
                                    lemma_meets_symmetric(a@, p@, 2);
                                    lemma_views_push(old_out, p);
                                    lemma_total_measure_push(views(old_out), p@, 2);
                                    assert forall|i: int| 0 <= i < old_out.len() implies !meets(
                                        #[trigger] views(old_out)[i],
                                        p@,
                                        2,
                                    ) by {
                                        if i == 0 {
                                            assert(views(old_out)[i] == a@);
                                        } else {
                                            assert(views(old_out)[i] == old_out[i]@);
                                        }
                                    }
                                    lemma_pairwise_push(views(old_out), p@, 2);
                                }
                                out.push(piece);
                                proof {
                                    assert forall|q: Seq<int>| within(a@, q, 2) || within(b@, q, 2) implies exists|i: int|
                                        0 <= i < out.len() && #[trigger] within(out@[i]@, q, 2) by {
                                        if within(p@, q, 2) {
                                            assert(within(out@[old_out.len() as int]@, q, 2));
                                        } else {
                                            let i = choose|i: int| 0 <= i < old_out.len() && #[trigger] within(old_out[i]@, q, 2);
                                            assert(within(out@[i]@, q, 2));
                                        }
                                    }
                                }
                                done = true;
                            },
                            Option::Some((n, f)) => {
                                proof {
                                    lemma_cut(a@, p@, 2);
                                    lemma_common_apart(a@, f@, 2);
                                    lemma_meets_symmetric(a@, f@, 2);
                                    lemma_meets_symmetric(n@, f@, 2);
                                    lemma_views_push(old_out, f);
                                    lemma_total_measure_push(views(old_out), f@, 2);
                                    assert forall|i: int| 0 <= i < old_out.len() implies !meets(
                                        #[trigger] views(old_out)[i],
                                        f@,
                                        2,
                                    ) by {
                                        if i == 0 {
                                            assert(views(old_out)[i] == a@);
                                        } else {
                                            assert(views(old_out)[i] == old_out[i]@);
                                            lemma_apart_shrink(old_out[i]@, p@, f@, 2);
                                        }
                                    }
                                    lemma_pairwise_push(views(old_out), f@, 2);
                                    assert forall|i: int| 1 <= i < old_out.len() implies !meets(
                                        (#[trigger] old_out[i])@,
                                        n@,
                                        2,
                                    ) by {
                                        lemma_apart_shrink(old_out[i]@, p@, n@, 2);
                                    }
                                }
                                out.push(f);
                                piece = n;
                                proof {
                                    let t = trim(a@, n@, 2, (fuel - 1) as nat);
                                    assert(trim(a@, p@, 2, fuel) == seq![f@] + t);
                                    assert(views(out@) + t =~= views(old_out) + (seq![f@] + t));
                                    fuel = (fuel - 1) as nat;
                                    assert forall|q: Seq<int>| within(a@, q, 2) || within(b@, q, 2) implies
                                        within(piece@, q, 2) || exists|i: int|
                                        0 <= i < out.len() && #[trigger] within(out@[i]@, q, 2) by {
                                        if within(p@, q, 2) {
                                            if !within(n@, q, 2) {
                                                assert(within(out@[old_out.len() as int]@, q, 2));
                                            }
                                        } else {
                                            let i = choose|i: int| 0 <= i < old_out.len() && #[trigger] within(old_out[i]@, q, 2);
                                            assert(within(out@[i]@, q, 2));
                                        }
                                    }
                                }
                            },
                        }
                    }
                }
                out
            },
        }
    }

    /// The part of this rectangle that `other` does not cover, as rectangles
    /// that do not overlap.
    ///
    /// A stack of pieces starts with this rectangle. Each piece popped from it
    /// is kept when it does not overlap `other`, dropped when `other` holds it,
    /// and otherwise cut by the first of `other`'s edges that passes through it,
    /// both parts going back on the stack.
    pub fn subtract(&self, other: &Self) -> (r: Vec<Aabb2D>)
        requires
            self.wf(),
            other.wf(),
        ensures
            !meets(self@, other@, 2) ==> r@ == seq![*self],
            meets(self@, other@, 2) && encloses(other@, self@, 2) ==> r.len() == 0,
            solid(self@, 2) && encloses(other@, self@, 2) ==> r.len() == 0,
            forall|i: int|
                0 <= i < r.len() ==> (#[trigger] r@[i]).wf() && encloses(self@, r@[i]@, 2) && !meets(
                    r@[i]@,
                    other@,
                    2,
                ),
            pairwise_apart(views(r@), 2),
            total_measure(views(r@), 2) + common_measure(self@, other@, 2) == measure(self@, 2),
            forall|q: Seq<int>|
                within(self@, q, 2) && !within(other@, q, 2) ==> exists|i: int|
                    0 <= i < r.len() && #[trigger] within(r@[i]@, q, 2),
            solid(self@, 2) ==> forall|i: int| 0 <= i < r.len() ==> solid((#[trigger] r@[i])@, 2),
    {
        let ghost o = other@;
        proof {
            lemma_relations(*self, *other);
            lemma_relations(*other, *self);
            lemma_common_symmetric(self@, o, 2);
            lemma_views_small(*self, *other);
            lemma_total_small(self@, o, 2);
        }
        if !self.overlaps(other) {
            proof {
                lemma_common_apart(self@, o, 2);
                let one = seq![*self];
                assert forall|q: Seq<int>| within(self@, q, 2) && !within(o, q, 2) implies exists|i: int|
                    0 <= i < 1 && #[trigger] within(one[i]@, q, 2) by {
                    assert(within(one[0]@, q, 2));
                }
            }
            return vec![*self];
        }
        if other.cmp(self) == Aabb2CmpResult::Superset {
            proof {
                lemma_common_enclosed(o, self@, 2);
                lemma_within_enclosed(o, self@, 2);
                assert(total_measure(views(Seq::<Aabb2D>::empty()), 2) == 0) by {
                    assert(views(Seq::<Aabb2D>::empty()) =~= Seq::<Extent>::empty());
                }
            }
            return Vec::new();
        }
        let mut stack: Vec<Aabb2D> = Vec::new();
        stack.push(*self);
        let mut out: Vec<Aabb2D> = Vec::new();
        proof {
            assert(views(out@) =~= Seq::<Extent>::empty());
            assert(views(stack@) == seq![self@]);
            lemma_total_small(o, self@, 2);
            assert(total_common(o, seq![self@], 2) == common_measure(o, self@, 2)) by {
                assert(seq![self@].drop_last() =~= Seq::<Extent>::empty());
                assert(total_common(o, Seq::<Extent>::empty(), 2) == 0);
            }
            assert forall|q: Seq<int>| within(self@, q, 2) && !within(o, q, 2) implies exists|j: int|
                0 <= j < stack.len() && #[trigger] within(stack@[j]@, q, 2) by {
                assert(within(stack@[0]@, q, 2));
            }
        }
        while stack.len() > 0
            invariant
                o == other@,
                other.wf(),
                forall|i: int|
                    0 <= i < stack.len() ==> (#[trigger] stack@[i]).wf() && encloses(
                        self@,
                        stack@[i]@,
                        2,
                    ) && (solid(self@, 2) ==> solid(stack@[i]@, 2)),
                solid(self@, 2) ==> forall|i: int| 0 <= i < out.len() ==> solid((#[trigger] out@[i])@, 2),
                forall|i: int|
                    0 <= i < out.len() ==> (#[trigger] out@[i]).wf() && encloses(self@, out@[i]@, 2)
                        && !meets(out@[i]@, o, 2),
                pairwise_apart(views(out@), 2),
                pairwise_apart(views(stack@), 2),
                forall|i: int, j: int|
                    0 <= i < out.len() && 0 <= j < stack.len() ==> !meets(
                        (#[trigger] out@[i])@,
                        (#[trigger] stack@[j])@,
                        2,
                    ),
                total_measure(views(out@), 2) + total_measure(views(stack@), 2) - total_common(
                    o,
                    views(stack@),
                    2,
                ) + common_measure(o, self@, 2) == measure(self@, 2),
                forall|q: Seq<int>|
                    within(self@, q, 2) && !within(o, q, 2) ==> (exists|i: int|
                        0 <= i < out.len() && #[trigger] within(out@[i]@, q, 2)) || (exists|j: int|
                        0 <= j < stack.len() && #[trigger] within(stack@[j]@, q, 2)),
            decreases pending_work(o, views(stack@), 2),
        {
            let ghost old_out = out@;
            let ghost old_stack = stack@;
            let piece = stack.pop().unwrap();
            let ghost rest = stack@;
            proof {
                assert(rest == old_stack.drop_last());
                assert(piece == old_stack.last());
                lemma_views_pop(old_stack);
                lemma_pairwise_drop_last(views(old_stack), 2);
                lemma_relations(piece, *other);
                lemma_relations(*other, piece);
                lemma_meets_symmetric(piece@, o, 2);
                assert(tree_size(inner_faces(o, piece@, 0, 2)) >= 1);
                assert forall|i: int| 0 <= i < rest.len() implies !meets(
                    (#[trigger] rest[i])@,
                    piece@,
                    2,
                ) by {
                    assert(views(old_stack)[i] == rest[i]@);
                }
                assert forall|i: int| 0 <= i < old_out.len() implies !meets(
                    (#[trigger] old_out[i])@,
                    piece@,
                    2,
                ) by {
                    assert(old_stack[old_stack.len() - 1] == piece);
                }
            }
            if !piece.overlaps(other) {
                proof {
                    lemma_common_apart(o, piece@, 2);
                    lemma_views_push(old_out, piece);
                    lemma_total_measure_push(views(old_out), piece@, 2);
                    assert forall|i: int| 0 <= i < old_out.len() implies !meets(
                        #[trigger] views(old_out)[i],
                        piece@,
                        2,
                    ) by {
                        assert(views(old_out)[i] == old_out[i]@);
                    }
                    lemma_pairwise_push(views(old_out), piece@, 2);
                }
                out.push(piece);
                proof {
                    assert forall|i: int, j: int|
                        0 <= i < out.len() && 0 <= j < stack.len() implies !meets(
                        (#[trigger] out@[i])@,
                        (#[trigger] stack@[j])@,
                        2,
                    ) by {
                        if i == old_out.len() {
                            lemma_meets_symmetric(piece@, rest[j]@, 2);
                        } else {
                            assert(stack@[j] == old_stack[j]);
                        }
                    }
                    assert forall|q: Seq<int>| within(self@, q, 2) && !within(o, q, 2) implies (exists|i: int|
                        0 <= i < out.len() && #[trigger] within(out@[i]@, q, 2)) || (exists|j: int|
                        0 <= j < stack.len() && #[trigger] within(stack@[j]@, q, 2)) by {
                        if exists|i: int| 0 <= i < old_out.len() && #[trigger] within(old_out[i]@, q, 2) {
                            let i = choose|i: int| 0 <= i < old_out.len() && #[trigger] within(old_out[i]@, q, 2);
                            assert(within(out@[i]@, q, 2));
                        } else {
                            let j = choose|j: int| 0 <= j < old_stack.len() && #[trigger] within(old_stack[j]@, q, 2);
                            if j == old_stack.len() - 1 {
                                assert(within(out@[old_out.len() as int]@, q, 2));
                            } else {
                                assert(within(stack@[j]@, q, 2));
                            }
                        }
                    }
                }
            } else if other.cmp(&piece) == Aabb2CmpResult::Superset {
                proof {
                    lemma_common_enclosed(o, piece@, 2);
                    lemma_within_enclosed(o, piece@, 2);
                    assert forall|q: Seq<int>| within(self@, q, 2) && !within(o, q, 2) implies (exists|i: int|
                        0 <= i < out.len() && #[trigger] within(out@[i]@, q, 2)) || (exists|j: int|
                        0 <= j < stack.len() && #[trigger] within(stack@[j]@, q, 2)) by {
                        if !(exists|i: int| 0 <= i < old_out.len() && #[trigger] within(old_out[i]@, q, 2)) {
                            let j = choose|j: int| 0 <= j < old_stack.len() && #[trigger] within(old_stack[j]@, q, 2);
                            assert(j != old_stack.len() - 1);
                            assert(within(stack@[j]@, q, 2));
                        }
                    }
                }
            } else {
                match other.cut(&piece) {
                    Option::None => {
                        proof {
                            lemma_no_cut(o, piece@, 2);
                            assert(false);
                        }
                    },
                    Option::Some((n, f)) => {
                        proof {
                            lemma_cut(o, piece@, 2);
                            lemma_meets_symmetric(n@, f@, 2);
                            lemma_views_push(rest, n);
                            lemma_views_push(rest.push(n), f);
                            lemma_total_measure_push(views(rest), n@, 2);
                            lemma_total_measure_push(views(rest).push(n@), f@, 2);
                            lemma_total_common_push(o, views(rest), n@, 2);
                            lemma_total_common_push(o, views(rest).push(n@), f@, 2);
                            lemma_pending_work_push(o, views(rest), n@, 2);
                            lemma_pending_work_push(o, views(rest).push(n@), f@, 2);
                            lemma_tree_size_monotone(inner_faces(o, n@, 0, 2), (inner_faces(o, piece@, 0, 2) - 1) as nat);
                            lemma_tree_size_monotone(inner_faces(o, f@, 0, 2), (inner_faces(o, piece@, 0, 2) - 1) as nat);
                            assert forall|i: int| 0 <= i < rest.len() implies !meets(
                                #[trigger] views(rest)[i],
                                n@,
                                2,
                            ) by {
                                assert(views(rest)[i] == rest[i]@);
                                lemma_apart_shrink(rest[i]@, piece@, n@, 2);
                            }
                            lemma_pairwise_push(views(rest), n@, 2);
                            assert forall|i: int| 0 <= i < rest.len() + 1 implies !meets(
                                #[trigger] views(rest).push(n@)[i],
                                f@,
                                2,
                            ) by {
                                if i < rest.len() {
                                    assert(views(rest).push(n@)[i] == rest[i]@);
                                    lemma_apart_shrink(rest[i]@, piece@, f@, 2);
                                }
                            }
                            lemma_pairwise_push(views(rest).push(n@), f@, 2);
                        }
                        stack.push(n);
                        stack.push(f);
                        proof {
                            assert(stack@ == rest.push(n).push(f));
                            assert forall|i: int, j: int|
                                0 <= i < out.len() && 0 <= j < stack.len() implies !meets(
                                (#[trigger] out@[i])@,
                                (#[trigger] stack@[j])@,
                                2,
                            ) by {
                                if j == rest.len() {
                                    lemma_apart_shrink(out@[i]@, piece@, n@, 2);
                                } else if j == rest.len() + 1 {
                                    lemma_apart_shrink(out@[i]@, piece@, f@, 2);
                                } else {
                                    assert(stack@[j] == old_stack[j]);
                                }
                            }
                            assert forall|i: int| 0 <= i < stack.len() implies (#[trigger] stack@[i]).wf() && encloses(
                                self@,
                                stack@[i]@,
                                2,
                            ) by {
                                lemma_relations(stack@[i], *self);
                                lemma_relations(*self, stack@[i]);
                                if i < rest.len() {
                                    assert(stack@[i] == old_stack[i]);
                                }
                            }
                            assert forall|q: Seq<int>| within(self@, q, 2) && !within(o, q, 2) implies (exists|i: int|
                                0 <= i < out.len() && #[trigger] within(out@[i]@, q, 2)) || (exists|j: int|
                                0 <= j < stack.len() && #[trigger] within(stack@[j]@, q, 2)) by {
                                if !(exists|i: int| 0 <= i < old_out.len() && #[trigger] within(old_out[i]@, q, 2)) {
                                    let j = choose|j: int| 0 <= j < old_stack.len() && #[trigger] within(old_stack[j]@, q, 2);
                                    if j == old_stack.len() - 1 {
                                        if within(n@, q, 2) {
                                            assert(within(stack@[rest.len() as int]@, q, 2));
                                        } else {
                                            assert(within(stack@[rest.len() as int + 1]@, q, 2));
                                        }
                                    } else {
                                        assert(within(stack@[j]@, q, 2));
                                    }
                                }
                            }
                        }
                    },
                }
            }
        }
        out
    }

    /// The rectangle moved by `(dx, dy)`.
    pub fn translate(&self, dx: i32, dy: i32) -> (r: Aabb2D)
        requires
            self.wf(),
            i32::MIN <= self.min_x + dx,
            self.max_x + dx <= i32::MAX,
            i32::MIN <= self.min_y + dy,
            self.max_y + dy <= i32::MAX,
        ensures
            r == (Aabb2D {
                min_x: (self.min_x + dx) as i32,
                min_y: (self.min_y + dy) as i32,
                max_x: (self.max_x + dx) as i32,
                max_y: (self.max_y + dy) as i32,
            }),
            r.wf(),
    {
        Aabb2D {
            min_x: self.min_x + dx,
            min_y: self.min_y + dy,
            max_x: self.max_x + dx,
            max_y: self.max_y + dy,
        }
    }

    /// The rectangle grown by `amount` on every side.
    pub fn inflate(&self, amount: i32) -> (r: Aabb2D)
        requires
            amount >= 0,
            i32::MIN <= self.min_x - amount,
            i32::MIN <= self.min_y - amount,
            self.max_x + amount <= i32::MAX,
            self.max_y + amount <= i32::MAX,
        ensures
            r == (Aabb2D {
                min_x: (self.min_x - amount) as i32,
                min_y: (self.min_y - amount) as i32,
                max_x: (self.max_x + amount) as i32,
                max_y: (self.max_y + amount) as i32,
            }),
            self.wf() ==> r.wf(),
    {
        Aabb2D {
            min_x: self.min_x - amount,
            min_y: self.min_y - amount,
            max_x: self.max_x + amount,
            max_y: self.max_y + amount,
        }
    }
}

/// Comparing two different rectangles in both orders gives mirrored answers:
/// `a` is a `Superset` of `b` exactly when `b` is a `Subset` of `a`, and the
/// other way round; `Neither` comes in both orders or in none. (Equal
/// rectangles are a `Superset` of each other.)
pub proof fn lemma_cmp_mirrors(a: Aabb2D, b: Aabb2D)
    requires
        a@ != b@,
    ensures
        classify(a, b) == Aabb2CmpResult::Superset <==> classify(b, a) == Aabb2CmpResult::Subset,
        classify(a, b) == Aabb2CmpResult::Subset <==> classify(b, a) == Aabb2CmpResult::Superset,
        classify(a, b) == Aabb2CmpResult::Neither <==> classify(b, a) == Aabb2CmpResult::Neither,
{
    lemma_relations(a, b);
    lemma_relations(b, a);
    if a.min_x == b.min_x && a.min_y == b.min_y && a.max_x == b.max_x && a.max_y == b.max_y {
        assert(a@.lo =~= b@.lo);
        assert(a@.hi =~= b@.hi);
    }
}

/// The rectangles' closed areas meet, but only along an edge or at a corner.
pub open spec fn touching(a: Aabb2D, b: Aabb2D) -> bool {
    &&& a.min_x <= b.max_x && b.min_x <= a.max_x
    &&& a.min_y <= b.max_y && b.min_y <= a.max_y
    &&& (a.max_x == b.min_x || b.max_x == a.min_x || a.max_y == b.min_y || b.max_y == a.min_y)
}

/// Rectangles of positive size that only touch compare as `Neither` and do
/// not overlap, in both orders; `union` then returns both unchanged, in
/// argument order.
pub proof fn lemma_touching_is_disjoint(a: Aabb2D, b: Aabb2D)
    requires
        a.min_x < a.max_x && a.min_y < a.max_y,
        b.min_x < b.max_x && b.min_y < b.max_y,
        touching(a, b),
    ensures
        classify(a, b) == Aabb2CmpResult::Neither,
        classify(b, a) == Aabb2CmpResult::Neither,
        !meets(a@, b@, 2),
        !meets(b@, a@, 2),
{
    lemma_relations(a, b);
    lemma_relations(b, a);
}

proof fn lemma_inner_faces_two(f: Aabb2D, s: Aabb2D)
    ensures
        inner_faces(f@, s@, 0, 2) == (if s.min_x < f.min_x < s.max_x { 1int } else { 0int }) + (
        if s.min_x < f.max_x < s.max_x {
            1int
        } else {
            0int
        }) + (if s.min_y < f.min_y < s.max_y { 1int } else { 0int }) + (if s.min_y < f.max_y
            < s.max_y {
            1int
        } else {
            0int
        }),
{
    reveal_with_fuel(inner_faces, 5);
    lemma_relations(f, s);
    lemma_relations(s, f);
}

/// The union of two solid rectangles is one, two or three rectangles.
pub proof fn lemma_union_pieces(a: Aabb2D, b: Aabb2D)
    requires
        a.wf(),
        b.wf(),
        solid(a@, 2),
        solid(b@, 2),
    ensures
        1 <= union_of(a, b).len() <= 3,
{
    lemma_relations(a, b);
    lemma_relations(b, a);
    if !encloses(a@, b@, 2) && !encloses(b@, a@, 2) {
        reveal_with_fuel(corners_in, 5);
        lemma_inner_faces_two(a, b);
        lemma_inner_faces_two(b, a);
        let (f, s) = if corners_in(a, b, 4) == 2 { (b, a) } else { (a, b) };
        assert(inner_faces(f@, s@, 0, 2) <= 2);
        lemma_relations(f, f);
        lemma_relations(s, s);
        if cut_of(f@, s@, 2) is Some {
            let (n, far) = cut_of(f@, s@, 2)->Some_0;
            lemma_cut(f@, s@, 2);
            lemma_near_meets(f@, s@, 2);
            lemma_trim_len(f@, n, 2, 5);
            assert(union_of(a, b) == seq![f@, far] + trim(f@, n, 2, 5));
        }
    }
}

} // verus!
