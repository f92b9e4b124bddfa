use vstd::prelude::*;

use crate::aabb::aabb_2d::{Aabb2D, InvertedBounds};
use crate::aabb::extent::{
    common_measure, cut_of, cuts, cuts_at, encloses, face,
    inner_faces, lemma_apart_shrink, lemma_common_apart, lemma_common_enclosed,
    lemma_common_symmetric, lemma_cut, lemma_first_cut_skip,
    lemma_measure_three, lemma_no_cut, lemma_pending_work_push, lemma_total_common_push,
    lemma_total_measure_push, lemma_tree_size_monotone, lemma_within_enclosed, lemma_inner_faces_bound, trim, measure, meets,
    lemma_meets_symmetric, lemma_pairwise_push, lemma_pairwise_drop_last, lemma_total_small,
    pairwise_apart, pending_work, solid, total_common, total_measure, tree_size, well_formed, with_bound,
    within, Extent,
};

verus! {

/// Fixed-point units in one block (one cell of a voxel region): coordinates
/// of boxes are integers in these units.
pub const UNITS_PER_BLOCK: i32 = 320;

/// A point of space, `[x, y, z]`, in the same units as the boxes.
#[derive(Debug, Clone, Copy, PartialEq, Eq)]
pub struct Point3D(pub [i32; 3]);

/// An axis-aligned box `[min_x, min_y, min_z, max_x, max_y, max_z]` in integer
/// fixed-point units. Boxes that share only a face, an edge or a corner are
/// disjoint for every operation here.
#[derive(Debug, Clone, Copy, PartialEq, Eq)]
pub struct Aabb3D(pub [i32; 6]);

/// One of the six directions along the axes.
#[derive(Debug, Clone, Copy, PartialEq, Eq, Structural)]
pub enum Axis {
    X,
    Y,
    Z,
    NegX,
    NegY,
    NegZ,
}

/// How two faces in contact relate.
#[derive(Debug, Clone, Copy, PartialEq, Eq, Structural)]
pub enum ContactType {
    Superset,
    Subset,
    Mixed,
    Neither,
}

/// How two boxes compare: the first holds the second (`A`), the second holds
/// the first (`B`), or `Neither`.
#[derive(Debug, Clone, Copy, PartialEq, Eq, Structural)]
pub enum SupersetResult {
    A,
    B,
    Neither,
}

impl View for Aabb3D {
    type V = Extent;

    open spec fn view(&self) -> Extent {
        Extent {
            lo: seq![self.0[0] as int, self.0[1] as int, self.0[2] as int],
            hi: seq![self.0[3] as int, self.0[4] as int, self.0[5] as int],
        }
    }
}

/// The models of a sequence of boxes.
pub open spec fn views(s: Seq<Aabb3D>) -> Seq<Extent> {
    s.map_values(|b: Aabb3D| b@)
}

/// The comparison of `a` with `b`, with boundaries counting as inside.
pub open spec fn classify(a: Aabb3D, b: Aabb3D) -> SupersetResult {
    if encloses(a@, b@, 3) {
        SupersetResult::A
    } else if encloses(b@, a@, 3) {
        SupersetResult::B
    } else {
        SupersetResult::Neither
    }
}

/// Corner `i` of `a` (x from bit 0 of `i`, y from bit 1, z from bit 2; 0 for
/// min, 1 for max) lies strictly inside `b`.
pub open spec fn corner_in(a: Aabb3D, b: Aabb3D, i: int) -> bool {
    let x = a.0[3 * (i % 2)];
    let y = a.0[1 + 3 * ((i / 2) % 2)];
    let z = a.0[2 + 3 * (i / 4)];
    b.0[0] < x && x < b.0[3] && b.0[1] < y && y < b.0[4] && b.0[2] < z && z < b.0[5]
}

/// Number of the first `n` corners of `a` that lie strictly inside `b`.
pub open spec fn corners_in(a: Aabb3D, b: Aabb3D, n: int) -> int
    decreases n,
{
    if n <= 0 {
        0
    } else {
        corners_in(a, b, n - 1) + if corner_in(a, b, n - 1) { 1int } else { 0int }
    }
}

/// The pieces that `a.union(b)` returns, as models: the larger box when one
/// holds the other; otherwise, with the operands ordered (`b` first when
/// exactly four corners of `a` lie inside `b`), both unchanged when no face of
/// the first passes through the second, else the first, the far part of the
/// first cut, and what cutting the near part leaves outside the first.
pub open spec fn union_of(a: Aabb3D, b: Aabb3D) -> Seq<Extent> {
    if encloses(a@, b@, 3) {
        seq![a@]
    } else if encloses(b@, a@, 3) {
        seq![b@]
    } else {
        let (f, s) = if corners_in(a, b, 8) == 4 { (b, a) } else { (a, b) };
        match cut_of(f@, s@, 3) {
            None => seq![a@, b@],
            Some((n, far)) => seq![f@, far] + trim(f@, n, 3, 7),
        }
    }
}

/// The models of the two parts of a cut.
pub open spec fn cut_view(r: Option<(Aabb3D, Aabb3D)>) -> Option<(Extent, Extent)> {
    match r {
        Some((n, f)) => Some((n@, f@)),
        None => None,
    }
}

proof fn lemma_views_push(s: Seq<Aabb3D>, b: Aabb3D)
    ensures
        views(s.push(b)) == views(s).push(b@),
{
    assert(views(s.push(b)) =~= views(s).push(b@));
}

proof fn lemma_views_small(a: Aabb3D, b: Aabb3D)
    ensures
        views(seq![a]) == seq![a@],
        views(seq![a, b]) == seq![a@, b@],
{
    assert(views(seq![a]) =~= seq![a@]);
    assert(views(seq![a, b]) =~= seq![a@, b@]);
}

proof fn lemma_views_pop(s: Seq<Aabb3D>)
    requires
        s.len() > 0,
    ensures
        views(s.drop_last()) == views(s).drop_last(),
        views(s).last() == s.last()@,
{
    assert(views(s.drop_last()) =~= views(s).drop_last());
}

/// The relations of the model, spelled out on the coordinates.
pub proof fn lemma_relations(a: Aabb3D, b: Aabb3D)
    ensures
        a@.lo[0] == a.0[0] && a@.lo[1] == a.0[1] && a@.lo[2] == a.0[2],
        a@.hi[0] == a.0[3] && a@.hi[1] == a.0[4] && a@.hi[2] == a.0[5],
        a.wf() <==> well_formed(a@, 3),
        encloses(a@, b@, 3) <==> (a.0[0] <= b.0[0] && a.0[1] <= b.0[1] && a.0[2] <= b.0[2]
            && b.0[3] <= a.0[3] && b.0[4] <= a.0[4] && b.0[5] <= a.0[5]),
        meets(a@, b@, 3) <==> (a.0[0] < b.0[3] && b.0[0] < a.0[3] && a.0[1] < b.0[4] && b.0[1]
            < a.0[4] && a.0[2] < b.0[5] && b.0[2] < a.0[5]),
{
    let (x, y) = (a@, b@);
    assert(x.lo[0] == a.0[0] && x.lo[1] == a.0[1] && x.lo[2] == a.0[2]);
    assert(x.hi[0] == a.0[3] && x.hi[1] == a.0[4] && x.hi[2] == a.0[5]);
    assert(y.lo[0] == b.0[0] && y.lo[1] == b.0[1] && y.lo[2] == b.0[2]);
    assert(y.hi[0] == b.0[3] && y.hi[1] == b.0[4] && y.hi[2] == b.0[5]);
    if a.wf() {
        assert forall|i: int| 0 <= i < 3 implies x.lo[i] <= x.hi[i] by {
            if i == 0 {
            } else if i == 1 {
            } else {
            }
        }
    }
    if a.0[0] <= b.0[0] && a.0[1] <= b.0[1] && a.0[2] <= b.0[2] && b.0[3] <= a.0[3] && b.0[4]
        <= a.0[4] && b.0[5] <= a.0[5] {
        assert forall|i: int| 0 <= i < 3 implies x.lo[i] <= y.lo[i] && y.hi[i] <= x.hi[i] by {
            if i == 0 {
            } else if i == 1 {
            } else {
            }
        }
    }
    if a.0[0] < b.0[3] && b.0[0] < a.0[3] && a.0[1] < b.0[4] && b.0[1] < a.0[4] && a.0[2] < b.0[5]
        && b.0[2] < a.0[5] {
        assert forall|i: int| 0 <= i < 3 implies x.lo[i] < y.hi[i] && y.lo[i] < x.hi[i] by {
            if i == 0 {
            } else if i == 1 {
            } else {
            }
        }
    }
}

impl Aabb3D {
    /// The box holds `lo <= hi` on every axis.
    pub open spec fn wf(&self) -> bool {
        self.0[0] <= self.0[3] && self.0[1] <= self.0[4] && self.0[2] <= self.0[5]
    }



    /// A box from `[min_x, min_y, min_z, max_x, max_y, max_z]`; inverted bounds
    /// are refused.
    pub fn new(bounds: [i32; 6]) -> (r: Result<Aabb3D, InvertedBounds>)
        ensures
            r is Ok <==> Aabb3D(bounds).wf(),
            r is Ok ==> r->Ok_0 == Aabb3D(bounds),
    {
        if bounds[0] <= bounds[3] && bounds[1] <= bounds[4] && bounds[2] <= bounds[5] {
            Ok(Aabb3D(bounds))
        } else {
            Err(InvertedBounds)
        }
    }

    /// A box that fills exactly one cell: `[0, 0, 0]` to one block on each axis.
    pub fn full_block() -> (r: Aabb3D)
        ensures
            r == Aabb3D([0, 0, 0, UNITS_PER_BLOCK, UNITS_PER_BLOCK, UNITS_PER_BLOCK]),
            r.wf(),
    {
        Aabb3D([0, 0, 0, UNITS_PER_BLOCK, UNITS_PER_BLOCK, UNITS_PER_BLOCK])
    }

    pub fn min_x(&self) -> (r: i32)
        ensures
            r == self.0[0],
    {
        self.0[0]
    }

    pub fn min_y(&self) -> (r: i32)
        ensures
            r == self.0[1],
    {
        self.0[1]
    }

    pub fn min_z(&self) -> (r: i32)
        ensures
            r == self.0[2],
    {
        self.0[2]
    }

    pub fn max_x(&self) -> (r: i32)
        ensures
            r == self.0[3],
    {
        self.0[3]
    }

    pub fn max_y(&self) -> (r: i32)
        ensures
            r == self.0[4],
    {
        self.0[4]
    }

    pub fn max_z(&self) -> (r: i32)
        ensures
            r == self.0[5],
    {
        self.0[5]
    }

    /// `p` lies strictly inside the box; boundary points do not.
    pub fn strict_contains(&self, p: &Point3D) -> (r: bool)
        ensures
            r == (self.0[0] < p.0[0] && p.0[0] < self.0[3] && self.0[1] < p.0[1] && p.0[1]
                < self.0[4] && self.0[2] < p.0[2] && p.0[2] < self.0[5]),
    {
        self.0[0] < p.0[0] && p.0[0] < self.0[3] && self.0[1] < p.0[1] && p.0[1] < self.0[4]
            && self.0[2] < p.0[2] && p.0[2] < self.0[5]
    }

    /// The volume, the product of the three extents.
    pub fn volume(&self) -> (r: u128)
        requires
            self.wf(),
        ensures
            r == measure(self@, 3),
    {
        proof {
            lemma_measure_three(self@);
            lemma_relations(*self, *self);
        }
        let dx = (self.0[3] as i64 - self.0[0] as i64) as u128;
        let dy = (self.0[4] as i64 - self.0[1] as i64) as u128;
        let dz = (self.0[5] as i64 - self.0[2] as i64) as u128;
        assert(dx * dy <= 0xffff_ffffu128 * 0xffff_ffffu128) by (nonlinear_arith)
            requires
                dx <= 0xffff_ffffu128,
                dy <= 0xffff_ffffu128,
        ;
        assert(dx * dy * dz <= 0xffff_ffffu128 * 0xffff_ffffu128 * 0xffff_ffffu128) by (nonlinear_arith)
            requires
                dx * dy <= 0xffff_ffffu128 * 0xffff_ffffu128,
                dz <= 0xffff_ffffu128,
        ;
        dx * dy * dz
    }

    /// Compares the box with `other`: `A` when it holds `other` (shared
    /// boundaries count as inside), `B` when `other` holds it, and `Neither`
    /// otherwise.
    pub fn superset(&self, other: &Self) -> (r: SupersetResult)
        ensures
            r == classify(*self, *other),
    {
        proof {
            lemma_relations(*self, *other);
            lemma_relations(*other, *self);
        }
        let (a, b) = (self.0, other.0);
        if a[0] <= b[0] && a[1] <= b[1] && a[2] <= b[2] && a[3] >= b[3] && a[4] >= b[4] && a[5]
            >= b[5] {
            return SupersetResult::A;
        }
        if a[0] >= b[0] && a[1] >= b[1] && a[2] >= b[2] && a[3] <= b[3] && a[4] <= b[4] && a[5]
            <= b[5] {
            return SupersetResult::B;
        }
        SupersetResult::Neither
    }

    /// The open interiors of the two boxes meet: touching along a face, an edge
    /// or at a corner is no overlap.
    pub fn overlaps(&self, other: &Self) -> (r: bool)
        ensures
            r == meets(self@, other@, 3),
    {
        proof {
            lemma_relations(*self, *other);
        }
        let (a, b) = (self.0, other.0);
        a[0] < b[3] && b[0] < a[3] && a[1] < b[4] && b[1] < a[4] && a[2] < b[5] && b[2] < a[5]
    }

    /// The cross-section of the box across `axis`: a rectangle over the next
    /// two axes in cyclic order (`(axis + 1) % 3` as x, `(axis + 2) % 3` as y).
    pub fn surface_projection(&self, axis: usize) -> (r: Aabb2D)
        requires
            axis < 3,
        ensures
            r.min_x == self.0[(axis + 1) % 3],
            r.min_y == self.0[(axis + 2) % 3],
            r.max_x == self.0[(axis + 1) % 3 + 3],
            r.max_y == self.0[(axis + 2) % 3 + 3],
            self.wf() ==> r.wf(),
    {
        let u = (axis + 1) % 3;
        let v = (axis + 2) % 3;
        Aabb2D { min_x: self.0[u], min_y: self.0[v], max_x: self.0[u + 3], max_y: self.0[v + 3] }
    }

    /// The box with its bound `(axis, side)` set to `v`.
    fn set_bound(&self, axis: usize, side: usize, v: i32) -> (r: Aabb3D)
        requires
            axis < 3,
            side < 2,
        ensures
            r@ == with_bound(self@, axis as int, side as int, v as int),
    {
        let mut bounds = self.0;
        bounds[axis + 3 * side] = v;
        let r = Aabb3D(bounds);
        assert(r@.lo =~= with_bound(self@, axis as int, side as int, v as int).lo);
        assert(r@.hi =~= with_bound(self@, axis as int, side as int, v as int).hi);
        r
    }

    /// Cuts `other` along the first of this box's faces that passes through
    /// `other`'s interior, scanning the fixed axis (x, y, z) in the outer loop
    /// and the direction (min face, then max face) in the inner one. A face
    /// passes through when its coordinate lies strictly inside `other`'s extent
    /// on the fixed axis and the two boxes' cross-sections across that axis
    /// overlap. Returns `(before, after)`: `before` is the part of `other` on
    /// this box's side of the plane, `after` the part beyond it, which does not
    /// meet this box. `None` when no face passes through.
    pub fn cut(&self, other: &Self) -> (r: Option<(Aabb3D, Aabb3D)>)
        ensures
            cut_view(r) == cut_of(self@, other@, 3),
    {
        proof {
            lemma_relations(*self, *other);
            lemma_relations(*other, *self);
        }
        let mut fixed_axis: usize = 0;
        while fixed_axis < 3
            invariant
                0 <= fixed_axis <= 3,
                forall|k: int| 0 <= k < 2 * fixed_axis ==> !#[trigger] cuts(self@, other@, k, 3),
                self@.lo[0] == self.0[0] && self@.lo[1] == self.0[1] && self@.lo[2] == self.0[2] && self@.hi[0] == self.0[3] && self@.hi[1] == self.0[4] && self@.hi[2] == self.0[5],
                other@.lo[0] == other.0[0] && other@.lo[1] == other.0[1] && other@.lo[2] == other.0[2] && other@.hi[0] == other.0[3] && other@.hi[1] == other.0[4] && other@.hi[2] == other.0[5],
            decreases 3 - fixed_axis,
        {
            let mut dir: usize = 0;
            while dir < 2
                invariant
                    0 <= fixed_axis < 3,
                    0 <= dir <= 2,
                    forall|k: int|
                        0 <= k < 2 * fixed_axis + dir ==> !#[trigger] cuts(self@, other@, k, 3),
                    self@.lo[0] == self.0[0] && self@.lo[1] == self.0[1] && self@.lo[2] == self.0[2] && self@.hi[0] == self.0[3] && self@.hi[1] == self.0[4] && self@.hi[2] == self.0[5],
                    other@.lo[0] == other.0[0] && other@.lo[1] == other.0[1] && other@.lo[2] == other.0[2] && other@.hi[0] == other.0[3] && other@.hi[1] == other.0[4] && other@.hi[2] == other.0[5],
                decreases 2 - dir,
            {
                let fixed_value = self.0[fixed_axis + 3 * dir];
                let k = Ghost(2 * fixed_axis + dir);
                assert(k@ / 2 == fixed_axis && k@ % 2 == dir);
                assert(fixed_value == face(self@, fixed_axis as int, dir as int));
                let u = Ghost(((fixed_axis + 1) % 3) as int);
                let v = Ghost(((fixed_axis + 2) % 3) as int);
                if other.0[fixed_axis] < fixed_value && fixed_value < other.0[fixed_axis + 3] {
                    let cut_surface = self.surface_projection(fixed_axis);
                    let target_surface = other.surface_projection(fixed_axis);
                    if cut_surface.overlaps(&target_surface) {
                        let before = other.set_bound(fixed_axis, dir, fixed_value);
                        let after = other.set_bound(fixed_axis, 1 - dir, fixed_value);
                        proof {
                            crate::aabb::aabb_2d::lemma_relations(cut_surface, target_surface);
                            assert forall|j: int| 0 <= j < 3 && j != fixed_axis implies self@.lo[j] < other@.hi[j] && other@.lo[j] < self@.hi[j] by {
                                assert(j == u@ || j == v@);
                            }
                            assert(cuts(self@, other@, k@, 3));
                            lemma_first_cut_skip(self@, other@, k@, 3);
                        }
                        return Some((before, after));
                    }
                    proof {
                        crate::aabb::aabb_2d::lemma_relations(cut_surface, target_surface);
                        assert(!cuts(self@, other@, k@, 3)) by {
                            if cuts(self@, other@, k@, 3) {
                                assert(cuts_at(self@, other@, fixed_axis as int, dir as int, 3));
                                assert(0 <= u@ < 3 && u@ != fixed_axis);
                                assert(0 <= v@ < 3 && v@ != fixed_axis);
                            }
                        }
                    }
                }
                assert(!cuts(self@, other@, k@, 3));
                dir = dir + 1;
            }
            fixed_axis = fixed_axis + 1;
        }
        proof {
            lemma_first_cut_skip(self@, other@, 6, 3);
        }
        None
    }

    /// Number of this box's corners that lie strictly inside `other`.
    fn corners_inside(&self, other: &Self) -> (r: usize)
        ensures
            r == corners_in(*self, *other, 8),
    {
        let mut count: usize = 0;
        let mut i: usize = 0;
        while i < 8
            invariant
                i <= 8,
                count <= i,
                count == corners_in(*self, *other, i as int),
            decreases 8 - i,
        {
            let x = self.0[3 * (i % 2)];
            let y = self.0[1 + 3 * ((i / 2) % 2)];
            let z = self.0[2 + 3 * (i / 4)];
            if other.strict_contains(&Point3D([x, y, z])) {
                count = count + 1;
            }
            i = i + 1;
        }
        count
    }

    /// The union of the two boxes as boxes that do not overlap.
    ///
    /// When one holds the other, the larger alone. Otherwise the operands are
    /// put in order (when exactly four of this box's corners (half of them) lie inside
    /// `other`, `other` goes first), and the second is cut by the first's faces
    /// until what is left of it lies inside the first or no face passes through
    /// it: the result is the first, the parts cut off, and that remainder if it
    /// is not inside the first. Boxes that do not overlap come back
    /// unchanged, in argument order.
    /// The pieces are exactly `union_of(self, other)`.
    pub fn union(&self, other: &Self) -> (r: Vec<Aabb3D>)
        requires
            self.wf(),
            other.wf(),
        ensures
            views(r@) == union_of(*self, *other),
            classify(*self, *other) == SupersetResult::A ==> r@ == seq![*self],
            classify(*self, *other) == SupersetResult::B ==> r@ == seq![*other],
            classify(*self, *other) == SupersetResult::Neither && !meets(self@, other@, 3) ==> r@
                == seq![*self, *other],
            forall|i: int|
                0 <= i < r.len() ==> (#[trigger] r@[i]).wf() && (encloses(self@, r@[i]@, 3)
                    || encloses(other@, r@[i]@, 3)),
            pairwise_apart(views(r@), 3),
            total_measure(views(r@), 3) + common_measure(self@, other@, 3) == measure(self@, 3)
                + measure(other@, 3),
            forall|q: Seq<int>|
                within(self@, q, 3) || within(other@, q, 3) ==> exists|i: int|
                    0 <= i < r.len() && #[trigger] within(r@[i]@, q, 3),
    {
        proof {
            lemma_relations(*self, *other);
            lemma_relations(*other, *self);
            lemma_common_symmetric(self@, other@, 3);
            lemma_meets_symmetric(self@, other@, 3);
            lemma_views_small(*self, *other);
            lemma_views_small(*other, *self);
            lemma_total_small(self@, other@, 3);
            lemma_total_small(other@, self@, 3);
        }
        match self.superset(other) {
            SupersetResult::A => {
                proof {
                    lemma_common_enclosed(self@, other@, 3);
                    lemma_within_enclosed(self@, other@, 3);
                    assert(total_measure(views(seq![*self]), 3) == measure(self@, 3));
                    let one = seq![*self];
                    assert forall|q: Seq<int>|
                        within(self@, q, 3) || within(other@, q, 3) implies exists|i: int|
                        0 <= i < 1 && #[trigger] within(one[i]@, q, 3) by {
                        assert(within(one[0]@, q, 3));
                    }
                }
                return vec![*self];
            },
            SupersetResult::B => {
                proof {
                    lemma_common_enclosed(other@, self@, 3);
                    lemma_within_enclosed(other@, self@, 3);
                    assert(total_measure(views(seq![*other]), 3) == measure(other@, 3));
                    let one = seq![*other];
                    assert forall|q: Seq<int>|
                        within(self@, q, 3) || within(other@, q, 3) implies exists|i: int|
                        0 <= i < 1 && #[trigger] within(one[i]@, q, 3) by {
                        assert(within(one[0]@, q, 3));
                    }
                }
                return vec![*other];
            },
            SupersetResult::Neither => {},
        }
        let (a, b) = if self.corners_inside(other) == 4 {
            (*other, *self)
        } else {
            (*self, *other)
        };
        let ghost target = measure(a@, 3) + measure(b@, 3) - common_measure(a@, b@, 3);
        proof {
            lemma_common_symmetric(a@, b@, 3);
            lemma_relations(a, b);
            lemma_relations(b, a);
        }
        match a.cut(&b) {
            Option::None => {
                proof {
                    assert(views(seq![*self, *other]) == seq![self@, other@]);
                    lemma_no_cut(a@, b@, 3);
                    lemma_meets_symmetric(a@, b@, 3);
                    lemma_common_apart(self@, other@, 3);
                    let both = seq![*self, *other];
                    assert forall|q: Seq<int>|
                        within(self@, q, 3) || within(other@, q, 3) implies exists|i: int|
                        0 <= i < 2 && #[trigger] within(both[i]@, q, 3) by {
                        if within(self@, q, 3) {
                            assert(within(both[0]@, q, 3));
                        } else {
                            assert(within(both[1]@, q, 3));
                        }
                    }
                }
                vec![*self, *other]
            },
            Option::Some((near, far)) => {
                proof {
                    lemma_cut(a@, b@, 3);
                    lemma_common_apart(a@, far@, 3);
                    lemma_meets_symmetric(a@, far@, 3);
                    lemma_relations(near, far);
                    lemma_relations(far, near);
                    lemma_relations(a, far);
                    lemma_relations(a, near);
                }
                assert(classify(*self, *other) == SupersetResult::Neither ==> meets(
                    self@,
                    other@,
                    3,
                ));
                let mut out: Vec<Aabb3D> = Vec::new();
                out.push(a);
                out.push(far);
                proof {
                    lemma_views_small(a, far);
                    lemma_total_small(a@, far@, 3);
                    assert(out@ == seq![a, far]);
                }
                let mut piece = near;
                let mut done = false;
                let ghost mut fuel: nat = 7;
                proof {
                    lemma_inner_faces_bound(a@, b@, 0, 3);
                    assert(views(out@) + trim(a@, piece@, 3, fuel) =~= union_of(*self, *other));
                }
                while !done
                    invariant
                        !done ==> views(out@) + trim(a@, piece@, 3, fuel) == union_of(*self, *other),
                        !done ==> fuel > inner_faces(a@, piece@, 0, 3),
                        done ==> views(out@) == union_of(*self, *other),
                        a.wf(),
                        piece.wf(),
                        out.len() >= 1,
                        out@[0] == a,
                        forall|i: int| 0 <= i < out.len() ==> (#[trigger] out@[i]).wf(),
                        forall|i: int| 1 <= i < out.len() ==> encloses(b@, (#[trigger] out@[i])@, 3),
                        pairwise_apart(views(out@), 3),
                        !done ==> encloses(b@, piece@, 3),
                        !done ==> forall|i: int|
                            1 <= i < out.len() ==> !meets((#[trigger] out@[i])@, piece@, 3),
                        !done ==> total_measure(views(out@), 3) + measure(piece@, 3)
                            - common_measure(a@, piece@, 3) == target,
                        done ==> total_measure(views(out@), 3) == target,
                        forall|q: Seq<int>|
                            within(a@, q, 3) || within(b@, q, 3) ==> (!done && within(piece@, q, 3))
                                || exists|i: int| 0 <= i < out.len() && #[trigger] within(out@[i]@, q, 3),
                    decreases (if done {
                        0
                    } else {
                        inner_faces(a@, piece@, 0, 3) + 1
                    }),
                {
                    let ghost old_out = out@;
                    let ghost p = piece;
                    proof {
                        lemma_relations(a, p);
                    }
                    if a.superset(&piece) == SupersetResult::A {
                        proof {
                            lemma_common_enclosed(a@, p@, 3);
                            lemma_within_enclosed(a@, p@, 3);
                            assert forall|q: Seq<int>| within(a@, q, 3) || within(b@, q, 3) implies exists|i: int|
                                0 <= i < out.len() && #[trigger] within(out@[i]@, q, 3) by {
                                if within(p@, q, 3) {
                                    assert(within(out@[0]@, q, 3));
                                }
                            }
                        }
                        done = true;
                    } else {
                        match a.cut(&piece) {
                            Option::None => {
                                proof {
                                    lemma_no_cut(a@, p@, 3);
                                    lemma_common_apart(a@, p@, 3);
                                    lemma_meets_symmetric(a@, p@, 3);
                                    lemma_views_push(old_out, p);
                                    lemma_total_measure_push(views(old_out), p@, 3);
                                    assert forall|i: int| 0 <= i < old_out.len() implies !meets(
                                        #[trigger] views(old_out)[i],
                                        p@,
                                        3,
                                    ) by {
                                        if i == 0 {
                                            assert(views(old_out)[i] == a@);
                                        } else {
                                            assert(views(old_out)[i] == old_out[i]@);
                                        }
                                    }
                                    lemma_pairwise_push(views(old_out), p@, 3);
                                }
                                out.push(piece);
                                proof {
                                    assert forall|q: Seq<int>| within(a@, q, 3) || within(b@, q, 3) implies exists|i: int|
                                        0 <= i < out.len() && #[trigger] within(out@[i]@, q, 3) by {
                                        if within(p@, q, 3) {
                                            assert(within(out@[old_out.len() as int]@, q, 3));
                                        } else {
                                            let i = choose|i: int| 0 <= i < old_out.len() && #[trigger] within(old_out[i]@, q, 3);
                                            assert(within(out@[i]@, q, 3));
                                        }
                                    }
                                }
                                done = true;
                            },
                            Option::Some((n, f)) => {
                                proof {
                                    lemma_cut(a@, p@, 3);
                                    lemma_common_apart(a@, f@, 3);
                                    lemma_meets_symmetric(a@, f@, 3);
                                    lemma_meets_symmetric(n@, f@, 3);
                                    lemma_views_push(old_out, f);
                                    lemma_total_measure_push(views(old_out), f@, 3);
                                    assert forall|i: int| 0 <= i < old_out.len() implies !meets(
                                        #[trigger] views(old_out)[i],
                                        f@,
                                        3,
                                    ) by {
                                        if i == 0 {
                                            assert(views(old_out)[i] == a@);
                                        } else {
                                            assert(views(old_out)[i] == old_out[i]@);
                                            lemma_apart_shrink(old_out[i]@, p@, f@, 3);
                                        }
                                    }
                                    lemma_pairwise_push(views(old_out), f@, 3);
                                    assert forall|i: int| 1 <= i < old_out.len() implies !meets(
                                        (#[trigger] old_out[i])@,
                                        n@,
                                        3,
                                    ) by {
                                        lemma_apart_shrink(old_out[i]@, p@, n@, 3);
                                    }
                                }
                                out.push(f);
                                piece = n;
                                proof {
                                    let t = trim(a@, n@, 3, (fuel - 1) as nat);
                                    assert(trim(a@, p@, 3, fuel) == seq![f@] + t);
                                    assert(views(out@) + t =~= views(old_out) + (seq![f@] + t));
                                    fuel = (fuel - 1) as nat;
                                    assert forall|q: Seq<int>| within(a@, q, 3) || within(b@, q, 3) implies
                                        within(piece@, q, 3) || exists|i: int|
                                        0 <= i < out.len() && #[trigger] within(out@[i]@, q, 3) by {
                                        if within(p@, q, 3) {
                                            if !within(n@, q, 3) {
                                                assert(within(out@[old_out.len() as int]@, q, 3));
                                            }
                                        } else {
                                            let i = choose|i: int| 0 <= i < old_out.len() && #[trigger] within(old_out[i]@, q, 3);
                                            assert(within(out@[i]@, q, 3));
                                        }
                                    }
                                }
                            },
                        }
                    }
                }
                out
            },
        }
    }

    /// The part of this box that `other` does not cover, as boxes
    /// that do not overlap.
    ///
    /// A stack of pieces starts with this box. Each piece popped from it
    /// is kept when it does not overlap `other`, dropped when `other` holds it,
    /// and otherwise cut by the first of `other`'s faces that passes through it,
    /// both parts going back on the stack.
    pub fn subtract(&self, other: &Self) -> (r: Vec<Aabb3D>)
        requires
            self.wf(),
            other.wf(),
        ensures
            !meets(self@, other@, 3) ==> r@ == seq![*self],
            meets(self@, other@, 3) && encloses(other@, self@, 3) ==> r.len() == 0,
            solid(self@, 3) && encloses(other@, self@, 3) ==> r.len() == 0,
            forall|i: int|
                0 <= i < r.len() ==> (#[trigger] r@[i]).wf() && encloses(self@, r@[i]@, 3) && !meets(
                    r@[i]@,
                    other@,
                    3,
                ),
            pairwise_apart(views(r@), 3),
            total_measure(views(r@), 3) + common_measure(self@, other@, 3) == measure(self@, 3),
            forall|q: Seq<int>|
                within(self@, q, 3) && !within(other@, q, 3) ==> exists|i: int|
                    0 <= i < r.len() && #[trigger] within(r@[i]@, q, 3),
    {
        let ghost o = other@;
        proof {
            lemma_relations(*self, *other);
            lemma_relations(*other, *self);
            lemma_common_symmetric(self@, o, 3);
            lemma_views_small(*self, *other);
            lemma_total_small(self@, o, 3);
        }
        if !self.overlaps(other) {
            proof {
                lemma_common_apart(self@, o, 3);
                let one = seq![*self];
                assert forall|q: Seq<int>| within(self@, q, 3) && !within(o, q, 3) implies exists|i: int|
                    0 <= i < 1 && #[trigger] within(one[i]@, q, 3) by {
                    assert(within(one[0]@, q, 3));
                }
            }
            return vec![*self];
        }
        if other.superset(self) == SupersetResult::A {
            proof {
                lemma_common_enclosed(o, self@, 3);
                lemma_within_enclosed(o, self@, 3);
                assert(total_measure(views(Seq::<Aabb3D>::empty()), 3) == 0) by {
                    assert(views(Seq::<Aabb3D>::empty()) =~= Seq::<Extent>::empty());
                }
            }
            return Vec::new();
        }
        let mut stack: Vec<Aabb3D> = Vec::new();
        stack.push(*self);
        let mut out: Vec<Aabb3D> = Vec::new();
        proof {
            assert(views(out@) =~= Seq::<Extent>::empty());
            assert(views(stack@) == seq![self@]);
            lemma_total_small(o, self@, 3);
            assert(total_common(o, seq![self@], 3) == common_measure(o, self@, 3)) by {
                assert(seq![self@].drop_last() =~= Seq::<Extent>::empty());
                assert(total_common(o, Seq::<Extent>::empty(), 3) == 0);
            }
            assert forall|q: Seq<int>| within(self@, q, 3) && !within(o, q, 3) implies exists|j: int|
                0 <= j < stack.len() && #[trigger] within(stack@[j]@, q, 3) by {
                assert(within(stack@[0]@, q, 3));
            }
        }
        while stack.len() > 0
            invariant
                o == other@,
                other.wf(),
                forall|i: int|
                    0 <= i < stack.len() ==> (#[trigger] stack@[i]).wf() && encloses(
                        self@,
                        stack@[i]@,
                        3,
                    ),
                forall|i: int|
                    0 <= i < out.len() ==> (#[trigger] out@[i]).wf() && encloses(self@, out@[i]@, 3)
                        && !meets(out@[i]@, o, 3),
                pairwise_apart(views(out@), 3),
                pairwise_apart(views(stack@), 3),
                forall|i: int, j: int|
                    0 <= i < out.len() && 0 <= j < stack.len() ==> !meets(
                        (#[trigger] out@[i])@,
                        (#[trigger] stack@[j])@,
                        3,
                    ),
                total_measure(views(out@), 3) + total_measure(views(stack@), 3) - total_common(
                    o,
                    views(stack@),
                    3,
                ) + common_measure(o, self@, 3) == measure(self@, 3),
                forall|q: Seq<int>|
                    within(self@, q, 3) && !within(o, q, 3) ==> (exists|i: int|
                        0 <= i < out.len() && #[trigger] within(out@[i]@, q, 3)) || (exists|j: int|
                        0 <= j < stack.len() && #[trigger] within(stack@[j]@, q, 3)),
            decreases pending_work(o, views(stack@), 3),
        {
            let ghost old_out = out@;
            let ghost old_stack = stack@;
            let piece = stack.pop().unwrap();
            let ghost rest = stack@;
            proof {
                assert(rest == old_stack.drop_last());
                assert(piece == old_stack.last());
                lemma_views_pop(old_stack);
                lemma_pairwise_drop_last(views(old_stack), 3);
                lemma_relations(piece, *other);
                lemma_relations(*other, piece);
                lemma_meets_symmetric(piece@, o, 3);
                assert(tree_size(inner_faces(o, piece@, 0, 3)) >= 1);
                assert forall|i: int| 0 <= i < rest.len() implies !meets(
                    (#[trigger] rest[i])@,
                    piece@,
                    3,
                ) by {
                    assert(views(old_stack)[i] == rest[i]@);
                }
                assert forall|i: int| 0 <= i < old_out.len() implies !meets(
                    (#[trigger] old_out[i])@,
                    piece@,
                    3,
                ) by {
                    assert(old_stack[old_stack.len() - 1] == piece);
                }
            }
            if !piece.overlaps(other) {
                proof {
                    lemma_common_apart(o, piece@, 3);
                    lemma_views_push(old_out, piece);
                    lemma_total_measure_push(views(old_out), piece@, 3);
                    assert forall|i: int| 0 <= i < old_out.len() implies !meets(
                        #[trigger] views(old_out)[i],
                        piece@,
                        3,
                    ) by {
                        assert(views(old_out)[i] == old_out[i]@);
                    }
                    lemma_pairwise_push(views(old_out), piece@, 3);
                }
                out.push(piece);
                proof {
                    assert forall|i: int, j: int|
                        0 <= i < out.len() && 0 <= j < stack.len() implies !meets(
                        (#[trigger] out@[i])@,
                        (#[trigger] stack@[j])@,
                        3,
                    ) by {
                        if i == old_out.len() {
                            lemma_meets_symmetric(piece@, rest[j]@, 3);
                        } else {
                            assert(stack@[j] == old_stack[j]);
                        }
                    }
                    assert forall|q: Seq<int>| within(self@, q, 3) && !within(o, q, 3) implies (exists|i: int|
                        0 <= i < out.len() && #[trigger] within(out@[i]@, q, 3)) || (exists|j: int|
                        0 <= j < stack.len() && #[trigger] within(stack@[j]@, q, 3)) by {
                        if exists|i: int| 0 <= i < old_out.len() && #[trigger] within(old_out[i]@, q, 3) {
                            let i = choose|i: int| 0 <= i < old_out.len() && #[trigger] within(old_out[i]@, q, 3);
                            assert(within(out@[i]@, q, 3));
                        } else {
                            let j = choose|j: int| 0 <= j < old_stack.len() && #[trigger] within(old_stack[j]@, q, 3);
                            if j == old_stack.len() - 1 {
                                assert(within(out@[old_out.len() as int]@, q, 3));
                            } else {
                                assert(within(stack@[j]@, q, 3));
                            }
                        }
                    }
                }
            } else if other.superset(&piece) == SupersetResult::A {
                proof {
                    lemma_common_enclosed(o, piece@, 3);
                    lemma_within_enclosed(o, piece@, 3);
                    assert forall|q: Seq<int>| within(self@, q, 3) && !within(o, q, 3) implies (exists|i: int|
                        0 <= i < out.len() && #[trigger] within(out@[i]@, q, 3)) || (exists|j: int|
                        0 <= j < stack.len() && #[trigger] within(stack@[j]@, q, 3)) by {
                        if !(exists|i: int| 0 <= i < old_out.len() && #[trigger] within(old_out[i]@, q, 3)) {
                            let j = choose|j: int| 0 <= j < old_stack.len() && #[trigger] within(old_stack[j]@, q, 3);
                            assert(j != old_stack.len() - 1);
                            assert(within(stack@[j]@, q, 3));
                        }
                    }
                }
            } else {
                match other.cut(&piece) {
                    Option::None => {
                        proof {
                            lemma_no_cut(o, piece@, 3);
                            assert(false);
                        }
                    },
                    Option::Some((n, f)) => {
                        proof {
                            lemma_cut(o, piece@, 3);
                            lemma_meets_symmetric(n@, f@, 3);
                            lemma_views_push(rest, n);
                            lemma_views_push(rest.push(n), f);
                            lemma_total_measure_push(views(rest), n@, 3);
                            lemma_total_measure_push(views(rest).push(n@), f@, 3);
                            lemma_total_common_push(o, views(rest), n@, 3);
                            lemma_total_common_push(o, views(rest).push(n@), f@, 3);
                            lemma_pending_work_push(o, views(rest), n@, 3);
                            lemma_pending_work_push(o, views(rest).push(n@), f@, 3);
                            lemma_tree_size_monotone(inner_faces(o, n@, 0, 3), (inner_faces(o, piece@, 0, 3) - 1) as nat);
                            lemma_tree_size_monotone(inner_faces(o, f@, 0, 3), (inner_faces(o, piece@, 0, 3) - 1) as nat);
                            assert forall|i: int| 0 <= i < rest.len() implies !meets(
                                #[trigger] views(rest)[i],
                                n@,
                                3,
                            ) by {
                                assert(views(rest)[i] == rest[i]@);
                                lemma_apart_shrink(rest[i]@, piece@, n@, 3);
                            }
                            lemma_pairwise_push(views(rest), n@, 3);
                            assert forall|i: int| 0 <= i < rest.len() + 1 implies !meets(
                                #[trigger] views(rest).push(n@)[i],
                                f@,
                                3,
                            ) by {
                                if i < rest.len() {
                                    assert(views(rest).push(n@)[i] == rest[i]@);
                                    lemma_apart_shrink(rest[i]@, piece@, f@, 3);
                                }
                            }
                            lemma_pairwise_push(views(rest).push(n@), f@, 3);
                        }
                        stack.push(n);
                        stack.push(f);
                        proof {
                            assert(stack@ == rest.push(n).push(f));
                            assert forall|i: int, j: int|
                                0 <= i < out.len() && 0 <= j < stack.len() implies !meets(
                                (#[trigger] out@[i])@,
                                (#[trigger] stack@[j])@,
                                3,
                            ) by {
                                if j == rest.len() {
                                    lemma_apart_shrink(out@[i]@, piece@, n@, 3);
                                } else if j == rest.len() + 1 {
                                    lemma_apart_shrink(out@[i]@, piece@, f@, 3);
                                } else {
                                    assert(stack@[j] == old_stack[j]);
                                }
                            }
                            assert forall|i: int| 0 <= i < stack.len() implies (#[trigger] stack@[i]).wf() && encloses(
                                self@,
                                stack@[i]@,
                                3,
                            ) by {
                                lemma_relations(stack@[i], *self);
                                lemma_relations(*self, stack@[i]);
                            }
                            assert forall|q: Seq<int>| within(self@, q, 3) && !within(o, q, 3) implies (exists|i: int|
                                0 <= i < out.len() && #[trigger] within(out@[i]@, q, 3)) || (exists|j: int|
                                0 <= j < stack.len() && #[trigger] within(stack@[j]@, q, 3)) by {
                                if !(exists|i: int| 0 <= i < old_out.len() && #[trigger] within(old_out[i]@, q, 3)) {
                                    let j = choose|j: int| 0 <= j < old_stack.len() && #[trigger] within(old_stack[j]@, q, 3);
                                    if j == old_stack.len() - 1 {
                                        if within(n@, q, 3) {
                                            assert(within(stack@[rest.len() as int]@, q, 3));
                                        } else {
                                            assert(within(stack@[rest.len() as int + 1]@, q, 3));
                                        }
                                    } else {
                                        assert(within(stack@[j]@, q, 3));
                                    }
                                }
                            }
                        }
                    },
                }
            }
        }
        out
    }

}

/// Comparing two different boxes in both orders gives mirrored answers: `a`
/// holds `b` (`A`) exactly when `b` compares as held (`B`), and the other way
/// round; `Neither` comes in both orders or in none. (Equal boxes hold each
/// other.)
pub proof fn lemma_superset_mirrors(a: Aabb3D, b: Aabb3D)
    requires
        a@ != b@,
    ensures
        classify(a, b) == SupersetResult::A <==> classify(b, a) == SupersetResult::B,
        classify(a, b) == SupersetResult::B <==> classify(b, a) == SupersetResult::A,
        classify(a, b) == SupersetResult::Neither <==> classify(b, a) == SupersetResult::Neither,
{
    lemma_relations(a, b);
    lemma_relations(b, a);
    if a.0[0] == b.0[0] && a.0[1] == b.0[1] && a.0[2] == b.0[2] && a.0[3] == b.0[3] && a.0[4]
        == b.0[4] && a.0[5] == b.0[5] {
        assert(a@.lo =~= b@.lo);
        assert(a@.hi =~= b@.hi);
    }
}

/// The boxes' closed volumes meet, but only on a face, an edge or a corner.
pub open spec fn touching(a: Aabb3D, b: Aabb3D) -> bool {
    &&& a.0[0] <= b.0[3] && b.0[0] <= a.0[3]
    &&& a.0[1] <= b.0[4] && b.0[1] <= a.0[4]
    &&& a.0[2] <= b.0[5] && b.0[2] <= a.0[5]
    &&& (a.0[3] == b.0[0] || b.0[3] == a.0[0] || a.0[4] == b.0[1] || b.0[4] == a.0[1] || a.0[5]
        == b.0[2] || b.0[5] == a.0[2])
}

/// Boxes of positive size that only touch compare as `Neither` and do not
/// overlap, in both orders; `union` then returns both unchanged, in argument
/// order.
pub proof fn lemma_touching_is_disjoint(a: Aabb3D, b: Aabb3D)
    requires
        a.0[0] < a.0[3] && a.0[1] < a.0[4] && a.0[2] < a.0[5],
        b.0[0] < b.0[3] && b.0[1] < b.0[4] && b.0[2] < b.0[5],
        touching(a, b),
    ensures
        classify(a, b) == SupersetResult::Neither,
        classify(b, a) == SupersetResult::Neither,
        !meets(a@, b@, 3),
        !meets(b@, a@, 3),
{
    lemma_relations(a, b);
    lemma_relations(b, a);
}

} // verus!
