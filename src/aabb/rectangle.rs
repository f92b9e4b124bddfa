use vstd::prelude::*;

use crate::aabb::aabb_2d::{self, Aabb2D};
use crate::aabb::extent::{
    common_measure, cut_of, encloses, measure, meets, pairwise_apart, solid, total_measure, within,
    Extent,
};

verus! {

/// An axis-aligned rectangle, the same shape as an `Aabb2D`, with the box
/// operations as free functions.
#[derive(Debug, Clone, Copy, PartialEq, Eq, Structural)]
pub struct Rectangle {
    pub min_x: i32,
    pub min_y: i32,
    pub max_x: i32,
    pub max_y: i32,
}

/// A point of the plane.
#[derive(Debug, Clone, Copy, PartialEq, Eq, Structural)]
pub struct Point {
    pub x: i32,
    pub y: i32,
}

/// How two rectangles compare: the first holds the second (`A`), the second
/// holds the first (`B`), or `Neither`.
#[derive(Debug, Clone, Copy, PartialEq, Eq, Structural)]
pub enum SupersetResult {
    A,
    B,
    Neither,
}

impl View for Rectangle {
    type V = Extent;

    open spec fn view(&self) -> Extent {
        Extent {
            lo: seq![self.min_x as int, self.min_y as int],
            hi: seq![self.max_x as int, self.max_y as int],
        }
    }
}

/// The models of a sequence of rectangles.
pub open spec fn views(s: Seq<Rectangle>) -> Seq<Extent> {
    s.map_values(|r: Rectangle| r@)
}

/// The same rectangle as an `Aabb2D`.
pub open spec fn as_aabb(r: Rectangle) -> Aabb2D {
    Aabb2D { min_x: r.min_x, min_y: r.min_y, max_x: r.max_x, max_y: r.max_y }
}

/// The same rectangle from an `Aabb2D`.
pub open spec fn from_aabb(a: Aabb2D) -> Rectangle {
    Rectangle { min_x: a.min_x, min_y: a.min_y, max_x: a.max_x, max_y: a.max_y }
}

impl Rectangle {
    /// `lo <= hi` on both axes.
    pub open spec fn wf(&self) -> bool {
        self.min_x <= self.max_x && self.min_y <= self.max_y
    }

    /// `p` lies strictly inside the rectangle; boundary points do not.
    pub fn contains(&self, p: &Point) -> (r: bool)
        ensures
            r == (self.min_x < p.x && self.min_y < p.y && p.x < self.max_x && p.y < self.max_y),
    {
        self.min_x < p.x && self.min_y < p.y && self.max_x > p.x && self.max_y > p.y
    }

    /// `[[min_x, min_y], [max_x, max_y]]`.
    pub fn to_array(&self) -> (r: [[i32; 2]; 2])
        ensures
            r@[0]@ == seq![self.min_x, self.min_y],
            r@[1]@ == seq![self.max_x, self.max_y],
    {
        self.to_aabb().to_array()
    }

    /// The area, `(max_x - min_x) * (max_y - min_y)`.
    pub fn area(&self) -> (r: u64)
        requires
            self.wf(),
        ensures
            r == measure(self@, 2),
    {
        let a = self.to_aabb();
        assert(a@ =~= self@);
        a.area()
    }

    fn to_aabb(&self) -> (r: Aabb2D)
        ensures
            r == as_aabb(*self),
            r@ == self@,
    {
        let r = Aabb2D {
            min_x: self.min_x,
            min_y: self.min_y,
            max_x: self.max_x,
            max_y: self.max_y,
        };
        assert(r@.lo =~= self@.lo && r@.hi =~= self@.hi);
        r
    }
}

fn from_box(a: &Aabb2D) -> (r: Rectangle)
    ensures
        r == from_aabb(*a),
        r@ == a@,
{
    let r = Rectangle { min_x: a.min_x, min_y: a.min_y, max_x: a.max_x, max_y: a.max_y };
    assert(r@.lo =~= a@.lo && r@.hi =~= a@.hi);
    r
}

/// Compares `a` with `b`: `A` when `a` holds `b` (shared boundaries count as
/// inside), `B` when `b` holds `a`, `Neither` otherwise.
pub fn superset(a: &Rectangle, b: &Rectangle) -> (r: SupersetResult)
    ensures
        r == (if encloses(a@, b@, 2) {
            SupersetResult::A
        } else if encloses(b@, a@, 2) {
            SupersetResult::B
        } else {
            SupersetResult::Neither
        }),
{
    let (x, y) = (a.to_aabb(), b.to_aabb());
    match x.cmp(&y) {
        aabb_2d::Aabb2CmpResult::Superset => SupersetResult::A,
        aabb_2d::Aabb2CmpResult::Subset => SupersetResult::B,
        aabb_2d::Aabb2CmpResult::Neither => SupersetResult::Neither,
    }
}

/// The rectangles as rectangles of this type.
fn from_boxes(v: &Vec<Aabb2D>) -> (r: Vec<Rectangle>)
    ensures
        views(r@) == aabb_2d::views(v@),
        r.len() == v.len(),
        forall|i: int| 0 <= i < r.len() ==> r@[i] == from_aabb(#[trigger] v@[i]),
{
    let mut r: Vec<Rectangle> = Vec::new();
    let mut i: usize = 0;
    while i < v.len()
        invariant
            i <= v.len(),
            r.len() == i,
            forall|j: int| 0 <= j < i ==> r@[j] == from_aabb(#[trigger] v@[j]) && r@[j]@ == v@[j]@,
        decreases v.len() - i,
    {
        r.push(from_box(&v[i]));
        i = i + 1;
    }
    assert(views(r@) =~= aabb_2d::views(v@));
    r
}

/// The union of `a` and `b` as rectangles that do not overlap: the pieces of
/// `Aabb2D::union`, field for field.
pub fn union(a: &Rectangle, b: &Rectangle) -> (r: Vec<Rectangle>)
    requires
        a.wf(),
        b.wf(),
    ensures
        views(r@) == aabb_2d::union_of(as_aabb(*a), as_aabb(*b)),
        solid(a@, 2) && solid(b@, 2) ==> 1 <= r.len() <= 3,
        encloses(a@, b@, 2) ==> r@ == seq![*a],
        !encloses(a@, b@, 2) && encloses(b@, a@, 2) ==> r@ == seq![*b],
        !encloses(a@, b@, 2) && !encloses(b@, a@, 2) && !meets(a@, b@, 2) ==> r@ == seq![*a, *b],
        forall|i: int|
            0 <= i < r.len() ==> (#[trigger] r@[i]).wf() && (encloses(a@, r@[i]@, 2) || encloses(
                b@,
                r@[i]@,
                2,
            )),
        pairwise_apart(views(r@), 2),
        total_measure(views(r@), 2) + common_measure(a@, b@, 2) == measure(a@, 2) + measure(b@, 2),
        forall|q: Seq<int>|
            within(a@, q, 2) || within(b@, q, 2) ==> exists|i: int|
                0 <= i < r.len() && #[trigger] within(r@[i]@, q, 2),
{
    let (x, y) = (a.to_aabb(), b.to_aabb());
    let pieces = x.union(&y);
    let r = from_boxes(&pieces);
    proof {
        assert(from_aabb(x) == *a && from_aabb(y) == *b);
        assert(x@ == a@ && y@ == b@);
        if solid(a@, 2) && solid(b@, 2) {
            aabb_2d::lemma_union_pieces(x, y);
        }
        if encloses(a@, b@, 2) {
            assert(r@ =~= seq![*a]);
        } else if encloses(b@, a@, 2) {
            assert(r@ =~= seq![*b]);
        } else if !meets(a@, b@, 2) {
            assert(r@ =~= seq![*a, *b]);
        }
        assert forall|i: int| 0 <= i < r.len() implies (#[trigger] r@[i]).wf() && (encloses(a@, r@[i]@, 2) || encloses(
                b@,
                r@[i]@,
                2,
            )) by {
            assert(r@[i]@ == pieces@[i]@);
            assert(pieces@[i].wf());
        }
        assert forall|q: Seq<int>| within(a@, q, 2) || within(b@, q, 2) implies exists|i: int|
            0 <= i < r.len() && #[trigger] within(r@[i]@, q, 2) by {
            let i = choose|i: int| 0 <= i < pieces.len() && #[trigger] within(pieces@[i]@, q, 2);
            assert(r@[i]@ == pieces@[i]@);
        }
    }
    r
}

/// Cuts `b` along the first of `a`'s edges that passes through `b`'s interior:
/// see `Aabb2D::cut`.
pub fn cut(a: &Rectangle, b: &Rectangle) -> (r: Option<(Rectangle, Rectangle)>)
    ensures
        match r {
            Some((n, f)) => cut_of(a@, b@, 2) == Some((n@, f@)),
            None => cut_of(a@, b@, 2) is None,
        },
{
    let (x, y) = (a.to_aabb(), b.to_aabb());
    match x.cut(&y) {
        Some((n, f)) => Some((from_box(&n), from_box(&f))),
        None => None,
    }
}

} // verus!
