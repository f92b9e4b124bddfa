use wallace::aabb::aabb_2d::{Aabb2CmpResult, Aabb2D, InvertedBounds, Point2D};
use wallace::aabb::aabb_3d::UNITS_PER_BLOCK;

fn u(v: f32) -> i32 {
    (v * UNITS_PER_BLOCK as f32).round() as i32
}

fn rect(min_x: f32, min_y: f32, max_x: f32, max_y: f32) -> Aabb2D {
    Aabb2D { min_x: u(min_x), min_y: u(min_y), max_x: u(max_x), max_y: u(max_y) }
}

fn area_in_blocks(pieces: &[Aabb2D]) -> f32 {
    let units: u64 = pieces.iter().map(|r| r.area()).sum();
    units as f32 / (UNITS_PER_BLOCK as f32 * UNITS_PER_BLOCK as f32)
}

fn overlap(a: &Aabb2D, b: &Aabb2D) -> u64 {
    let w = (a.max_x.min(b.max_x) - a.min_x.max(b.min_x)).max(0) as u64;
    let h = (a.max_y.min(b.max_y) - a.min_y.max(b.min_y)).max(0) as u64;
    w * h
}

#[test]
fn aabb_2d_strict_subset() {
    let a = rect(-1.0, -1.0, 1.0, 1.0);
    let b = rect(-2.0, -2.0, 2.0, 2.0);
    assert_eq!(vec![b.clone()], a.union(&b));
    assert_eq!(vec![b.clone()], b.union(&a));
}

#[test]
fn aabb_2d_subset() {
    let a = rect(-2.0, -1.0, 2.0, 1.0);
    let b = rect(-1.0, -1.0, 1.0, 1.0);
    assert_eq!(vec![a.clone()], a.union(&b));
    assert_eq!(vec![a.clone()], b.union(&a));
}

#[test]
fn aabb_2d_subset_self() {
    let a = rect(-1.0, -1.0, 1.0, 1.0);
    assert_eq!(vec![a.clone()], a.union(&a));
}

#[test]
fn aabb_2d_disjoint() {
    let a = rect(-1.0, -1.0, 1.0, 1.0);
    let b = rect(2.0, -1.0, 4.0, 1.0);
    assert_eq!(vec![a.clone(), b.clone()], a.union(&b));
    assert_eq!(vec![b.clone(), a.clone()], b.union(&a));
}

#[test]
fn aabb_2d_disjoint_touching_corner() {
    let a = rect(0.0, 0.0, 1.0, 1.0);
    let b = rect(1.0, 1.0, 2.0, 2.0);
    assert_eq!(vec![a.clone(), b.clone()], a.union(&b));
    assert_eq!(vec![b.clone(), a.clone()], b.union(&a));
}

#[test]
fn aabb_2d_disjoint_touching_edge() {
    let a = rect(0.0, 0.0, 1.0, 1.0);
    let b = rect(1.0, 0.0, 2.0, 1.0);
    assert_eq!(vec![a.clone(), b.clone()], a.union(&b));
    assert_eq!(vec![b.clone(), a.clone()], b.union(&a));
}

#[test]
fn aabb_2d_complex_corner() {
    let a = rect(0.0, 0.0, 2.0, 2.0);
    let b = rect(1.0, 1.0, 3.0, 3.0);
    const EXPECTED_AREA: f32 = 7.0f32;
    {
        let result = a.union(&b);
        assert_eq!(EXPECTED_AREA, area_in_blocks(&result));
        assert_eq!(3, result.len());
    }
    {
        let result = b.union(&a);
        assert_eq!(EXPECTED_AREA, area_in_blocks(&result));
        assert_eq!(3, result.len());
    }
}

#[test]
fn aabb_2d_complex_edge() {
    let a = rect(0.0, 0.0, 2.0, 2.0);
    let b = rect(-1.0, 1.0, 3.0, 3.0);
    const EXPECTED_AREA: f32 = 10.0f32;
    {
        let result = a.union(&b);
        assert_eq!(area_in_blocks(&result), EXPECTED_AREA);
        assert_eq!(result.len(), 2);
    }
    {
        let result = a.union(&b);
        assert_eq!(area_in_blocks(&result), EXPECTED_AREA);
        assert_eq!(result.len(), 2);
    }
}

#[test]
fn subtract_equal() {
    let a = rect(0.0, 0.0, 1.0, 1.0);
    let b = rect(0.0, 0.0, 1.0, 1.0);
    let c = a.subtract(&b);
    assert_eq!(c, vec![]);
}

#[test]
fn subtract_superset() {
    let a = rect(-1.0, -1.0, 1.0, 1.0);
    let b = rect(-2.0, -2.0, 2.0, 2.0);
    let c = a.subtract(&b);
    assert_eq!(c, vec![]);
}

#[test]
fn union_edge_reversed_order() {
    let a = rect(0.0, 0.0, 2.0, 2.0);
    let b = rect(-1.0, 1.0, 3.0, 3.0);
    let result = b.union(&a);
    assert_eq!(area_in_blocks(&result), 10.0);
    assert_eq!(result.len(), 2);
}

#[test]
fn union_pieces_do_not_overlap_and_keep_area() {
    let cases = [
        (rect(0.0, 0.0, 2.0, 2.0), rect(1.0, 1.0, 3.0, 3.0)),
        (rect(0.0, 0.0, 10.0, 10.0), rect(2.0, -5.0, 4.0, 15.0)),
        (rect(0.0, 2.0, 10.0, 4.0), rect(2.0, 0.0, 4.0, 10.0)),
        (rect(0.0, 0.0, 10.0, 10.0), rect(-5.0, 2.0, 15.0, 20.0)),
        (rect(0.0, 0.0, 10.0, 10.0), rect(-5.0, -5.0, 5.0, 5.0)),
    ];
    for (a, b) in cases.iter() {
        for (x, y) in [(a, b), (b, a)] {
            let pieces = x.union(y);
            let total: u64 = pieces.iter().map(|p| p.area()).sum();
            assert_eq!(total + overlap(x, y), x.area() + y.area());
            for i in 0..pieces.len() {
                for j in 0..pieces.len() {
                    if i != j {
                        assert!(!pieces[i].overlaps(&pieces[j]));
                    }
                }
            }
        }
    }
}

#[test]
fn subtract_keeps_what_is_not_covered() {
    let a = rect(0.0, 0.0, 4.0, 4.0);
    let b = rect(1.0, 1.0, 2.0, 2.0);
    let pieces = a.subtract(&b);
    let total: u64 = pieces.iter().map(|p| p.area()).sum();
    assert_eq!(total + overlap(&a, &b), a.area());
    assert_eq!(area_in_blocks(&pieces), 15.0);
    for p in pieces.iter() {
        assert!(!p.overlaps(&b));
        assert_eq!(a.cmp(p), Aabb2CmpResult::Superset);
    }
}

#[test]
fn subtract_disjoint_returns_self() {
    let a = rect(0.0, 0.0, 1.0, 1.0);
    let b = rect(1.0, 0.0, 2.0, 1.0);
    assert_eq!(a.subtract(&b), vec![a]);
}

#[test]
fn cmp_mirrors() {
    let a = rect(-1.0, -1.0, 1.0, 1.0);
    let b = rect(-2.0, -2.0, 2.0, 2.0);
    let c = rect(0.0, 0.0, 3.0, 3.0);
    assert_eq!(a.cmp(&b), Aabb2CmpResult::Subset);
    assert_eq!(b.cmp(&a), Aabb2CmpResult::Superset);
    assert_eq!(a.cmp(&c), Aabb2CmpResult::Neither);
    assert_eq!(c.cmp(&a), Aabb2CmpResult::Neither);
}

#[test]
fn touching_rectangles_compare_as_neither() {
    let a = rect(0.0, 0.0, 1.0, 1.0);
    let b = rect(1.0, 0.5, 2.0, 3.0);
    assert_eq!(a.cmp(&b), Aabb2CmpResult::Neither);
    assert_eq!(b.cmp(&a), Aabb2CmpResult::Neither);
    assert!(!a.overlaps(&b));
}

#[test]
fn cut_splits_along_first_edge() {
    let a = rect(0.0, 0.0, 2.0, 2.0);
    let b = rect(1.0, 1.0, 3.0, 3.0);
    let (before, after) = a.cut(&b).unwrap();
    assert_eq!(before, rect(1.0, 1.0, 2.0, 3.0));
    assert_eq!(after, rect(2.0, 1.0, 3.0, 3.0));
    assert_eq!(a.cut(&rect(5.0, 5.0, 6.0, 6.0)), None);
}

#[test]
fn contains_excludes_boundary() {
    let a = rect(0.0, 0.0, 1.0, 1.0);
    assert!(a.contains(&Point2D { x: u(0.5), y: u(0.5) }));
    assert!(!a.contains(&Point2D { x: 0, y: u(0.5) }));
    assert_eq!(a.to_array(), [[0, 0], [u(1.0), u(1.0)]]);
}

#[test]
fn new_rejects_inverted_bounds() {
    assert_eq!(Aabb2D::new(1, 0, 0, 1), Err(InvertedBounds));
    assert_eq!(Aabb2D::new(0, 0, 0, 1), Ok(Aabb2D { min_x: 0, min_y: 0, max_x: 0, max_y: 1 }));
}

#[test]
fn translate_and_inflate() {
    let a = Aabb2D { min_x: 0, min_y: 0, max_x: 10, max_y: 20 };
    assert_eq!(a.translate(5, -5), Aabb2D { min_x: 5, min_y: -5, max_x: 15, max_y: 15 });
    assert_eq!(a.inflate(3), Aabb2D { min_x: -3, min_y: -3, max_x: 13, max_y: 23 });
}
