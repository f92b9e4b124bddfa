use wallace::aabb::aabb_3d::UNITS_PER_BLOCK;
use wallace::aabb::rectangle::{self, cut, union, Point, Rectangle, SupersetResult};

fn u(v: f32) -> i32 {
    (v * UNITS_PER_BLOCK as f32).round() as i32
}

fn rect(min_x: f32, min_y: f32, max_x: f32, max_y: f32) -> Rectangle {
    Rectangle { min_x: u(min_x), min_y: u(min_y), max_x: u(max_x), max_y: u(max_y) }
}

fn area_in_blocks(pieces: &[Rectangle]) -> f32 {
    let units: u64 = pieces.iter().map(|r| r.area()).sum();
    units as f32 / (UNITS_PER_BLOCK as f32 * UNITS_PER_BLOCK as f32)
}

#[test]
fn rectangle_strict_subset() {
    let a = rect(-1.0, -1.0, 1.0, 1.0);
    let b = rect(-2.0, -2.0, 2.0, 2.0);
    assert_eq!(vec![b.clone()], union(&a, &b));
    assert_eq!(vec![b.clone()], union(&b, &a));
}

#[test]
fn superset() {
    let a = rect(-1.0, -1.0, 1.0, 1.0);
    assert_eq!(vec![a.clone()], union(&a, &a));
}

#[test]
fn rectangle_disjoint() {
    let a = rect(-1.0, -1.0, 1.0, 1.0);
    let b = rect(2.0, -1.0, 4.0, 1.0);
    assert_eq!(vec![a.clone(), b.clone()], union(&a, &b));
    assert_eq!(vec![b.clone(), a.clone()], union(&b, &a));
}

#[test]
fn rectangle_disjoint_touching_corner() {
    let a = rect(0.0, 0.0, 1.0, 1.0);
    let b = rect(1.0, 1.0, 2.0, 2.0);
    assert_eq!(vec![a.clone(), b.clone()], union(&a, &b));
    assert_eq!(vec![b.clone(), a.clone()], union(&b, &a));
}

#[test]
fn rectangle_disjoint_touching_edge() {
    let a = rect(0.0, 0.0, 1.0, 1.0);
    let b = rect(1.0, 0.0, 2.0, 1.0);
    assert_eq!(vec![a.clone(), b.clone()], union(&a, &b));
    assert_eq!(vec![b.clone(), a.clone()], union(&b, &a));
}

#[test]
fn rectangle_complex_corner() {
    let a = rect(0.0, 0.0, 2.0, 2.0);
    let b = rect(1.0, 1.0, 3.0, 3.0);
    const EXPECTED_AREA: f32 = 7.0f32;
    {
        let result = union(&a, &b);
        assert_eq!(EXPECTED_AREA, area_in_blocks(&result));
        assert_eq!(3, result.len());
    }
    {
        let result = union(&b, &a);
        assert_eq!(EXPECTED_AREA, area_in_blocks(&result));
        assert_eq!(3, result.len());
    }
}

#[test]
fn rectangle_complex_edge() {
    let a = rect(0.0, 0.0, 2.0, 2.0);
    let b = rect(-1.0, 1.0, 3.0, 3.0);
    const EXPECTED_AREA: f32 = 10.0f32;
    {
        let result = union(&a, &b);
        assert_eq!(area_in_blocks(&result), EXPECTED_AREA);
        assert_eq!(result.len(), 2);
    }
    {
        let result = union(&a, &b);
        assert_eq!(area_in_blocks(&result), EXPECTED_AREA);
        assert_eq!(result.len(), 2);
    }
}

#[test]
fn rectangle_superset_cut_and_contains() {
    let a = rect(0.0, 0.0, 2.0, 2.0);
    let b = rect(1.0, 1.0, 3.0, 3.0);
    assert_eq!(rectangle::superset(&a, &rect(0.5, 0.5, 1.0, 1.0)), SupersetResult::A);
    assert_eq!(rectangle::superset(&rect(0.5, 0.5, 1.0, 1.0), &a), SupersetResult::B);
    assert_eq!(rectangle::superset(&a, &b), SupersetResult::Neither);
    assert_eq!(cut(&a, &b), Some((rect(1.0, 1.0, 2.0, 3.0), rect(2.0, 1.0, 3.0, 3.0))));
    assert!(a.contains(&Point { x: u(1.0), y: u(1.0) }));
    assert!(!a.contains(&Point { x: u(2.0), y: u(1.0) }));
    assert_eq!(a.to_array(), [[0, 0], [u(2.0), u(2.0)]]);
}
