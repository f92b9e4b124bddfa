use wallace::aabb::aabb_2d::{Aabb2D, InvertedBounds};
use wallace::aabb::aabb_3d::{Aabb3D, Point3D, SupersetResult, UNITS_PER_BLOCK};

fn u(v: f32) -> i32 {
    (v * UNITS_PER_BLOCK as f32).round() as i32
}

fn cube(v: [f32; 6]) -> Aabb3D {
    Aabb3D([u(v[0]), u(v[1]), u(v[2]), u(v[3]), u(v[4]), u(v[5])])
}

#[test]
fn aabb_3d_strict_subset() {
    let a = cube([-2.0, -2.0, -2.0, 2.0, 2.0, 2.0]);
    let b = cube([-1.0, -1.0, -1.0, 1.0, 1.0, 1.0]);
    assert_eq!(vec![a.clone()], a.union(&b));
    assert_eq!(vec![a.clone()], b.union(&a));
}

#[test]
fn aabb_3d_subset() {
    let a = cube([-1.0, -1.0, -1.0, 1.0, 1.0, 1.0]);
    let b = cube([-1.0, -2.0, -1.0, 1.0, 2.0, 1.0]);
    assert_eq!(vec![b.clone()], a.union(&b));
    assert_eq!(vec![b.clone()], b.union(&a));
}

#[test]
fn aabb_3d_subset_self() {
    let a = cube([-1.0, -1.0, -1.0, 1.0, 1.0, 1.0]);
    assert_eq!(vec![a.clone()], a.union(&a));
}

#[test]
fn aabb_3d_disjoint() {
    let a = cube([-1.0, -1.0, -1.0, 1.0, 1.0, 1.0]);
    let b = cube([-1.0, 2.0, -1.0, 1.0, 4.0, 1.0]);
    assert_eq!(vec![a.clone(), b.clone()], a.union(&b));
    assert_eq!(vec![b.clone(), a.clone()], b.union(&a));
}

#[test]
fn aabb_3d_disjoint_touching_corner() {
    let a = cube([0.0, 0.0, 0.0, 1.0, 1.0, 1.0]);
    let b = cube([1.0, 1.0, 1.0, 2.0, 2.0, 2.0]);
    assert_eq!(vec![a.clone(), b.clone()], a.union(&b));
    assert_eq!(vec![b.clone(), a.clone()], b.union(&a));
}

#[test]
fn aabb_3d_disjoint_touching_edge() {
    let a = cube([0.0, 0.0, 0.0, 1.0, 1.0, 1.0]);
    let b = cube([0.0, 1.0, 1.0, 1.0, 2.0, 2.0]);
    assert_eq!(vec![a.clone(), b.clone()], a.union(&b));
    assert_eq!(vec![b.clone(), a.clone()], b.union(&a));
}

#[test]
fn disjoint_touching_face() {
    let a = cube([0.0, 0.0, 0.0, 1.0, 1.0, 1.0]);
    let b = cube([0.0, 0.0, 1.0, 1.0, 1.0, 2.0]);
    assert_eq!(vec![a.clone(), b.clone()], a.union(&b));
    assert_eq!(vec![b.clone(), a.clone()], b.union(&a));
}

#[test]
fn overlap_1_axis_gives_box_and_remainder() {
    let a = cube([0.0, 0.0, 0.0, 1.0, 1.0, 1.0]);
    let b = cube([0.5, 0.0, 0.0, 1.5, 1.0, 1.0]);
    assert_eq!(vec![a.clone(), cube([1.0, 0.0, 0.0, 1.5, 1.0, 1.0])], a.union(&b));
    assert_eq!(vec![b.clone(), cube([0.0, 0.0, 0.0, 0.5, 1.0, 1.0])], b.union(&a));
    let volume: u128 = a.union(&b).iter().map(|p| p.volume()).sum();
    assert_eq!(volume, cube([0.0, 0.0, 0.0, 1.5, 1.0, 1.0]).volume());
}

#[test]
fn union_corner_overlap_keeps_volume() {
    let a = cube([0.0, 0.0, 0.0, 10.0, 10.0, 10.0]);
    let b = cube([-5.0, -5.0, -5.0, 5.0, 5.0, 5.0]);
    let pieces = a.union(&b);
    let total: u128 = pieces.iter().map(|p| p.volume()).sum();
    let common = cube([0.0, 0.0, 0.0, 5.0, 5.0, 5.0]).volume();
    assert_eq!(total + common, a.volume() + b.volume());
    for i in 0..pieces.len() {
        for j in 0..pieces.len() {
            if i != j {
                assert!(!pieces[i].overlaps(&pieces[j]));
            }
        }
    }
}

#[test]
fn subtract_3d_hole() {
    let a = cube([0.0, 0.0, 0.0, 3.0, 3.0, 3.0]);
    let b = cube([1.0, 1.0, 1.0, 2.0, 2.0, 2.0]);
    let pieces = a.subtract(&b);
    let total: u128 = pieces.iter().map(|p| p.volume()).sum();
    assert_eq!(total + b.volume(), a.volume());
    assert!(pieces.iter().all(|p| !p.overlaps(&b)));
    assert_eq!(a.subtract(&a), vec![]);
}

#[test]
fn superset_and_contains() {
    let a = cube([0.0, 0.0, 0.0, 2.0, 2.0, 2.0]);
    let b = cube([0.0, 0.0, 0.0, 1.0, 1.0, 1.0]);
    assert_eq!(a.superset(&b), SupersetResult::A);
    assert_eq!(b.superset(&a), SupersetResult::B);
    assert_eq!(b.superset(&cube([0.5, 0.5, 0.5, 3.0, 3.0, 3.0])), SupersetResult::Neither);
    assert!(a.strict_contains(&Point3D([u(1.0), u(1.0), u(1.0)])));
    assert!(!a.strict_contains(&Point3D([0, u(1.0), u(1.0)])));
    assert_eq!(a.volume(), (u(2.0) as u128).pow(3));
}

#[test]
fn surface_projection_and_getters() {
    let a = Aabb3D([1, 2, 3, 4, 5, 6]);
    assert_eq!(a.surface_projection(1), Aabb2D { min_x: 3, min_y: 1, max_x: 6, max_y: 4 });
    assert_eq!(a.surface_projection(0), Aabb2D { min_x: 2, min_y: 3, max_x: 5, max_y: 6 });
    assert_eq!((a.min_x(), a.min_y(), a.min_z()), (1, 2, 3));
    assert_eq!((a.max_x(), a.max_y(), a.max_z()), (4, 5, 6));
    assert_eq!(Aabb3D::full_block(), Aabb3D([0, 0, 0, UNITS_PER_BLOCK, UNITS_PER_BLOCK, UNITS_PER_BLOCK]));
}

#[test]
fn new_3d_rejects_inverted_bounds() {
    assert_eq!(Aabb3D::new([0, 0, 1, 1, 1, 0]), Err(InvertedBounds));
    assert_eq!(Aabb3D::new([0, 0, 0, 1, 1, 1]), Ok(Aabb3D([0, 0, 0, 1, 1, 1])));
}

#[test]
fn cut_3d_first_face() {
    let a = cube([0.0, 0.0, 0.0, 1.0, 1.0, 1.0]);
    let b = cube([0.5, 0.0, 0.0, 1.5, 1.0, 1.0]);
    let (before, after) = a.cut(&b).unwrap();
    assert_eq!(before, cube([0.5, 0.0, 0.0, 1.0, 1.0, 1.0]));
    assert_eq!(after, cube([1.0, 0.0, 0.0, 1.5, 1.0, 1.0]));
}
