use wallace::aabb::aabb_2d::Aabb2D;
use wallace::aabb::aabb_3d::{Aabb3D, UNITS_PER_BLOCK};
use wallace::aabb::optimise_world::{
    CellPos, ColumnPos, RegionPos, SubChunk, AGENT_HEIGHT, CELL_COUNT, CLEARANCE_RADIUS,
};

const U: i32 = UNITS_PER_BLOCK;

fn cell(x: usize, y: usize, z: usize) -> usize {
    (z * 16 + x) * 16 + y
}

fn empty_source() -> Vec<Vec<Aabb3D>> {
    vec![Vec::new(); CELL_COUNT]
}

fn origin() -> RegionPos {
    RegionPos { x: 0, y: 0, z: 0 }
}

fn bit(mask: u16, y: usize) -> bool {
    (mask >> y) & 1 == 1
}

fn overlap(a: &Aabb2D, b: &Aabb2D) -> u64 {
    let w = (a.max_x.min(b.max_x) - a.min_x.max(b.min_x)).max(0) as u64;
    let h = (a.max_y.min(b.max_y) - a.min_y.max(b.min_y)).max(0) as u64;
    w * h
}

fn full_footprint(x: i32, z: i32) -> Aabb2D {
    Aabb2D {
        min_x: x * U - CLEARANCE_RADIUS,
        min_y: z * U - CLEARANCE_RADIUS,
        max_x: (x + 1) * U + CLEARANCE_RADIUS,
        max_y: (z + 1) * U + CLEARANCE_RADIUS,
    }
}

#[test]
fn masks_follow_cells() {
    let mut source = empty_source();
    source[cell(2, 1, 3)].push(Aabb3D::full_block());
    source[cell(2, 3, 3)].push(Aabb3D([0, 0, 0, U, U / 2, U]));
    source[cell(4, 5, 4)].push(Aabb3D([0, 0, 0, U / 4, U * 3 / 2, U / 4]));
    let region = SubChunk::new(origin(), source);
    let column = 3 * 16 + 2;
    assert!(bit(region.block_collision_mask[column], 1));
    assert!(bit(region.block_collision_mask[column], 3));
    assert!(!bit(region.block_collision_mask[column], 2));
    assert!(bit(region.full_block_mask[column], 1));
    assert!(!bit(region.full_block_mask[column], 3));
    assert!(bit(region.block_floor_mask[column], 1));
    assert!(bit(region.block_floor_mask[column], 3));
    let fence = 4 * 16 + 4;
    assert!(bit(region.block_collision_mask[fence], 5));
    assert!(bit(region.block_collision_mask[fence], 6));
    assert!(!bit(region.full_block_mask[fence], 5));
}

#[test]
fn full_blocks_hide_the_floor_below_them() {
    let mut source = empty_source();
    for y in 0..3 {
        source[cell(0, y, 0)].push(Aabb3D::full_block());
    }
    let region = SubChunk::new(origin(), source);
    assert!(!bit(region.block_floor_mask[0], 0));
    assert!(!bit(region.block_floor_mask[0], 1));
    assert!(bit(region.block_floor_mask[0], 2));
    let floor = region.iter_floor();
    assert_eq!(floor.len(), 1);
    assert_eq!(floor[0].0, CellPos { x: 0, y: 2, z: 0 });
    assert_eq!(region.iter_collisions().len(), 3);
    assert_eq!(region.iter_ceiling(), region.iter_collisions());
}

#[test]
fn floor_layers_ascend_and_group_by_height() {
    let mut source = empty_source();
    source[cell(1, 4, 1)].push(Aabb3D::full_block());
    source[cell(8, 2, 8)].push(Aabb3D::full_block());
    source[cell(9, 2, 8)].push(Aabb3D::full_block());
    let region = SubChunk::new(origin(), source);
    let mesh = region.build_nav_mesh();
    assert_eq!(mesh.location, origin());
    let heights: Vec<i32> = mesh.floor.iter().map(|l| l.height).collect();
    assert_eq!(heights, vec![3 * U, 5 * U]);
    assert_eq!(mesh.floor[0].nodes.len(), 2);
    assert_eq!(mesh.floor[1].nodes.len(), 1);
    assert_eq!(mesh.floor[1].nodes[0].pos, ColumnPos { x: 1, z: 1 });
    assert_eq!(mesh.floor[1].nodes[0].aabb, full_footprint(1, 1));
    let ceiling: Vec<i32> = mesh.ceiling.iter().map(|l| l.height).collect();
    assert_eq!(ceiling, vec![2 * U, 4 * U]);
    assert_eq!(mesh.ceiling[0].nodes.len(), 2);
}

#[test]
fn overhang_removes_the_floor_under_it() {
    let mut source = empty_source();
    source[cell(5, 3, 5)].push(Aabb3D::full_block());
    source[cell(5, 5, 5)].push(Aabb3D([0, U / 2, 0, U, U, U]));
    let region = SubChunk::new(origin(), source);
    let mesh = region.build_nav_mesh();
    let layer = mesh.floor.iter().find(|l| l.height == 4 * U).unwrap();
    let area: u64 = layer.nodes.iter().map(|n| n.aabb.area()).sum();
    let node = full_footprint(5, 5);
    let obstacle = full_footprint(5, 5);
    assert_eq!(area, node.area() - overlap(&node, &obstacle));
    assert!(layer.nodes.is_empty());
}

#[test]
fn overhang_leaves_the_uncovered_part() {
    let mut source = empty_source();
    source[cell(5, 3, 5)].push(Aabb3D::full_block());
    source[cell(5, 5, 5)].push(Aabb3D([0, U / 2, 0, U / 2, U, U]));
    let region = SubChunk::new(origin(), source);
    let mesh = region.build_nav_mesh();
    let layer = mesh.floor.iter().find(|l| l.height == 4 * U).unwrap();
    let node = full_footprint(5, 5);
    let obstacle = Aabb2D {
        min_x: 5 * U - CLEARANCE_RADIUS,
        min_y: 5 * U - CLEARANCE_RADIUS,
        max_x: 5 * U + U / 2 + CLEARANCE_RADIUS,
        max_y: 6 * U + CLEARANCE_RADIUS,
    };
    let area: u64 = layer.nodes.iter().map(|n| n.aabb.area()).sum();
    assert_eq!(area, node.area() - overlap(&node, &obstacle));
    assert!(!layer.nodes.is_empty());
    for n in layer.nodes.iter() {
        assert!(!n.aabb.overlaps(&obstacle));
        assert_eq!(n.pos, ColumnPos { x: 5, z: 5 });
    }
}

#[test]
fn obstacle_above_the_headroom_is_ignored() {
    let mut source = empty_source();
    source[cell(5, 3, 5)].push(Aabb3D::full_block());
    source[cell(5, 6, 5)].push(Aabb3D([0, 0, 0, U, U / 2, U]));
    let region = SubChunk::new(origin(), source);
    let mesh = region.build_nav_mesh();
    let layer = mesh.floor.iter().find(|l| l.height == 4 * U).unwrap();
    assert_eq!(layer.nodes.len(), 1);
    assert_eq!(layer.nodes[0].aabb, full_footprint(5, 5));
    assert!(AGENT_HEIGHT < 2 * U);
}

#[test]
fn neighbouring_wall_clips_the_edge() {
    let mut source = empty_source();
    source[cell(5, 3, 5)].push(Aabb3D::full_block());
    source[cell(6, 4, 5)].push(Aabb3D([0, 0, 0, U, U / 2, U]));
    let region = SubChunk::new(origin(), source);
    let mesh = region.build_nav_mesh();
    let layer = mesh.floor.iter().find(|l| l.height == 4 * U).unwrap();
    let node = full_footprint(5, 5);
    let wall = full_footprint(6, 5);
    let area: u64 = layer.nodes.iter().map(|n| n.aabb.area()).sum();
    assert_eq!(area, node.area() - overlap(&node, &wall));
}
