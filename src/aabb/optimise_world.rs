use vstd::prelude::*;

use crate::aabb::aabb_2d::{views, Aabb2D};
use crate::aabb::extent::{
    common_measure, encloses, lemma_apart_shrink, lemma_common_positive, lemma_pairwise_drop_last, lemma_measure_positive,
    lemma_total_measure_nonneg, lemma_total_measure_push, measure, meets, pairwise_apart, solid,
    total_measure, within, Extent,
};
use crate::aabb::aabb_3d::{Aabb3D, UNITS_PER_BLOCK};
use crate::aabb::index_list::{
    index_items, index_list_get, index_list_len, index_list_new, index_list_push, IndexList,
};

verus! {

/// Cells along x and along z in a region.
pub const CHUNK_WIDTH: usize = 16;

/// Cells along y in a region.
pub const SUB_CHUNK_HEIGHT: usize = 16;

/// Cells in a region.
pub const CELL_COUNT: usize = 4096;

/// Columns (x, z) in a region.
pub const COLUMN_COUNT: usize = 256;

/// Bound on the coordinates of a cell's boxes, in cell-local units.
pub const MAX_LOCAL_COORD: i32 = 1048576;

/// Height of the agent, in units: 1.8 blocks.
pub const AGENT_HEIGHT: i32 = 576;

/// Half-width of the agent, in units: 0.3 blocks. Footprints grow by it on
/// every side.
pub const CLEARANCE_RADIUS: i32 = 96;

/// Origin of a region, in cells.
#[derive(Debug, Clone, Copy, PartialEq, Eq, Structural)]
pub struct RegionPos {
    pub x: i32,
    pub y: i32,
    pub z: i32,
}

/// A cell of a region.
#[derive(Debug, Clone, Copy, PartialEq, Eq, Structural)]
pub struct CellPos {
    pub x: u32,
    pub y: u32,
    pub z: u32,
}

/// A column (x, z) of a region.
#[derive(Debug, Clone, Copy, PartialEq, Eq, Structural)]
pub struct ColumnPos {
    pub x: u32,
    pub z: u32,
}

/// Index of cell `(x, y, z)` in a region's cell order: `z`, then `x`, then `y`.
pub open spec fn cell_index(x: int, y: int, z: int) -> int {
    (z * 16 + x) * 16 + y
}

/// The cell at index `c`.
pub open spec fn pos_of(c: int) -> CellPos {
    CellPos { x: ((c / 16) % 16) as u32, y: (c % 16) as u32, z: (c / 256) as u32 }
}

/// The bit for height `y` is set in a column mask.
pub open spec fn bit_set(m: u16, y: int) -> bool {
    0 <= y < 16 && (m >> (y as u16)) & 1u16 == 1u16
}

/// `b` fills exactly one cell.
pub open spec fn is_full_block(b: Aabb3D) -> bool {
    b.0[0] == 0 && b.0[1] == 0 && b.0[2] == 0 && b.0[3] == UNITS_PER_BLOCK && b.0[4]
        == UNITS_PER_BLOCK && b.0[5] == UNITS_PER_BLOCK
}

/// `b` reaches above the top of its cell.
pub open spec fn protrudes(b: Aabb3D) -> bool {
    b.0[4] > UNITS_PER_BLOCK
}

/// `b` is a well-formed box whose cell-local coordinates are within bounds.
pub open spec fn local_box_ok(b: Aabb3D) -> bool {
    &&& b.wf()
    &&& -MAX_LOCAL_COORD <= b.0[0] && -MAX_LOCAL_COORD <= b.0[1] && -MAX_LOCAL_COORD <= b.0[2]
    &&& b.0[3] <= MAX_LOCAL_COORD && b.0[4] <= MAX_LOCAL_COORD && b.0[5] <= MAX_LOCAL_COORD
}

/// The geometry of a region: the boxes of each of its cells, in cell order.
pub open spec fn source_ok(source: Seq<Vec<Aabb3D>>) -> bool {
    &&& source.len() == CELL_COUNT
    &&& forall|c: int, j: int|
        0 <= c < CELL_COUNT && 0 <= j < source[c]@.len() ==> local_box_ok(
            #[trigger] source[c]@[j],
        )
}

/// The boxes of cell `c`, each with its cell.
pub open spec fn cell_entries(source: Seq<Vec<Aabb3D>>, c: int) -> Seq<(CellPos, Aabb3D)> {
    source[c]@.map_values(|b: Aabb3D| (pos_of(c), b))
}

/// The boxes of the cells before `c`, each with its cell, in cell order.
pub open spec fn entries_before(source: Seq<Vec<Aabb3D>>, c: int) -> Seq<(CellPos, Aabb3D)>
    decreases c,
{
    if c <= 0 {
        Seq::empty()
    } else {
        entries_before(source, c - 1) + cell_entries(source, c - 1)
    }
}

/// A cell holds at least one box.
pub open spec fn occupied(source: Seq<Vec<Aabb3D>>, c: int) -> bool {
    source[c]@.len() > 0
}

/// Some box of cell `c` reaches into the cell above.
pub open spec fn reaches_up(source: Seq<Vec<Aabb3D>>, c: int) -> bool {
    exists|j: int| 0 <= j < source[c]@.len() && protrudes(#[trigger] source[c]@[j])
}

/// Collision bit of cell `(column k, y)`: the cell holds a box, or the cell
/// below holds one that reaches into it.
pub open spec fn collision_bit(source: Seq<Vec<Aabb3D>>, k: int, y: int) -> bool {
    occupied(source, k * 16 + y) || (y >= 1 && reaches_up(source, k * 16 + y - 1))
}

/// Full-block bit of cell `(column k, y)`: the cell holds exactly one box, and
/// it fills the cell.
pub open spec fn full_bit(source: Seq<Vec<Aabb3D>>, k: int, y: int) -> bool {
    source[k * 16 + y]@.len() == 1 && is_full_block(source[k * 16 + y]@[0])
}

/// An entry is listed for cell `c`: it lies in `c`, or it lies in the cell
/// below `c` (in the same column) and reaches into `c`.
pub open spec fn registered(e: (CellPos, Aabb3D), c: int) -> bool {
    let own = cell_index(e.0.x as int, e.0.y as int, e.0.z as int);
    own == c || (protrudes(e.1) && e.0.y + 1 < 16 && own + 1 == c)
}

/// Index `i` is in the list `l`.
pub open spec fn listed(l: Seq<usize>, i: int) -> bool {
    exists|t: int| 0 <= t < l.len() && l[t] == i
}

proof fn lemma_cell_pos(k: int, y: int)
    requires
        0 <= k < 256,
        0 <= y < 16,
    ensures
        pos_of(k * 16 + y) == (CellPos { x: (k % 16) as u32, y: y as u32, z: (k / 16) as u32 }),
        cell_index(k % 16, y, k / 16) == k * 16 + y,
{
    let c = k * 16 + y;
    assert(c / 16 == k) by (nonlinear_arith)
        requires
            c == k * 16 + y,
            0 <= y < 16,
            0 <= k,
    ;
    assert(c % 16 == y) by (nonlinear_arith)
        requires
            c == k * 16 + y,
            0 <= y < 16,
            0 <= k,
    ;
    assert(c / 256 == k / 16) by (nonlinear_arith)
        requires
            c == k * 16 + y,
            0 <= y < 16,
            0 <= k,
    ;
    assert((k / 16) * 16 + k % 16 == k) by (nonlinear_arith)
        requires
            0 <= k,
    ;
}

proof fn lemma_set_bit(m: u16, y: u16, k: u16)
    requires
        y < 16,
        k < 16,
    ensures
        ((m | (1u16 << y)) >> k) & 1u16 == 1u16 <==> (k == y || (m >> k) & 1u16 == 1u16),
{
    assert(((m | (1u16 << y)) >> k) & 1u16 == 1u16 <==> (k == y || (m >> k) & 1u16 == 1u16))
        by (bit_vector)
        requires
            y < 16,
            k < 16,
    ;
}

proof fn lemma_zero_bits(k: u16)
    requires
        k < 16,
    ensures
        (0u16 >> k) & 1u16 != 1u16,
{
    assert((0u16 >> k) & 1u16 != 1u16) by (bit_vector);
}

proof fn lemma_floor_bits(c: u16, f: u16, y: u16)
    requires
        y < 16,
    ensures
        ((c & !(f >> 1u16) & !(f >> 2u16)) >> y) & 1u16 == 1u16 <==> ((c >> y) & 1u16 == 1u16
            && !(y + 1 < 16 && (f >> ((y + 1) as u16)) & 1u16 == 1u16) && !(y + 2 < 16 && (f >> ((
        y + 2) as u16)) & 1u16 == 1u16)),
{
    assert(((c & !(f >> 1u16) & !(f >> 2u16)) >> y) & 1u16 == 1u16 <==> ((c >> y) & 1u16 == 1u16
        && !(y + 1 < 16 && (f >> ((y + 1) as u16)) & 1u16 == 1u16) && !(y + 2 < 16 && (f >> ((y
        + 2) as u16)) & 1u16 == 1u16))) by (bit_vector)
        requires
            y < 16,
    ;
}

/// A region of 16 x 16 x 16 cells and the boxes in them.
pub struct SubChunk {
    pub location: RegionPos,
    /// Every box of the region with its cell, in cell order.
    pub aabbs: Vec<(CellPos, Aabb3D)>,
    /// For each cell, the indices into `aabbs` of the boxes listed for it.
    pub blocks: Vec<IndexList>,
    /// Per column `z * 16 + x`, bit `y`: see `collision_bit`.
    pub block_collision_mask: Vec<u16>,
    /// Per column, bit `y`: cells whose top may be stood on.
    pub block_floor_mask: Vec<u16>,
    /// Per column, bit `y`: see `full_bit`.
    pub full_block_mask: Vec<u16>,
}

/// Some box of `cell` reaches above the top of the cell.
fn cell_reaches_up(cell: &Vec<Aabb3D>) -> (r: bool)
    ensures
        r == exists|j: int| 0 <= j < cell@.len() && protrudes(#[trigger] cell@[j]),
{
    let mut j: usize = 0;
    while j < cell.len()
        invariant
            j <= cell@.len(),
            forall|i: int| 0 <= i < j ==> !protrudes(#[trigger] cell@[i]),
        decreases cell@.len() - j,
    {
        if cell[j].max_y() > UNITS_PER_BLOCK {
            return true;
        }
        j = j + 1;
    }
    false
}

/// `b` fills exactly one cell.
fn fills_cell(b: &Aabb3D) -> (r: bool)
    ensures
        r == is_full_block(*b),
{
    b.0[0] == 0 && b.0[1] == 0 && b.0[2] == 0 && b.0[3] == UNITS_PER_BLOCK && b.0[4]
        == UNITS_PER_BLOCK && b.0[5] == UNITS_PER_BLOCK
}

impl SubChunk {
    /// The index lists hold exactly the entries registered for each cell, and
    /// every entry lies in the region.
    pub open spec fn wf(&self) -> bool {
        &&& self.blocks.len() == CELL_COUNT
        &&& self.block_collision_mask.len() == COLUMN_COUNT
        &&& self.block_floor_mask.len() == COLUMN_COUNT
        &&& self.full_block_mask.len() == COLUMN_COUNT
        &&& forall|c: int, t: int|
            0 <= c < CELL_COUNT && 0 <= t < index_items(self.blocks@[c]).len() ==> {
                let i = #[trigger] index_items(self.blocks@[c])[t];
                i < self.aabbs.len() && registered(self.aabbs@[i as int], c)
            }
        &&& forall|i: int|
            0 <= i < self.aabbs.len() ==> {
                let e = #[trigger] self.aabbs@[i];
                &&& e.0.x < 16 && e.0.y < 16 && e.0.z < 16
                &&& local_box_ok(e.1)
                &&& forall|c: int|
                    0 <= c < CELL_COUNT && registered(e, c) ==> listed(
                        index_items(#[trigger] self.blocks@[c]),
                        i,
                    )
            }
    }
}

impl SubChunk {
    /// A region at `location` from the boxes of its cells, `source[c]` holding
    /// the boxes of cell `c` (cell order: `z`, then `x`, then `y`).
    ///
    /// Each box is listed for its cell, and also for the cell above when it
    /// reaches into it. Per column, bit `y` of the collision mask is set when
    /// cell `y` holds a box or the cell below reaches into it; bit `y` of the
    /// full-block mask when the cell holds exactly one box and it fills the
    /// cell; bit `y` of the floor mask when the collision bit is set and
    /// neither cell `y + 1` nor cell `y + 2` is a full block.
    #[verifier::loop_isolation(false)]
    pub fn new(location: RegionPos, source: Vec<Vec<Aabb3D>>) -> (r: SubChunk)
        requires
            source_ok(source@),
        ensures
            r.wf(),
            r.location == location,
            r.aabbs@ == entries_before(source@, CELL_COUNT as int),
            forall|k: int, y: int|
                0 <= k < COLUMN_COUNT && 0 <= y < 16 ==> {
                    &&& bit_set(r.block_collision_mask@[k], y) == collision_bit(source@, k, y)
                    &&& bit_set(r.full_block_mask@[k], y) == full_bit(source@, k, y)
                    &&& bit_set(r.block_floor_mask@[k], y) == (collision_bit(source@, k, y) && !(y
                        + 1 < 16 && full_bit(source@, k, y + 1)) && !(y + 2 < 16 && full_bit(
                        source@,
                        k,
                        y + 2,
                    )))
                },
    {
        let mut blocks: Vec<IndexList> = Vec::new();
        let mut c: usize = 0;
        while c < CELL_COUNT
            invariant
                c <= CELL_COUNT,
                blocks.len() == c,
                forall|i: int| 0 <= i < c ==> index_items(#[trigger] blocks@[i]) == Seq::<usize>::empty(),
            decreases CELL_COUNT - c,
        {
            blocks.push(index_list_new());
            c = c + 1;
        }
        let mut aabbs: Vec<(CellPos, Aabb3D)> = Vec::new();
        let mut c: usize = 0;
        while c < CELL_COUNT
            invariant
                c <= CELL_COUNT,
                blocks.len() == CELL_COUNT,
                aabbs@ == entries_before(source@, c as int),
                forall|cc: int, t: int|
                    0 <= cc < CELL_COUNT && 0 <= t < index_items(blocks@[cc]).len() ==> {
                        let i = #[trigger] index_items(blocks@[cc])[t];
                        i < aabbs.len() && registered(aabbs@[i as int], cc)
                    },
                forall|cc: int| 0 <= cc < CELL_COUNT ==> index_items(#[trigger] blocks@[cc]).len() <= aabbs.len(),
                forall|i: int|
                    0 <= i < aabbs.len() ==> {
                        let e = #[trigger] aabbs@[i];
                        &&& e.0.x < 16 && e.0.y < 16 && e.0.z < 16
                        &&& local_box_ok(e.1)
                        &&& forall|cc: int|
                            0 <= cc < CELL_COUNT && registered(e, cc) ==> listed(
                                index_items(#[trigger] blocks@[cc]),
                                i,
                            )
                    },
            decreases CELL_COUNT - c,
        {
            let k: usize = c / 16;
            let y: usize = c % 16;
            let pos = CellPos { x: (k % 16) as u32, y: y as u32, z: (k / 16) as u32 };
            proof {
                lemma_cell_pos(k as int, y as int);
                assert(c == k * 16 + y);
            }
            let cell = &source[c];
            let ghost before = aabbs@;
            let mut j: usize = 0;
            while j < cell.len()
                invariant
                    c < CELL_COUNT,
                    j <= cell@.len(),
                    cell@ == source@[c as int]@,
                    pos == pos_of(c as int),
                    cell_index(pos.x as int, pos.y as int, pos.z as int) == c,
                    blocks.len() == CELL_COUNT,
                    aabbs@ == before + cell_entries(source@, c as int).take(j as int),
                    forall|cc: int, t: int|
                        0 <= cc < CELL_COUNT && 0 <= t < index_items(blocks@[cc]).len() ==> {
                            let i = #[trigger] index_items(blocks@[cc])[t];
                            i < aabbs.len() && registered(aabbs@[i as int], cc)
                        },
                    forall|cc: int| 0 <= cc < CELL_COUNT ==> index_items(#[trigger] blocks@[cc]).len() <= aabbs.len(),
                    forall|i: int|
                        0 <= i < aabbs.len() ==> {
                            let e = #[trigger] aabbs@[i];
                            &&& e.0.x < 16 && e.0.y < 16 && e.0.z < 16
                            &&& local_box_ok(e.1)
                            &&& forall|cc: int|
                                0 <= cc < CELL_COUNT && registered(e, cc) ==> listed(
                                    index_items(#[trigger] blocks@[cc]),
                                    i,
                                )
                        },
                decreases cell@.len() - j,
            {
                let aabb = cell[j];
                let index = aabbs.len();
                let ghost e = (pos, aabb);
                let ghost old_blocks = blocks@;
                proof {
                    assert(local_box_ok(aabb));
                    assert(cell_entries(source@, c as int)[j as int] == e);
                }
                aabbs.push((pos, aabb));
                let count = aabbs.len();
                assert(index < count);
                if aabb.max_y() > UNITS_PER_BLOCK && y + 1 < 16 {
                    index_list_push(&mut blocks[c + 1], index);
                }
                index_list_push(&mut blocks[c], index);
                proof {
                    assert(cell_entries(source@, c as int).take(j + 1) =~= cell_entries(
                        source@,
                        c as int,
                    ).take(j as int).push(e));
                    assert(aabbs@ =~= before + cell_entries(source@, c as int).take(j + 1));
                    assert forall|cc: int, t: int|
                        0 <= cc < CELL_COUNT && 0 <= t < index_items(blocks@[cc]).len() implies {
                            let i = #[trigger] index_items(blocks@[cc])[t];
                            i < aabbs.len() && registered(aabbs@[i as int], cc)
                        } by {
                        if t < index_items(old_blocks[cc]).len() {
                            assert(index_items(blocks@[cc])[t] == index_items(old_blocks[cc])[t]);
                        }
                    }
                    assert forall|i: int|
                        0 <= i < aabbs.len() implies {
                            let e = #[trigger] aabbs@[i];
                            &&& e.0.x < 16 && e.0.y < 16 && e.0.z < 16
                            &&& local_box_ok(e.1)
                            &&& forall|cc: int|
                                0 <= cc < CELL_COUNT && registered(e, cc) ==> listed(
                                    index_items(#[trigger] blocks@[cc]),
                                    i,
                                )
                        } by {
                        let ei = aabbs@[i];
                        assert forall|cc: int|
                            0 <= cc < CELL_COUNT && registered(ei, cc) implies listed(
                                index_items(#[trigger] blocks@[cc]),
                                i,
                            ) by {
                            if i < index {
                                let t = choose|t: int| 0 <= t < index_items(old_blocks[cc]).len() && index_items(old_blocks[cc])[t] == i;
                                assert(index_items(blocks@[cc])[t] == i);
                            } else {
                                let t = index_items(blocks@[cc]).len() - 1;
                                assert(index_items(blocks@[cc])[t] == i);
                            }
                        }
                    }
                }
                j = j + 1;
            }
            proof {
                assert(cell_entries(source@, c as int).take(cell@.len() as int) =~= cell_entries(source@, c as int));
            }
            c = c + 1;
        }
        let mut collision: Vec<u16> = Vec::new();
        let mut full: Vec<u16> = Vec::new();
        let mut floor: Vec<u16> = Vec::new();
        let mut k: usize = 0;
        while k < COLUMN_COUNT
            invariant
                k <= COLUMN_COUNT,
                collision.len() == k,
                full.len() == k,
                floor.len() == k,
                forall|kk: int, y: int|
                    0 <= kk < k && 0 <= y < 16 ==> {
                        &&& #[trigger] bit_set(collision@[kk], y) == collision_bit(source@, kk, y)
                        &&& bit_set(full@[kk], y) == full_bit(source@, kk, y)
                        &&& bit_set(floor@[kk], y) == (collision_bit(source@, kk, y) && !(y + 1
                            < 16 && full_bit(source@, kk, y + 1)) && !(y + 2 < 16 && full_bit(
                            source@,
                            kk,
                            y + 2,
                        )))
                    },
            decreases COLUMN_COUNT - k,
        {
            let mut column_collision: u16 = 0;
            let mut column_full: u16 = 0;
            proof {
                assert forall|b: int| 0 <= b < 16 implies !bit_set(0u16, b) by {
                    lemma_zero_bits(b as u16);
                }
            }
            let mut y: usize = 0;
            while y < 16
                invariant
                    k < COLUMN_COUNT,
                    y <= 16,
                    forall|b: int|
                        0 <= b < 16 ==> (bit_set(column_collision, b) == ((b < y && occupied(
                            source@,
                            k * 16 + b,
                        )) || (1 <= b <= y && reaches_up(source@, k * 16 + b - 1)))),
                    forall|b: int|
                        0 <= b < 16 ==> (bit_set(column_full, b) == (b < y && full_bit(
                            source@,
                            k as int,
                            b,
                        ))),
                decreases 16 - y,
            {
                let cell = &source[k * 16 + y];
                let ghost c = k * 16 + y;
                let ghost old_collision = column_collision;
                let ghost old_full = column_full;
                let reaches = cell_reaches_up(cell);
                proof {
                    assert(cell@ == source@[c as int]@);
                    if reaches {
                        let j = choose|j: int| 0 <= j < cell@.len() && protrudes(#[trigger] cell@[j]);
                        assert(protrudes(source@[c as int]@[j]));
                    }
                    if reaches_up(source@, c as int) {
                        let j = choose|j: int| 0 <= j < source@[c as int]@.len() && protrudes(#[trigger] source@[c as int]@[j]);
                        assert(protrudes(cell@[j]));
                    }
                    assert(reaches == reaches_up(source@, c as int));
                }
                if cell.len() > 0 {
                    column_collision = column_collision | (1u16 << (y as u16));
                    if cell.len() == 1 && fills_cell(&cell[0]) {
                        column_full = column_full | (1u16 << (y as u16));
                    }
                }
                let ghost mid = column_collision;
                if reaches && y + 1 < 16 {
                    column_collision = column_collision | (1u16 << ((y + 1) as u16));
                }
                proof {
                    assert forall|b: int| 0 <= b < 16 implies (bit_set(column_collision, b) == ((b < y + 1 && occupied(
                            source@,
                            k * 16 + b,
                        )) || (1 <= b <= y + 1 && reaches_up(source@, k * 16 + b - 1)))) by {
                        lemma_set_bit(old_collision, y as u16, b as u16);
                        assert(bit_set(old_collision, b) == ((b < y && occupied(source@, k * 16 + b))
                            || (1 <= b <= y && reaches_up(source@, k * 16 + b - 1))));
                        assert(occupied(source@, c as int) == (cell.len() > 0));
                        if y + 1 < 16 {
                            lemma_set_bit(mid, (y + 1) as u16, b as u16);
                        }
                        if cell.len() == 0 {
                            assert(!reaches);
                        }
                    }
                    assert forall|b: int| 0 <= b < 16 implies (bit_set(column_full, b) == (b < y + 1 && full_bit(
                            source@,
                            k as int,
                            b,
                        ))) by {
                        lemma_set_bit(old_full, y as u16, b as u16);
                        assert(bit_set(old_full, b) == (b < y && full_bit(source@, k as int, b)));
                    }
                }
                y = y + 1;
            }
            let column_floor = column_collision & !(column_full >> 1u16) & !(column_full >> 2u16);
            proof {
                assert forall|y: int| 0 <= y < 16 implies bit_set(column_floor, y) == (collision_bit(source@, k as int, y) && !(y + 1
                            < 16 && full_bit(source@, k as int, y + 1)) && !(y + 2 < 16 && full_bit(
                            source@,
                            k as int,
                            y + 2,
                        ))) by {
                    lemma_floor_bits(column_collision, column_full, y as u16);
                    assert(bit_set(column_collision, y) == collision_bit(source@, k as int, y));
                    if y + 1 < 16 {
                        assert(bit_set(column_full, y + 1) == full_bit(source@, k as int, y + 1));
                    }
                    if y + 2 < 16 {
                        assert(bit_set(column_full, y + 2) == full_bit(source@, k as int, y + 2));
                    }
                }
            }
            let ghost (old_c, old_f, old_fl) = (collision@, full@, floor@);
            collision.push(column_collision);
            full.push(column_full);
            floor.push(column_floor);
            proof {
                assert forall|kk: int, y: int| 0 <= kk < k + 1 && 0 <= y < 16 implies {
                        &&& #[trigger] bit_set(collision@[kk], y) == collision_bit(source@, kk, y)
                        &&& bit_set(full@[kk], y) == full_bit(source@, kk, y)
                        &&& bit_set(floor@[kk], y) == (collision_bit(source@, kk, y) && !(y + 1
                            < 16 && full_bit(source@, kk, y + 1)) && !(y + 2 < 16 && full_bit(
                            source@,
                            kk,
                            y + 2,
                        )))
                    } by {
                    if kk == k {
                        assert(collision@[kk] == column_collision && full@[kk] == column_full && floor@[kk] == column_floor);
                        assert(bit_set(column_collision, y) == collision_bit(source@, kk, y));
                        assert(bit_set(column_full, y) == full_bit(source@, kk, y));
                    } else {
                        assert(collision@[kk] == old_c[kk] && full@[kk] == old_f[kk] && floor@[kk] == old_fl[kk]);
                        assert(bit_set(old_c[kk], y) == collision_bit(source@, kk, y));
                    }
                }
            }
            k = k + 1;
        }
        SubChunk {
            location,
            aabbs,
            blocks,
            block_floor_mask: floor,
            block_collision_mask: collision,
            full_block_mask: full,
        }
    }
}

/// Index of column `(x, z)`.
pub open spec fn column_index(x: int, z: int) -> int {
    z * 16 + x
}

/// The column of a cell.
pub open spec fn column_of(p: CellPos) -> ColumnPos {
    ColumnPos { x: p.x, z: p.z }
}

/// Footprint of box `b` of cell `p` on the horizontal plane (x as x, z as y),
/// relative to the region's origin and grown by the clearance radius.
pub open spec fn footprint(p: CellPos, b: Aabb3D) -> Aabb2D {
    Aabb2D {
        min_x: (p.x * UNITS_PER_BLOCK + b.0[0] - CLEARANCE_RADIUS) as i32,
        min_y: (p.z * UNITS_PER_BLOCK + b.0[2] - CLEARANCE_RADIUS) as i32,
        max_x: (p.x * UNITS_PER_BLOCK + b.0[3] + CLEARANCE_RADIUS) as i32,
        max_y: (p.z * UNITS_PER_BLOCK + b.0[5] + CLEARANCE_RADIUS) as i32,
    }
}

/// Height of the top of box `b` of cell `p`, relative to the region's base.
pub open spec fn top_of(p: CellPos, b: Aabb3D) -> int {
    p.y * UNITS_PER_BLOCK + b.0[4]
}

/// Height of the bottom of box `b` of cell `p`, relative to the region's base.
pub open spec fn bottom_of(p: CellPos, b: Aabb3D) -> int {
    p.y * UNITS_PER_BLOCK + b.0[1]
}

/// Which face of the boxes a set of layers is made of.
#[derive(Debug, Clone, Copy, PartialEq, Eq, Structural)]
pub enum NavMeshLayerType {
    Floor,
    Ceiling,
}

/// A link between two nodes; reserved, never made.
#[derive(Debug, Clone, Copy, PartialEq, Eq, Structural)]
pub enum NavMeshAdjacent {
    Superset { index: usize, axis: u8 },
    Subset { index: usize, axis: u8 },
    Overlapping { min: i32, max: i32, index: usize, axis: u8 },
}

/// A walkable (or overhead) rectangle of a layer and the column it came from.
pub struct NavMeshNode {
    pub aabb: Aabb2D,
    pub pos: ColumnPos,
    pub adjacent: Vec<NavMeshAdjacent>,
}

/// The nodes of a region at one height, with, per column `z * 16 + x`, the
/// indices of the nodes that came from that column.
pub struct NavMeshLayer {
    pub height: i32,
    pub nodes: Vec<NavMeshNode>,
    pub blocks: Vec<IndexList>,
}

/// The floor and ceiling layers of a region, each in ascending height.
pub struct SubChunkNavMesh {
    pub location: RegionPos,
    pub floor: Vec<NavMeshLayer>,
    pub ceiling: Vec<NavMeshLayer>,
}

/// What a node stands for: its rectangle and its column.
pub open spec fn node_models(nodes: Seq<NavMeshNode>) -> Seq<(Aabb2D, ColumnPos)> {
    nodes.map_values(|n: NavMeshNode| (n.aabb, n.pos))
}

/// A surface to be placed in a layer.
pub struct LayerItem {
    pub height: int,
    pub aabb: Aabb2D,
    pub pos: ColumnPos,
}

/// The items at height `h`, as node models, in order.
pub open spec fn items_at(items: Seq<LayerItem>, h: int) -> Seq<(Aabb2D, ColumnPos)> {
    items.filter(|it: LayerItem| it.height == h).map_values(|it: LayerItem| (it.aabb, it.pos))
}

/// The layers' heights ascend strictly.
pub open spec fn ascending(layers: Seq<NavMeshLayer>) -> bool {
    forall|i: int, j: int| 0 <= i < j < layers.len() ==> layers[i].height < layers[j].height
}

/// `layers` holds `items` grouped by height: one layer per height that occurs,
/// in ascending order, each with the items of its height in their order.
pub open spec fn grouped(layers: Seq<NavMeshLayer>, items: Seq<LayerItem>) -> bool {
    &&& ascending(layers)
    &&& forall|j: int| 0 <= j < layers.len() ==> (#[trigger] layers[j]).wf()
    &&& forall|j: int|
        0 <= j < layers.len() ==> node_models((#[trigger] layers[j]).nodes@) == items_at(
            items,
            layers[j].height as int,
        )
    &&& forall|k: int|
        0 <= k < items.len() ==> exists|j: int|
            0 <= j < layers.len() && (#[trigger] layers[j]).height == (#[trigger] items[k]).height
    &&& forall|j: int| 0 <= j < layers.len() ==> (#[trigger] layers[j]).nodes.len() > 0
}

impl NavMeshLayer {
    /// The column lists index exactly the nodes of their column, each once, in
    /// ascending order; no node has links yet.
    pub open spec fn wf(&self) -> bool {
        &&& self.blocks.len() == COLUMN_COUNT
        &&& forall|col: int, t: int|
            0 <= col < COLUMN_COUNT && 0 <= t < index_items(self.blocks@[col]).len() ==> {
                let i = #[trigger] index_items(self.blocks@[col])[t];
                i < self.nodes.len() && column_index(
                    self.nodes@[i as int].pos.x as int,
                    self.nodes@[i as int].pos.z as int,
                ) == col
            }
        &&& forall|col: int, t: int, u: int|
            0 <= col < COLUMN_COUNT && 0 <= t < u < index_items(self.blocks@[col]).len() ==> #[trigger] index_items(
                self.blocks@[col],
            )[t] < #[trigger] index_items(self.blocks@[col])[u]
        &&& forall|i: int|
            0 <= i < self.nodes.len() ==> {
                let n = #[trigger] self.nodes@[i];
                &&& n.pos.x < 16 && n.pos.z < 16
                &&& n.adjacent@.len() == 0
                &&& listed(
                    index_items(self.blocks@[column_index(n.pos.x as int, n.pos.z as int)]),
                    i,
                )
            }
    }

    /// An empty layer at `height`.
    fn empty(height: i32) -> (r: NavMeshLayer)
        ensures
            r.wf(),
            r.height == height,
            r.nodes@ == Seq::<NavMeshNode>::empty(),
    {
        let mut blocks: Vec<IndexList> = Vec::new();
        let mut c: usize = 0;
        while c < COLUMN_COUNT
            invariant
                c <= COLUMN_COUNT,
                blocks.len() == c,
                forall|i: int| 0 <= i < c ==> index_items(#[trigger] blocks@[i]) == Seq::<usize>::empty(),
            decreases COLUMN_COUNT - c,
        {
            blocks.push(index_list_new());
            c = c + 1;
        }
        NavMeshLayer { height, nodes: Vec::new(), blocks }
    }

    /// Appends a node for `aabb` from column `pos` and lists it for its column.
    fn insert(&mut self, aabb: Aabb2D, pos: ColumnPos)
        requires
            old(self).wf(),
            pos.x < 16 && pos.z < 16,
        ensures
            final(self).wf(),
            final(self).height == old(self).height,
            node_models(final(self).nodes@) == node_models(old(self).nodes@).push((aabb, pos)),
    {
        let ghost old_blocks = self.blocks@;
        let ghost old_nodes = self.nodes@;
        let index = self.nodes.len();
        let col = (pos.z * 16 + pos.x) as usize;
        proof {
            assert(index_items(self.blocks@[col as int]).len() <= index) by {
                let l = index_items(self.blocks@[col as int]);
                if l.len() > index {
                    lemma_strict_list_bound(l, index as int);
                }
            }
        }
        self.nodes.push(NavMeshNode { aabb, pos, adjacent: Vec::new() });
        let count = self.nodes.len();
        assert(index < count);
        index_list_push(&mut self.blocks[col], index);
        proof {
            assert(node_models(self.nodes@) =~= node_models(old_nodes).push((aabb, pos)));
            assert forall|c: int, t: int|
                0 <= c < COLUMN_COUNT && 0 <= t < index_items(self.blocks@[c]).len() implies {
                    let i = #[trigger] index_items(self.blocks@[c])[t];
                    i < self.nodes.len() && column_index(
                        self.nodes@[i as int].pos.x as int,
                        self.nodes@[i as int].pos.z as int,
                    ) == c
                } by {
                if c != col || t < index_items(old_blocks[c]).len() {
                    assert(index_items(self.blocks@[c])[t] == index_items(old_blocks[c])[t]);
                }
            }
            assert forall|c: int, t: int, u: int|
                0 <= c < COLUMN_COUNT && 0 <= t < u < index_items(self.blocks@[c]).len() implies #[trigger] index_items(
                    self.blocks@[c],
                )[t] < #[trigger] index_items(self.blocks@[c])[u] by {
                if c != col || u < index_items(old_blocks[c]).len() {
                    assert(index_items(self.blocks@[c])[t] == index_items(old_blocks[c])[t]);
                    assert(index_items(self.blocks@[c])[u] == index_items(old_blocks[c])[u]);
                } else {
                    assert(index_items(self.blocks@[c])[t] == index_items(old_blocks[c])[t]);
                }
            }
            assert forall|i: int| 0 <= i < self.nodes.len() implies {
                let n = #[trigger] self.nodes@[i];
                &&& n.pos.x < 16 && n.pos.z < 16
                &&& listed(
                    index_items(self.blocks@[column_index(n.pos.x as int, n.pos.z as int)]),
                    i,
                )
            } by {
                let n = self.nodes@[i];
                let cc = column_index(n.pos.x as int, n.pos.z as int);
                if i < index {
                    assert(n.adjacent@.len() == 0);
                    assert(n == old_nodes[i]);
                    let t = choose|t: int| 0 <= t < index_items(old_blocks[cc]).len() && index_items(old_blocks[cc])[t] == i;
                    assert(index_items(self.blocks@[cc])[t] == i);
                } else {
                    let t = index_items(self.blocks@[cc]).len() - 1;
                    assert(index_items(self.blocks@[cc])[t] == i);
                }
            }
        }
    }
}

/// A strictly ascending list of indices below `n` has at most `n` items.
proof fn lemma_strict_list_bound(l: Seq<usize>, n: int)
    requires
        forall|t: int, u: int| 0 <= t < u < l.len() ==> #[trigger] l[t] < #[trigger] l[u],
        forall|t: int| 0 <= t < l.len() ==> #[trigger] l[t] < n,
        n >= 0,
    ensures
        l.len() <= n,
    decreases l.len(),
{
    if l.len() > 0 {
        let m = l.drop_last();
        assert forall|t: int| 0 <= t < m.len() implies #[trigger] m[t] < l[l.len() - 1] by {
            assert(m[t] == l[t]);
        }
        assert forall|t: int, u: int| 0 <= t < u < m.len() implies #[trigger] m[t] < #[trigger] m[u] by {
            assert(m[t] == l[t] && m[u] == l[u]);
        }
        assert(l[l.len() - 1] < n);
        lemma_strict_list_bound(m, l[l.len() - 1] as int);
    }
}

/// The layer item for box `b` of cell `p`: at the box's bottom for ceiling
/// layers, at its top for floor layers.
pub open spec fn item_of(kind: NavMeshLayerType, p: CellPos, b: Aabb3D) -> LayerItem {
    LayerItem {
        height: match kind {
            NavMeshLayerType::Ceiling => bottom_of(p, b),
            NavMeshLayerType::Floor => top_of(p, b),
        },
        aabb: footprint(p, b),
        pos: column_of(p),
    }
}

/// The layer items for a sequence of entries.
pub open spec fn items_of(kind: NavMeshLayerType, s: Seq<(CellPos, Aabb3D)>) -> Seq<LayerItem> {
    s.map_values(|e: (CellPos, Aabb3D)| item_of(kind, e.0, e.1))
}

/// An entry lies in the region and holds a box within bounds.
pub open spec fn entry_ok(e: (CellPos, Aabb3D)) -> bool {
    e.0.x < 16 && e.0.y < 16 && e.0.z < 16 && local_box_ok(e.1)
}

proof fn lemma_items_at_push(items: Seq<LayerItem>, x: LayerItem, h: int)
    ensures
        items_at(items.push(x), h) == if x.height == h {
            items_at(items, h).push((x.aabb, x.pos))
        } else {
            items_at(items, h)
        },
{
    let p = |it: LayerItem| it.height == h;
    reveal(Seq::filter);
    assert(items.push(x).drop_last() =~= items);
    let f = items.push(x).filter(p);
    assert(f == if p(x) { items.filter(p).push(x) } else { items.filter(p) });
    if x.height == h {
        assert(items_at(items.push(x), h) =~= items_at(items, h).push((x.aabb, x.pos)));
    }
}

proof fn lemma_items_at_none(items: Seq<LayerItem>, h: int)
    requires
        forall|k: int| 0 <= k < items.len() ==> (#[trigger] items[k]).height != h,
    ensures
        items_at(items, h) == Seq::<(Aabb2D, ColumnPos)>::empty(),
    decreases items.len(),
{
    if items.len() > 0 {
        let m = items.drop_last();
        assert forall|k: int| 0 <= k < m.len() implies (#[trigger] m[k]).height != h by {
            assert(m[k] == items[k]);
        }
        lemma_items_at_none(m, h);
        assert(items == m.push(items.last()));
        lemma_items_at_push(m, items.last(), h);
    }
    assert(items_at(items, h) =~= Seq::<(Aabb2D, ColumnPos)>::empty());
}

/// The footprint of box `b` of cell `pos` (see `footprint`).
fn node_footprint(pos: CellPos, b: &Aabb3D) -> (r: Aabb2D)
    requires
        entry_ok((pos, *b)),
    ensures
        r == footprint(pos, *b),
        r.wf(),
        solid(r@, 2),
{
    let surface = Aabb2D { min_x: b.min_x(), min_y: b.min_z(), max_x: b.max_x(), max_y: b.max_z() };
    let moved = surface.translate(
        pos.x as i32 * UNITS_PER_BLOCK,
        pos.z as i32 * UNITS_PER_BLOCK,
    );
    let r = moved.inflate(CLEARANCE_RADIUS);
    proof {
        crate::aabb::aabb_2d::lemma_relations(r, r);
        assert forall|i: int| 0 <= i < 2 implies r@.lo[i] < r@.hi[i] by {
            if i == 0 {
            } else {
            }
        }
    }
    r
}

/// Where `height` stands among ascending layers: `Ok(i)` when layer `i` has
/// that height, `Err(i)` when a layer of that height belongs at `i`.
fn find_layer(layers: &Vec<NavMeshLayer>, height: i32) -> (r: Result<usize, usize>)
    requires
        ascending(layers@),
    ensures
        match r {
            Ok(i) => i < layers.len() && layers@[i as int].height == height,
            Err(i) => i <= layers.len() && (forall|j: int|
                0 <= j < i ==> (#[trigger] layers@[j]).height < height) && (forall|j: int|
                i <= j < layers.len() ==> (#[trigger] layers@[j]).height > height),
        },
{
    let mut lo: usize = 0;
    let mut hi: usize = layers.len();
    while lo < hi
        invariant
            lo <= hi <= layers.len(),
            ascending(layers@),
            forall|j: int| 0 <= j < lo ==> (#[trigger] layers@[j]).height < height,
            forall|j: int| hi <= j < layers.len() ==> (#[trigger] layers@[j]).height > height,
        decreases hi - lo,
    {
        let mid = lo + (hi - lo) / 2;
        let h = layers[mid].height;
        if h == height {
            return Ok(mid);
        } else if h < height {
            lo = mid + 1;
        } else {
            hi = mid;
        }
    }
    Err(lo)
}

impl SubChunk {
    /// The entries whose cell's floor bit is set, in order.
    pub open spec fn floor_entry(&self, e: (CellPos, Aabb3D)) -> bool {
        bit_set(self.block_floor_mask@[column_index(e.0.x as int, e.0.z as int)], e.0.y as int)
    }

    /// `floor_entry` as a predicate.
    pub open spec fn floor_pred(&self) -> spec_fn((CellPos, Aabb3D)) -> bool {
        |e: (CellPos, Aabb3D)| self.floor_entry(e)
    }

    /// Every box with its cell whose floor bit is set, in order.
    pub fn iter_floor(&self) -> (r: Vec<(CellPos, Aabb3D)>)
        requires
            self.wf(),
        ensures
            r@ == self.aabbs@.filter(self.floor_pred()),
    {
        let ghost p = self.floor_pred();
        let mut r: Vec<(CellPos, Aabb3D)> = Vec::new();
        let mut i: usize = 0;
        while i < self.aabbs.len()
            invariant
                self.wf(),
                i <= self.aabbs.len(),
                p == self.floor_pred(),
                r@ == self.aabbs@.take(i as int).filter(p),
            decreases self.aabbs.len() - i,
        {
            let (pos, aabb) = self.aabbs[i];
            let mask = self.block_floor_mask[(pos.z * 16 + pos.x) as usize];
            let ghost old_r = r@;
            if (mask >> (pos.y as u16)) & 1u16 == 1u16 {
                r.push((pos, aabb));
            }
            proof {
                assert(self.aabbs@[i as int] == (pos, aabb));
                assert(p((pos, aabb)) == self.floor_entry((pos, aabb)));
                assert(self.floor_entry((pos, aabb)) == ((mask >> (pos.y as u16)) & 1u16 == 1u16));
                let t = self.aabbs@.take(i + 1);
                reveal(Seq::filter);
                assert(t.drop_last() =~= self.aabbs@.take(i as int));
                assert(t.last() == self.aabbs@[i as int]);
                assert(t.filter(p) == if p(t.last()) { t.drop_last().filter(p).push(t.last()) } else { t.drop_last().filter(p) });
            }
            i = i + 1;
        }
        assert(self.aabbs@.take(self.aabbs.len() as int) =~= self.aabbs@);
        r
    }

    /// Every box with its cell, in order. No mask applies to ceilings yet: this
    /// is the same as `iter_collisions`.
    pub fn iter_ceiling(&self) -> (r: Vec<(CellPos, Aabb3D)>)
        ensures
            r@ == self.aabbs@,
    {
        self.iter_collisions()
    }

    /// Every box with its cell, in order.
    pub fn iter_collisions(&self) -> (r: Vec<(CellPos, Aabb3D)>)
        ensures
            r@ == self.aabbs@,
    {
        let mut r: Vec<(CellPos, Aabb3D)> = Vec::new();
        let mut i: usize = 0;
        while i < self.aabbs.len()
            invariant
                i <= self.aabbs.len(),
                r@ == self.aabbs@.take(i as int),
            decreases self.aabbs.len() - i,
        {
            r.push(self.aabbs[i]);
            proof {
                assert(r@ =~= self.aabbs@.take(i + 1));
            }
            i = i + 1;
        }
        assert(self.aabbs@.take(self.aabbs.len() as int) =~= self.aabbs@);
        r
    }

    /// Places the surface of box `aabb` of cell `block_location` (its top for
    /// floor layers, its bottom for ceiling layers) in the layer of its height,
    /// adding that layer at its place in the ascending order when there is
    /// none yet.
    fn insert_aabb_into_layers(
        layers: &mut Vec<NavMeshLayer>,
        aabb: &Aabb3D,
        block_location: CellPos,
        layer_type: NavMeshLayerType,
        Ghost(items): Ghost<Seq<LayerItem>>,
    )
        requires
            grouped(old(layers)@, items),
            entry_ok((block_location, *aabb)),
        ensures
            grouped(final(layers)@, items.push(item_of(layer_type, block_location, *aabb))),
    {
        let ghost x = item_of(layer_type, block_location, *aabb);
        let ghost old_layers = layers@;
        let base = block_location.y as i32 * UNITS_PER_BLOCK;
        let height = match layer_type {
            NavMeshLayerType::Ceiling => base + aabb.min_y(),
            NavMeshLayerType::Floor => base + aabb.max_y(),
        };
        let surface = node_footprint(block_location, aabb);
        let pos = ColumnPos { x: block_location.x, z: block_location.z };
        assert(x.height == height && x.aabb == surface && x.pos == pos);
        match find_layer(layers, height) {
            Err(index) => {
                let mut layer = NavMeshLayer::empty(height);
                proof {
                    assert(node_models(layer.nodes@) =~= Seq::<(Aabb2D, ColumnPos)>::empty());
                }
                layer.insert(surface, pos);
                layers.insert(index, layer);
                proof {
                    lemma_grouped_insert_new(old_layers, layers@, items, x, index as int, layer);
                }
            },
            Ok(index) => {
                layers[index].insert(surface, pos);
                proof {
                    lemma_grouped_append(old_layers, layers@, items, x, index as int);
                }
            },
        }
    }
}

proof fn lemma_grouped_insert_new(
    old_layers: Seq<NavMeshLayer>,
    layers: Seq<NavMeshLayer>,
    items: Seq<LayerItem>,
    x: LayerItem,
    index: int,
    layer: NavMeshLayer,
)
    requires
        grouped(old_layers, items),
        0 <= index <= old_layers.len(),
        forall|j: int| 0 <= j < index ==> (#[trigger] old_layers[j]).height < x.height,
        forall|j: int| index <= j < old_layers.len() ==> (#[trigger] old_layers[j]).height > x.height,
        layers == old_layers.insert(index, layer),
        layer.wf(),
        layer.height == x.height,
        node_models(layer.nodes@) == seq![(x.aabb, x.pos)],
    ensures
        grouped(layers, items.push(x)),
{
            old_layers.insert_ensures(index, layer);
            assert forall|k: int| 0 <= k < items.len() implies (#[trigger] items[k]).height != x.height by {
                let j = choose|j: int| 0 <= j < old_layers.len() && (#[trigger] old_layers[j]).height == items[k].height;
                if j < index {
                    assert(old_layers[j].height < x.height);
                } else {
                    assert(old_layers[j].height > x.height);
                }
            }
            lemma_items_at_none(items, x.height);
            let ys = items.push(x);
            let ls = layers;
            assert(ascending(ls)) by {
                assert forall|i: int, j: int| 0 <= i < j < ls.len() implies ls[i].height < ls[j].height by {
                    if j < index {
                        assert(ls[i] == old_layers[i] && ls[j] == old_layers[j]);
                    } else if j == index {
                        assert(ls[i] == old_layers[i]);
                    } else if i < index {
                        assert(ls[i] == old_layers[i] && ls[j] == old_layers[j - 1]);
                    } else if i == index {
                        assert(ls[j] == old_layers[j - 1]);
                    } else {
                        assert(ls[i] == old_layers[i - 1] && ls[j] == old_layers[j - 1]);
                    }
                }
            }
            assert forall|j: int| 0 <= j < ls.len() implies (#[trigger] ls[j]).wf() && node_models(ls[j].nodes@) == items_at(ys, ls[j].height as int) && ls[j].nodes.len() > 0 by {
                lemma_items_at_push(items, x, ls[j].height as int);
                if j < index {
                    assert(ls[j] == old_layers[j]);
                    assert(old_layers[j].height < x.height);
                    assert(old_layers[j].wf());
                    assert(node_models(ls[j].nodes@) == items_at(items, ls[j].height as int));
                } else if j > index {
                    assert(ls[j] == old_layers[j - 1]);
                    assert(old_layers[j - 1].height > x.height);
                    assert(old_layers[j - 1].wf());
                    assert(node_models(ls[j].nodes@) == items_at(items, ls[j].height as int));
                } else {
                    assert(ls[j] == layer);
                    assert(node_models(layer.nodes@).len() == layer.nodes.len());
                    assert(node_models(ls[j].nodes@) =~= seq![(x.aabb, x.pos)]);
                    assert(items_at(items, x.height).push((x.aabb, x.pos)) =~= seq![(x.aabb, x.pos)]);
                }
            }
            assert forall|k: int| 0 <= k < ys.len() implies exists|j: int|
                0 <= j < ls.len() && (#[trigger] ls[j]).height == (#[trigger] ys[k]).height by {
                if k == items.len() {
                    assert(ls[index].height == ys[k].height);
                } else {
                    assert(ys[k] == items[k]);
                    let j = choose|j: int| 0 <= j < old_layers.len() && (#[trigger] old_layers[j]).height == items[k].height;
                    if j < index {
                        assert(ls[j] == old_layers[j]);
                    } else {
                        assert(ls[j + 1] == old_layers[j]);
                    }
                }
            }
        }

proof fn lemma_grouped_append(
    old_layers: Seq<NavMeshLayer>,
    layers: Seq<NavMeshLayer>,
    items: Seq<LayerItem>,
    x: LayerItem,
    index: int,
)
    requires
        grouped(old_layers, items),
        0 <= index < old_layers.len(),
        old_layers[index].height == x.height,
        layers.len() == old_layers.len(),
        forall|j: int| 0 <= j < layers.len() && j != index ==> layers[j] == old_layers[j],
        layers[index].wf(),
        layers[index].height == x.height,
        node_models(layers[index].nodes@) == node_models(old_layers[index].nodes@).push((x.aabb, x.pos)),
    ensures
        grouped(layers, items.push(x)),
{
            let ys = items.push(x);
            let ls = layers;
            assert forall|j: int| 0 <= j < ls.len() implies (#[trigger] ls[j]).wf() && node_models(ls[j].nodes@) == items_at(ys, ls[j].height as int) && ls[j].nodes.len() > 0 by {
                lemma_items_at_push(items, x, ls[j].height as int);
                if j != index {
                    assert(ls[j] == old_layers[j]);
                    assert(old_layers[j].wf());
                    assert(node_models(ls[j].nodes@) == items_at(items, ls[j].height as int));
                    if index < j {
                        assert(old_layers[index].height < old_layers[j].height);
                    } else {
                        assert(old_layers[j].height < old_layers[index].height);
                    }
                } else {
                    assert(node_models(old_layers[index].nodes@) == items_at(items, x.height));
                    assert(node_models(ls[j].nodes@).len() == ls[j].nodes.len());
                }
            }
            assert forall|i: int, j: int| 0 <= i < j < ls.len() implies ls[i].height < ls[j].height by {
                assert(ls[i].height == old_layers[i].height && ls[j].height == old_layers[j].height);
            }
            assert forall|k: int| 0 <= k < ys.len() implies exists|j: int|
                0 <= j < ls.len() && (#[trigger] ls[j]).height == (#[trigger] ys[k]).height by {
                if k == items.len() {
                    assert(ls[index].height == ys[k].height);
                } else {
                    assert(ys[k] == items[k]);
                    let j = choose|j: int| 0 <= j < old_layers.len() && (#[trigger] old_layers[j]).height == items[k].height;
                    assert(ls[j].height == old_layers[j].height);
                }
            }
        }

/// First cell of the band scanned above a floor at height `h`: the cell that
/// holds `h`, kept within the region.
pub open spec fn band_start(h: int) -> int {
    if h <= 0 {
        0
    } else if h / (UNITS_PER_BLOCK as int) >= 16 {
        16
    } else {
        h / (UNITS_PER_BLOCK as int)
    }
}

/// End (exclusive) of the band scanned above a floor at height `h`: the cell
/// that holds `h + AGENT_HEIGHT`, rounded up, kept within the region.
pub open spec fn band_end(h: int) -> int {
    let top = h + AGENT_HEIGHT;
    if top <= 0 {
        0
    } else if (top + UNITS_PER_BLOCK - 1) / (UNITS_PER_BLOCK as int) >= 16 {
        16
    } else {
        (top + UNITS_PER_BLOCK - 1) / (UNITS_PER_BLOCK as int)
    }
}

/// Cell `p` is scanned for obstacles over a floor at height `h` in column
/// `col`: it lies in the column or one of its eight neighbours, within the
/// band above `h`.
pub open spec fn scanned(h: int, col: ColumnPos, p: CellPos) -> bool {
    &&& col.x - 1 <= p.x <= col.x + 1
    &&& col.z - 1 <= p.z <= col.z + 1
    &&& band_start(h) <= p.y < band_end(h)
}

/// The box of entry `e` rises into the space an agent standing at height `h`
/// takes up.
pub open spec fn in_headroom(h: int, e: (CellPos, Aabb3D)) -> bool {
    bottom_of(e.0, e.1) - AGENT_HEIGHT < h && h < top_of(e.0, e.1)
}

/// Entry `e` is an obstacle for a floor at height `h` in column `col`: it is
/// listed for a scanned cell (its own, or the one above when it reaches into
/// it) and rises into the agent's headroom.
pub open spec fn obstructs(h: int, col: ColumnPos, e: (CellPos, Aabb3D)) -> bool {
    &&& scanned(h, col, e.0) || (protrudes(e.1) && e.0.y + 1 < 16 && scanned(
        h,
        col,
        CellPos { x: e.0.x, y: (e.0.y + 1) as u32, z: e.0.z },
    ))
    &&& in_headroom(h, e)
}

impl SubChunk {
    /// No obstacle for a floor at height `h` in column `col` overlaps `p`.
    pub open spec fn clear(&self, h: int, col: ColumnPos, p: Aabb2D) -> bool {
        forall|i: int|
            0 <= i < self.aabbs.len() && obstructs(h, col, #[trigger] self.aabbs@[i]) ==> !meets(
                p@,
                footprint(self.aabbs@[i].0, self.aabbs@[i].1)@,
                2,
            )
    }

    /// The obstacles for a floor at height `h` in column `col` all have
    /// footprint `o`, and there is at least one.
    pub open spec fn single_obstacle(&self, h: int, col: ColumnPos, o: Aabb2D) -> bool {
        &&& exists|i: int|
            0 <= i < self.aabbs.len() && obstructs(h, col, #[trigger] self.aabbs@[i]) && footprint(
                self.aabbs@[i].0,
                self.aabbs@[i].1,
            ) == o
        &&& forall|i: int|
            0 <= i < self.aabbs.len() && obstructs(h, col, #[trigger] self.aabbs@[i]) ==> footprint(
                self.aabbs@[i].0,
                self.aabbs@[i].1,
            ) == o
    }

    /// Point `q` lies in the footprint of an obstacle for a floor at height `h`
    /// in column `col`.
    pub open spec fn blocked(&self, h: int, col: ColumnPos, q: Seq<int>) -> bool {
        exists|i: int|
            0 <= i < self.aabbs.len() && obstructs(h, col, #[trigger] self.aabbs@[i]) && within(
                footprint(self.aabbs@[i].0, self.aabbs@[i].1)@,
                q,
                2,
            )
    }

    /// No listed obstacle of cell `c` overlaps `p`.
    pub open spec fn cell_clear(&self, h: int, c: int, p: Aabb2D) -> bool {
        forall|t: int|
            0 <= t < index_items(self.blocks@[c]).len() ==> {
                let e = self.aabbs@[#[trigger] index_items(self.blocks@[c])[t] as int];
                in_headroom(h, e) ==> !meets(p@, footprint(e.0, e.1)@, 2)
            }
    }
}

/// What clipping `p` by obstacle `o` leaves: solid, pairwise apart pieces of
/// `p` clear of `o`, which cover the points of `p` outside `o` and whose area
/// is that of `p` less its overlap with `o`.
pub open spec fn clipped(p: Aabb2D, o: Aabb2D, r: Seq<Aabb2D>) -> bool {
    &&& forall|k: int|
        0 <= k < r.len() ==> (#[trigger] r[k]).wf() && solid(r[k]@, 2) && encloses(p@, r[k]@, 2)
            && !meets(r[k]@, o@, 2)
    &&& pairwise_apart(views(r), 2)
    &&& total_measure(views(r), 2) + common_measure(p@, o@, 2) == measure(p@, 2)
    &&& forall|q: Seq<int>|
        within(p@, q, 2) && !within(o@, q, 2) ==> exists|k: int|
            0 <= k < r.len() && #[trigger] within(r[k]@, q, 2)
}

proof fn lemma_cell_of(x: int, y: int, z: int)
    requires
        0 <= x < 16,
        0 <= y < 16,
        0 <= z < 16,
    ensures
        0 <= cell_index(x, y, z) < 4096,
        pos_of(cell_index(x, y, z)) == (CellPos { x: x as u32, y: y as u32, z: z as u32 }),
{
    let k = z * 16 + x;
    assert(0 <= k < 256);
    assert(k % 16 == x && k / 16 == z) by (nonlinear_arith)
        requires
            k == z * 16 + x,
            0 <= x < 16,
            0 <= z,
    ;
    lemma_cell_pos(k, y);
}

impl SubChunk {
    /// Looks for the first obstacle, scanning the band above a floor at
    /// `height` cell by cell (up the band, then across z, then across x over
    /// column `col` and its neighbours), that clipping `piece` by it would
    /// change: `Some` of what clipping leaves, or `None` when no obstacle
    /// overlaps `piece`.
    #[verifier::loop_isolation(false)]
    fn find_clip(&self, height: i32, col: ColumnPos, piece: &Aabb2D) -> (r: Option<Vec<Aabb2D>>)
        requires
            self.wf(),
            piece.wf(),
            solid(piece@, 2),
            col.x < 16 && col.z < 16,
            -2 * MAX_LOCAL_COORD <= height <= 2 * MAX_LOCAL_COORD,
        ensures
            r is None ==> self.clear(height as int, col, *piece),
            r is Some ==> exists|i: int|
                0 <= i < self.aabbs.len() && obstructs(height as int, col, #[trigger] self.aabbs@[i])
                    && meets(piece@, footprint(self.aabbs@[i].0, self.aabbs@[i].1)@, 2) && clipped(
                    *piece,
                    footprint(self.aabbs@[i].0, self.aabbs@[i].1),
                    r->Some_0@,
                ),
    {
        let ghost h = height as int;
        let start: usize = if height <= 0 {
            0
        } else if height / UNITS_PER_BLOCK >= 16 {
            16
        } else {
            (height / UNITS_PER_BLOCK) as usize
        };
        let top = height + AGENT_HEIGHT;
        let end: usize = if top <= 0 {
            0
        } else if (top + UNITS_PER_BLOCK - 1) / UNITS_PER_BLOCK >= 16 {
            16
        } else {
            ((top + UNITS_PER_BLOCK - 1) / UNITS_PER_BLOCK) as usize
        };
        assert(start == band_start(h) && end == band_end(h));
        let x0: u32 = if col.x > 0 { col.x - 1 } else { 0 };
        let x1: u32 = if col.x < 15 { col.x + 1 } else { 15 };
        let z0: u32 = if col.z > 0 { col.z - 1 } else { 0 };
        let z1: u32 = if col.z < 15 { col.z + 1 } else { 15 };
        let mut y: usize = start;
        while y < end
            invariant
                start <= y,
                end <= 16,
                forall|yy: int, zz: int, xx: int|
                    start <= yy < y && z0 <= zz <= z1 && x0 <= xx <= x1 ==> #[trigger] self.cell_clear(h, cell_index(xx, yy, zz), *piece),
            decreases end - y,
        {
            let mut z: u32 = z0;
            while z <= z1
                invariant
                    start <= y < end <= 16,
                    z0 <= z <= z1 + 1,
                    forall|yy: int, zz: int, xx: int|
                        start <= yy < y && z0 <= zz <= z1 && x0 <= xx <= x1 ==> #[trigger] self.cell_clear(h, cell_index(xx, yy, zz), *piece),
                    forall|zz: int, xx: int|
                        z0 <= zz < z && x0 <= xx <= x1 ==> #[trigger] self.cell_clear(h, cell_index(xx, y as int, zz), *piece),
                decreases z1 + 1 - z,
            {
                let mut x: u32 = x0;
                while x <= x1
                    invariant
                        start <= y < end <= 16,
                        z0 <= z <= z1,
                        x0 <= x <= x1 + 1,
                        forall|yy: int, zz: int, xx: int|
                            start <= yy < y && z0 <= zz <= z1 && x0 <= xx <= x1 ==> #[trigger] self.cell_clear(h, cell_index(xx, yy, zz), *piece),
                        forall|zz: int, xx: int|
                            z0 <= zz < z && x0 <= xx <= x1 ==> #[trigger] self.cell_clear(h, cell_index(xx, y as int, zz), *piece),
                        forall|xx: int|
                            x0 <= xx < x ==> #[trigger] self.cell_clear(h, cell_index(xx, y as int, z as int), *piece),
                    decreases x1 + 1 - x,
                {
                    let c: usize = ((z * 16 + x) * 16) as usize + y;
                    assert(c == cell_index(x as int, y as int, z as int));
                    match self.scan_cell(height, c, piece) {
                        Some((index, cut)) => {
                            proof {
                                let e = self.aabbs@[index as int];
                                if cell_index(e.0.x as int, e.0.y as int, e.0.z as int) == c {
                                    lemma_cell_index_injective(e.0.x as int, e.0.y as int, e.0.z as int, x as int, y as int, z as int);
                                } else {
                                    lemma_cell_index_injective(e.0.x as int, e.0.y + 1, e.0.z as int, x as int, y as int, z as int);
                                }
                                assert(obstructs(h, col, e));
                            }
                            return Some(cut);
                        },
                        None => {},
                    }
                    x = x + 1;
                }
                z = z + 1;
            }
            y = y + 1;
        }
        proof {
            self.lemma_clear_from_cells(h, col, *piece);
        }
        None
    }

    proof fn lemma_clear_from_cells(&self, h: int, col: ColumnPos, piece: Aabb2D)
        requires
            self.wf(),
            forall|yy: int, zz: int, xx: int|
                band_start(h) <= yy < band_end(h) && (if col.z > 0 { col.z - 1 } else { 0 }) <= zz
                    <= (if col.z < 15 { col.z + 1 } else { 15 }) && (if col.x > 0 { col.x - 1 } else { 0 })
                    <= xx <= (if col.x < 15 { col.x + 1 } else { 15 }) ==> #[trigger] self.cell_clear(
                    h,
                    cell_index(xx, yy, zz),
                    piece,
                ),
        ensures
            self.clear(h, col, piece),
    {
        assert forall|i: int|
            0 <= i < self.aabbs.len() && obstructs(h, col, #[trigger] self.aabbs@[i]) implies !meets(
                piece@,
                footprint(self.aabbs@[i].0, self.aabbs@[i].1)@,
                2,
            ) by {
            let e = self.aabbs@[i];
            let own = cell_index(e.0.x as int, e.0.y as int, e.0.z as int);
            let cc = if scanned(h, col, e.0) { own } else { own + 1 };
            let yy = if scanned(h, col, e.0) { e.0.y as int } else { e.0.y + 1 };
            assert(cc == cell_index(e.0.x as int, yy, e.0.z as int));
            lemma_cell_of(e.0.x as int, yy, e.0.z as int);
            assert(registered(e, cc));
            assert(self.cell_clear(h, cc, piece));
            let t = choose|t: int| 0 <= t < index_items(self.blocks@[cc]).len() && index_items(self.blocks@[cc])[t] == i;
            assert(index_items(self.blocks@[cc])[t] == i);
        }
    }

    /// Looks through the obstacles listed for cell `c` for the first one that
    /// clipping `piece` by it would change: `Some` of its index and what
    /// clipping leaves, or `None` when none of them overlaps `piece`.
    #[verifier::loop_isolation(false)]
    fn scan_cell(&self, height: i32, c: usize, piece: &Aabb2D) -> (r: Option<(usize, Vec<Aabb2D>)>)
        requires
            self.wf(),
            piece.wf(),
            solid(piece@, 2),
            c < CELL_COUNT,
        ensures
            r is None ==> self.cell_clear(height as int, c as int, *piece),
            r matches Some((i, cut)) ==> {
                &&& i < self.aabbs.len()
                &&& registered(self.aabbs@[i as int], c as int)
                &&& in_headroom(height as int, self.aabbs@[i as int])
                &&& meets(piece@, footprint(self.aabbs@[i as int].0, self.aabbs@[i as int].1)@, 2)
                &&& clipped(*piece, footprint(self.aabbs@[i as int].0, self.aabbs@[i as int].1), cut@)
            },
    {
        let ghost h = height as int;
        let list = &self.blocks[c];
        let n = index_list_len(list);
        let mut t: usize = 0;
        while t < n
            invariant
                c < CELL_COUNT,
                *list == self.blocks@[c as int],
                n == index_items(*list).len(),
                t <= n,
                forall|u: int|
                    0 <= u < t ==> {
                        let e = self.aabbs@[#[trigger] index_items(self.blocks@[c as int])[u] as int];
                        in_headroom(h, e) ==> !meets(piece@, footprint(e.0, e.1)@, 2)
                    },
            decreases n - t,
        {
            let index = index_list_get(list, t);
            assert(index == index_items(self.blocks@[c as int])[t as int]);
            let (cell_pos, cell_box) = self.aabbs[index];
            let ghost e = (cell_pos, cell_box);
            proof {
                assert(registered(e, c as int));
                assert(entry_ok(e));
            }
            let bottom = cell_pos.y as i32 * UNITS_PER_BLOCK + cell_box.min_y();
            let top = cell_pos.y as i32 * UNITS_PER_BLOCK + cell_box.max_y();
            if bottom - AGENT_HEIGHT < height && height < top {
                let obstacle = node_footprint(cell_pos, &cell_box);
                let cut = clip(piece, &obstacle);
                if !(cut.len() == 1 && cut[0] == *piece) {
                    return Some((index, cut));
                }
            }
            t = t + 1;
        }
        None
    }
}


/// Clips `p` by `o`: `p.subtract(o)`, with what that leaves spelled out.
fn clip(p: &Aabb2D, o: &Aabb2D) -> (r: Vec<Aabb2D>)
    requires
        p.wf(),
        o.wf(),
        solid(p@, 2),
    ensures
        clipped(*p, *o, r@),
        (r@ == seq![*p]) == !meets(p@, o@, 2),
{
    let r = p.subtract(o);
    proof {
        crate::aabb::extent::lemma_meets_symmetric(p@, o@, 2);
        if meets(p@, o@, 2) && r@ == seq![*p] {
            assert(!meets(r@[0]@, o@, 2));
        }
    }
    r
}

proof fn lemma_cell_index_injective(x: int, y: int, z: int, a: int, b: int, c: int)
    requires
        0 <= x < 16 && 0 <= y < 16 && 0 <= z < 16,
        0 <= a < 16 && 0 <= b < 16 && 0 <= c < 16,
        cell_index(x, y, z) == cell_index(a, b, c),
    ensures
        x == a && y == b && z == c,
{
    assert(x == a && y == b && z == c) by (nonlinear_arith)
        requires
            0 <= x < 16 && 0 <= y < 16 && 0 <= z < 16,
            0 <= a < 16 && 0 <= b < 16 && 0 <= c < 16,
            (z * 16 + x) * 16 + y == (c * 16 + a) * 16 + b,
    ;
}

/// Node model `p` is a piece of source `src` for a floor at height `h`: from
/// the same column, inside it, and clear of every obstacle.
pub open spec fn piece_of(region: &SubChunk, h: int, src: (Aabb2D, ColumnPos), p: (Aabb2D, ColumnPos)) -> bool {
    &&& p.1 == src.1
    &&& encloses(src.0@, p.0@, 2)
    &&& region.clear(h, p.1, p.0)
}

/// Point `q` of source `src` is outside every obstacle for a floor at `h`.
pub open spec fn open_point(region: &SubChunk, h: int, src: (Aabb2D, ColumnPos), q: Seq<int>) -> bool {
    within(src.0@, q, 2) && !region.blocked(h, src.1, q)
}

/// Node model `p` from the column of `src` holds point `q`.
pub open spec fn holds_point(src: (Aabb2D, ColumnPos), p: (Aabb2D, ColumnPos), q: Seq<int>) -> bool {
    p.1 == src.1 && within(p.0@, q, 2)
}

/// Each of `after` is a piece of one of the first `n` of `before`: of the
/// one that `sources` names.
pub open spec fn pieces_from(
    region: &SubChunk,
    h: int,
    before: Seq<(Aabb2D, ColumnPos)>,
    after: Seq<(Aabb2D, ColumnPos)>,
    sources: Seq<int>,
    n: int,
) -> bool {
    &&& sources.len() == after.len()
    &&& forall|m: int|
        0 <= m < after.len() ==> 0 <= #[trigger] sources[m] < n && sources[m] < before.len()
            && piece_of(region, h, before[sources[m]], after[m]) && solid(after[m].0@, 2)
}

/// Pieces of one source do not overlap.
pub open spec fn apart_per_source(after: Seq<(Aabb2D, ColumnPos)>, sources: Seq<int>) -> bool {
    forall|m1: int, m2: int|
        0 <= m1 < after.len() && 0 <= m2 < after.len() && m1 != m2 && #[trigger] sources[m1]
            == #[trigger] sources[m2] ==> !meets(after[m1].0@, after[m2].0@, 2)
}

/// Each of the first `n` of `before` that no obstacle overlaps comes through
/// as one piece, itself.
pub open spec fn kept_clear(
    region: &SubChunk,
    h: int,
    before: Seq<(Aabb2D, ColumnPos)>,
    after: Seq<(Aabb2D, ColumnPos)>,
    sources: Seq<int>,
    n: int,
) -> bool {
    forall|k: int|
        0 <= k < n && k < before.len() && #[trigger] region.clear(h, before[k].1, before[k].0)
            ==> exists|m: int|
            0 <= m < after.len() && #[trigger] sources[m] == k && after[m] == before[k] && forall|
                m2: int,
            |
                0 <= m2 < after.len() && #[trigger] sources[m2] == k ==> m2 == m
}

/// Sum of the areas of the pieces among the first `n` of `after` whose source
/// is `k`.
pub open spec fn source_total(after: Seq<(Aabb2D, ColumnPos)>, sources: Seq<int>, k: int, n: int) -> int
    decreases n,
{
    if n <= 0 {
        0
    } else {
        source_total(after, sources, k, n - 1) + if sources[n - 1] == k {
            measure(after[n - 1].0@, 2)
        } else {
            0
        }
    }
}

/// For each of the first `n` of `before` whose column has exactly one
/// obstacle footprint `o`, its pieces' areas add up to its own area less its
/// overlap with `o`.
pub open spec fn area_kept(
    region: &SubChunk,
    h: int,
    before: Seq<(Aabb2D, ColumnPos)>,
    after: Seq<(Aabb2D, ColumnPos)>,
    sources: Seq<int>,
    n: int,
) -> bool {
    forall|k: int, o: Aabb2D|
        0 <= k < n && k < before.len() && #[trigger] region.single_obstacle(h, before[k].1, o)
            ==> source_total(after, sources, k, after.len() as int) + common_measure(
            before[k].0@,
            o@,
            2,
        ) == measure(before[k].0@, 2)
}

proof fn lemma_source_total_prefix(
    after: Seq<(Aabb2D, ColumnPos)>,
    sources: Seq<int>,
    x: (Aabb2D, ColumnPos),
    j: int,
    k: int,
    n: int,
)
    requires
        sources.len() == after.len(),
        n <= after.len(),
    ensures
        source_total(after.push(x), sources.push(j), k, n) == source_total(after, sources, k, n),
    decreases n,
{
    if n > 0 {
        lemma_source_total_prefix(after, sources, x, j, k, n - 1);
    }
}

proof fn lemma_source_total_push(
    after: Seq<(Aabb2D, ColumnPos)>,
    sources: Seq<int>,
    x: (Aabb2D, ColumnPos),
    j: int,
    k: int,
)
    requires
        sources.len() == after.len(),
    ensures
        source_total(after.push(x), sources.push(j), k, after.len() + 1 as int) == source_total(
            after,
            sources,
            k,
            after.len() as int,
        ) + if j == k {
            measure(x.0@, 2)
        } else {
            0
        },
{
    lemma_source_total_prefix(after, sources, x, j, k, after.len() as int);
}

proof fn lemma_source_total_none(after: Seq<(Aabb2D, ColumnPos)>, sources: Seq<int>, k: int, n: int)
    requires
        n <= sources.len(),
        forall|m: int| 0 <= m < n ==> #[trigger] sources[m] != k,
    ensures
        source_total(after, sources, k, n) == 0,
    decreases n,
{
    if n > 0 {
        lemma_source_total_none(after, sources, k, n - 1);
    }
}

/// `after` is `before` clipped for the region: each piece is a solid, clear
/// part of its source, the pieces of one source do not overlap, a source that
/// no obstacle overlaps is kept whole, a source with a single obstacle loses
/// exactly its overlap with it in area, and the open points of each source
/// lie in pieces from its column.
pub open spec fn clipped_models(
    region: &SubChunk,
    h: int,
    before: Seq<(Aabb2D, ColumnPos)>,
    after: Seq<(Aabb2D, ColumnPos)>,
) -> bool {
    &&& exists|sources: Seq<int>|
        pieces_from(region, h, before, after, sources, before.len() as int) && apart_per_source(
            after,
            sources,
        ) && kept_clear(region, h, before, after, sources, before.len() as int) && area_kept(
            region,
            h,
            before,
            after,
            sources,
            before.len() as int,
        )
    &&& covered(region, h, before, after, before.len() as int)
}

/// The open points of each of the first `n` of `before` lie in `after`.
pub open spec fn covered(
    region: &SubChunk,
    h: int,
    before: Seq<(Aabb2D, ColumnPos)>,
    after: Seq<(Aabb2D, ColumnPos)>,
    n: int,
) -> bool {
    forall|k: int, q: Seq<int>|
        0 <= k < n && k < before.len() && #[trigger] open_point(region, h, before[k], q) ==> exists|m: int|
            0 <= m < after.len() && #[trigger] holds_point(before[k], after[m], q)
}

proof fn lemma_covered_push(
    region: &SubChunk,
    h: int,
    before: Seq<(Aabb2D, ColumnPos)>,
    after: Seq<(Aabb2D, ColumnPos)>,
    n: int,
    p: (Aabb2D, ColumnPos),
)
    requires
        covered(region, h, before, after, n),
    ensures
        covered(region, h, before, after.push(p), n),
{
    let a2 = after.push(p);
    assert forall|k: int, q: Seq<int>|
        0 <= k < n && k < before.len() && #[trigger] open_point(region, h, before[k], q) implies exists|m: int|
            0 <= m < a2.len() && #[trigger] holds_point(before[k], a2[m], q) by {
        let m = choose|m: int| 0 <= m < after.len() && #[trigger] holds_point(before[k], after[m], q);
        assert(a2[m] == after[m]);
        assert(holds_point(before[k], a2[m], q));
    }
}

/// `new` is `old` clipped for the region (see `clipped_models`).
pub open spec fn clipped_layer(region: &SubChunk, old: NavMeshLayer, new: NavMeshLayer) -> bool {
    let (h, before, after) = (old.height as int, node_models(old.nodes@), node_models(new.nodes@));
    &&& new.wf()
    &&& new.height == old.height
    &&& clipped_models(region, h, before, after)
}

/// The nodes of the layer can be clipped: well-formed, solid rectangles from
/// columns of the region.
pub open spec fn clippable(layer: NavMeshLayer) -> bool {
    &&& layer.wf()
    &&& -2 * MAX_LOCAL_COORD <= layer.height <= 2 * MAX_LOCAL_COORD
    &&& forall|k: int|
        0 <= k < layer.nodes.len() ==> {
            let n = #[trigger] layer.nodes@[k];
            n.aabb.wf() && solid(n.aabb@, 2) && n.pos.x < 16 && n.pos.z < 16
        }
}

proof fn lemma_pairwise_concat(a: Seq<Aabb2D>, b: Seq<Aabb2D>)
    requires
        pairwise_apart(views(a), 2),
        pairwise_apart(views(b), 2),
        forall|i: int, j: int| 0 <= i < a.len() && 0 <= j < b.len() ==> !meets(a[i]@, b[j]@, 2) && !meets(b[j]@, a[i]@, 2),
    ensures
        pairwise_apart(views(a + b), 2),
{
    let v = views(a + b);
    assert forall|i: int, j: int| 0 <= i < v.len() && 0 <= j < v.len() && i != j implies !meets(#[trigger] v[i], #[trigger] v[j], 2) by {
        assert(v[i] == (a + b)[i]@ && v[j] == (a + b)[j]@);
        if i < a.len() {
            assert(views(a)[i] == a[i]@);
        } else {
            assert(views(b)[i - a.len()] == b[i - a.len()]@);
        }
        if j < a.len() {
            assert(views(a)[j] == a[j]@);
        } else {
            assert(views(b)[j - a.len()] == b[j - a.len()]@);
        }
    }
}

proof fn lemma_total_concat(a: Seq<Aabb2D>, b: Seq<Aabb2D>)
    ensures
        total_measure(views(a + b), 2) == total_measure(views(a), 2) + total_measure(views(b), 2),
    decreases b.len(),
{
    if b.len() == 0 {
        assert(a + b =~= a);
        assert(views(b) =~= Seq::<Extent>::empty());
    } else {
        let c = b.drop_last();
        lemma_total_concat(a, c);
        assert(a + b =~= (a + c).push(b.last()));
        assert(views((a + c).push(b.last())) =~= views(a + c).push(b.last()@));
        assert(views(b) =~= views(c).push(b.last()@));
        lemma_total_measure_push(views(a + c), b.last()@, 2);
        lemma_total_measure_push(views(c), b.last()@, 2);
    }
}

impl SubChunk {
    /// The layer's nodes clipped against the obstacles over them: each node's
    /// rectangle is cut by every obstacle that rises into the agent's headroom
    /// above the layer, over its column and the neighbouring ones, until no
    /// such obstacle overlaps what is left; the pieces left become the new
    /// nodes, node after node, in the order in which they come off the stack.
    fn clip_layer(&self, layer: &NavMeshLayer) -> (r: NavMeshLayer)
        requires
            self.wf(),
            clippable(*layer),
        ensures
            clipped_layer(self, *layer, r),
    {
        let height = layer.height;
        let ghost h = height as int;
        let ghost before = node_models(layer.nodes@);
        let mut result = NavMeshLayer::empty(height);
        let ghost mut sources: Seq<int> = Seq::empty();
        let mut k: usize = 0;
        while k < layer.nodes.len()
            invariant
                self.wf(),
                clippable(*layer),
                height == layer.height,
                h == height as int,
                before == node_models(layer.nodes@),
                k <= layer.nodes.len(),
                result.wf(),
                result.height == height,
                pieces_from(self, h, before, node_models(result.nodes@), sources, k as int),
                apart_per_source(node_models(result.nodes@), sources),
                kept_clear(self, h, before, node_models(result.nodes@), sources, k as int),
                area_kept(self, h, before, node_models(result.nodes@), sources, k as int),
                covered(self, h, before, node_models(result.nodes@), k as int),
            decreases layer.nodes.len() - k,
        {
            let node_aabb = layer.nodes[k].aabb;
            let pos = layer.nodes[k].pos;
            let ghost src = before[k as int];
            proof {
                assert(src == (node_aabb, pos));
                assert(layer.nodes@[k as int].aabb.wf());
            }
            let mut stack: Vec<Aabb2D> = Vec::new();
            stack.push(node_aabb);
            let ghost start = node_models(result.nodes@).len();
            let ghost mut removed: int = 0;
            proof {
                lemma_source_total_none(node_models(result.nodes@), sources, k as int, start as int);
                assert(stack@ =~= seq![node_aabb]);
                assert(views(stack@) =~= seq![node_aabb@]);
                crate::aabb::extent::lemma_total_small(node_aabb@, node_aabb@, 2);
                assert(layer.nodes@[k as int].aabb == node_aabb);
                crate::aabb::extent::lemma_measure_positive(node_aabb@, 2);
                assert forall|q: Seq<int>| #[trigger] open_point(self, h, src, q) implies (exists|i: int|
                    0 <= i < stack.len() && #[trigger] within(stack@[i]@, q, 2)) by {
                    assert(within(stack@[0]@, q, 2));
                }
            }
            while stack.len() > 0
                invariant
                    self.wf(),
                    clippable(*layer),
                    height == layer.height,
                    h == height as int,
                    before == node_models(layer.nodes@),
                    k < layer.nodes.len(),
                    src == before[k as int],
                    src == (node_aabb, pos),
                    pos.x < 16 && pos.z < 16,
                    result.wf(),
                    result.height == height,
                    forall|i: int|
                        0 <= i < stack.len() ==> (#[trigger] stack@[i]).wf() && solid(stack@[i]@, 2)
                            && encloses(node_aabb@, stack@[i]@, 2),
                    total_measure(views(stack@), 2) >= 0,
                    pieces_from(self, h, before, node_models(result.nodes@), sources, k + 1),
                    covered(self, h, before, node_models(result.nodes@), k as int),
                    apart_per_source(node_models(result.nodes@), sources),
                    kept_clear(self, h, before, node_models(result.nodes@), sources, k as int),
                    area_kept(self, h, before, node_models(result.nodes@), sources, k as int),
                    sources.len() == node_models(result.nodes@).len(),
                    source_total(node_models(result.nodes@), sources, k as int, node_models(result.nodes@).len() as int)
                        + total_measure(views(stack@), 2) + removed == measure(node_aabb@, 2),
                    forall|o: Aabb2D|
                        #[trigger] self.single_obstacle(h, pos, o) ==> (removed == 0 && stack@ == seq![node_aabb]
                            && node_models(result.nodes@).len() == start) || (removed == common_measure(node_aabb@, o@, 2)
                            && forall|i: int| 0 <= i < stack.len() ==> !meets((#[trigger] stack@[i])@, o@, 2)),
                    start <= node_models(result.nodes@).len(),
                    forall|m: int| 0 <= m < start ==> #[trigger] sources[m] < k,
                    forall|m: int| start <= m < sources.len() ==> #[trigger] sources[m] == k,
                    pairwise_apart(views(stack@), 2),
                    forall|m: int, i: int|
                        start <= m < node_models(result.nodes@).len() && 0 <= i < stack.len() ==> !meets(
                            (#[trigger] node_models(result.nodes@)[m]).0@,
                            (#[trigger] stack@[i])@,
                            2,
                        ),
                    self.clear(h, pos, node_aabb) ==> (stack@ == seq![node_aabb] && node_models(result.nodes@).len() == start)
                        || (stack.len() == 0 && node_models(result.nodes@).len() == start + 1
                        && node_models(result.nodes@)[start as int] == (node_aabb, pos)),
                    forall|q: Seq<int>|
                        #[trigger] open_point(self, h, src, q) ==> (exists|i: int|
                            0 <= i < stack.len() && #[trigger] within(stack@[i]@, q, 2)) || (exists|m: int|
                            0 <= m < node_models(result.nodes@).len() && #[trigger] holds_point(src, node_models(result.nodes@)[m], q)),
                decreases total_measure(views(stack@), 2),
            {
                let ghost old_stack = stack@;
                let ghost old_models = node_models(result.nodes@);
                let ghost old_removed = removed;
                let ghost old_sources = sources;
                let piece = stack.pop().unwrap();
                let ghost rest = stack@;
                proof {
                    assert(rest == old_stack.drop_last());
                    assert(views(rest) =~= views(old_stack).drop_last());
                    assert(piece == old_stack[old_stack.len() - 1]);
                    crate::aabb::extent::lemma_measure_positive(piece@, 2);
                    assert(total_measure(views(old_stack), 2) == total_measure(views(rest), 2) + measure(piece@, 2));
                    assert(crate::aabb::extent::all_well_formed(views(rest), 2)) by {
                        assert forall|i: int| 0 <= i < views(rest).len() implies crate::aabb::extent::well_formed(#[trigger] views(rest)[i], 2) by {
                            crate::aabb::aabb_2d::lemma_relations(rest[i], rest[i]);
                            assert(rest[i] == old_stack[i]);
                        }
                    }
                    lemma_total_measure_nonneg(views(rest), 2);
                }
                let found = self.find_clip(height, pos, &piece);
                match found {
                    Option::None => {
                        result.insert(piece, pos);
                        proof {
                            sources = sources.push(k as int);
                            let models = node_models(result.nodes@);
                            assert(models == old_models.push((piece, pos)));
                            assert(piece_of(self, h, before[k as int], (piece, pos)));
                            assert forall|m: int| 0 <= m < models.len() implies 0 <= #[trigger] sources[m] < k + 1 && sources[m] < before.len()
                                && piece_of(self, h, before[sources[m]], models[m]) by {
                                if m < old_models.len() {
                                    assert(models[m] == old_models[m]);
                                }
                            }
                            lemma_covered_push(self, h, before, old_models, k as int, (piece, pos));
                            lemma_pairwise_drop_last(views(old_stack), 2);
                            assert forall|i: int| 0 <= i < rest.len() implies !meets(piece@, (#[trigger] rest[i])@, 2) by {
                                assert(views(old_stack)[i] == rest[i]@);
                                crate::aabb::extent::lemma_meets_symmetric(piece@, rest[i]@, 2);
                            }
                            assert(views(rest) =~= views(old_stack).drop_last());
                            assert forall|m1: int, m2: int|
                                0 <= m1 < models.len() && 0 <= m2 < models.len() && m1 != m2 && #[trigger] sources[m1]
                                    == #[trigger] sources[m2] implies !meets(models[m1].0@, models[m2].0@, 2) by {
                                if m1 == old_models.len() {
                                    assert(old_models[m2] == models[m2]);
                                    assert(!meets(old_models[m2].0@, old_stack[old_stack.len() - 1]@, 2));
                                    crate::aabb::extent::lemma_meets_symmetric(piece@, models[m2].0@, 2);
                                } else if m2 == old_models.len() {
                                    assert(old_models[m1] == models[m1]);
                                    assert(!meets(old_models[m1].0@, old_stack[old_stack.len() - 1]@, 2));
                                } else {
                                    assert(old_models[m1] == models[m1] && old_models[m2] == models[m2]);
                                }
                            }
                            assert forall|kk: int|
                                0 <= kk < k && kk < before.len() && #[trigger] self.clear(h, before[kk].1, before[kk].0)
                                    implies exists|m: int|
                                    0 <= m < models.len() && #[trigger] sources[m] == kk && models[m] == before[kk] && forall|
                                        m2: int,
                                    |
                                        0 <= m2 < models.len() && #[trigger] sources[m2] == kk ==> m2 == m by {
                                let m = choose|m: int|
                                    0 <= m < old_models.len() && #[trigger] old_sources[m] == kk && old_models[m] == before[kk] && forall|
                                        m2: int,
                                    |
                                        0 <= m2 < old_models.len() && #[trigger] old_sources[m2] == kk ==> m2 == m;
                                assert(sources[m] == old_sources[m] && models[m] == old_models[m]);
                                assert forall|m2: int| 0 <= m2 < models.len() && #[trigger] sources[m2] == kk implies m2 == m by {
                                    if m2 < old_models.len() {
                                        assert(sources[m2] == old_sources[m2]);
                                    }
                                }
                            }
                            assert forall|m: int, i: int|
                                start <= m < models.len() && 0 <= i < stack.len() implies !meets(
                                    (#[trigger] models[m]).0@,
                                    (#[trigger] stack@[i])@,
                                    2,
                                ) by {
                                if m < old_models.len() {
                                    assert(models[m] == old_models[m]);
                                    assert(stack@[i] == old_stack[i]);
                                } else {
                                    assert(stack@[i] == rest[i]);
                                }
                            }
                            if self.clear(h, pos, node_aabb) {
                                assert(old_stack == seq![node_aabb]);
                                assert(stack.len() == 0);
                            }
                            lemma_source_total_push(old_models, old_sources, (piece, pos), k as int, k as int);
                            assert forall|kk: int, o: Aabb2D|
                                0 <= kk < k && kk < before.len() && #[trigger] self.single_obstacle(h, before[kk].1, o)
                                    implies source_total(models, sources, kk, models.len() as int) + common_measure(
                                    before[kk].0@,
                                    o@,
                                    2,
                                ) == measure(before[kk].0@, 2) by {
                                lemma_source_total_push(old_models, old_sources, (piece, pos), k as int, kk);
                            }
                            assert forall|o: Aabb2D|
                                #[trigger] self.single_obstacle(h, pos, o) implies (removed == 0 && stack@ == seq![node_aabb]
                                    && models.len() == start) || (removed == common_measure(node_aabb@, o@, 2)
                                    && forall|i: int| 0 <= i < stack.len() ==> !meets((#[trigger] stack@[i])@, o@, 2)) by {
                                if old_removed == 0 && old_stack == seq![node_aabb] && old_models.len() == start {
                                    let i = choose|i: int|
                                        0 <= i < self.aabbs.len() && obstructs(h, pos, #[trigger] self.aabbs@[i]) && footprint(
                                            self.aabbs@[i].0,
                                            self.aabbs@[i].1,
                                        ) == o;
                                    assert(piece == node_aabb);
                                    assert(!meets(piece@, o@, 2));
                                    crate::aabb::extent::lemma_common_apart(node_aabb@, o@, 2);
                                    assert(stack.len() == 0);
                                } else {
                                    assert forall|i: int| 0 <= i < stack.len() implies !meets((#[trigger] stack@[i])@, o@, 2) by {
                                        assert(stack@[i] == old_stack[i]);
                                    }
                                }
                            }
                            assert forall|q: Seq<int>|
                                #[trigger] open_point(self, h, src, q) implies (exists|i: int|
                                    0 <= i < stack.len() && #[trigger] within(stack@[i]@, q, 2)) || (exists|m: int|
                                    0 <= m < models.len() && #[trigger] holds_point(src, models[m], q)) by {
                                if exists|m: int| 0 <= m < old_models.len() && #[trigger] holds_point(src, old_models[m], q) {
                                    let m = choose|m: int| 0 <= m < old_models.len() && #[trigger] holds_point(src, old_models[m], q);
                                    assert(models[m] == old_models[m]);
                                    assert(holds_point(src, models[m], q));
                                } else {
                                    let i = choose|i: int| 0 <= i < old_stack.len() && #[trigger] within(old_stack[i]@, q, 2);
                                    if i == old_stack.len() - 1 {
                                        assert(holds_point(src, models[old_models.len() as int], q));
                                    } else {
                                        assert(stack@[i] == old_stack[i]);
                                        assert(within(stack@[i]@, q, 2));
                                    }
                                }
                            }
                        }
                    },
                    Option::Some(cut) => {
                        let mut cut = cut;
                        let ghost pieces = cut@;
                        proof {
                            assert(found->Some_0@ == pieces);
                            assert(exists|i: int|
                                0 <= i < self.aabbs.len() && obstructs(h, pos, #[trigger] self.aabbs@[i])
                                    && meets(piece@, footprint(self.aabbs@[i].0, self.aabbs@[i].1)@, 2) && clipped(
                                    piece,
                                    footprint(self.aabbs@[i].0, self.aabbs@[i].1),
                                    pieces,
                                ));
                            let i = choose|i: int|
                                0 <= i < self.aabbs.len() && obstructs(h, pos, #[trigger] self.aabbs@[i])
                                    && meets(piece@, footprint(self.aabbs@[i].0, self.aabbs@[i].1)@, 2) && clipped(
                                    piece,
                                    footprint(self.aabbs@[i].0, self.aabbs@[i].1),
                                    pieces,
                                );
                            let e = self.aabbs@[i];
                            let o = footprint(e.0, e.1);
                            assert(entry_ok(e));
                            assert(solid(o@, 2)) by {
                                crate::aabb::aabb_2d::lemma_relations(o, o);
                                assert forall|a: int| 0 <= a < 2 implies o@.lo[a] < o@.hi[a] by {
                                    if a == 0 {
                                    } else {
                                    }
                                }
                            }
                            lemma_common_positive(piece@, o@, 2);
                            assert(!self.clear(h, pos, piece));
                            removed = removed + common_measure(piece@, o@, 2);
                            let rp = rest + pieces;
                            assert forall|oo: Aabb2D|
                                #[trigger] self.single_obstacle(h, pos, oo) implies (removed == 0 && rp == seq![node_aabb]
                                    && old_models.len() == start) || (removed == common_measure(node_aabb@, oo@, 2)
                                    && forall|j: int| 0 <= j < rp.len() ==> !meets((#[trigger] rp[j])@, oo@, 2)) by {
                                assert(footprint(self.aabbs@[i].0, self.aabbs@[i].1) == oo);
                                if old_removed == 0 && old_stack == seq![node_aabb] && old_models.len() == start {
                                    assert(piece == node_aabb);
                                    assert(rest.len() == 0);
                                    assert forall|j: int| 0 <= j < rp.len() implies !meets((#[trigger] rp[j])@, oo@, 2) by {
                                        assert(rp[j] == pieces[j]);
                                    }
                                } else {
                                    assert(!meets(old_stack[old_stack.len() - 1]@, oo@, 2));
                                }
                            }
                            lemma_total_concat(rest, pieces);
                            lemma_pairwise_drop_last(views(old_stack), 2);
                            assert(views(rest) =~= views(old_stack).drop_last());
                            assert forall|a: int, b: int| 0 <= a < rest.len() && 0 <= b < pieces.len() implies !meets(
                                rest[a]@, pieces[b]@, 2) && !meets(pieces[b]@, rest[a]@, 2) by {
                                assert(views(old_stack)[a] == rest[a]@);
                                assert(!meets(rest[a]@, piece@, 2));
                                lemma_apart_shrink(rest[a]@, piece@, pieces[b]@, 2);
                            }
                            lemma_pairwise_concat(rest, pieces);
                            assert(crate::aabb::extent::all_well_formed(views(pieces), 2)) by {
                                assert forall|a: int| 0 <= a < views(pieces).len() implies crate::aabb::extent::well_formed(#[trigger] views(pieces)[a], 2) by {
                                    crate::aabb::aabb_2d::lemma_relations(pieces[a], pieces[a]);
                                }
                            }
                            lemma_total_measure_nonneg(views(pieces), 2);
                            assert forall|q: Seq<int>|
                                #[trigger] open_point(self, h, src, q) implies (exists|j: int|
                                    0 <= j < rest.len() + pieces.len() && #[trigger] within((rest + pieces)[j]@, q, 2)) || (exists|m: int|
                                    0 <= m < old_models.len() && #[trigger] holds_point(src, old_models[m], q)) by {
                                if !(exists|m: int| 0 <= m < old_models.len() && #[trigger] holds_point(src, old_models[m], q)) {
                                    let j = choose|j: int| 0 <= j < old_stack.len() && #[trigger] within(old_stack[j]@, q, 2);
                                    if j == old_stack.len() - 1 {
                                        if within(o@, q, 2) {
                                            assert(self.blocked(h, pos, q));
                                        }
                                        let kk = choose|kk: int| 0 <= kk < pieces.len() && #[trigger] within(pieces[kk]@, q, 2);
                                        assert((rest + pieces)[rest.len() + kk] == pieces[kk]);
                                    } else {
                                        assert((rest + pieces)[j] == old_stack[j]);
                                    }
                                }
                            }
                        }
                        stack.append(&mut cut);
                        proof {
                            assert(stack@ == rest + pieces);
                            let models = node_models(result.nodes@);
                            assert forall|m: int, i: int|
                                start <= m < models.len() && 0 <= i < stack.len() implies !meets(
                                    (#[trigger] models[m]).0@,
                                    (#[trigger] stack@[i])@,
                                    2,
                                ) by {
                                assert(!meets(models[m].0@, old_stack[old_stack.len() - 1]@, 2));
                                if i < rest.len() {
                                    assert(stack@[i] == old_stack[i]);
                                } else {
                                    assert(stack@[i] == pieces[i - rest.len()]);
                                    lemma_apart_shrink(models[m].0@, piece@, pieces[i - rest.len()]@, 2);
                                }
                            }
                            assert forall|i: int|
                                0 <= i < stack.len() implies (#[trigger] stack@[i]).wf() && solid(stack@[i]@, 2)
                                    && encloses(node_aabb@, stack@[i]@, 2) by {
                                if i < rest.len() {
                                    assert(stack@[i] == old_stack[i]);
                                } else {
                                    assert(stack@[i] == pieces[i - rest.len()]);
                                }
                            }
                        }
                    },
                }
            }
            proof {
                let models = node_models(result.nodes@);
                assert forall|kk: int|
                    0 <= kk < k + 1 && kk < before.len() && #[trigger] self.clear(h, before[kk].1, before[kk].0)
                        implies exists|m: int|
                        0 <= m < models.len() && #[trigger] sources[m] == kk && models[m] == before[kk] && forall|
                            m2: int,
                        |
                            0 <= m2 < models.len() && #[trigger] sources[m2] == kk ==> m2 == m by {
                    if kk == k {
                        assert(self.clear(h, pos, node_aabb));
                        let m = start as int;
                        assert(sources[m] == kk && models[m] == before[kk]);
                        assert forall|m2: int| 0 <= m2 < models.len() && #[trigger] sources[m2] == kk implies m2 == m by {
                            if m2 < start {
                                assert(sources[m2] < k);
                            }
                        }
                    }
                }
                assert forall|kk: int, o: Aabb2D|
                    0 <= kk < k + 1 && kk < before.len() && #[trigger] self.single_obstacle(h, before[kk].1, o)
                        implies source_total(models, sources, kk, models.len() as int) + common_measure(
                        before[kk].0@,
                        o@,
                        2,
                    ) == measure(before[kk].0@, 2) by {
                    if kk == k {
                        assert(self.single_obstacle(h, pos, o));
                        assert(views(stack@) =~= Seq::<Extent>::empty());
                        assert(stack@ != seq![node_aabb]);
                    }
                }
                assert forall|kk: int, q: Seq<int>|
                    0 <= kk < k + 1 && kk < before.len() && #[trigger] open_point(self, h, before[kk], q) implies exists|m: int|
                        0 <= m < models.len() && #[trigger] holds_point(before[kk], models[m], q) by {
                    if kk == k {
                        assert(open_point(self, h, src, q));
                    }
                }
            }
            k = k + 1;
        }
        proof {
            assert(pieces_from(self, h, before, node_models(result.nodes@), sources, before.len() as int));
            assert(apart_per_source(node_models(result.nodes@), sources));
            assert(kept_clear(self, h, before, node_models(result.nodes@), sources, before.len() as int));
            assert(area_kept(self, h, before, node_models(result.nodes@), sources, before.len() as int));
        }
        result
    }
}

/// `i` indexes a sequence of length `n`.
pub open spec fn is_index(n: nat, i: int) -> bool {
    0 <= i < n
}

/// An item that a floor layer can hold and clip.
pub open spec fn item_ok(it: LayerItem) -> bool {
    &&& it.aabb.wf()
    &&& solid(it.aabb@, 2)
    &&& it.pos.x < 16 && it.pos.z < 16
    &&& -2 * MAX_LOCAL_COORD <= it.height <= 2 * MAX_LOCAL_COORD
}

/// `layers` are the floor layers built from `items` and clipped for the
/// region: in ascending height, one per height that occurs among the items;
/// each node is a piece of an item of its layer's height, clear of every
/// obstacle; and each point of an item outside every obstacle lies in a node
/// of that item's layer, from the item's column. Each layer is the items of
/// its height clipped as `clipped_models` says: pieces solid, pieces of one
/// item apart, an item that no obstacle overlaps kept whole.
pub open spec fn floor_built(region: &SubChunk, layers: Seq<NavMeshLayer>, items: Seq<LayerItem>) -> bool {
    &&& forall|j: int|
        #[trigger] is_index(layers.len(), j) ==> clipped_models(
            region,
            layers[j].height as int,
            items_at(items, layers[j].height as int),
            node_models(layers[j].nodes@),
        )
    &&& ascending(layers)
    &&& forall|j: int| 0 <= j < layers.len() ==> (#[trigger] layers[j]).wf()
    &&& forall|j: int|
        #[trigger] is_index(layers.len(), j) ==> exists|k: int|
            #![trigger items[k]]
            0 <= k < items.len() && items[k].height == layers[j].height
    &&& forall|k: int|
        #[trigger] is_index(items.len(), k) ==> exists|j: int|
            #![trigger layers[j]]
            0 <= j < layers.len() && layers[j].height == items[k].height
    &&& forall|j: int, m: int|
        #[trigger] is_index(layers.len(), j) && #[trigger] is_index(layers[j].nodes@.len(), m) ==> exists|k: int|
            0 <= k < items.len() && items[k].height == layers[j].height && #[trigger] piece_of(
                region,
                layers[j].height as int,
                (items[k].aabb, items[k].pos),
                node_models(layers[j].nodes@)[m],
            )
    &&& forall|k: int, q: Seq<int>|
        0 <= k < items.len() && #[trigger] open_point(
            region,
            items[k].height,
            (items[k].aabb, items[k].pos),
            q,
        ) ==> exists|j: int, m: int|
            0 <= j < layers.len() && layers[j].height == items[k].height && 0 <= m
                < layers[j].nodes.len() && #[trigger] holds_point(
                (items[k].aabb, items[k].pos),
                #[trigger] node_models(layers[j].nodes@)[m],
                q,
            )
}

proof fn lemma_layer_items(items: Seq<LayerItem>, h: int, i: int)
    requires
        0 <= i < items_at(items, h).len(),
    ensures
        exists|k: int|
            0 <= k < items.len() && #[trigger] items[k].height == h && items_at(items, h)[i] == (
                items[k].aabb,
                items[k].pos,
            ),
{
    let p = |it: LayerItem| it.height == h;
    let f = items.filter(p);
    assert(items_at(items, h)[i] == (f[i].aabb, f[i].pos));
    items.lemma_filter_pred(p, i);
    assert(f.contains(f[i]));
    items.lemma_filter_contains_rev(p, f[i]);
    let k = choose|k: int| 0 <= k < items.len() && items[k] == f[i];
    assert(items[k].height == h);
}

proof fn lemma_item_in_layer(items: Seq<LayerItem>, k: int)
    requires
        0 <= k < items.len(),
    ensures
        exists|i: int|
            0 <= i < items_at(items, items[k].height).len() && #[trigger] items_at(items, items[k].height)[i] == (
                items[k].aabb,
                items[k].pos,
            ),
{
    let h = items[k].height;
    let p = |it: LayerItem| it.height == h;
    items.lemma_filter_contains(p, k);
    let f = items.filter(p);
    let i = choose|i: int| 0 <= i < f.len() && f[i] == items[k];
    assert(items_at(items, h)[i] == (items[k].aabb, items[k].pos));
}

proof fn lemma_grouped_clippable(layers: Seq<NavMeshLayer>, items: Seq<LayerItem>)
    requires
        grouped(layers, items),
        forall|k: int| 0 <= k < items.len() ==> item_ok(#[trigger] items[k]),
    ensures
        forall|j: int| 0 <= j < layers.len() ==> clippable(#[trigger] layers[j]),
{
    assert forall|j: int| 0 <= j < layers.len() implies clippable(#[trigger] layers[j]) by {
        let l = layers[j];
        let h = l.height as int;
        assert(node_models(l.nodes@) == items_at(items, h));
        assert(node_models(l.nodes@).len() == l.nodes.len());
        lemma_layer_items(items, h, 0);
        assert forall|i: int| 0 <= i < l.nodes.len() implies {
            let n = #[trigger] l.nodes@[i];
            n.aabb.wf() && solid(n.aabb@, 2) && n.pos.x < 16 && n.pos.z < 16
        } by {
            lemma_layer_items(items, h, i);
            assert(node_models(l.nodes@)[i] == (l.nodes@[i].aabb, l.nodes@[i].pos));
        }
    }
}

proof fn lemma_layer_has_item(region: &SubChunk, pre: NavMeshLayer, post: NavMeshLayer, items: Seq<LayerItem>)
    requires
        clipped_layer(region, pre, post),
        node_models(pre.nodes@) == items_at(items, pre.height as int),
        pre.nodes.len() > 0,
    ensures
        exists|k: int| #![trigger items[k]] 0 <= k < items.len() && items[k].height == post.height,
{
    assert(node_models(pre.nodes@).len() == pre.nodes.len());
    lemma_layer_items(items, pre.height as int, 0);
}

proof fn lemma_layer_pieces(region: &SubChunk, pre: NavMeshLayer, post: NavMeshLayer, items: Seq<LayerItem>)
    requires
        clipped_layer(region, pre, post),
        node_models(pre.nodes@) == items_at(items, pre.height as int),
    ensures
        forall|m: int|
            #[trigger] is_index(post.nodes@.len(), m) ==> exists|k: int|
                0 <= k < items.len() && items[k].height == post.height && #[trigger] piece_of(
                    region,
                    post.height as int,
                    (items[k].aabb, items[k].pos),
                    node_models(post.nodes@)[m],
                ),
{
    let h = pre.height as int;
    let before = node_models(pre.nodes@);
    let after = node_models(post.nodes@);
    let sources = choose|sources: Seq<int>|
        pieces_from(region, h, before, after, sources, before.len() as int) && apart_per_source(
            after,
            sources,
        ) && kept_clear(region, h, before, after, sources, before.len() as int);
    assert forall|m: int|
        #[trigger] is_index(post.nodes@.len(), m) implies exists|k: int|
            0 <= k < items.len() && items[k].height == post.height && #[trigger] piece_of(
                region,
                post.height as int,
                (items[k].aabb, items[k].pos),
                node_models(post.nodes@)[m],
            ) by {
        assert(after.len() == post.nodes.len());
        let i = sources[m];
        assert(piece_of(region, h, before[i], after[m]));
        lemma_layer_items(items, h, i);
        let k = choose|k: int|
            0 <= k < items.len() && #[trigger] items[k].height == h && items_at(items, h)[i] == (
                items[k].aabb,
                items[k].pos,
            );
        assert(piece_of(region, post.height as int, (items[k].aabb, items[k].pos), node_models(post.nodes@)[m]));
    }
}

proof fn lemma_layer_coverage(
    region: &SubChunk,
    pre: NavMeshLayer,
    post: NavMeshLayer,
    items: Seq<LayerItem>,
    k: int,
)
    requires
        clipped_layer(region, pre, post),
        node_models(pre.nodes@) == items_at(items, pre.height as int),
        0 <= k < items.len(),
        items[k].height == pre.height,
    ensures
        forall|q: Seq<int>|
            #[trigger] open_point(region, items[k].height, (items[k].aabb, items[k].pos), q)
                ==> exists|m: int|
                0 <= m < post.nodes.len() && #[trigger] holds_point(
                    (items[k].aabb, items[k].pos),
                    node_models(post.nodes@)[m],
                    q,
                ),
{
    let h = pre.height as int;
    let before = node_models(pre.nodes@);
    lemma_item_in_layer(items, k);
    let i = choose|i: int|
        0 <= i < items_at(items, items[k].height).len() && #[trigger] items_at(items, items[k].height)[i] == (
            items[k].aabb,
            items[k].pos,
        );
    assert(before[i] == (items[k].aabb, items[k].pos));
    assert(before.len() == pre.nodes.len());
    assert(node_models(post.nodes@).len() == post.nodes.len());
    assert forall|q: Seq<int>|
        #[trigger] open_point(region, items[k].height, (items[k].aabb, items[k].pos), q)
            implies exists|m: int|
            0 <= m < post.nodes.len() && #[trigger] holds_point(
                (items[k].aabb, items[k].pos),
                node_models(post.nodes@)[m],
                q,
            ) by {
        assert(open_point(region, h, before[i], q));
    }
}

proof fn lemma_floor_heights(
    region: &SubChunk,
    pre: Seq<NavMeshLayer>,
    post: Seq<NavMeshLayer>,
    items: Seq<LayerItem>,
)
    requires
        grouped(pre, items),
        pre.len() == post.len(),
        forall|j: int| 0 <= j < pre.len() ==> clipped_layer(region, #[trigger] pre[j], post[j]),
    ensures
        ascending(post),
        forall|j: int| 0 <= j < post.len() ==> (#[trigger] post[j]).wf(),
        forall|j: int|
            #[trigger] is_index(post.len(), j) ==> exists|k: int|
                #![trigger items[k]]
                0 <= k < items.len() && items[k].height == post[j].height,
        forall|k: int|
            #[trigger] is_index(items.len(), k) ==> exists|j: int|
                #![trigger post[j]]
                0 <= j < post.len() && post[j].height == items[k].height,
{
    assert forall|j: int|
        #[trigger] is_index(post.len(), j) implies exists|k: int|
            #![trigger items[k]]
            0 <= k < items.len() && items[k].height == post[j].height by {
        lemma_layer_has_item(region, pre[j], post[j], items);
    }
    assert forall|k: int|
        #[trigger] is_index(items.len(), k) implies exists|j: int|
            #![trigger post[j]]
            0 <= j < post.len() && post[j].height == items[k].height by {
        let j = choose|j: int| 0 <= j < pre.len() && (#[trigger] pre[j]).height == items[k].height;
        assert(clipped_layer(region, pre[j], post[j]));
    }
    assert forall|i: int, j: int| 0 <= i < j < post.len() implies post[i].height < post[j].height by {
        assert(clipped_layer(region, pre[i], post[i]));
        assert(clipped_layer(region, pre[j], post[j]));
    }
    assert forall|j: int| 0 <= j < post.len() implies (#[trigger] post[j]).wf() by {
        assert(clipped_layer(region, pre[j], post[j]));
    }
}

proof fn lemma_floor_pieces(
    region: &SubChunk,
    pre: Seq<NavMeshLayer>,
    post: Seq<NavMeshLayer>,
    items: Seq<LayerItem>,
)
    requires
        grouped(pre, items),
        pre.len() == post.len(),
        forall|j: int| 0 <= j < pre.len() ==> clipped_layer(region, #[trigger] pre[j], post[j]),
    ensures
        forall|j: int, m: int|
            #[trigger] is_index(post.len(), j) && #[trigger] is_index(post[j].nodes@.len(), m) ==> exists|k: int|
                0 <= k < items.len() && items[k].height == post[j].height && #[trigger] piece_of(
                    region,
                    post[j].height as int,
                    (items[k].aabb, items[k].pos),
                    node_models(post[j].nodes@)[m],
                ),
{
    assert forall|j: int, m: int|
        #[trigger] is_index(post.len(), j) && #[trigger] is_index(post[j].nodes@.len(), m) implies exists|k: int|
            0 <= k < items.len() && items[k].height == post[j].height && #[trigger] piece_of(
                region,
                post[j].height as int,
                (items[k].aabb, items[k].pos),
                node_models(post[j].nodes@)[m],
            ) by {
        lemma_layer_pieces(region, pre[j], post[j], items);
    }
}

proof fn lemma_floor_coverage(
    region: &SubChunk,
    pre: Seq<NavMeshLayer>,
    post: Seq<NavMeshLayer>,
    items: Seq<LayerItem>,
)
    requires
        grouped(pre, items),
        pre.len() == post.len(),
        forall|j: int| 0 <= j < pre.len() ==> clipped_layer(region, #[trigger] pre[j], post[j]),
    ensures
        forall|k: int, q: Seq<int>|
            0 <= k < items.len() && #[trigger] open_point(
                region,
                items[k].height,
                (items[k].aabb, items[k].pos),
                q,
            ) ==> exists|j: int, m: int|
                0 <= j < post.len() && post[j].height == items[k].height && 0 <= m
                    < post[j].nodes.len() && #[trigger] holds_point(
                    (items[k].aabb, items[k].pos),
                    #[trigger] node_models(post[j].nodes@)[m],
                    q,
                ),
{
    assert forall|k: int, q: Seq<int>|
        0 <= k < items.len() && #[trigger] open_point(
            region,
            items[k].height,
            (items[k].aabb, items[k].pos),
            q,
        ) implies exists|j: int, m: int|
            0 <= j < post.len() && post[j].height == items[k].height && 0 <= m
                < post[j].nodes.len() && #[trigger] holds_point(
                (items[k].aabb, items[k].pos),
                #[trigger] node_models(post[j].nodes@)[m],
                q,
            ) by {
        let j = choose|j: int| 0 <= j < pre.len() && (#[trigger] pre[j]).height == items[k].height;
        assert(clipped_layer(region, pre[j], post[j]));
        lemma_layer_coverage(region, pre[j], post[j], items, k);
        let m = choose|m: int|
            0 <= m < post[j].nodes.len() && #[trigger] holds_point(
                (items[k].aabb, items[k].pos),
                node_models(post[j].nodes@)[m],
                q,
            );
        assert(holds_point((items[k].aabb, items[k].pos), node_models(post[j].nodes@)[m], q));
    }
}

proof fn lemma_floor_built(
    region: &SubChunk,
    pre: Seq<NavMeshLayer>,
    post: Seq<NavMeshLayer>,
    items: Seq<LayerItem>,
)
    requires
        grouped(pre, items),
        pre.len() == post.len(),
        forall|j: int| 0 <= j < pre.len() ==> clipped_layer(region, #[trigger] pre[j], post[j]),
    ensures
        floor_built(region, post, items),
{
    lemma_floor_heights(region, pre, post, items);
    lemma_floor_pieces(region, pre, post, items);
    lemma_floor_coverage(region, pre, post, items);
    assert forall|j: int|
        #[trigger] is_index(post.len(), j) implies clipped_models(
            region,
            post[j].height as int,
            items_at(items, post[j].height as int),
            node_models(post[j].nodes@),
        ) by {
        assert(clipped_layer(region, pre[j], post[j]));
        assert(pre[j].wf());
    }
}

impl SubChunk {
    /// Clips every floor layer (see `clip_layer`).
    fn cut_floor(&self, floor: &mut Vec<NavMeshLayer>)
        requires
            self.wf(),
            forall|j: int| 0 <= j < old(floor).len() ==> clippable(#[trigger] old(floor)@[j]),
        ensures
            final(floor).len() == old(floor).len(),
            forall|j: int| 0 <= j < old(floor).len() ==> clipped_layer(self, #[trigger] old(floor)@[j], final(floor)@[j]),
    {
        let ghost pre = floor@;
        let mut i: usize = 0;
        while i < floor.len()
            invariant
                self.wf(),
                floor.len() == pre.len(),
                i <= floor.len(),
                forall|j: int| 0 <= j < pre.len() ==> clippable(#[trigger] pre[j]),
                forall|j: int| 0 <= j < i ==> clipped_layer(self, #[trigger] pre[j], floor@[j]),
                forall|j: int| i <= j < pre.len() ==> #[trigger] floor@[j] == pre[j],
            decreases pre.len() - i,
        {
            let layer = self.clip_layer(&floor[i]);
            floor[i] = layer;
            i = i + 1;
        }
    }

    /// Builds the region's floor and ceiling layers.
    ///
    /// Every box whose cell may be stood on gives a floor surface at its top,
    /// every box a ceiling surface at its bottom: its footprint, grown by the
    /// clearance radius, in the layer of its height. Floor layers are then
    /// clipped: each surface loses what obstacles rising into the agent's
    /// headroom above it cover (see `clip_layer`). Ceiling layers are not
    /// clipped.
    pub fn build_nav_mesh(&self) -> (r: SubChunkNavMesh)
        requires
            self.wf(),
        ensures
            r.location == self.location,
            grouped(r.ceiling@, items_of(NavMeshLayerType::Ceiling, self.aabbs@)),
            floor_built(
                self,
                r.floor@,
                items_of(NavMeshLayerType::Floor, self.aabbs@.filter(self.floor_pred())),
            ),
    {
        let mut ceiling: Vec<NavMeshLayer> = Vec::new();
        let mut floor: Vec<NavMeshLayer> = Vec::new();
        let floor_entries = self.iter_floor();
        let ghost floor_items = items_of(NavMeshLayerType::Floor, floor_entries@);
        proof {
            assert forall|k: int| 0 <= k < floor_entries.len() implies entry_ok(#[trigger] floor_entries@[k]) by {
                self.aabbs@.lemma_filter_pred(self.floor_pred(), k);
                assert(floor_entries@.contains(floor_entries@[k]));
                self.aabbs@.lemma_filter_contains_rev(self.floor_pred(), floor_entries@[k]);
            }
            assert(grouped(floor@, items_of(NavMeshLayerType::Floor, floor_entries@.take(0)))) by {
                assert(items_of(NavMeshLayerType::Floor, floor_entries@.take(0)) =~= Seq::<LayerItem>::empty());
            }
        }
        let mut i: usize = 0;
        while i < floor_entries.len()
            invariant
                i <= floor_entries.len(),
                forall|k: int| 0 <= k < floor_entries.len() ==> entry_ok(#[trigger] floor_entries@[k]),
                grouped(floor@, items_of(NavMeshLayerType::Floor, floor_entries@.take(i as int))),
            decreases floor_entries.len() - i,
        {
            let (pos, aabb) = floor_entries[i];
            Self::insert_aabb_into_layers(
                &mut floor,
                &aabb,
                pos,
                NavMeshLayerType::Floor,
                Ghost(items_of(NavMeshLayerType::Floor, floor_entries@.take(i as int))),
            );
            proof {
                assert(items_of(NavMeshLayerType::Floor, floor_entries@.take(i + 1)) =~= items_of(
                    NavMeshLayerType::Floor,
                    floor_entries@.take(i as int),
                ).push(item_of(NavMeshLayerType::Floor, pos, aabb)));
            }
            i = i + 1;
        }
        proof {
            assert(floor_entries@.take(floor_entries.len() as int) =~= floor_entries@);
        }
        let ceiling_entries = self.iter_ceiling();
        proof {
            assert(grouped(ceiling@, items_of(NavMeshLayerType::Ceiling, ceiling_entries@.take(0)))) by {
                assert(items_of(NavMeshLayerType::Ceiling, ceiling_entries@.take(0)) =~= Seq::<LayerItem>::empty());
            }
        }
        let mut i: usize = 0;
        while i < ceiling_entries.len()
            invariant
                self.wf(),
                ceiling_entries@ == self.aabbs@,
                i <= ceiling_entries.len(),
                grouped(ceiling@, items_of(NavMeshLayerType::Ceiling, ceiling_entries@.take(i as int))),
            decreases ceiling_entries.len() - i,
        {
            let (pos, aabb) = ceiling_entries[i];
            proof {
                assert(self.aabbs@[i as int] == (pos, aabb));
            }
            Self::insert_aabb_into_layers(
                &mut ceiling,
                &aabb,
                pos,
                NavMeshLayerType::Ceiling,
                Ghost(items_of(NavMeshLayerType::Ceiling, ceiling_entries@.take(i as int))),
            );
            proof {
                assert(items_of(NavMeshLayerType::Ceiling, ceiling_entries@.take(i + 1)) =~= items_of(
                    NavMeshLayerType::Ceiling,
                    ceiling_entries@.take(i as int),
                ).push(item_of(NavMeshLayerType::Ceiling, pos, aabb)));
            }
            i = i + 1;
        }
        proof {
            assert(ceiling_entries@.take(ceiling_entries.len() as int) =~= ceiling_entries@);
            assert forall|k: int| 0 <= k < floor_items.len() implies item_ok(#[trigger] floor_items[k]) by {
                let e = floor_entries@[k];
                assert(entry_ok(e));
                let f = footprint(e.0, e.1);
                crate::aabb::aabb_2d::lemma_relations(f, f);
                assert forall|a: int| 0 <= a < 2 implies f@.lo[a] < f@.hi[a] by {
                    if a == 0 {
                    } else {
                    }
                }
            }
            lemma_grouped_clippable(floor@, floor_items);
        }
        let ghost pre = floor@;
        self.cut_floor(&mut floor);
        proof {
            lemma_floor_built(self, pre, floor@, floor_items);
        }
        SubChunkNavMesh { location: self.location, floor, ceiling }
    }
}

} // verus!
