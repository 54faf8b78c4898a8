//! Furniture stamps for rooms: small floor patterns stamped into the grid.

use vstd::prelude::*;

use crate::domain::entities::voxel_grid::{
    GridModel, VoxelGrid, VOXEL_AIR, VOXEL_FLOOR, VOXEL_WALL,
};
use crate::use_cases::chunk::metrics::MAX_SPAN;
use crate::use_cases::chunk::paint::fill_column;

verus! {

/// Longest side of a stamp.
pub const MAX_STAMP: usize = 24;

/// The voxel bounds of a room, both ends included.
#[derive(Debug, Clone, Copy, PartialEq, Eq, Structural)]
pub struct Room {
    pub x0: usize,
    pub x1: usize,
    pub z0: usize,
    pub z1: usize,
}

/// The ends of the room are in order and in range.
pub open spec fn room_ok(r: Room) -> bool {
    r.x0 <= r.x1 <= MAX_SPAN && r.z0 <= r.z1 <= MAX_SPAN
}

/// Flyweight room stamp: one pattern value per floor voxel.
///
/// Values: 1 a low wall, 2 a full-height wall, 3 a bench, 4 a raised floor,
/// 5 and 6 steps, 0 nothing.
#[derive(Debug, Clone)]
pub struct RoomStamp {
    pub width: usize,
    pub depth: usize,
    pub data: Vec<u8>,
}

proof fn lemma_stamp_index(width: int, depth: int, x: int, z: int)
    requires
        0 <= x < width,
        0 <= z < depth,
    ensures
        0 <= z * width,
        z * width + x < width * depth,
{
    assert(z * width + x < width * depth && 0 <= z * width) by (nonlinear_arith)
        requires
            0 <= x < width,
            0 <= z < depth,
    ;
}

proof fn lemma_stamp_injective(width: int, x: int, z: int, x2: int, z2: int)
    requires
        0 <= x < width,
        0 <= x2 < width,
        z * width + x == z2 * width + x2,
    ensures
        x == x2,
        z == z2,
{
    assert(z == z2) by (nonlinear_arith)
        requires
            0 <= x < width,
            0 <= x2 < width,
            z * width + x == z2 * width + x2,
    ;
}

/// The mathematical content of a stamp: its sides and a value per voxel, none
/// outside.
#[verifier::ext_equal]
pub struct StampModel {
    pub width: int,
    pub depth: int,
    pub value: spec_fn(int, int) -> u8,
}

impl StampModel {
    pub open spec fn at(self, x: int, z: int) -> u8 {
        (self.value)(x, z)
    }

    pub open spec fn holds(self, x: int, z: int) -> bool {
        0 <= x < self.width && 0 <= z < self.depth
    }
}

/// The stamp with these sides and this pattern.
pub open spec fn pattern(width: int, depth: int, f: spec_fn(int, int) -> u8) -> StampModel {
    StampModel {
        width,
        depth,
        value: |x: int, z: int|
            if 0 <= x < width && 0 <= z < depth {
                f(x, z)
            } else {
                0
            },
    }
}

/// Two voxels of every six or four, as cafeteria tables stand.
pub open spec fn table_line(v: int) -> bool {
    v == 4 || v == 5 || v == 10 || v == 11 || v == 16 || v == 17 || v == 20 || v == 21
}

/// Two crossing partitions in opposite corners.
pub open spec fn cubicles_pattern() -> StampModel {
    pattern(
        20,
        20,
        |x: int, z: int|
            if (x == 5 && 2 <= z < 8) || (z == 5 && 2 <= x < 8) || (x == 15 && 12 <= z < 18)
                || (z == 15 && 12 <= x < 18) {
                1u8
            } else {
                0u8
            },
    )
}

/// Four full-height display blocks.
pub open spec fn showroom_pattern() -> StampModel {
    pattern(
        16,
        16,
        |x: int, z: int|
            if (2 <= x < 6 || 10 <= x < 14) && (2 <= z < 6 || 10 <= z < 14) {
                2u8
            } else {
                0u8
            },
    )
}

/// Two rows of benches.
pub open spec fn waiting_pattern() -> StampModel {
    pattern(
        20,
        20,
        |x: int, z: int|
            if 4 <= x < 16 && (z == 6 || z == 14) {
                3u8
            } else {
                0u8
            },
    )
}

/// Two long shelves.
pub open spec fn storage_pattern() -> StampModel {
    pattern(
        12,
        16,
        |x: int, z: int|
            if (x == 2 || x == 9) && 2 <= z < 14 {
                1u8
            } else {
                0u8
            },
    )
}

/// A square of benches.
pub open spec fn lounge_pattern() -> StampModel {
    pattern(
        18,
        18,
        |x: int, z: int|
            if 6 <= x < 12 && 6 <= z < 12 && (z == 6 || z == 11 || x == 6 || x == 11) {
                3u8
            } else {
                0u8
            },
    )
}

/// Three rows of racks with gaps.
pub open spec fn server_room_pattern() -> StampModel {
    pattern(
        14,
        20,
        |x: int, z: int|
            if (x == 3 || x == 7 || x == 10) && 2 <= z < 18 && z % 4 != 0 {
                2u8
            } else {
                0u8
            },
    )
}

/// Sixteen tables.
pub open spec fn cafeteria_pattern() -> StampModel {
    pattern(
        24,
        24,
        |x: int, z: int|
            if table_line(x) && table_line(z) {
                1u8
            } else {
                0u8
            },
    )
}

/// Four posts round a bench.
pub open spec fn maintenance_pattern() -> StampModel {
    pattern(
        10,
        10,
        |x: int, z: int|
            if (x == 2 || x == 7) && (z == 2 || z == 7) {
                2u8
            } else if 4 <= x < 6 && 4 <= z < 6 {
                3u8
            } else {
                0u8
            },
    )
}

/// Two steps up to a raised floor.
pub open spec fn stairway_pattern() -> StampModel {
    pattern(
        16,
        16,
        |x: int, z: int|
            if x > 9 {
                4u8
            } else if x == 9 {
                5u8
            } else if x == 8 {
                6u8
            } else {
                0u8
            },
    )
}

impl View for RoomStamp {
    type V = StampModel;

    open spec fn view(&self) -> StampModel {
        pattern(self.width as int, self.depth as int, |x: int, z: int| self.at(x, z))
    }
}

impl RoomStamp {
    pub open spec fn wf(&self) -> bool {
        &&& 0 < self.width <= MAX_STAMP
        &&& 0 < self.depth <= MAX_STAMP
        &&& self.data@.len() == self.width * self.depth
    }

    pub open spec fn at(&self, x: int, z: int) -> u8 {
        self.data@[z * self.width + x]
    }

    pub open spec fn holds(&self, x: int, z: int) -> bool {
        0 <= x < self.width && 0 <= z < self.depth
    }

    fn blank(width: usize, depth: usize) -> (stamp: Self)
        requires
            0 < width <= MAX_STAMP,
            0 < depth <= MAX_STAMP,
        ensures
            stamp.wf(),
            stamp.width == width,
            stamp.depth == depth,
            forall|x: int, z: int| stamp.holds(x, z) ==> #[trigger] stamp.at(x, z) == 0,
    {
        assert(width * depth <= 24 * 24) by (nonlinear_arith)
            requires
                0 < width <= 24,
                0 < depth <= 24,
        ;
        let stamp = RoomStamp { width, depth, data: vec![0; width * depth] };
        proof {
            assert forall|x: int, z: int| stamp.holds(x, z) implies #[trigger] stamp.at(x, z) == 0 by {
                lemma_stamp_index(width as int, depth as int, x, z);
            }
        }
        stamp
    }

    fn value(&self, x: usize, z: usize) -> (v: u8)
        requires
            self.wf(),
            self.holds(x as int, z as int),
        ensures
            v == self.at(x as int, z as int),
            v == self@.at(x as int, z as int),
    {
        proof {
            lemma_stamp_index(self.width as int, self.depth as int, x as int, z as int);
            assert(self.data.len() == self.width * self.depth);
        }
        self.data[z * self.width + x]
    }

    fn put(&mut self, x: usize, z: usize, v: u8)
        requires
            old(self).wf(),
            old(self).holds(x as int, z as int),
        ensures
            final(self).wf(),
            final(self).width == old(self).width,
            final(self).depth == old(self).depth,
            forall|i: int, k: int|
                old(self).holds(i, k) ==> #[trigger] final(self).at(i, k) == if i == x && k == z {
                    v
                } else {
                    old(self).at(i, k)
                },
    {
        let ghost before = *self;
        proof {
            lemma_stamp_index(self.width as int, self.depth as int, x as int, z as int);
            assert(self.data.len() == self.width * self.depth);
        }
        let at: usize = z * self.width + x;
        self.data[at] = v;
        proof {
            assert forall|i: int, k: int| before.holds(i, k) implies #[trigger] self.at(i, k) == if i
                == x && k == z {
                v
            } else {
                before.at(i, k)
            } by {
                lemma_stamp_index(self.width as int, self.depth as int, i, k);
                if k * self.width + i == at {
                    lemma_stamp_injective(self.width as int, i, k, x as int, z as int);
                }
            }
        }
    }

    /// Writes a value over a rectangle; lower ends included, upper ends not.
    fn mark(&mut self, x0: usize, x1: usize, z0: usize, z1: usize, v: u8)
        requires
            old(self).wf(),
            x0 <= x1 <= old(self).width,
            z0 <= z1 <= old(self).depth,
        ensures
            final(self).wf(),
            final(self).width == old(self).width,
            final(self).depth == old(self).depth,
            forall|i: int, k: int|
                old(self).holds(i, k) ==> #[trigger] final(self).at(i, k) == if x0 <= i < x1 && z0
                    <= k < z1 {
                    v
                } else {
                    old(self).at(i, k)
                },
    {
        let ghost start = *self;
        let mut z: usize = z0;
        while z < z1
            invariant
                z0 <= z <= z1,
                self.wf(),
                self.width == start.width,
                self.depth == start.depth,
                x0 <= x1 <= self.width,
                z1 <= self.depth,
                forall|i: int, k: int|
                    start.holds(i, k) ==> #[trigger] self.at(i, k) == if x0 <= i < x1 && z0 <= k
                        < z {
                        v
                    } else {
                        start.at(i, k)
                    },
            decreases z1 - z,
        {
            let mut x: usize = x0;
            while x < x1
                invariant
                    z0 <= z < z1,
                    x0 <= x <= x1,
                    self.wf(),
                    self.width == start.width,
                    self.depth == start.depth,
                    x1 <= self.width,
                    z1 <= self.depth,
                    forall|i: int, k: int|
                        start.holds(i, k) ==> #[trigger] self.at(i, k) == if (x0 <= i < x1 && z0
                            <= k < z) || (k == z && x0 <= i < x) {
                            v
                        } else {
                            start.at(i, k)
                        },
                decreases x1 - x,
            {
                self.put(x, z, v);
                x = x + 1;
            }
            z = z + 1;
        }
    }

    pub fn cubicles() -> (stamp: Self)
        ensures
            stamp.wf(),
            stamp@ == cubicles_pattern(),
    {
        let mut stamp = RoomStamp::blank(20, 20);
        stamp.mark(5, 6, 2, 8, 1);
        stamp.mark(2, 8, 5, 6, 1);
        stamp.mark(15, 16, 12, 18, 1);
        stamp.mark(12, 18, 15, 16, 1);
        assert(stamp@.value =~= cubicles_pattern().value);
        stamp
    }

    pub fn showroom() -> (stamp: Self)
        ensures
            stamp.wf(),
            stamp@ == showroom_pattern(),
    {
        let mut stamp = RoomStamp::blank(16, 16);
        stamp.mark(2, 6, 2, 6, 2);
        stamp.mark(10, 14, 2, 6, 2);
        stamp.mark(2, 6, 10, 14, 2);
        stamp.mark(10, 14, 10, 14, 2);
        assert(stamp@.value =~= showroom_pattern().value);
        stamp
    }

    pub fn waiting() -> (stamp: Self)
        ensures
            stamp.wf(),
            stamp@ == waiting_pattern(),
    {
        let mut stamp = RoomStamp::blank(20, 20);
        stamp.mark(4, 16, 6, 7, 3);
        stamp.mark(4, 16, 14, 15, 3);
        assert(stamp@.value =~= waiting_pattern().value);
        stamp
    }

    pub fn storage() -> (stamp: Self)
        ensures
            stamp.wf(),
            stamp@ == storage_pattern(),
    {
        let mut stamp = RoomStamp::blank(12, 16);
        stamp.mark(2, 3, 2, 14, 1);
        stamp.mark(9, 10, 2, 14, 1);
        assert(stamp@.value =~= storage_pattern().value);
        stamp
    }

    pub fn lounge() -> (stamp: Self)
        ensures
            stamp.wf(),
            stamp@ == lounge_pattern(),
    {
        let mut stamp = RoomStamp::blank(18, 18);
        stamp.mark(6, 12, 6, 12, 3);
        stamp.mark(7, 11, 7, 11, 0);
        assert(stamp@.value =~= lounge_pattern().value);
        stamp
    }

    pub fn server_room() -> (stamp: Self)
        ensures
            stamp.wf(),
            stamp@ == server_room_pattern(),
    {
        let mut stamp = RoomStamp::blank(14, 20);
        stamp.mark(3, 4, 2, 18, 2);
        stamp.mark(7, 8, 2, 18, 2);
        stamp.mark(10, 11, 2, 18, 2);
        stamp.mark(0, 14, 4, 5, 0);
        stamp.mark(0, 14, 8, 9, 0);
        stamp.mark(0, 14, 12, 13, 0);
        stamp.mark(0, 14, 16, 17, 0);
        assert(stamp@.value =~= server_room_pattern().value);
        stamp
    }

    pub fn cafeteria() -> (stamp: Self)
        ensures
            stamp.wf(),
            stamp@ == cafeteria_pattern(),
    {
        let mut stamp = RoomStamp::blank(24, 24);
        stamp.mark_tables(4);
        stamp.mark_tables(10);
        stamp.mark_tables(16);
        stamp.mark_tables(20);
        assert(stamp@.value =~= cafeteria_pattern().value);
        stamp
    }

    /// One row of tables, two voxels deep.
    fn mark_tables(&mut self, z: usize)
        requires
            old(self).wf(),
            old(self).width == 24,
            z + 2 <= old(self).depth,
        ensures
            final(self).wf(),
            final(self).width == old(self).width,
            final(self).depth == old(self).depth,
            forall|i: int, k: int|
                old(self).holds(i, k) ==> #[trigger] final(self).at(i, k) == if table_line(i) && z
                    <= k < z + 2 {
                    1u8
                } else {
                    old(self).at(i, k)
                },
    {
        self.mark(4, 6, z, z + 2, 1);
        self.mark(10, 12, z, z + 2, 1);
        self.mark(16, 18, z, z + 2, 1);
        self.mark(20, 22, z, z + 2, 1);
    }

    pub fn maintenance() -> (stamp: Self)
        ensures
            stamp.wf(),
            stamp@ == maintenance_pattern(),
    {
        let mut stamp = RoomStamp::blank(10, 10);
        stamp.put(2, 2, 2);
        stamp.put(7, 2, 2);
        stamp.put(2, 7, 2);
        stamp.put(7, 7, 2);
        stamp.mark(4, 6, 4, 6, 3);
        assert(stamp@.value =~= maintenance_pattern().value);
        stamp
    }

    pub fn stairway() -> (stamp: Self)
        ensures
            stamp.wf(),
            stamp@ == stairway_pattern(),
    {
        let mut stamp = RoomStamp::blank(16, 16);
        stamp.mark(10, 16, 0, 16, 4);
        stamp.mark(9, 10, 0, 16, 5);
        stamp.mark(8, 9, 0, 16, 6);
        assert(stamp@.value =~= stairway_pattern().value);
        stamp
    }
}

/// The stamp fits in the room at this start, and every voxel it would occupy is
/// free at standing height.
pub open spec fn placement_valid(
    g: GridModel,
    room: Room,
    stamp: StampModel,
    sx: int,
    sz: int,
) -> bool {
    &&& room.x0 <= sx && sx + stamp.width <= room.x1
    &&& room.z0 <= sz && sz + stamp.depth <= room.z1
    &&& forall|x: int, z: int|
        stamp.holds(x, z) && #[trigger] stamp.at(x, z) > 0 ==> free_at(g, sx + x, sz + z)
}

pub open spec fn free_at(g: GridModel, x: int, z: int) -> bool {
    g.material(x, 1, z) == VOXEL_AIR || g.material(x, 1, z) == VOXEL_FLOOR
}

/// What a stamp value puts at row `y`, with `max_y` the highest free row.
pub open spec fn stamp_material(value: u8, y: int, max_y: int) -> Option<u8> {
    if value == 1 && 1 <= y <= 3 {
        Some(VOXEL_WALL)
    } else if value == 2 && 1 <= y <= max_y {
        Some(VOXEL_WALL)
    } else if value == 3 && y == 1 {
        Some(VOXEL_WALL)
    } else if value == 4 && 1 <= y <= 2 {
        Some(VOXEL_FLOOR)
    } else if value == 5 && y == 1 {
        Some(VOXEL_FLOOR)
    } else {
        None
    }
}

pub open spec fn stamp_brush(stamp: StampModel, sx: int, sz: int, max_y: int) -> spec_fn(
    int,
    int,
    int,
) -> Option<u8> {
    |i: int, j: int, k: int|
        if stamp.holds(i - sx, k - sz) {
            stamp_material(stamp.at(i - sx, k - sz), j, max_y)
        } else {
            None
        }
}

/// Whether the stamp may stand at this start in the room.
pub fn validate_stamp_placement(
    grid: &VoxelGrid,
    room: &Room,
    stamp: &RoomStamp,
    start_x: usize,
    start_z: usize,
) -> (valid: bool)
    requires
        grid.wf(),
        stamp.wf(),
        start_x + stamp.width <= usize::MAX,
        start_z + stamp.depth <= usize::MAX,
    ensures
        valid == placement_valid(grid@, *room, stamp@, start_x as int, start_z as int),
{
    if start_x < room.x0 || start_x + stamp.width > room.x1 || start_z < room.z0 || start_z
        + stamp.depth > room.z1 {
        return false;
    }
    let ghost (sx, sz) = (start_x as int, start_z as int);
    let mut lz: usize = 0;
    while lz < stamp.depth
        invariant
            lz <= stamp.depth,
            grid.wf(),
            stamp.wf(),
            sx == start_x,
            sz == start_z,
            start_x + stamp.width <= usize::MAX,
            start_z + stamp.depth <= usize::MAX,
            forall|x: int, z: int|
                stamp@.holds(x, z) && z < lz && #[trigger] stamp@.at(x, z) > 0 ==> free_at(
                    grid@,
                    sx + x,
                    sz + z,
                ),
        decreases stamp.depth - lz,
    {
        let mut lx: usize = 0;
        while lx < stamp.width
            invariant
                lx <= stamp.width,
                lz < stamp.depth,
                grid.wf(),
                stamp.wf(),
                sx == start_x,
                sz == start_z,
                start_x + stamp.width <= usize::MAX,
                start_z + stamp.depth <= usize::MAX,
                forall|x: int, z: int|
                    stamp@.holds(x, z) && (z < lz || (z == lz && x < lx)) && #[trigger] stamp@.at(x, z)
                        > 0 ==> free_at(grid@, sx + x, sz + z),
            decreases stamp.width - lx,
        {
            if stamp.value(lx, lz) > 0 {
                let v: u8 = grid.get(start_x + lx, 1, start_z + lz);
                if v != VOXEL_AIR && v != VOXEL_FLOOR {
                    assert(stamp@.at(lx as int, lz as int) > 0 && !free_at(grid@, sx + lx, sz + lz));
                    return false;
                }
            }
            lx = lx + 1;
        }
        lz = lz + 1;
    }
    true
}

fn place_value(grid: &mut VoxelGrid, x: usize, z: usize, value: u8, max_y: usize)
    requires
        old(grid).wf(),
        max_y < usize::MAX,
    ensures
        final(grid).wf(),
        final(grid)@ == old(grid)@.painted(
            |i: int, j: int, k: int|
                if i == x && k == z {
                    stamp_material(value, j, max_y as int)
                } else {
                    None
                },
        ),
{
    let ghost start = grid@;
    if value == 1 {
        fill_column(grid, x, z, 1, 4, VOXEL_WALL);
    } else if value == 2 {
        fill_column(grid, x, z, 1, max_y + 1, VOXEL_WALL);
    } else if value == 3 {
        fill_column(grid, x, z, 1, 2, VOXEL_WALL);
    } else if value == 4 {
        fill_column(grid, x, z, 1, 3, VOXEL_FLOOR);
    } else if value == 5 {
        fill_column(grid, x, z, 1, 2, VOXEL_FLOOR);
    }
    assert(grid@.cells =~= start.painted(
        |i: int, j: int, k: int|
            if i == x && k == z {
                stamp_material(value, j, max_y as int)
            } else {
                None
            },
    ).cells);
}

/// The part of a stamp before local column `x`, `z`, rows first.
spec fn stamp_before(stamp: StampModel, sx: int, sz: int, max_y: int, x: int, z: int) -> spec_fn(
    int,
    int,
    int,
) -> Option<u8> {
    |i: int, j: int, k: int|
        if k - sz < z || (k - sz == z && i - sx < x) {
            stamp_brush(stamp, sx, sz, max_y)(i, j, k)
        } else {
            None
        }
}

/// Stamps the pattern into the grid.
pub fn place_stamp(grid: &mut VoxelGrid, stamp: &RoomStamp, start_x: usize, start_z: usize)
    requires
        old(grid).wf(),
        old(grid)@.height >= 2,
        stamp.wf(),
        start_x + stamp.width <= usize::MAX,
        start_z + stamp.depth <= usize::MAX,
    ensures
        final(grid).wf(),
        final(grid)@ == old(grid)@.painted(
            stamp_brush(stamp@, start_x as int, start_z as int, old(grid)@.height - 2),
        ),
{
    let ghost start = grid@;
    let ghost (sx, sz) = (start_x as int, start_z as int);
    let max_y: usize = grid.height() - 2;
    let ghost my = max_y as int;
    let mut z: usize = 0;
    assert(grid@.cells =~= start.painted(stamp_before(stamp@, sx, sz, my, 0, 0)).cells);
    while z < stamp.depth
        invariant
            z <= stamp.depth,
            grid.wf(),
            stamp.wf(),
            sx == start_x,
            sz == start_z,
            my == max_y,
            max_y < usize::MAX,
            start_x + stamp.width <= usize::MAX,
            start_z + stamp.depth <= usize::MAX,
            grid@ == start.painted(stamp_before(stamp@, sx, sz, my, 0, z as int)),
        decreases stamp.depth - z,
    {
        let mut x: usize = 0;
        while x < stamp.width
            invariant
                x <= stamp.width,
                z < stamp.depth,
                grid.wf(),
                stamp.wf(),
                sx == start_x,
                sz == start_z,
                my == max_y,
                max_y < usize::MAX,
                start_x + stamp.width <= usize::MAX,
                start_z + stamp.depth <= usize::MAX,
                grid@ == start.painted(stamp_before(stamp@, sx, sz, my, x as int, z as int)),
            decreases stamp.width - x,
        {
            let value: u8 = stamp.value(x, z);
            place_value(grid, start_x + x, start_z + z, value, max_y);
            assert(grid@.cells =~= start.painted(
                stamp_before(stamp@, sx, sz, my, x + 1, z as int),
            ).cells);
            x = x + 1;
        }
        assert(grid@.cells =~= start.painted(stamp_before(stamp@, sx, sz, my, 0, z + 1)).cells);
        z = z + 1;
    }
    assert(grid@.cells =~= start.painted(stamp_brush(stamp@, sx, sz, my)).cells);
}

pub open spec fn gap(v: int) -> nat {
    if v > 0 {
        v as nat
    } else {
        0
    }
}

/// The room with the stamp tried along z from `sz` on, at one x.
pub open spec fn furnished_line(
    g: GridModel,
    room: Room,
    stamp: StampModel,
    spacing: int,
    sx: int,
    sz: int,
) -> GridModel
    decreases gap(room.z1 - sz),
{
    if 0 <= spacing && 0 < stamp.depth && sz + stamp.depth <= room.z1 - spacing {
        let next = if placement_valid(g, room, stamp, sx, sz) {
            g.painted(stamp_brush(stamp, sx, sz, g.height - 2))
        } else {
            g
        };
        furnished_line(next, room, stamp, spacing, sx, sz + stamp.depth + spacing)
    } else {
        g
    }
}

/// The room with the stamp tried on a lattice from `sx` on.
pub open spec fn furnished_from(
    g: GridModel,
    room: Room,
    stamp: StampModel,
    spacing: int,
    sx: int,
) -> GridModel
    decreases gap(room.x1 - sx),
{
    if 0 <= spacing && 0 < stamp.width && sx + stamp.width <= room.x1 - spacing {
        let next = furnished_line(g, room, stamp, spacing, sx, room.z0 + spacing);
        furnished_from(next, room, stamp, spacing, sx + stamp.width + spacing)
    } else {
        g
    }
}

/// A room filled with copies of one stamp, `spacing` voxels apart and away from
/// its walls, wherever they are free to stand.
pub open spec fn furnished(g: GridModel, room: Room, stamp: StampModel, spacing: int) -> GridModel {
    furnished_from(g, room, stamp, spacing, room.x0 + spacing)
}

fn fill_line(grid: &mut VoxelGrid, room: &Room, stamp: &RoomStamp, spacing: usize, start_x: usize)
    requires
        old(grid).wf(),
        old(grid)@.height >= 2,
        stamp.wf(),
        spacing <= MAX_SPAN,
        room.z0 <= MAX_SPAN,
        room.z1 <= MAX_SPAN,
        start_x <= 4 * MAX_SPAN,
    ensures
        final(grid).wf(),
        final(grid)@.same_extents(old(grid)@),
        final(grid)@ == furnished_line(
            old(grid)@,
            *room,
            stamp@,
            spacing as int,
            start_x as int,
            room.z0 + spacing,
        ),
{
    let ghost goal = furnished_line(
        grid@,
        *room,
        stamp@,
        spacing as int,
        start_x as int,
        room.z0 + spacing,
    );
    let mut start_z: usize = room.z0 + spacing;
    let ghost first = grid@;
    while room.z1 >= spacing && start_z + stamp.depth <= room.z1 - spacing
        invariant
            grid.wf(),
            grid@.same_extents(first),
            first.height >= 2,
            stamp.wf(),
            spacing <= MAX_SPAN,
            room.z1 <= MAX_SPAN,
            start_x <= 4 * MAX_SPAN,
            start_z <= 4 * MAX_SPAN,
            goal == furnished_line(
                grid@,
                *room,
                stamp@,
                spacing as int,
                start_x as int,
                start_z as int,
            ),
        decreases room.z1 - start_z,
    {
        if validate_stamp_placement(grid, room, stamp, start_x, start_z) {
            place_stamp(grid, stamp, start_x, start_z);
        }
        start_z = start_z + stamp.depth + spacing;
    }
}

/// Fills a room with copies of one stamp.
pub fn furnish(grid: &mut VoxelGrid, room: &Room, stamp: &RoomStamp, spacing: usize)
    requires
        old(grid).wf(),
        old(grid)@.height >= 2,
        stamp.wf(),
        spacing <= MAX_SPAN,
        room.x0 <= MAX_SPAN,
        room.x1 <= MAX_SPAN,
        room.z0 <= MAX_SPAN,
        room.z1 <= MAX_SPAN,
    ensures
        final(grid).wf(),
        final(grid)@.same_extents(old(grid)@),
        final(grid)@ == furnished(old(grid)@, *room, stamp@, spacing as int),
{
    let ghost goal = furnished(grid@, *room, stamp@, spacing as int);
    let ghost first = grid@;
    let mut start_x: usize = room.x0 + spacing;
    while room.x1 >= spacing && start_x + stamp.width <= room.x1 - spacing
        invariant
            grid.wf(),
            grid@.same_extents(first),
            first.height >= 2,
            stamp.wf(),
            spacing <= MAX_SPAN,
            room.x1 <= MAX_SPAN,
            room.z0 <= MAX_SPAN,
            room.z1 <= MAX_SPAN,
            start_x <= 4 * MAX_SPAN,
            goal == furnished_from(grid@, *room, stamp@, spacing as int, start_x as int),
        decreases room.x1 - start_x,
    {
        fill_line(grid, room, stamp, spacing, start_x);
        start_x = start_x + stamp.width + spacing;
    }
}

} // verus!
