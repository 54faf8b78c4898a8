//! Ceiling lamps of rooms and corridors, and the open hub chunk.

use vstd::prelude::*;

use crate::domain::entities::voxel_grid::{
    GridModel, VoxelGrid, VOXEL_AIR, VOXEL_CEILING, VOXEL_FLOOR, VOXEL_LIGHT,
};
use crate::use_cases::chunk::metrics::MAX_SPAN;
use crate::use_cases::chunk::stamps::Room;

verus! {

/// Voxels between the walls of a room and its first and last lamps.
pub const LAMP_MARGIN: usize = 8;

/// Voxels from one room lamp to the next.
pub const LAMP_STEP: usize = 12;

/// Voxels of a strip lamp.
pub const STRIP_LENGTH: usize = 4;

/// Voxels between corridor lamps.
pub const CORRIDOR_STEP: usize = 16;

/// Voxels between the lamps of the hub.
pub const HUB_STEP: usize = 20;

/// Whether a lamp of the room lies at depth `z`: one every twelve voxels inside
/// the margin, four voxels long where the room has strips.
pub open spec fn room_lamp_at(room: Room, is_strip: bool, z: int) -> bool {
    let along = z - (room.z0 + LAMP_MARGIN);
    let phase = along % LAMP_STEP as int;
    &&& along >= 0
    &&& phase < (if is_strip {
        STRIP_LENGTH as int
    } else {
        1
    })
    &&& z - phase + LAMP_MARGIN <= room.z1
}

/// Lamps along the middle of a room, in the top row of the grid.
pub open spec fn room_lamp_brush(room: Room, is_strip: bool, row: int) -> spec_fn(
    int,
    int,
    int,
) -> Option<u8> {
    |i: int, j: int, k: int|
        if i == (room.x0 + room.x1) / 2 && j == row && room_lamp_at(room, is_strip, k) {
            Some(VOXEL_LIGHT)
        } else {
            None
        }
}

/// The lamps of a room that begin before depth `z`.
spec fn lamps_before(room: Room, is_strip: bool, row: int, z: int) -> spec_fn(
    int,
    int,
    int,
) -> Option<u8> {
    |i: int, j: int, k: int|
        if k < z {
            room_lamp_brush(room, is_strip, row)(i, j, k)
        } else {
            None
        }
}

/// Hangs the lamps of a room.
pub fn light_room(grid: &mut VoxelGrid, room: &Room, is_strip: bool)
    requires
        old(grid).wf(),
        old(grid)@.height >= 1,
        room.x0 <= MAX_SPAN,
        room.x1 <= MAX_SPAN,
        room.z0 <= MAX_SPAN,
        room.z1 <= MAX_SPAN,
    ensures
        final(grid).wf(),
        final(grid)@ == old(grid)@.painted(
            room_lamp_brush(*room, is_strip, old(grid)@.height - 1),
        ),
{
    let ghost start = grid@;
    let row: usize = grid.height() - 1;
    let ghost top = row as int;
    let cx: usize = (room.x0 + room.x1) / 2;
    let mut z: usize = room.z0 + LAMP_MARGIN;
    let ghost mut lamps: int = 0;
    assert(grid@.cells =~= start.painted(lamps_before(*room, is_strip, top, z as int)).cells);
    while z + LAMP_MARGIN <= room.z1
        invariant
            grid.wf(),
            top == row,
            cx == (room.x0 + room.x1) / 2,
            room.z1 <= MAX_SPAN,
            lamps >= 0,
            z == room.z0 + LAMP_MARGIN + lamps * LAMP_STEP,
            z <= 2 * MAX_SPAN,
            grid@ == start.painted(lamps_before(*room, is_strip, top, z as int)),
        decreases 2 * MAX_SPAN + 100 - z,
    {
        grid.set(cx, row, z, VOXEL_LIGHT);
        if is_strip {
            grid.set(cx, row, z + 1, VOXEL_LIGHT);
            grid.set(cx, row, z + 2, VOXEL_LIGHT);
            grid.set(cx, row, z + 3, VOXEL_LIGHT);
        }
        proof {
            let next = lamps_before(*room, is_strip, top, z + LAMP_STEP);
            assert forall|i: int, j: int, k: int| #[trigger]
                (grid@.cells)(i, j, k) == (start.painted(next).cells)(i, j, k) by {
                if z <= k < z + LAMP_STEP {
                    lemma_phase(k - (room.z0 + LAMP_MARGIN), lamps);
                }
            }
            assert(grid@.cells =~= start.painted(next).cells);
            lamps = lamps + 1;
        }
        z = z + LAMP_STEP;
    }
    proof {
        let all = room_lamp_brush(*room, is_strip, top);
        assert forall|i: int, j: int, k: int| #[trigger]
            (grid@.cells)(i, j, k) == (start.painted(all).cells)(i, j, k) by {
            if k >= z && room_lamp_at(*room, is_strip, k) {
                let along = k - (room.z0 + LAMP_MARGIN);
                lemma_phase_floor(along, lamps);
            }
        }
        assert(grid@.cells =~= start.painted(all).cells);
    }
}

proof fn lemma_phase(along: int, n: int)
    requires
        n * LAMP_STEP <= along < n * LAMP_STEP + LAMP_STEP,
    ensures
        along % LAMP_STEP as int == along - n * LAMP_STEP,
{
}

/// A lamp that begins at or after the `n`-th step begins on a later step.
proof fn lemma_phase_floor(along: int, n: int)
    requires
        along >= n * LAMP_STEP,
    ensures
        along - along % LAMP_STEP as int >= n * LAMP_STEP,
{
}

/// A lamp over every free sixteenth column: plain ceiling above, air at
/// standing height.
pub open spec fn corridor_lamp_brush(g: GridModel) -> spec_fn(int, int, int) -> Option<u8> {
    |i: int, j: int, k: int|
        if j == g.height - 1 && i % CORRIDOR_STEP as int == CORRIDOR_STEP / 2 && k
            % CORRIDOR_STEP as int == CORRIDOR_STEP / 2 && g.material(i, g.height - 1, k)
            == VOXEL_CEILING && g.material(i, 1, k) == VOXEL_AIR {
            Some(VOXEL_LIGHT)
        } else {
            None
        }
}

/// The part of a brush before column `x`, `z`, rows of constant z first.
spec fn scanned_part(brush: spec_fn(int, int, int) -> Option<u8>, x: int, z: int) -> spec_fn(
    int,
    int,
    int,
) -> Option<u8> {
    |i: int, j: int, k: int|
        if k < z || (k == z && i < x) {
            brush(i, j, k)
        } else {
            None
        }
}

/// Hangs the corridor lamps.
pub fn light_corridors(grid: &mut VoxelGrid)
    requires
        old(grid).wf(),
        2 <= old(grid)@.height,
        old(grid)@.width <= MAX_SPAN,
        old(grid)@.depth <= MAX_SPAN,
    ensures
        final(grid).wf(),
        final(grid)@ == old(grid)@.painted(corridor_lamp_brush(old(grid)@)),
{
    let ghost start = grid@;
    let ghost brush = corridor_lamp_brush(start);
    let w: usize = grid.width();
    let d: usize = grid.depth();
    let row: usize = grid.height() - 1;
    let mut z: usize = CORRIDOR_STEP / 2;
    assert(grid@.cells =~= start.painted(scanned_part(brush, 0, z as int)).cells) by {
        assert forall|i: int, j: int, k: int|
            (grid@.cells)(i, j, k) == #[trigger] (start.painted(
                scanned_part(brush, 0, z as int),
            ).cells)(i, j, k) by {
            if start.inside(i, j, k) && k < z {
                assert(k % 16 != 8);
            }
        }
    }
    while z < d
        invariant
            grid.wf(),
            start.width == w,
            start.depth == d,
            start.height == row + 1,
            w <= MAX_SPAN,
            d <= MAX_SPAN,
            row >= 1,
            z <= 2 * MAX_SPAN,
            z % CORRIDOR_STEP == CORRIDOR_STEP / 2,
            brush == corridor_lamp_brush(start),
            grid@ == start.painted(scanned_part(brush, 0, z as int)),
        decreases 2 * MAX_SPAN + 100 - z,
    {
        let mut x: usize = CORRIDOR_STEP / 2;
        assert(grid@.cells =~= start.painted(scanned_part(brush, x as int, z as int)).cells) by {
            assert forall|i: int, j: int, k: int|
                (grid@.cells)(i, j, k) == #[trigger] (start.painted(
                    scanned_part(brush, x as int, z as int),
                ).cells)(i, j, k) by {
                if start.inside(i, j, k) && k == z && i < x {
                    assert(i % 16 != 8);
                }
            }
        }
        while x < w
            invariant
                grid.wf(),
                start.width == w,
                start.depth == d,
                start.height == row + 1,
                w <= MAX_SPAN,
                z < d,
                row >= 1,
                x <= 2 * MAX_SPAN,
                x % CORRIDOR_STEP == CORRIDOR_STEP / 2,
                z % CORRIDOR_STEP == CORRIDOR_STEP / 2,
                brush == corridor_lamp_brush(start),
                grid@ == start.painted(scanned_part(brush, x as int, z as int)),
            decreases 2 * MAX_SPAN + 100 - x,
        {
            if grid.get(x, row, z) == VOXEL_CEILING && grid.get(x, 1, z) == VOXEL_AIR {
                grid.set(x, row, z, VOXEL_LIGHT);
            }
            let ghost next = scanned_part(brush, x + CORRIDOR_STEP, z as int);
            proof {
                assert forall|i: int, j: int, k: int| #[trigger]
                    (grid@.cells)(i, j, k) == (start.painted(next).cells)(i, j, k) by {
                    if k == z && x < i < x + CORRIDOR_STEP {
                        assert(i % 16 != 8);
                    }
                }
                assert(grid@.cells =~= start.painted(next).cells);
            }
            x = x + CORRIDOR_STEP;
        }
        let ghost next = scanned_part(brush, 0, z + CORRIDOR_STEP);
        proof {
            assert forall|i: int, j: int, k: int| #[trigger]
                (grid@.cells)(i, j, k) == (start.painted(next).cells)(i, j, k) by {
                if z < k < z + CORRIDOR_STEP {
                    assert(k % 16 != 8);
                }
            }
            assert(grid@.cells =~= start.painted(next).cells);
        }
        z = z + CORRIDOR_STEP;
    }
    assert(grid@.cells =~= start.painted(brush).cells);
}

/// The hub: bare floor and ceiling, with lamps in both on a wide lattice.
pub open spec fn hub_brush(height: int) -> spec_fn(int, int, int) -> Option<u8> {
    |i: int, j: int, k: int|
        if j == 0 || j == height - 1 {
            if i > 0 && k > 0 && i % HUB_STEP as int == 0 && k % HUB_STEP as int == 0 {
                Some(VOXEL_LIGHT)
            } else if j == 0 {
                Some(VOXEL_FLOOR)
            } else {
                Some(VOXEL_CEILING)
            }
        } else {
            None
        }
}

/// Draws the open hub that stands at the origin.
pub fn draw_hub(grid: &mut VoxelGrid)
    requires
        old(grid).wf(),
        2 <= old(grid)@.height,
    ensures
        final(grid).wf(),
        final(grid)@ == old(grid)@.painted(hub_brush(old(grid)@.height)),
{
    let ghost start = grid@;
    let w: usize = grid.width();
    let d: usize = grid.depth();
    let row: usize = grid.height() - 1;
    let ghost brush = hub_brush(start.height);
    let mut z: usize = 0;
    assert(grid@.cells =~= start.painted(scanned_part(brush, 0, 0)).cells);
    while z < d
        invariant
            z <= d,
            grid.wf(),
            start.width == w,
            start.depth == d,
            start.height == row + 1,
            row >= 1,
            brush == hub_brush(start.height),
            grid@ == start.painted(scanned_part(brush, 0, z as int)),
        decreases d - z,
    {
        let mut x: usize = 0;
        while x < w
            invariant
                x <= w,
                z < d,
                grid.wf(),
                start.width == w,
                start.depth == d,
                start.height == row + 1,
                row >= 1,
                brush == hub_brush(start.height),
                grid@ == start.painted(scanned_part(brush, x as int, z as int)),
            decreases w - x,
        {
            grid.set(x, 0, z, VOXEL_FLOOR);
            grid.set(x, row, z, VOXEL_CEILING);
            if x > 0 && z > 0 && x % HUB_STEP == 0 && z % HUB_STEP == 0 {
                grid.set(x, row, z, VOXEL_LIGHT);
                grid.set(x, 0, z, VOXEL_LIGHT);
            }
            assert(grid@.cells =~= start.painted(scanned_part(brush, x + 1, z as int)).cells);
            x = x + 1;
        }
        assert(grid@.cells =~= start.painted(scanned_part(brush, 0, z + 1)).cells);
        z = z + 1;
    }
    assert(grid@.cells =~= start.painted(brush).cells);
}

} // verus!
