//! What a cell looks like once the cells of a chunk are drawn: its floor, its
//! ceiling, its walls and doorways, its hall and its pillars.

use vstd::prelude::*;

use crate::domain::entities::blueprint::{MicrobiomeZone, PlanModel};
use crate::domain::entities::voxel_grid::{
    empty_model, GridModel, VOXEL_AIR, VOXEL_CEILING, VOXEL_FLOOR, VOXEL_LIGHT, VOXEL_RED_LIGHT,
    VOXEL_WALL,
};
use crate::use_cases::chunk::cells::{drawn_cell, footprint, CellRecord, DoorDraw};
use crate::use_cases::chunk::connection_laws::{
    lemma_cell_bounds, lemma_cell_index, lemma_cell_index_bounds, lemma_cell_is_local,
    lemma_cells_apart, lemma_cells_extents, made_for, middle, plain,
};
use crate::use_cases::chunk::layout::drawn_cells;
use crate::use_cases::chunk::metrics::ChunkMetrics;

verus! {

/// The chunk with its cells drawn and nothing else.
pub open spec fn all_cells(plan: PlanModel, m: ChunkMetrics, draws: Seq<CellRecord>) -> GridModel {
    let bare = empty_model(m.width as int, m.height as int, m.width as int);
    drawn_cells(bare, plan, m, draws, draws.len())
}

/// The column belongs to the cell.
pub open spec fn in_cell(m: ChunkMetrics, cx: int, cz: int, x: int, z: int) -> bool {
    &&& 0 <= cx < m.cells
    &&& 0 <= cz < m.cells
    &&& m.first(cx) <= x <= m.last(cx)
    &&& m.first(cz) <= z <= m.last(cz)
}

/// The column belongs to the cell, off its south and east sides.
pub open spec fn within_cell(m: ChunkMetrics, cx: int, cz: int, x: int, z: int) -> bool {
    in_cell(m, cx, cz, x, z) && x < m.last(cx) && z < m.last(cz)
}

proof fn lemma_until(
    plan: PlanModel,
    m: ChunkMetrics,
    draws: Seq<CellRecord>,
    n: nat,
    cx: int,
    cz: int,
    x: int,
    y: int,
    z: int,
)
    requires
        made_for(plan, m, draws),
        in_cell(m, cx, cz, x, z),
        n <= draws.len(),
    ensures
        ({
            let bare = empty_model(m.width as int, m.height as int, m.width as int);
            let i = cz * plan.width + cx;
            let now = drawn_cells(bare, plan, m, draws, n);
            let before = drawn_cells(bare, plan, m, draws, i as nat);
            &&& now.same_extents(bare)
            &&& n <= i ==> now.material(x, y, z) == VOXEL_AIR
            &&& n > i ==> now.material(x, y, z) == drawn_cell(
                before,
                plan,
                m,
                cx,
                cz,
                draws[i],
            ).material(x, y, z)
        }),
    decreases n,
{
    let bare = empty_model(m.width as int, m.height as int, m.width as int);
    lemma_cells_extents(bare, plan, m, draws, n);
    if n > 0 {
        let i = n - 1;
        let before = drawn_cells(bare, plan, m, draws, (n - 1) as nat);
        lemma_until(plan, m, draws, (n - 1) as nat, cx, cz, x, y, z);
        lemma_cell_index(plan.width, plan.depth, i);
        if i == cz * plan.width + cx {
            vstd::arithmetic::div_mod::lemma_fundamental_div_mod_converse(i, plan.width, cz, cx);
        } else {
            let (a, b) = (i % plan.width, i / plan.width);
            if m.first(a) <= x <= m.last(a) && m.first(b) <= z <= m.last(b) {
                lemma_cells_apart(m, a, cx, x);
                lemma_cells_apart(m, b, cz, z);
            }
            lemma_cell_is_local(before, plan, m, a, b, draws[i], x, y, z);
        }
    }
}

/// A voxel of a cell is what drawing that cell on air makes of it.
proof fn lemma_own_cell(
    plan: PlanModel,
    m: ChunkMetrics,
    draws: Seq<CellRecord>,
    cx: int,
    cz: int,
    x: int,
    y: int,
    z: int,
) -> (before: GridModel)
    requires
        made_for(plan, m, draws),
        in_cell(m, cx, cz, x, z),
    ensures
        before.width == m.width && before.height == m.height && before.depth == m.width,
        before.material(x, y, z) == VOXEL_AIR,
        0 <= cz * m.cells + cx < draws.len(),
        all_cells(plan, m, draws).material(x, y, z) == drawn_cell(
            before,
            plan,
            m,
            cx,
            cz,
            draws[cz * m.cells + cx],
        ).material(x, y, z),
        footprint(m, cx, cz).x0 == m.first(cx) && footprint(m, cx, cz).x1 == m.last(cx),
        footprint(m, cx, cz).z0 == m.first(cz) && footprint(m, cx, cz).z1 == m.last(cz),
        0 <= m.first(cx) <= m.last(cx) < m.width,
        0 <= m.first(cz) <= m.last(cz) < m.width,
{
    let bare = empty_model(m.width as int, m.height as int, m.width as int);
    let i = cz * plan.width + cx;
    lemma_cell_index_bounds(m.cells as int, cx, cz);
    lemma_until(plan, m, draws, draws.len(), cx, cz, x, y, z);
    lemma_until(plan, m, draws, i as nat, cx, cz, x, y, z);
    lemma_cell_bounds(m, cx);
    lemma_cell_bounds(m, cz);
    drawn_cells(bare, plan, m, draws, i as nat)
}

/// Every cell has a floor. Only where the cell is of the kind that has holes, six
/// voxels or more from its sides, is a floor voxel missing, and there as chance
/// decided.
pub proof fn law_cells_have_floors(
    plan: PlanModel,
    m: ChunkMetrics,
    draws: Seq<CellRecord>,
    cx: int,
    cz: int,
    x: int,
    z: int,
)
    requires
        made_for(plan, m, draws),
        within_cell(m, cx, cz, x, z),
        m.top_of(plan.at(cx, cz).zone) >= 1,
    ensures
        ({
            let floor = all_cells(plan, m, draws).material(x, 0, z);
            let inner = m.first(cx) + 6 <= x <= m.last(cx) - 6 && m.first(cz) + 6 <= z <= m.last(cz)
                - 6;
            let row = m.last(cz) - m.first(cz) - 11;
            let chance = (x - m.first(cx) - 6) * row + (z - m.first(cz) - 6);
            if plan.at(cx, cz).zone == MicrobiomeZone::Holes && inner {
                floor == if draws[cz * m.cells + cx].details[chance] {
                    VOXEL_AIR
                } else {
                    VOXEL_FLOOR
                }
            } else {
                floor == VOXEL_FLOOR
            }
        }),
{
    let before = lemma_own_cell(plan, m, draws, cx, cz, x, 0, z);
}

/// A plain cell is empty between its floor and its ceiling, off its south and east
/// sides.
pub proof fn law_cells_are_empty_inside(
    plan: PlanModel,
    m: ChunkMetrics,
    draws: Seq<CellRecord>,
    cx: int,
    cz: int,
    x: int,
    y: int,
    z: int,
)
    requires
        made_for(plan, m, draws),
        within_cell(m, cx, cz, x, z),
        plain(plan, cx, cz),
        1 <= y < m.top_of(plan.at(cx, cz).zone),
    ensures
        all_cells(plan, m, draws).material(x, y, z) == VOXEL_AIR,
{
    let before = lemma_own_cell(plan, m, draws, cx, cz, x, y, z);
}

/// A plain cell has a ceiling in its ceiling row, with a lamp on every tenth column
/// both ways: none in a blackout, red ones in a red room. Above the ceiling row it is
/// solid, but in an atrium, which is open up to the top of the chunk.
pub proof fn law_cells_have_ceilings(
    plan: PlanModel,
    m: ChunkMetrics,
    draws: Seq<CellRecord>,
    cx: int,
    cz: int,
    x: int,
    y: int,
    z: int,
)
    requires
        made_for(plan, m, draws),
        within_cell(m, cx, cz, x, z),
        plain(plan, cx, cz),
        1 <= m.top_of(plan.at(cx, cz).zone) <= y < m.height,
    ensures
        ({
            let zone = plan.at(cx, cz).zone;
            let ceiling = all_cells(plan, m, draws).material(x, y, z);
            let lamp = x % 10 == 0 && z % 10 == 0 && zone != MicrobiomeZone::Blackout;
            if y > m.top_of(zone) {
                ceiling == if zone == MicrobiomeZone::Atrium {
                    VOXEL_AIR
                } else {
                    VOXEL_CEILING
                }
            } else {
                ceiling == if !lamp {
                    VOXEL_CEILING
                } else if zone == MicrobiomeZone::RedRoom {
                    VOXEL_RED_LIGHT
                } else {
                    VOXEL_LIGHT
                }
            }
        }),
{
    let before = lemma_own_cell(plan, m, draws, cx, cz, x, y, z);
}

/// Where the plan has a wall between two cells of the chunk that are not of one
/// room, the wall is closed from side to side and from the floor to the ceiling row.
pub proof fn law_planned_walls_are_closed(
    plan: PlanModel,
    m: ChunkMetrics,
    draws: Seq<CellRecord>,
    cx: int,
    cz: int,
    x: int,
    y: int,
    z: int,
)
    requires
        made_for(plan, m, draws),
        in_cell(m, cx, cz, x, z),
        plan.at(cx, cz).zone != MicrobiomeZone::PillarField,
        1 <= y <= m.top_of(plan.at(cx, cz).zone),
        y < m.height,
    ensures
        ({
            let cell = plan.at(cx, cz);
            let g = all_cells(plan, m, draws);
            &&& cz + 1 < m.cells && z == m.last(cz) && cell.south && (cell.room is None || cell.room
                != plan.at(cx, cz + 1).room) ==> g.material(x, y, z) == VOXEL_WALL
            &&& cx + 1 < m.cells && x == m.last(cx) && cell.east && (cell.room is None || cell.room
                != plan.at(cx + 1, cz).room) ==> g.material(x, y, z) == VOXEL_WALL
        }),
{
    let before = lemma_own_cell(plan, m, draws, cx, cz, x, y, z);
}

/// Nothing stands between two neighbouring cells of one room, whatever the plan
/// says of a wall there.
pub proof fn law_rooms_run_through_cells(
    plan: PlanModel,
    m: ChunkMetrics,
    draws: Seq<CellRecord>,
    cx: int,
    cz: int,
    x: int,
    y: int,
    z: int,
)
    requires
        made_for(plan, m, draws),
        in_cell(m, cx, cz, x, z),
        plain(plan, cx, cz),
        1 <= y < m.top_of(plan.at(cx, cz).zone),
        plan.at(cx, cz).room is Some,
    ensures
        ({
            let room = plan.at(cx, cz).room;
            let g = all_cells(plan, m, draws);
            &&& cz + 1 < m.cells && plan.at(cx, cz + 1).room == room && z == m.last(cz) && x
                < m.last(cx) ==> g.material(x, y, z) == VOXEL_AIR
            &&& cx + 1 < m.cells && plan.at(cx + 1, cz).room == room && x == m.last(cx) && z
                < m.last(cz) ==> g.material(x, y, z) == VOXEL_AIR
        }),
{
    let before = lemma_own_cell(plan, m, draws, cx, cz, x, y, z);
}

/// Rows by which the arch of a drawn doorway comes down at `v`: one for each voxel
/// off the middle.
pub open spec fn below_arch(
    plan: PlanModel,
    m: ChunkMetrics,
    cx: int,
    cz: int,
    d: DoorDraw,
    first: int,
    v: int,
) -> int {
    let width = if d.width_choice >= 85 {
        m.wide_hole
    } else if d.width_choice >= 15 {
        m.medium_hole
    } else {
        m.narrow_hole
    };
    let mid = first + m.offsets@[d.offset_cm as int] + width / 2;
    if plan.at(cx, cz).zone != MicrobiomeZone::Arch {
        0
    } else if v < mid {
        mid - v
    } else {
        v - mid
    }
}

/// The voxels that a drawn doorway spans along a side that starts at `first`. Of a
/// hundred choices fifteen are narrow, the next seventy medium, the rest wide.
pub open spec fn doorway_spans(m: ChunkMetrics, d: DoorDraw, first: int, v: int) -> bool {
    let start = first + m.offsets@[d.offset_cm as int];
    let width = if d.width_choice >= 85 {
        m.wide_hole
    } else if d.width_choice >= 15 {
        m.medium_hole
    } else {
        m.narrow_hole
    };
    start <= v < start + width
}

/// Where the plan has no wall between two cells of the chunk that are not of one
/// room, a wall with the drawn doorway stands: open up to the height of a doorway,
/// closed above it and beside it. An arch comes down from the middle of the doorway.
pub proof fn law_drawn_doorways_are_open(
    plan: PlanModel,
    m: ChunkMetrics,
    draws: Seq<CellRecord>,
    cx: int,
    cz: int,
    x: int,
    y: int,
    z: int,
)
    requires
        made_for(plan, m, draws),
        in_cell(m, cx, cz, x, z),
        plain(plan, cx, cz),
        1 <= y < m.top_of(plan.at(cx, cz).zone),
        y < m.height,
        draws[cz * m.cells + cx].south.offset_cm < 500,
        draws[cz * m.cells + cx].east.offset_cm < 500,
    ensures
        ({
            let cell = plan.at(cx, cz);
            let d = draws[cz * m.cells + cx];
            let g = all_cells(plan, m, draws);
            let south = cz + 1 < m.cells && !cell.south && (cell.room is None || cell.room
                != plan.at(cx, cz + 1).room);
            let east = cx + 1 < m.cells && !cell.east && (cell.room is None || cell.room != plan.at(
                cx + 1,
                cz,
            ).room);
            &&& south && z == m.last(cz) && x < m.last(cx) ==> g.material(x, y, z) == if y
                + below_arch(plan, m, cx, cz, d.south, m.first(cx), x) < m.door_top
                && doorway_spans(m, d.south, m.first(cx), x) {
                VOXEL_AIR
            } else {
                VOXEL_WALL
            }
            &&& east && x == m.last(cx) && z < m.last(cz) ==> g.material(x, y, z) == if y
                + below_arch(plan, m, cx, cz, d.east, m.first(cz), z) < m.door_top
                && doorway_spans(m, d.east, m.first(cz), z) {
                VOXEL_AIR
            } else {
                VOXEL_WALL
            }
        }),
{
    let before = lemma_own_cell(plan, m, draws, cx, cz, x, y, z);
}

/// The cell's corridor runs on across its north or its south side.
pub open spec fn runs_north_south(plan: PlanModel, cx: int, cz: int) -> bool {
    let cell = plan.at(cx, cz);
    cell.is_corridor && {
        ||| cz > 0 && !cell.north && plan.at(cx, cz - 1).is_corridor
        ||| cz + 1 < plan.depth && !cell.south && plan.at(cx, cz + 1).is_corridor
    }
}

/// The cell's corridor runs on across its west or its east side.
pub open spec fn runs_east_west(plan: PlanModel, cx: int, cz: int) -> bool {
    let cell = plan.at(cx, cz);
    cell.is_corridor && {
        ||| cx > 0 && !cell.west && plan.at(cx - 1, cz).is_corridor
        ||| cx + 1 < plan.width && !cell.east && plan.at(cx + 1, cz).is_corridor
    }
}

/// Position `v` lies in the middle of the cell, where a hall stays open: of a cell
/// wider than that, the 26 voxels in the middle less the sides.
pub open spec fn mid_hall(m: ChunkMetrics, c: int, v: int) -> bool {
    let span = m.last(c) - m.first(c) + 1;
    let inset = if span > 26 {
        (span - 26) / 2
    } else {
        0
    };
    m.first(c) + inset < v < m.last(c) - inset
}

/// Corridors that run on are halls. A straight hall is walled along both of its
/// sides and open down its middle; where two halls cross only the corners are
/// walled, and the middle stays open both ways.
pub proof fn law_halls_are_open_down_the_middle(
    plan: PlanModel,
    m: ChunkMetrics,
    draws: Seq<CellRecord>,
    cx: int,
    cz: int,
    x: int,
    y: int,
    z: int,
)
    requires
        made_for(plan, m, draws),
        within_cell(m, cx, cz, x, z),
        plan.at(cx, cz).zone != MicrobiomeZone::PillarField,
        1 <= y < m.top_of(plan.at(cx, cz).zone),
        y < m.height,
    ensures
        ({
            let ns = runs_north_south(plan, cx, cz);
            let ew = runs_east_west(plan, cx, cz);
            let found = all_cells(plan, m, draws).material(x, y, z);
            &&& ns && mid_hall(m, cx, x) ==> found == VOXEL_AIR
            &&& ew && mid_hall(m, cz, z) ==> found == VOXEL_AIR
            &&& ns && !ew && !mid_hall(m, cx, x) ==> found == VOXEL_WALL
            &&& ew && !ns && !mid_hall(m, cz, z) ==> found == VOXEL_WALL
            &&& ns && ew && !mid_hall(m, cx, x) && !mid_hall(m, cz, z) ==> found == VOXEL_WALL
        }),
{
    let before = lemma_own_cell(plan, m, draws, cx, cz, x, y, z);
}

/// A pillar field has no walls: pillars stand in its four corners, and in the middle
/// one of which chance has broken out some rows; everything else is open.
pub proof fn law_pillar_fields_are_open(
    plan: PlanModel,
    m: ChunkMetrics,
    draws: Seq<CellRecord>,
    cx: int,
    cz: int,
    x: int,
    y: int,
    z: int,
)
    requires
        made_for(plan, m, draws),
        in_cell(m, cx, cz, x, z),
        plan.at(cx, cz).zone == MicrobiomeZone::PillarField,
        1 <= y < m.top_of(plan.at(cx, cz).zone),
        y < m.height,
    ensures
        ({
            let found = all_cells(plan, m, draws).material(x, y, z);
            let corner = (x == m.first(cx) || x == m.last(cx)) && (z == m.first(cz) || z == m.last(
                cz,
            ));
            let mid = x == middle(m, cx) && z == middle(m, cz);
            &&& corner ==> found == VOXEL_WALL
            &&& !corner && !mid ==> found == VOXEL_AIR
            &&& !corner && mid ==> found == if draws[cz * m.cells + cx].details[y - 1] {
                VOXEL_WALL
            } else {
                VOXEL_AIR
            }
        }),
{
    let before = lemma_own_cell(plan, m, draws, cx, cz, x, y, z);
}

} // verus!
