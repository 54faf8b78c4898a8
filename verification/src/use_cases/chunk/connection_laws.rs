//! What a drawn chunk promises on its edges: neighbouring chunks meet at
//! doorways, and beside the doorways the edge is walled.

use vstd::prelude::*;

use crate::domain::entities::blueprint::{MicrobiomeZone, PlanModel};
use crate::domain::entities::voxel_grid::{
    empty_model, GridModel, VOXEL_AIR, VOXEL_FLOOR, VOXEL_RED_WALL, VOXEL_WALL,
};
use crate::domain::use_cases::calculate_lighting::flooded;
use crate::domain::use_cases::lighting_laws::{law_lighting_frame, material_at, Spot};
use crate::use_cases::chunk::cells::{
    drawn_cell, edge_opening, footprint, hall_ew, hall_ns, in_footprint, same_room, strip_from,
    CellRecord,
};
use crate::use_cases::chunk::decor::{
    chosen_pattern, decorated, decorated_rooms, fitting, standard_patterns, RoomRoll,
};
use crate::use_cases::chunk::lamps::corridor_lamp_brush;
use crate::use_cases::chunk::layout::{drawn_cells, with_north_edge, with_west_edge};
use crate::use_cases::chunk::metrics::ChunkMetrics;
use crate::use_cases::chunk::stamps::{
    free_at, furnished, furnished_from, furnished_line, gap, placement_valid, stairway_pattern,
    stamp_brush, stamp_material, Room, StampModel,
};
use crate::use_cases::generate_chunk::built_chunk;

verus! {

pub open spec fn is_wall(material: u8) -> bool {
    material == VOXEL_WALL || material == VOXEL_RED_WALL
}

/// Nothing but air or a raised floor.
pub open spec fn is_room(material: u8) -> bool {
    material == VOXEL_AIR || material == VOXEL_FLOOR
}

/// No wall stands at the voxel, and below the ceiling row `top` and the top row of
/// the chunk there is nothing but air or a raised floor.
pub open spec fn open_at(g: GridModel, m: ChunkMetrics, top: int, x: int, y: int, z: int) -> bool {
    !is_wall(g.material(x, y, z)) && (y < top && y < m.height - 1 ==> is_room(g.material(x, y, z)))
}

/// One can walk through the column: no wall stands in it below the top of a
/// doorway, and below the ceiling there is nothing but air or a raised floor.
pub open spec fn walkable(g: GridModel, m: ChunkMetrics, top: int, x: int, z: int) -> bool {
    forall|y: int| 1 <= y < m.door_top ==> #[trigger] open_at(g, m, top, x, y, z)
}

/// The corridor cell is narrowed to a hall: it runs on to a corridor beside it, and
/// its plan has no wall on that side.
pub open spec fn narrowed(plan: PlanModel, cx: int, cz: int) -> bool {
    let cell = plan.at(cx, cz);
    cell.is_corridor && {
        ||| cz > 0 && !cell.north && plan.at(cx, cz - 1).is_corridor
        ||| cz + 1 < plan.depth && !cell.south && plan.at(cx, cz + 1).is_corridor
        ||| cx > 0 && !cell.west && plan.at(cx - 1, cz).is_corridor
        ||| cx + 1 < plan.width && !cell.east && plan.at(cx + 1, cz).is_corridor
    }
}

/// Neither a pillar field nor narrowed to a hall.
pub open spec fn plain(plan: PlanModel, cx: int, cz: int) -> bool {
    plan.at(cx, cz).zone != MicrobiomeZone::PillarField && !narrowed(plan, cx, cz)
}

/// The cell is at least three voxels wide, so that its middle is no side.
pub open spec fn has_middle(m: ChunkMetrics, c: int) -> bool {
    m.first(c) + 2 <= m.last(c)
}

pub open spec fn middle(m: ChunkMetrics, c: int) -> int {
    (m.first(c) + m.last(c) + 1) / 2
}

/// Position `v` lies in the doorway in the middle of a cell's side.
pub open spec fn in_doorway(m: ChunkMetrics, c: int, v: int) -> bool {
    let start = middle(m, c) - m.medium_hole / 2;
    start <= v < start + m.medium_hole
}

/// How far an arch comes down at position `v`.
pub open spec fn arch_drop(plan: PlanModel, m: ChunkMetrics, cx: int, cz: int, c: int, v: int) -> int {
    if plan.at(cx, cz).zone != MicrobiomeZone::Arch {
        0
    } else if v < middle(m, c) {
        middle(m, c) - v
    } else {
        v - middle(m, c)
    }
}

/// The plan and the draws are made for the chunk.
pub open spec fn made_for(plan: PlanModel, m: ChunkMetrics, draws: Seq<CellRecord>) -> bool {
    &&& m.wf()
    &&& plan.width == m.cells
    &&& plan.depth == m.cells
    &&& draws.len() == plan.width * plan.depth
}

/// Besides, no room reaches so far past the last cell that its furniture could
/// stand on the edge.
pub open spec fn belongs(
    plan: PlanModel,
    rooms: Seq<Room>,
    m: ChunkMetrics,
    draws: Seq<CellRecord>,
) -> bool {
    let far = m.last(m.cells - 1) + m.spacing + 2;
    &&& made_for(plan, m, draws)
    &&& forall|i: int|
        0 <= i < rooms.len() ==> (#[trigger] rooms[i]).x1 <= far && rooms[i].z1 <= far
}

proof fn lemma_borders_rise(m: ChunkMetrics, a: int, b: int)
    requires
        m.wf(),
        0 <= a <= b <= m.cells,
    ensures
        m.borders@[a] <= m.borders@[b],
    decreases b - a,
{
    if a < b {
        lemma_borders_rise(m, a, b - 1);
        assert(m.cell_ok(b - 1));
    }
}

/// A voxel lies in one cell at most, along either axis.
pub proof fn lemma_cells_apart(m: ChunkMetrics, a: int, b: int, v: int)
    requires
        m.wf(),
        0 <= a < m.cells,
        0 <= b < m.cells,
        m.first(a) <= v <= m.last(a),
        m.first(b) <= v <= m.last(b),
    ensures
        a == b,
{
    if a < b {
        lemma_borders_rise(m, a + 1, b);
    } else if b < a {
        lemma_borders_rise(m, b + 1, a);
    }
}

pub proof fn lemma_cell_bounds(m: ChunkMetrics, c: int)
    requires
        m.wf(),
        0 <= c < m.cells,
    ensures
        0 <= m.first(c) <= m.last(c) < m.width,
        0 <= middle(m, c) - m.medium_hole / 2,
        m.width <= usize::MAX,
{
    assert(m.cell_ok(c));
}

/// The voxel is no wall, and nothing but air or floor where it lies low.
spec fn clear(g: GridModel, low: bool, x: int, y: int, z: int) -> bool {
    !is_wall(g.material(x, y, z)) && (low ==> is_room(g.material(x, y, z)))
}

/// Drawing the cell puts no wall at the voxel.
spec fn passes(
    plan: PlanModel,
    m: ChunkMetrics,
    low: bool,
    cx: int,
    cz: int,
    x: int,
    y: int,
    z: int,
) -> bool {
    let arch = plan.at(cx, cz).zone == MicrobiomeZone::Arch;
    let door_top = m.door_top as int;
    m.first(cx) <= x <= m.last(cx) && m.first(cz) <= z <= m.last(cz) ==> {
        &&& plain(plan, cx, cz)
        &&& y >= 1
        &&& low ==> y < m.top_of(plan.at(cx, cz).zone)
        &&& z == m.last(cz) ==> if cz == plan.depth - 1 {
            y < strip_from(edge_opening(m, m.first(cx), m.last(cx), arch), door_top, x)
        } else {
            same_room(plan.at(cx, cz), plan.at(cx, cz + 1))
        }
        &&& x == m.last(cx) ==> if cx == plan.width - 1 {
            y < strip_from(edge_opening(m, m.first(cz), m.last(cz), arch), door_top, z)
        } else {
            same_room(plan.at(cx, cz), plan.at(cx + 1, cz))
        }
    }
}

proof fn lemma_cell_clear(
    g: GridModel,
    plan: PlanModel,
    m: ChunkMetrics,
    cx: int,
    cz: int,
    draws: CellRecord,
    low: bool,
    x: int,
    y: int,
    z: int,
)
    requires
        m.wf(),
        plan.width == m.cells,
        plan.depth == m.cells,
        0 <= cx < m.cells,
        0 <= cz < m.cells,
        passes(plan, m, low, cx, cz, x, y, z),
        clear(g, low, x, y, z),
    ensures
        clear(drawn_cell(g, plan, m, cx, cz, draws), low, x, y, z),
{
    lemma_cell_bounds(m, cx);
    lemma_cell_bounds(m, cz);
    let f = footprint(m, cx, cz);
    assert(f.x0 == m.first(cx) && f.x1 == m.last(cx) && f.z0 == m.first(cz) && f.z1 == m.last(cz));
    if in_footprint(f, x, z) {
        assert(!hall_ns(plan, cx, cz) && !hall_ew(plan, cx, cz));
    }
}

proof fn lemma_cells_clear(
    g: GridModel,
    plan: PlanModel,
    m: ChunkMetrics,
    draws: Seq<CellRecord>,
    n: nat,
    low: bool,
    x: int,
    y: int,
    z: int,
)
    requires
        m.wf(),
        plan.width == m.cells,
        plan.depth == m.cells,
        n <= plan.width * plan.depth,
        forall|cx: int, cz: int|
            0 <= cx < m.cells && 0 <= cz < m.cells ==> #[trigger] passes(
                plan,
                m,
                low,
                cx,
                cz,
                x,
                y,
                z,
            ),
        clear(g, low, x, y, z),
    ensures
        clear(drawn_cells(g, plan, m, draws, n), low, x, y, z),
    decreases n,
{
    if n > 0 {
        let i = n - 1;
        lemma_cells_clear(g, plan, m, draws, (n - 1) as nat, low, x, y, z);
        lemma_cell_index(plan.width, plan.depth, i);
        assert(passes(plan, m, low, i % plan.width, i / plan.width, x, y, z));
        lemma_cell_clear(
            drawn_cells(g, plan, m, draws, (n - 1) as nat),
            plan,
            m,
            i % plan.width,
            i / plan.width,
            draws[i],
            low,
            x,
            y,
            z,
        );
    }
}

pub proof fn lemma_cell_index(width: int, depth: int, i: int)
    requires
        0 <= i < width * depth,
        width > 0,
    ensures
        0 <= i % width < width,
        0 <= i / width < depth,
        i == (i / width) * width + i % width,
{
    vstd::arithmetic::div_mod::lemma_fundamental_div_mod(i, width);
    assert(width * (i / width) == (i / width) * width) by (nonlinear_arith);
    assert(0 <= i / width < depth) by (nonlinear_arith)
        requires
            0 <= i < width * depth,
            width > 0,
            i == (i / width) * width + i % width,
            0 <= i % width < width,
    ;
}

/// The strips of the west and the north edge leave the voxel alone.
spec fn edges_pass(plan: PlanModel, m: ChunkMetrics, c: int, x: int, y: int, z: int) -> bool {
    let west = plan.at(0, c).zone;
    let north = plan.at(c, 0).zone;
    let door_top = m.door_top as int;
    &&& x == 0 && m.first(c) <= z <= m.last(c) ==> y < strip_from(
        edge_opening(m, m.first(c), m.last(c), west == MicrobiomeZone::Arch),
        door_top,
        z,
    )
    &&& z == 0 && m.first(c) <= x <= m.last(c) ==> y < strip_from(
        edge_opening(m, m.first(c), m.last(c), north == MicrobiomeZone::Arch),
        door_top,
        x,
    )
}

proof fn lemma_edges_clear(
    g: GridModel,
    plan: PlanModel,
    m: ChunkMetrics,
    n: nat,
    low: bool,
    x: int,
    y: int,
    z: int,
)
    requires
        n <= m.cells,
        forall|c: int| 0 <= c < m.cells ==> #[trigger] edges_pass(plan, m, c, x, y, z),
        clear(g, low, x, y, z),
    ensures
        clear(with_west_edge(g, plan, m, n), low, x, y, z),
        clear(with_north_edge(g, plan, m, n), low, x, y, z),
    decreases n,
{
    if n > 0 {
        lemma_edges_clear(g, plan, m, (n - 1) as nat, low, x, y, z);
        assert(edges_pass(plan, m, n - 1, x, y, z));
    }
}

/// What a pattern has of walls keeps two voxels off its sides.
spec fn walls_inset(p: StampModel) -> bool {
    &&& p.width > 0
    &&& p.depth > 0
    &&& forall|i: int, k: int|
        p.holds(i, k) && 1 <= #[trigger] p.at(i, k) <= 3 ==> 2 <= i <= p.width - 3 && 2 <= k
            <= p.depth - 3
}

proof fn lemma_fitting(room: Room, n: nat)
    requires
        n <= 8,
    ensures
        forall|i: int| 0 <= i < fitting(room, n).len() ==> #[trigger] fitting(room, n)[i] < n,
    decreases n,
{
    if n > 0 {
        lemma_fitting(room, (n - 1) as nat);
        let before = fitting(room, (n - 1) as nat);
        assert forall|i: int| 0 <= i < fitting(room, n).len() implies #[trigger] fitting(room, n)[i]
            < n by {
            if i < before.len() {
                assert(fitting(room, n)[i] == before[i]);
            }
        }
    }
}

proof fn lemma_patterns_inset(room: Room, roll: RoomRoll)
    ensures
        chosen_pattern(room, roll) matches Some(p) ==> walls_inset(p),
{
    lemma_fitting(room, 8);
    let all = standard_patterns();
    assert(walls_inset(all[0]));
    assert(walls_inset(all[1]));
    assert(walls_inset(all[2]));
    assert(walls_inset(all[3]));
    assert(walls_inset(all[4]));
    assert(walls_inset(all[5]));
    assert(walls_inset(all[6]));
    assert(walls_inset(all[7]));
    assert(walls_inset(stairway_pattern()));
    let list = fitting(room, 8);
    if list.len() > 0 {
        let k = roll.stamp as int % list.len() as int;
        assert(0 <= k < list.len());
        assert(list[k] < 8);
        let t = list[k] as int;
        assert(t == 0 || t == 1 || t == 2 || t == 3 || t == 4 || t == 5 || t == 6 || t == 7);
    }
}

/// Where the walls of a room's furniture may stand.
spec fn furniture_reach(room: Room, spacing: int, x: int, z: int) -> bool {
    room.x0 + spacing + 2 <= x <= room.x1 - spacing - 3 && room.z0 + spacing + 2 <= z <= room.z1
        - spacing - 3
}

/// What furniture keeps: extents, a clear voxel out of its reach, and any voxel
/// of a column that is not free at standing height.
spec fn kept(before: GridModel, after: GridModel, low: bool, reach: bool, x: int, y: int, z: int) -> bool {
    &&& after.same_extents(before)
    &&& clear(before, low, x, y, z) && !reach ==> clear(after, low, x, y, z)
    &&& !free_at(before, x, z) ==> !free_at(after, x, z) && after.material(x, y, z)
        == before.material(x, y, z)
}

proof fn lemma_line_kept(
    g: GridModel,
    room: Room,
    stamp: StampModel,
    spacing: int,
    sx: int,
    sz: int,
    low: bool,
    x: int,
    y: int,
    z: int,
)
    requires
        walls_inset(stamp),
        room.x0 + spacing <= sx,
        room.z0 + spacing <= sz,
        sx + stamp.width <= room.x1 - spacing,
    ensures
        kept(
            g,
            furnished_line(g, room, stamp, spacing, sx, sz),
            low,
            furniture_reach(room, spacing, x, z),
            x,
            y,
            z,
        ),
    decreases gap(room.z1 - sz),
{
    if 0 <= spacing && 0 < stamp.depth && sz + stamp.depth <= room.z1 - spacing {
        let next = if placement_valid(g, room, stamp, sx, sz) {
            g.painted(stamp_brush(stamp, sx, sz, g.height - 2))
        } else {
            g
        };
        if stamp.holds(x - sx, z - sz) {
            let value = stamp.at(x - sx, z - sz);
            if placement_valid(g, room, stamp, sx, sz) && value > 0 {
                assert(free_at(g, sx + (x - sx), sz + (z - sz)));
            }
            if value == 0 {
                assert(stamp_material(value, y, g.height - 2) is None);
                assert(stamp_material(value, 1, g.height - 2) is None);
            }
        }
        lemma_line_kept(
            next,
            room,
            stamp,
            spacing,
            sx,
            sz + stamp.depth + spacing,
            low,
            x,
            y,
            z,
        );
    }
}

proof fn lemma_from_kept(
    g: GridModel,
    room: Room,
    stamp: StampModel,
    spacing: int,
    sx: int,
    low: bool,
    x: int,
    y: int,
    z: int,
)
    requires
        walls_inset(stamp),
        room.x0 + spacing <= sx,
    ensures
        kept(
            g,
            furnished_from(g, room, stamp, spacing, sx),
            low,
            furniture_reach(room, spacing, x, z),
            x,
            y,
            z,
        ),
    decreases gap(room.x1 - sx),
{
    if 0 <= spacing && 0 < stamp.width && sx + stamp.width <= room.x1 - spacing {
        let next = furnished_line(g, room, stamp, spacing, sx, room.z0 + spacing);
        lemma_line_kept(g, room, stamp, spacing, sx, room.z0 + spacing, low, x, y, z);
        lemma_from_kept(next, room, stamp, spacing, sx + stamp.width + spacing, low, x, y, z);
    }
}

proof fn lemma_rooms_kept(
    g: GridModel,
    rooms: Seq<Room>,
    rolls: Seq<RoomRoll>,
    spacing: int,
    n: nat,
    low: bool,
    x: int,
    y: int,
    z: int,
)
    requires
        n <= rooms.len(),
        low ==> y < g.height - 1,
    ensures
        ({
            let after = decorated_rooms(g, rooms, rolls, spacing, n);
            &&& after.same_extents(g)
            &&& clear(g, low, x, y, z) && (forall|i: int|
                0 <= i < n ==> !furniture_reach(#[trigger] rooms[i], spacing, x, z)) ==> clear(
                after,
                low,
                x,
                y,
                z,
            )
            &&& !free_at(g, x, z) && y < g.height - 1 && 1 < g.height - 1 ==> !free_at(after, x, z)
                && after.material(x, y, z) == g.material(x, y, z)
        }),
    decreases n,
{
    if n > 0 {
        let before = decorated_rooms(g, rooms, rolls, spacing, (n - 1) as nat);
        let room = rooms[n - 1];
        let roll = rolls[n - 1];
        lemma_rooms_kept(g, rooms, rolls, spacing, (n - 1) as nat, low, x, y, z);
        lemma_patterns_inset(room, roll);
        if let Some(p) = chosen_pattern(room, roll) {
            lemma_from_kept(before, room, p, spacing, room.x0 + spacing, low, x, y, z);
            assert(furnished(before, room, p, spacing).same_extents(g));
        }
        assert(decorated_rooms(g, rooms, rolls, spacing, n) == decorated(
            before,
            room,
            roll,
            spacing,
        ));
    }
}

pub proof fn lemma_cells_extents(
    g: GridModel,
    plan: PlanModel,
    m: ChunkMetrics,
    draws: Seq<CellRecord>,
    n: nat,
)
    ensures
        drawn_cells(g, plan, m, draws, n).same_extents(g),
    decreases n,
{
    if n > 0 {
        lemma_cells_extents(g, plan, m, draws, (n - 1) as nat);
    }
}

pub proof fn lemma_edges_extents(g: GridModel, plan: PlanModel, m: ChunkMetrics, n: nat)
    ensures
        with_west_edge(g, plan, m, n).same_extents(g),
        with_north_edge(g, plan, m, n).same_extents(g),
    decreases n,
{
    if n > 0 {
        lemma_edges_extents(g, plan, m, (n - 1) as nat);
    }
}

/// A voxel that no cell, no edge strip and no furniture walls up is clear.
proof fn lemma_chunk_clear(
    plan: PlanModel,
    rooms: Seq<Room>,
    m: ChunkMetrics,
    draws: Seq<CellRecord>,
    rolls: Seq<RoomRoll>,
    low: bool,
    x: int,
    y: int,
    z: int,
)
    requires
        belongs(plan, rooms, m, draws),
        low ==> y < m.height - 1,
        forall|cx: int, cz: int|
            0 <= cx < m.cells && 0 <= cz < m.cells ==> #[trigger] passes(
                plan,
                m,
                low,
                cx,
                cz,
                x,
                y,
                z,
            ),
        forall|c: int| 0 <= c < m.cells ==> #[trigger] edges_pass(plan, m, c, x, y, z),
        forall|i: int|
            0 <= i < rooms.len() ==> !furniture_reach(#[trigger] rooms[i], m.spacing as int, x, z),
    ensures
        clear(flooded(built_chunk(plan, rooms, m, draws, rolls)), low, x, y, z),
{
    let bare = empty_model(m.width as int, m.height as int, m.width as int);
    let cells = drawn_cells(bare, plan, m, draws, draws.len());
    let west = with_west_edge(cells, plan, m, m.cells as nat);
    let edged = with_north_edge(west, plan, m, m.cells as nat);
    let furnished = decorated_rooms(edged, rooms, rolls, m.spacing as int, rooms.len());
    let all = furnished.painted(corridor_lamp_brush(furnished));
    assert(clear(bare, low, x, y, z));
    lemma_cells_clear(bare, plan, m, draws, draws.len(), low, x, y, z);
    lemma_cells_extents(bare, plan, m, draws, draws.len());
    lemma_edges_clear(cells, plan, m, m.cells as nat, low, x, y, z);
    lemma_edges_extents(cells, plan, m, m.cells as nat);
    lemma_edges_clear(west, plan, m, m.cells as nat, low, x, y, z);
    lemma_edges_extents(west, plan, m, m.cells as nat);
    lemma_rooms_kept(edged, rooms, rolls, m.spacing as int, rooms.len(), low, x, y, z);
    assert(clear(all, low, x, y, z));
    law_lighting_frame(all, Spot { x, y, z });
    assert(material_at(flooded(all), Spot { x, y, z }) == all.material(x, y, z));
}

/// Under the doorway of an edge no strip of that edge stands.
proof fn lemma_doorway(m: ChunkMetrics, c: int, arch: bool, drop: int, v: int, y: int)
    requires
        m.wf(),
        0 <= c < m.cells,
        in_doorway(m, c, v),
        arch ==> drop == (if v < middle(m, c) {
            middle(m, c) - v
        } else {
            v - middle(m, c)
        }),
        !arch ==> drop == 0,
        y + drop < m.door_top,
    ensures
        y < strip_from(edge_opening(m, m.first(c), m.last(c), arch), m.door_top as int, v),
{
    lemma_cell_bounds(m, c);
    assert(m.cell_ok(c));
}

proof fn lemma_west_open(
    plan: PlanModel,
    rooms: Seq<Room>,
    m: ChunkMetrics,
    draws: Seq<CellRecord>,
    rolls: Seq<RoomRoll>,
    c: int,
    v: int,
    y: int,
)
    requires
        belongs(plan, rooms, m, draws),
        0 <= c < m.cells,
        m.first(0) < m.last(0),
        plain(plan, 0, c),
        in_doorway(m, c, v),
        m.first(c) < v < m.last(c),
        1 <= y,
        y + arch_drop(plan, m, 0, c, c, v) < m.door_top,
    ensures
        open_at(
            flooded(built_chunk(plan, rooms, m, draws, rolls)),
            m,
            m.top_of(plan.at(0, c).zone),
            0,
            y,
            v,
        ),
{
    let zone = plan.at(0, c).zone;
    let low = y < m.top_of(zone) && y < m.height - 1;
    let (x, z) = (0, v);
    lemma_doorway(m, c, zone == MicrobiomeZone::Arch, arch_drop(plan, m, 0, c, c, v), v, y);
    lemma_cell_bounds(m, c);
    lemma_cell_bounds(m, 0);
    assert forall|a: int, b: int| 0 <= a < m.cells && 0 <= b < m.cells implies #[trigger] passes(
        plan,
        m,
        low,
        a,
        b,
        x,
        y,
        z,
    ) by {
        if m.first(a) <= x <= m.last(a) && m.first(b) <= z <= m.last(b) {
            lemma_cell_bounds(m, a);
            lemma_cell_bounds(m, b);
            lemma_cells_apart(m, b, c, v);
            if a > 0 {
                lemma_borders_rise(m, 1, a);
            }
        }
    }
    assert forall|d: int| 0 <= d < m.cells implies #[trigger] edges_pass(plan, m, d, x, y, z) by {
        if m.first(d) <= v <= m.last(d) {
            lemma_cells_apart(m, d, c, v);
        }
    }
    lemma_chunk_clear(plan, rooms, m, draws, rolls, low, x, y, z);
}

proof fn lemma_north_open(
    plan: PlanModel,
    rooms: Seq<Room>,
    m: ChunkMetrics,
    draws: Seq<CellRecord>,
    rolls: Seq<RoomRoll>,
    c: int,
    v: int,
    y: int,
)
    requires
        belongs(plan, rooms, m, draws),
        0 <= c < m.cells,
        m.first(0) < m.last(0),
        plain(plan, c, 0),
        in_doorway(m, c, v),
        m.first(c) < v < m.last(c),
        1 <= y,
        y + arch_drop(plan, m, c, 0, c, v) < m.door_top,
    ensures
        open_at(
            flooded(built_chunk(plan, rooms, m, draws, rolls)),
            m,
            m.top_of(plan.at(c, 0).zone),
            v,
            y,
            0,
        ),
{
    let zone = plan.at(c, 0).zone;
    let low = y < m.top_of(zone) && y < m.height - 1;
    let (x, z) = (v, 0);
    lemma_doorway(m, c, zone == MicrobiomeZone::Arch, arch_drop(plan, m, c, 0, c, v), v, y);
    lemma_cell_bounds(m, c);
    lemma_cell_bounds(m, 0);
    assert forall|a: int, b: int| 0 <= a < m.cells && 0 <= b < m.cells implies #[trigger] passes(
        plan,
        m,
        low,
        a,
        b,
        x,
        y,
        z,
    ) by {
        if m.first(a) <= x <= m.last(a) && m.first(b) <= z <= m.last(b) {
            lemma_cell_bounds(m, a);
            lemma_cell_bounds(m, b);
            lemma_cells_apart(m, a, c, v);
            if b > 0 {
                lemma_borders_rise(m, 1, b);
            }
        }
    }
    assert forall|d: int| 0 <= d < m.cells implies #[trigger] edges_pass(plan, m, d, x, y, z) by {
        if m.first(d) <= v <= m.last(d) {
            lemma_cells_apart(m, d, c, v);
        }
    }
    lemma_chunk_clear(plan, rooms, m, draws, rolls, low, x, y, z);
}

proof fn lemma_east_open(
    plan: PlanModel,
    rooms: Seq<Room>,
    m: ChunkMetrics,
    draws: Seq<CellRecord>,
    rolls: Seq<RoomRoll>,
    c: int,
    v: int,
    y: int,
)
    requires
        belongs(plan, rooms, m, draws),
        0 <= c < m.cells,
        m.first(m.cells - 1) < m.last(m.cells - 1),
        plain(plan, m.cells - 1, c),
        in_doorway(m, c, v),
        m.first(c) < v < m.last(c),
        1 <= y,
        y + arch_drop(plan, m, m.cells - 1, c, c, v) < m.door_top,
    ensures
        open_at(
            flooded(built_chunk(plan, rooms, m, draws, rolls)),
            m,
            m.top_of(plan.at(m.cells - 1, c).zone),
            m.last(m.cells - 1),
            y,
            v,
        ),
{
    let zone = plan.at(m.cells - 1, c).zone;
    let low = y < m.top_of(zone) && y < m.height - 1;
    let (x, z) = (m.last(m.cells - 1), v);
    lemma_doorway(m, c, zone == MicrobiomeZone::Arch, arch_drop(plan, m, m.cells - 1, c, c, v), v, y);
    lemma_cell_bounds(m, c);
    lemma_cell_bounds(m, m.cells - 1);
    assert forall|a: int, b: int| 0 <= a < m.cells && 0 <= b < m.cells implies #[trigger] passes(
        plan,
        m,
        low,
        a,
        b,
        x,
        y,
        z,
    ) by {
        if m.first(a) <= x <= m.last(a) && m.first(b) <= z <= m.last(b) {
            lemma_cell_bounds(m, a);
            lemma_cell_bounds(m, b);
            lemma_cells_apart(m, b, c, v);
            lemma_cells_apart(m, a, m.cells - 1, x);
        }
    }
    assert forall|d: int| 0 <= d < m.cells implies #[trigger] edges_pass(plan, m, d, x, y, z) by {
    }
    lemma_chunk_clear(plan, rooms, m, draws, rolls, low, x, y, z);
}

proof fn lemma_south_open(
    plan: PlanModel,
    rooms: Seq<Room>,
    m: ChunkMetrics,
    draws: Seq<CellRecord>,
    rolls: Seq<RoomRoll>,
    c: int,
    v: int,
    y: int,
)
    requires
        belongs(plan, rooms, m, draws),
        0 <= c < m.cells,
        m.first(m.cells - 1) < m.last(m.cells - 1),
        plain(plan, c, m.cells - 1),
        in_doorway(m, c, v),
        m.first(c) < v < m.last(c),
        1 <= y,
        y + arch_drop(plan, m, c, m.cells - 1, c, v) < m.door_top,
    ensures
        open_at(
            flooded(built_chunk(plan, rooms, m, draws, rolls)),
            m,
            m.top_of(plan.at(c, m.cells - 1).zone),
            v,
            y,
            m.last(m.cells - 1),
        ),
{
    let zone = plan.at(c, m.cells - 1).zone;
    let low = y < m.top_of(zone) && y < m.height - 1;
    let (x, z) = (v, m.last(m.cells - 1));
    lemma_doorway(m, c, zone == MicrobiomeZone::Arch, arch_drop(plan, m, c, m.cells - 1, c, v), v, y);
    lemma_cell_bounds(m, c);
    lemma_cell_bounds(m, m.cells - 1);
    assert forall|a: int, b: int| 0 <= a < m.cells && 0 <= b < m.cells implies #[trigger] passes(
        plan,
        m,
        low,
        a,
        b,
        x,
        y,
        z,
    ) by {
        if m.first(a) <= x <= m.last(a) && m.first(b) <= z <= m.last(b) {
            lemma_cell_bounds(m, a);
            lemma_cell_bounds(m, b);
            lemma_cells_apart(m, a, c, v);
            lemma_cells_apart(m, b, m.cells - 1, z);
        }
    }
    assert forall|d: int| 0 <= d < m.cells implies #[trigger] edges_pass(plan, m, d, x, y, z) by {
    }
    lemma_chunk_clear(plan, rooms, m, draws, rolls, low, x, y, z);
}

/// Doorways are as wide as they are meant to be. On each of the four edges, every
/// cell that is neither a pillar field nor narrowed to a hall has a doorway in its
/// middle: no wall stands in it up to the top of the doorway, or up to the arch
/// that comes down a row for each voxel off the middle.
pub proof fn law_edge_doorways_are_open(
    plan: PlanModel,
    rooms: Seq<Room>,
    m: ChunkMetrics,
    draws: Seq<CellRecord>,
    rolls: Seq<RoomRoll>,
    c: int,
    v: int,
    y: int,
)
    requires
        belongs(plan, rooms, m, draws),
        0 <= c < m.cells,
        has_middle(m, 0),
        has_middle(m, m.cells - 1),
        in_doorway(m, c, v),
        m.first(c) < v < m.last(c),
        1 <= y,
    ensures
        ({
            let g = flooded(built_chunk(plan, rooms, m, draws, rolls));
            let end = m.cells - 1;
            let far = m.last(end);
            &&& plain(plan, 0, c) && y + arch_drop(plan, m, 0, c, c, v) < m.door_top ==> open_at(
                g,
                m,
                m.top_of(plan.at(0, c).zone),
                0,
                y,
                v,
            )
            &&& plain(plan, c, 0) && y + arch_drop(plan, m, c, 0, c, v) < m.door_top ==> open_at(
                g,
                m,
                m.top_of(plan.at(c, 0).zone),
                v,
                y,
                0,
            )
            &&& plain(plan, end, c) && y + arch_drop(plan, m, end, c, c, v) < m.door_top
                ==> open_at(g, m, m.top_of(plan.at(end, c).zone), far, y, v)
            &&& plain(plan, c, end) && y + arch_drop(plan, m, c, end, c, v) < m.door_top
                ==> open_at(g, m, m.top_of(plan.at(c, end).zone), v, y, far)
        }),
{
    let end = m.cells - 1;
    if plain(plan, 0, c) && y + arch_drop(plan, m, 0, c, c, v) < m.door_top {
        lemma_west_open(plan, rooms, m, draws, rolls, c, v, y);
    }
    if plain(plan, c, 0) && y + arch_drop(plan, m, c, 0, c, v) < m.door_top {
        lemma_north_open(plan, rooms, m, draws, rolls, c, v, y);
    }
    if plain(plan, end, c) && y + arch_drop(plan, m, end, c, c, v) < m.door_top {
        lemma_east_open(plan, rooms, m, draws, rolls, c, v, y);
    }
    if plain(plan, c, end) && y + arch_drop(plan, m, c, end, c, v) < m.door_top {
        lemma_south_open(plan, rooms, m, draws, rolls, c, v, y);
    }
}

/// Chunks connect. On each of the four edges of a built chunk, every cell that is
/// neither a pillar field nor narrowed to a hall has a column along the edge that
/// one can walk through up to the height of a doorway. Both sides of an edge put
/// it in the same place.
pub proof fn law_chunks_connect(
    plan: PlanModel,
    rooms: Seq<Room>,
    m: ChunkMetrics,
    draws: Seq<CellRecord>,
    rolls: Seq<RoomRoll>,
    c: int,
)
    requires
        belongs(plan, rooms, m, draws),
        m.medium_hole >= 1,
        0 <= c < m.cells,
        has_middle(m, c),
        has_middle(m, 0),
        has_middle(m, m.cells - 1),
    ensures
        ({
            let g = flooded(built_chunk(plan, rooms, m, draws, rolls));
            exists|v: int|
                m.first(c) <= v <= m.last(c) && #[trigger] along_edges(plan, m, g, c, v)
        }),
{
    let g = flooded(built_chunk(plan, rooms, m, draws, rolls));
    let end = m.cells - 1;
    let v = middle(m, c);
    lemma_cell_bounds(m, c);
    assert(in_doorway(m, c, v));
    assert forall|y: int| 1 <= y < m.door_top && plain(plan, 0, c) implies #[trigger] open_at(
        g,
        m,
        m.top_of(plan.at(0, c).zone),
        0,
        y,
        v,
    ) by {
        law_edge_doorways_are_open(plan, rooms, m, draws, rolls, c, v, y);
    }
    assert forall|y: int| 1 <= y < m.door_top && plain(plan, c, 0) implies #[trigger] open_at(
        g,
        m,
        m.top_of(plan.at(c, 0).zone),
        v,
        y,
        0,
    ) by {
        law_edge_doorways_are_open(plan, rooms, m, draws, rolls, c, v, y);
    }
    assert forall|y: int| 1 <= y < m.door_top && plain(plan, end, c) implies #[trigger] open_at(
        g,
        m,
        m.top_of(plan.at(end, c).zone),
        m.last(end),
        y,
        v,
    ) by {
        law_edge_doorways_are_open(plan, rooms, m, draws, rolls, c, v, y);
    }
    assert forall|y: int| 1 <= y < m.door_top && plain(plan, c, end) implies #[trigger] open_at(
        g,
        m,
        m.top_of(plan.at(c, end).zone),
        v,
        y,
        m.last(end),
    ) by {
        law_edge_doorways_are_open(plan, rooms, m, draws, rolls, c, v, y);
    }
    assert(along_edges(plan, m, g, c, v));
}

/// Position `v` along each edge can be walked through where the edge's cell is
/// neither a pillar field nor narrowed to a hall.
pub open spec fn along_edges(plan: PlanModel, m: ChunkMetrics, g: GridModel, c: int, v: int) -> bool {
    let end = m.cells - 1;
    let far = m.last(end);
    &&& plain(plan, 0, c) ==> walkable(g, m, m.top_of(plan.at(0, c).zone), 0, v)
    &&& plain(plan, c, 0) ==> walkable(g, m, m.top_of(plan.at(c, 0).zone), v, 0)
    &&& plain(plan, end, c) ==> walkable(g, m, m.top_of(plan.at(end, c).zone), far, v)
    &&& plain(plan, c, end) ==> walkable(g, m, m.top_of(plan.at(c, end).zone), v, far)
}

/// Drawing a cell changes nothing outside its footprint.
pub proof fn lemma_cell_is_local(
    g: GridModel,
    plan: PlanModel,
    m: ChunkMetrics,
    cx: int,
    cz: int,
    draws: CellRecord,
    x: int,
    y: int,
    z: int,
)
    requires
        m.wf(),
        0 <= cx < m.cells,
        0 <= cz < m.cells,
        !(m.first(cx) <= x <= m.last(cx) && m.first(cz) <= z <= m.last(cz)),
    ensures
        drawn_cell(g, plan, m, cx, cz, draws).material(x, y, z) == g.material(x, y, z),
{
    lemma_cell_bounds(m, cx);
    lemma_cell_bounds(m, cz);
    let f = footprint(m, cx, cz);
    assert(f.x0 == m.first(cx) && f.x1 == m.last(cx) && f.z0 == m.first(cz) && f.z1 == m.last(cz));
    assert(f.x0 <= (f.x0 + f.x1 + 1) / 2 <= f.x1);
    assert(f.z0 <= (f.z0 + f.z1 + 1) / 2 <= f.z1);
}

/// The voxel stands in the wall that the cell has on the south or east edge of the
/// chunk, beside the doorway.
spec fn in_edge_wall(
    plan: PlanModel,
    m: ChunkMetrics,
    cx: int,
    cz: int,
    x: int,
    y: int,
    z: int,
) -> bool {
    let zone = plan.at(cx, cz).zone;
    &&& zone != MicrobiomeZone::PillarField
    &&& 1 <= y <= m.top_of(zone)
    &&& m.first(cx) <= x <= m.last(cx)
    &&& m.first(cz) <= z <= m.last(cz)
    &&& (z == m.last(cz) && cz == m.cells - 1 && !in_doorway(m, cx, x)) || (x == m.last(cx) && cx
        == m.cells - 1 && !in_doorway(m, cz, z))
}

proof fn lemma_cell_walls_edge(
    g: GridModel,
    plan: PlanModel,
    m: ChunkMetrics,
    cx: int,
    cz: int,
    draws: CellRecord,
    x: int,
    y: int,
    z: int,
)
    requires
        m.wf(),
        plan.width == m.cells,
        plan.depth == m.cells,
        0 <= cx < m.cells,
        0 <= cz < m.cells,
        g.inside(x, y, z),
        in_edge_wall(plan, m, cx, cz, x, y, z),
    ensures
        drawn_cell(g, plan, m, cx, cz, draws).material(x, y, z) == VOXEL_WALL,
{
    lemma_cell_bounds(m, cx);
    lemma_cell_bounds(m, cz);
    let f = footprint(m, cx, cz);
    assert(f.x0 == m.first(cx) && f.x1 == m.last(cx) && f.z0 == m.first(cz) && f.z1 == m.last(cz));
}

proof fn lemma_cells_wall_edge(
    g: GridModel,
    plan: PlanModel,
    m: ChunkMetrics,
    draws: Seq<CellRecord>,
    n: nat,
    cx: int,
    cz: int,
    x: int,
    y: int,
    z: int,
)
    requires
        m.wf(),
        plan.width == m.cells,
        plan.depth == m.cells,
        0 <= cx < m.cells,
        0 <= cz < m.cells,
        cz * plan.width + cx < n <= plan.width * plan.depth,
        g.inside(x, y, z),
        in_edge_wall(plan, m, cx, cz, x, y, z),
    ensures
        drawn_cells(g, plan, m, draws, n).material(x, y, z) == VOXEL_WALL,
    decreases n,
{
    let i = n - 1;
    let before = drawn_cells(g, plan, m, draws, (n - 1) as nat);
    lemma_cell_index(plan.width, plan.depth, i);
    lemma_cells_extents(g, plan, m, draws, (n - 1) as nat);
    if i == cz * plan.width + cx {
        vstd::arithmetic::div_mod::lemma_fundamental_div_mod_converse(i, plan.width, cz, cx);
        lemma_cell_walls_edge(before, plan, m, cx, cz, draws[i], x, y, z);
    } else {
        lemma_cells_wall_edge(g, plan, m, draws, (n - 1) as nat, cx, cz, x, y, z);
        let (a, b) = (i % plan.width, i / plan.width);
        if m.first(a) <= x <= m.last(a) && m.first(b) <= z <= m.last(b) {
            lemma_cells_apart(m, a, cx, x);
            lemma_cells_apart(m, b, cz, z);
        }
        lemma_cell_is_local(before, plan, m, a, b, draws[i], x, y, z);
    }
}

/// The strips of the west and the north edge leave alone what is not on them.
proof fn lemma_edges_are_local(
    g: GridModel,
    plan: PlanModel,
    m: ChunkMetrics,
    n: nat,
    x: int,
    y: int,
    z: int,
)
    ensures
        x != 0 ==> with_west_edge(g, plan, m, n).material(x, y, z) == g.material(x, y, z),
        z != 0 ==> with_north_edge(g, plan, m, n).material(x, y, z) == g.material(x, y, z),
    decreases n,
{
    if n > 0 {
        lemma_edges_are_local(g, plan, m, (n - 1) as nat, x, y, z);
    }
}

/// The material of the walls on the west and the north edge.
pub open spec fn outer_wall(zone: MicrobiomeZone) -> u8 {
    if zone == MicrobiomeZone::RedRoom {
        VOXEL_RED_WALL
    } else {
        VOXEL_WALL
    }
}

proof fn lemma_edge_walls(
    g: GridModel,
    plan: PlanModel,
    m: ChunkMetrics,
    n: nat,
    c: int,
    v: int,
    y: int,
)
    requires
        m.wf(),
        0 <= c < n <= m.cells,
        m.first(c) <= v <= m.last(c),
        !in_doorway(m, c, v),
        1 <= y,
    ensures
        g.inside(0, y, v) && plan.at(0, c).zone != MicrobiomeZone::PillarField && y <= m.top_of(
            plan.at(0, c).zone,
        ) ==> with_west_edge(g, plan, m, n).material(0, y, v) == outer_wall(plan.at(0, c).zone),
        g.inside(v, y, 0) && plan.at(c, 0).zone != MicrobiomeZone::PillarField && y <= m.top_of(
            plan.at(c, 0).zone,
        ) ==> with_north_edge(g, plan, m, n).material(v, y, 0) == outer_wall(plan.at(c, 0).zone),
    decreases n,
{
    lemma_edges_extents(g, plan, m, (n - 1) as nat);
    lemma_cell_bounds(m, c);
    assert(m.cell_ok(c));
    if c < n - 1 {
        lemma_edge_walls(g, plan, m, (n - 1) as nat, c, v, y);
        if m.first(n - 1) <= v <= m.last(n - 1) {
            lemma_cells_apart(m, c, n - 1, v);
        }
    }
}

/// A wall that stands in the drawn cells and edges stands in the lit chunk.
proof fn lemma_walls_stay(
    plan: PlanModel,
    rooms: Seq<Room>,
    m: ChunkMetrics,
    draws: Seq<CellRecord>,
    rolls: Seq<RoomRoll>,
    w: u8,
    x: int,
    y: int,
    z: int,
)
    requires
        made_for(plan, m, draws),
        1 <= y < m.height - 1,
        is_wall(w),
        ({
            let bare = empty_model(m.width as int, m.height as int, m.width as int);
            let cells = drawn_cells(bare, plan, m, draws, draws.len());
            let west = with_west_edge(cells, plan, m, m.cells as nat);
            let edged = with_north_edge(west, plan, m, m.cells as nat);
            edged.material(x, y, z) == w && edged.material(x, 1, z) == w
        }),
    ensures
        flooded(built_chunk(plan, rooms, m, draws, rolls)).material(x, y, z) == w,
{
    let bare = empty_model(m.width as int, m.height as int, m.width as int);
    let cells = drawn_cells(bare, plan, m, draws, draws.len());
    let west = with_west_edge(cells, plan, m, m.cells as nat);
    let edged = with_north_edge(west, plan, m, m.cells as nat);
    let furnished = decorated_rooms(edged, rooms, rolls, m.spacing as int, rooms.len());
    let all = furnished.painted(corridor_lamp_brush(furnished));
    lemma_cells_extents(bare, plan, m, draws, draws.len());
    lemma_edges_extents(cells, plan, m, m.cells as nat);
    lemma_edges_extents(west, plan, m, m.cells as nat);
    lemma_rooms_kept(edged, rooms, rolls, m.spacing as int, rooms.len(), false, x, y, z);
    assert(all.material(x, y, z) == w);
    law_lighting_frame(all, Spot { x, y, z });
    assert(material_at(flooded(all), Spot { x, y, z }) == all.material(x, y, z));
}

/// Beside the doorways the edges of a chunk are walled, up to the ceiling row of
/// the cell. Walls on the west and north edge of a red room are red. Pillar fields
/// have no walls, and the top row of the chunk may hold lamps.
pub proof fn law_edges_are_walled_beside_doorways(
    plan: PlanModel,
    rooms: Seq<Room>,
    m: ChunkMetrics,
    draws: Seq<CellRecord>,
    rolls: Seq<RoomRoll>,
    c: int,
    v: int,
    y: int,
)
    requires
        made_for(plan, m, draws),
        0 <= c < m.cells,
        m.first(c) <= v <= m.last(c),
        0 < v,
        0 < m.last(m.cells - 1),
        !in_doorway(m, c, v),
        1 <= y < m.height - 1,
    ensures
        ({
            let g = flooded(built_chunk(plan, rooms, m, draws, rolls));
            let end = m.cells - 1;
            let far = m.last(end);
            &&& walled_up_to(plan, m, 0, c, y) ==> g.material(0, y, v) == outer_wall(
                plan.at(0, c).zone,
            )
            &&& walled_up_to(plan, m, c, 0, y) ==> g.material(v, y, 0) == outer_wall(
                plan.at(c, 0).zone,
            )
            &&& walled_up_to(plan, m, end, c, y) ==> g.material(far, y, v) == VOXEL_WALL
            &&& walled_up_to(plan, m, c, end, y) ==> g.material(v, y, far) == VOXEL_WALL
        }),
{
    let end = m.cells - 1;
    let far = m.last(end);
    let bare = empty_model(m.width as int, m.height as int, m.width as int);
    let cells = drawn_cells(bare, plan, m, draws, draws.len());
    let west = with_west_edge(cells, plan, m, m.cells as nat);
    let n = m.cells as nat;
    lemma_cell_bounds(m, c);
    lemma_cell_bounds(m, end);
    lemma_cells_extents(bare, plan, m, draws, draws.len());
    lemma_edges_extents(cells, plan, m, n);
    lemma_cell_index_bounds(m.cells as int, c, end);
    lemma_cell_index_bounds(m.cells as int, end, c);
    if walled_up_to(plan, m, 0, c, y) {
        lemma_edge_walls(cells, plan, m, n, c, v, y);
        lemma_edge_walls(cells, plan, m, n, c, v, 1);
        lemma_edges_are_local(west, plan, m, n, 0, y, v);
        lemma_edges_are_local(west, plan, m, n, 0, 1, v);
        lemma_walls_stay(
            plan,
            rooms,
            m,
            draws,
            rolls,
            outer_wall(plan.at(0, c).zone),
            0,
            y,
            v,
        );
    }
    if walled_up_to(plan, m, c, 0, y) {
        lemma_edge_walls(west, plan, m, n, c, v, y);
        lemma_edge_walls(west, plan, m, n, c, v, 1);
        lemma_walls_stay(
            plan,
            rooms,
            m,
            draws,
            rolls,
            outer_wall(plan.at(c, 0).zone),
            v,
            y,
            0,
        );
    }
    if walled_up_to(plan, m, end, c, y) {
        lemma_cells_wall_edge(bare, plan, m, draws, draws.len(), end, c, far, y, v);
        lemma_cells_wall_edge(bare, plan, m, draws, draws.len(), end, c, far, 1, v);
        lemma_edges_are_local(cells, plan, m, n, far, y, v);
        lemma_edges_are_local(west, plan, m, n, far, y, v);
        lemma_edges_are_local(cells, plan, m, n, far, 1, v);
        lemma_edges_are_local(west, plan, m, n, far, 1, v);
        lemma_walls_stay(plan, rooms, m, draws, rolls, VOXEL_WALL, far, y, v);
    }
    if walled_up_to(plan, m, c, end, y) {
        lemma_cells_wall_edge(bare, plan, m, draws, draws.len(), c, end, v, y, far);
        lemma_cells_wall_edge(bare, plan, m, draws, draws.len(), c, end, v, 1, far);
        lemma_edges_are_local(cells, plan, m, n, v, y, far);
        lemma_edges_are_local(west, plan, m, n, v, y, far);
        lemma_edges_are_local(cells, plan, m, n, v, 1, far);
        lemma_edges_are_local(west, plan, m, n, v, 1, far);
        lemma_walls_stay(plan, rooms, m, draws, rolls, VOXEL_WALL, v, y, far);
    }
}

/// The cell has walls, and they reach row `y`.
pub open spec fn walled_up_to(plan: PlanModel, m: ChunkMetrics, cx: int, cz: int, y: int) -> bool {
    plan.at(cx, cz).zone != MicrobiomeZone::PillarField && y <= m.top_of(plan.at(cx, cz).zone)
}

pub proof fn lemma_cell_index_bounds(width: int, cx: int, cz: int)
    requires
        0 <= cx < width,
        0 <= cz < width,
    ensures
        0 <= cz * width + cx < width * width,
{
    assert(0 <= cz * width + cx < width * width) by (nonlinear_arith)
        requires
            0 <= cx < width,
            0 <= cz < width,
    ;
}

} // verus!
