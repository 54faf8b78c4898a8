//! Drawing plan cells as voxels: floors, ceilings, walls with doorways, pillars
//! and narrowed halls.

use vstd::prelude::*;

use crate::domain::entities::blueprint::{Blueprint, MicrobiomeZone, PlanCell, PlanModel};
use crate::domain::entities::voxel_grid::{
    GridModel, VoxelGrid, VOXEL_AIR, VOXEL_CEILING, VOXEL_FLOOR, VOXEL_LIGHT, VOXEL_RED_LIGHT,
    VOXEL_WALL,
};
use crate::use_cases::chunk::metrics::{ChunkMetrics, CELL_SPAN_CM, MAX_SPAN};
use crate::use_cases::chunk::paint::{fill_box, fill_column};

verus! {

/// Floor margin of a cell in which no hole is cut.
pub const HOLE_MARGIN: usize = 6;

/// Clear width, in voxels, to which halls are narrowed.
pub const HALL_WIDTH: usize = 26;

/// What chance decides about one doorway.
#[derive(Debug, Clone, Copy, PartialEq, Eq, Structural)]
pub struct DoorDraw {
    /// Percentage that picks the width class.
    pub width_choice: i32,
    /// Distance of the opening from the start of the cell, in centimetres.
    pub offset_cm: u32,
}

/// What chance decides about one cell.
#[derive(Debug, Clone)]
pub struct CellDraws {
    pub south: DoorDraw,
    pub east: DoorDraw,
    /// Floor holes of a holes cell, column by column; mid-pillar rows of a
    /// pillar field, from the floor up.
    pub details: Vec<bool>,
}

/// The mathematical content of what chance decides about one cell.
#[verifier::ext_equal]
pub struct CellRecord {
    pub south: DoorDraw,
    pub east: DoorDraw,
    pub details: Seq<bool>,
}

impl View for CellDraws {
    type V = CellRecord;

    open spec fn view(&self) -> CellRecord {
        CellRecord { south: self.south, east: self.east, details: self.details@ }
    }
}

/// The records of a list of draws.
pub open spec fn records(draws: Seq<CellDraws>) -> Seq<CellRecord> {
    Seq::new(draws.len(), |i: int| draws[i]@)
}

/// An opening in a wall strip.
#[derive(Debug, Clone, Copy, PartialEq, Eq, Structural)]
pub struct Opening {
    pub start: usize,
    pub width: usize,
    /// The wall runs on across the opening.
    pub closed: bool,
    pub arch: bool,
}

/// The voxel rectangle of a cell, both ends included.
#[derive(Debug, Clone, Copy, PartialEq, Eq, Structural)]
pub struct Footprint {
    pub x0: usize,
    pub x1: usize,
    pub z0: usize,
    pub z1: usize,
}

pub open spec fn footprint(m: ChunkMetrics, cx: int, cz: int) -> Footprint {
    Footprint {
        x0: m.first(cx) as usize,
        x1: m.last(cx) as usize,
        z0: m.first(cz) as usize,
        z1: m.last(cz) as usize,
    }
}

pub open spec fn in_footprint(f: Footprint, x: int, z: int) -> bool {
    f.x0 <= x <= f.x1 && f.z0 <= z <= f.z1
}

/// Whether a floor column lies where holes may be cut.
pub open spec fn may_hole(f: Footprint, x: int, z: int) -> bool {
    f.x0 + HOLE_MARGIN <= x && x + HOLE_MARGIN <= f.x1 && f.z0 + HOLE_MARGIN <= z && z + HOLE_MARGIN
        <= f.z1
}

/// Columns along one axis where holes may be cut.
pub open spec fn hole_span(a: int, b: int) -> int {
    if b - a + 1 > 2 * HOLE_MARGIN {
        b - a + 1 - 2 * HOLE_MARGIN
    } else {
        0
    }
}

/// Number of the draw that decides about a floor column.
pub open spec fn hole_index(f: Footprint, x: int, z: int) -> int {
    (x - f.x0 - HOLE_MARGIN) * hole_span(f.z0 as int, f.z1 as int) + (z - f.z0 - HOLE_MARGIN)
}

pub open spec fn hole_count(f: Footprint) -> int {
    hole_span(f.x0 as int, f.x1 as int) * hole_span(f.z0 as int, f.z1 as int)
}

/// Details that a cell of the given zone takes.
pub open spec fn detail_count(f: Footprint, zone: MicrobiomeZone, top: int) -> int {
    match zone {
        MicrobiomeZone::Holes => hole_count(f),
        MicrobiomeZone::PillarField => top,
        _ => 0,
    }
}

/// Material of the ceiling row: a lamp on every tenth column, none in blackout.
pub open spec fn ceiling_material(zone: MicrobiomeZone, x: int, z: int) -> u8 {
    if zone != MicrobiomeZone::Blackout && x % 10 == 0 && z % 10 == 0 {
        if zone == MicrobiomeZone::RedRoom {
            VOXEL_RED_LIGHT
        } else {
            VOXEL_LIGHT
        }
    } else {
        VOXEL_CEILING
    }
}

pub open spec fn floor_material(
    f: Footprint,
    zone: MicrobiomeZone,
    details: Seq<bool>,
    x: int,
    z: int,
) -> u8 {
    if zone == MicrobiomeZone::Holes && may_hole(f, x, z) && details[hole_index(f, x, z)] {
        VOXEL_AIR
    } else {
        VOXEL_FLOOR
    }
}

/// Floor, ceiling row, and solid ceiling above it everywhere but in an atrium.
pub open spec fn shell_material(
    f: Footprint,
    zone: MicrobiomeZone,
    top: int,
    details: Seq<bool>,
    x: int,
    y: int,
    z: int,
) -> Option<u8> {
    if y == top {
        Some(ceiling_material(zone, x, z))
    } else if y > top && zone != MicrobiomeZone::Atrium {
        Some(VOXEL_CEILING)
    } else if y == 0 {
        Some(floor_material(f, zone, details, x, z))
    } else {
        None
    }
}

pub open spec fn shell_brush(
    f: Footprint,
    zone: MicrobiomeZone,
    top: int,
    details: Seq<bool>,
) -> spec_fn(int, int, int) -> Option<u8> {
    |i: int, j: int, k: int|
        if in_footprint(f, i, k) {
            shell_material(f, zone, top, details, i, j, k)
        } else {
            None
        }
}

/// Pillars at the four corners, and a broken one in the middle.
pub open spec fn pillar_brush(f: Footprint, top: int, details: Seq<bool>) -> spec_fn(
    int,
    int,
    int,
) -> Option<u8> {
    |i: int, j: int, k: int|
        if 1 <= j <= top && (((i == f.x0 || i == f.x1) && (k == f.z0 || k == f.z1)) || (i == (f.x0
            + f.x1 + 1) / 2 && k == (f.z0 + f.z1 + 1) / 2 && details[j - 1])) {
            Some(VOXEL_WALL)
        } else {
            None
        }
}

pub open spec fn distance(a: int, b: int) -> int {
    if a >= b {
        a - b
    } else {
        b - a
    }
}

/// Lowest wall row at position `v` of a strip: the floor beside an opening, the
/// lintel over it, stepped down from the middle under an arch.
pub open spec fn strip_from(o: Opening, door_top: int, v: int) -> int {
    if o.closed || v < o.start || v >= o.start + o.width {
        1
    } else if o.arch {
        let d = distance(v, o.start + o.width / 2);
        if door_top >= d {
            door_top - d
        } else {
            0
        }
    } else {
        door_top
    }
}

/// A wall along x at depth `z`.
pub open spec fn strip_x_brush(
    x0: int,
    x1: int,
    z: int,
    top: int,
    door_top: int,
    o: Opening,
    m: u8,
) -> spec_fn(int, int, int) -> Option<u8> {
    |i: int, j: int, k: int|
        if k == z && x0 <= i <= x1 && strip_from(o, door_top, i) <= j <= top {
            Some(m)
        } else {
            None
        }
}

/// A wall along z at `x`.
pub open spec fn strip_z_brush(
    z0: int,
    z1: int,
    x: int,
    top: int,
    door_top: int,
    o: Opening,
    m: u8,
) -> spec_fn(int, int, int) -> Option<u8> {
    |i: int, j: int, k: int|
        if i == x && z0 <= k <= z1 && strip_from(o, door_top, k) <= j <= top {
            Some(m)
        } else {
            None
        }
}

fn strip_height(o: Opening, door_top: usize, v: usize) -> (from: usize)
    requires
        o.start <= 2 * MAX_SPAN,
        o.width <= MAX_SPAN,
        door_top <= MAX_SPAN,
    ensures
        from == strip_from(o, door_top as int, v as int),
{
    if o.closed || v < o.start || v >= o.start + o.width {
        1
    } else if o.arch {
        let mid: usize = o.start + o.width / 2;
        let d: usize = if v >= mid {
            v - mid
        } else {
            mid - v
        };
        if door_top >= d {
            door_top - d
        } else {
            0
        }
    } else {
        door_top
    }
}

pub fn draw_strip_x(
    grid: &mut VoxelGrid,
    x0: usize,
    x1: usize,
    z: usize,
    top: usize,
    door_top: usize,
    o: Opening,
    m: u8,
)
    requires
        old(grid).wf(),
        x1 <= MAX_SPAN,
        top <= MAX_SPAN,
        o.start <= 2 * MAX_SPAN,
        o.width <= MAX_SPAN,
        door_top <= MAX_SPAN,
    ensures
        final(grid).wf(),
        final(grid)@ == old(grid)@.painted(
            strip_x_brush(x0 as int, x1 as int, z as int, top as int, door_top as int, o, m),
        ),
{
    let ghost start = grid@;
    let ghost (a, t, dt) = (x0 as int, top as int, door_top as int);
    let mut v: usize = x0;
    assert(grid@.cells =~= start.painted(strip_x_brush(a, a - 1, z as int, t, dt, o, m)).cells);
    while v <= x1
        invariant
            grid.wf(),
            x0 <= v,
            v <= x1 + 1 || v == x0,
            x1 <= MAX_SPAN,
            top <= MAX_SPAN,
            o.start <= 2 * MAX_SPAN,
            o.width <= MAX_SPAN,
            door_top <= MAX_SPAN,
            a == x0,
            t == top,
            dt == door_top,
            grid@ == start.painted(strip_x_brush(a, v - 1, z as int, t, dt, o, m)),
        decreases x1 + 1 - v,
    {
        let from: usize = strip_height(o, door_top, v);
        fill_column(grid, v, z, from, top + 1, m);
        assert(grid@.cells =~= start.painted(
            strip_x_brush(a, v as int, z as int, t, dt, o, m),
        ).cells);
        v = v + 1;
    }
    assert(grid@.cells =~= start.painted(
        strip_x_brush(a, x1 as int, z as int, t, dt, o, m),
    ).cells);
}

pub fn draw_strip_z(
    grid: &mut VoxelGrid,
    z0: usize,
    z1: usize,
    x: usize,
    top: usize,
    door_top: usize,
    o: Opening,
    m: u8,
)
    requires
        old(grid).wf(),
        z1 <= MAX_SPAN,
        top <= MAX_SPAN,
        o.start <= 2 * MAX_SPAN,
        o.width <= MAX_SPAN,
        door_top <= MAX_SPAN,
    ensures
        final(grid).wf(),
        final(grid)@ == old(grid)@.painted(
            strip_z_brush(z0 as int, z1 as int, x as int, top as int, door_top as int, o, m),
        ),
{
    let ghost start = grid@;
    let ghost (a, t, dt) = (z0 as int, top as int, door_top as int);
    let mut v: usize = z0;
    assert(grid@.cells =~= start.painted(strip_z_brush(a, a - 1, x as int, t, dt, o, m)).cells);
    while v <= z1
        invariant
            grid.wf(),
            z0 <= v,
            v <= z1 + 1 || v == z0,
            z1 <= MAX_SPAN,
            top <= MAX_SPAN,
            o.start <= 2 * MAX_SPAN,
            o.width <= MAX_SPAN,
            door_top <= MAX_SPAN,
            a == z0,
            t == top,
            dt == door_top,
            grid@ == start.painted(strip_z_brush(a, v - 1, x as int, t, dt, o, m)),
        decreases z1 + 1 - v,
    {
        let from: usize = strip_height(o, door_top, v);
        fill_column(grid, x, v, from, top + 1, m);
        assert(grid@.cells =~= start.painted(
            strip_z_brush(a, v as int, x as int, t, dt, o, m),
        ).cells);
        v = v + 1;
    }
    assert(grid@.cells =~= start.painted(
        strip_z_brush(a, z1 as int, x as int, t, dt, o, m),
    ).cells);
}

proof fn lemma_hole_index(f: Footprint, x: int, z: int)
    requires
        may_hole(f, x, z),
    ensures
        0 <= hole_index(f, x, z) < hole_count(f),
        0 <= (x - f.x0 - HOLE_MARGIN) * hole_span(f.z0 as int, f.z1 as int) <= hole_index(f, x, z),
{
    let a = x - f.x0 - HOLE_MARGIN;
    let b = z - f.z0 - HOLE_MARGIN;
    let w = hole_span(f.x0 as int, f.x1 as int);
    let d = hole_span(f.z0 as int, f.z1 as int);
    assert(0 <= a < w && 0 <= b < d);
    assert(0 <= a * d && a * d + b < w * d) by (nonlinear_arith)
        requires
            0 <= a < w,
            0 <= b < d,
    ;
}

/// The part of a brush that lies in one column.
spec fn in_column(brush: spec_fn(int, int, int) -> Option<u8>, x: int, z: int) -> spec_fn(
    int,
    int,
    int,
) -> Option<u8> {
    |i: int, j: int, k: int|
        if i == x && k == z {
            brush(i, j, k)
        } else {
            None
        }
}

/// The part of a brush that lies before column `x`, `z`.
spec fn before_column(brush: spec_fn(int, int, int) -> Option<u8>, x: int, z: int) -> spec_fn(
    int,
    int,
    int,
) -> Option<u8> {
    |i: int, j: int, k: int|
        if i < x || (i == x && k < z) {
            brush(i, j, k)
        } else {
            None
        }
}

/// Draws the floor and ceiling of one column of a cell.
fn draw_shell_column(
    grid: &mut VoxelGrid,
    f: Footprint,
    zone: MicrobiomeZone,
    top: usize,
    details: &Vec<bool>,
    x: usize,
    z: usize,
)
    requires
        old(grid).wf(),
        f.x1 <= MAX_SPAN,
        f.z1 <= MAX_SPAN,
        top <= MAX_SPAN,
        in_footprint(f, x as int, z as int),
        zone == MicrobiomeZone::Holes ==> details@.len() == hole_count(f),
    ensures
        final(grid).wf(),
        final(grid)@ == old(grid)@.painted(
            in_column(shell_brush(f, zone, top as int, details@), x as int, z as int),
        ),
{
    let ghost start = grid@;
    let height: usize = grid.height();
    grid.set(x, 0, z, VOXEL_FLOOR);
    if zone == MicrobiomeZone::Holes && x >= f.x0 + HOLE_MARGIN && x + HOLE_MARGIN <= f.x1 && z
        >= f.z0 + HOLE_MARGIN && z + HOLE_MARGIN <= f.z1 {
        proof {
            lemma_hole_index(f, x as int, z as int);
        }
        let span: usize = f.z1 - f.z0 + 1 - 2 * HOLE_MARGIN;
        assert(span == hole_span(f.z0 as int, f.z1 as int));
        assert(details.len() == hole_count(f));
        let at: usize = (x - f.x0 - HOLE_MARGIN) * span + (z - f.z0 - HOLE_MARGIN);
        if details[at] {
            grid.set(x, 0, z, VOXEL_AIR);
        }
    }
    let ceiling: u8 = if zone != MicrobiomeZone::Blackout && x % 10 == 0 && z % 10 == 0 {
        if zone == MicrobiomeZone::RedRoom {
            VOXEL_RED_LIGHT
        } else {
            VOXEL_LIGHT
        }
    } else {
        VOXEL_CEILING
    };
    grid.set(x, top, z, ceiling);
    if zone != MicrobiomeZone::Atrium {
        fill_column(grid, x, z, top + 1, height, VOXEL_CEILING);
    }
    assert(grid@.cells =~= start.painted(
        in_column(shell_brush(f, zone, top as int, details@), x as int, z as int),
    ).cells);
}

/// Draws the floor and ceiling of a cell.
fn draw_shell(
    grid: &mut VoxelGrid,
    f: Footprint,
    zone: MicrobiomeZone,
    top: usize,
    details: &Vec<bool>,
)
    requires
        old(grid).wf(),
        f.x0 <= f.x1 <= MAX_SPAN,
        f.z0 <= f.z1 <= MAX_SPAN,
        top <= MAX_SPAN,
        zone == MicrobiomeZone::Holes ==> details@.len() == hole_count(f),
    ensures
        final(grid).wf(),
        final(grid)@ == old(grid)@.painted(shell_brush(f, zone, top as int, details@)),
{
    let ghost start = grid@;
    let ghost brush = shell_brush(f, zone, top as int, details@);
    let mut x: usize = f.x0;
    assert(grid@.cells =~= start.painted(before_column(brush, x as int, 0)).cells);
    while x <= f.x1
        invariant
            grid.wf(),
            f.x0 <= x <= f.x1 + 1,
            f.x0 <= f.x1 <= MAX_SPAN,
            f.z0 <= f.z1 <= MAX_SPAN,
            top <= MAX_SPAN,
            zone == MicrobiomeZone::Holes ==> details@.len() == hole_count(f),
            brush == shell_brush(f, zone, top as int, details@),
            grid@ == start.painted(before_column(brush, x as int, 0)),
        decreases f.x1 + 1 - x,
    {
        let mut z: usize = f.z0;
        assert(grid@.cells =~= start.painted(before_column(brush, x as int, z as int)).cells);
        while z <= f.z1
            invariant
                grid.wf(),
                f.x0 <= x <= f.x1 <= MAX_SPAN,
                f.z0 <= z <= f.z1 + 1,
                f.z0 <= f.z1 <= MAX_SPAN,
                top <= MAX_SPAN,
                zone == MicrobiomeZone::Holes ==> details@.len() == hole_count(f),
                brush == shell_brush(f, zone, top as int, details@),
                grid@ == start.painted(before_column(brush, x as int, z as int)),
            decreases f.z1 + 1 - z,
        {
            draw_shell_column(grid, f, zone, top, details, x, z);
            assert(grid@.cells =~= start.painted(before_column(brush, x as int, z + 1)).cells);
            z = z + 1;
        }
        assert(grid@.cells =~= start.painted(before_column(brush, x + 1, 0)).cells);
        x = x + 1;
    }
    assert(grid@.cells =~= start.painted(brush).cells);
}

/// Draws the pillars of a pillar-field cell.
fn draw_pillars(grid: &mut VoxelGrid, f: Footprint, top: usize, details: &Vec<bool>)
    requires
        old(grid).wf(),
        f.x0 <= f.x1 <= MAX_SPAN,
        f.z0 <= f.z1 <= MAX_SPAN,
        top <= MAX_SPAN,
        details@.len() == top,
    ensures
        final(grid).wf(),
        final(grid)@ == old(grid)@.painted(pillar_brush(f, top as int, details@)),
{
    let ghost start = grid@;
    let mid_x: usize = (f.x0 + f.x1 + 1) / 2;
    let mid_z: usize = (f.z0 + f.z1 + 1) / 2;
    let mut y: usize = 1;
    assert(grid@.cells =~= start.painted(pillar_brush(f, 0, details@)).cells);
    while y <= top
        invariant
            grid.wf(),
            1 <= y <= top + 1,
            top <= MAX_SPAN,
            details@.len() == top,
            mid_x == (f.x0 + f.x1 + 1) / 2,
            mid_z == (f.z0 + f.z1 + 1) / 2,
            grid@ == start.painted(pillar_brush(f, y - 1, details@)),
        decreases top + 1 - y,
    {
        grid.set(f.x0, y, f.z0, VOXEL_WALL);
        grid.set(f.x1, y, f.z0, VOXEL_WALL);
        grid.set(f.x0, y, f.z1, VOXEL_WALL);
        grid.set(f.x1, y, f.z1, VOXEL_WALL);
        if details[y - 1] {
            grid.set(mid_x, y, mid_z, VOXEL_WALL);
        }
        assert(grid@.cells =~= start.painted(pillar_brush(f, y as int, details@)).cells);
        y = y + 1;
    }
}

/// Width in voxels of the opening that a percentage picks.
pub open spec fn hole_width(m: ChunkMetrics, width_choice: i32) -> usize {
    if width_choice < 15 {
        m.narrow_hole
    } else if width_choice < 85 {
        m.medium_hole
    } else {
        m.wide_hole
    }
}

/// The doorway that chance puts in a wall that starts at voxel `first`.
pub open spec fn drawn_opening(m: ChunkMetrics, d: DoorDraw, first: int, closed: bool, arch: bool) -> Opening {
    Opening {
        start: (first + m.offsets@[d.offset_cm as int]) as usize,
        width: hole_width(m, d.width_choice),
        closed,
        arch,
    }
}

/// The doorway in the middle of every wall on the edge of the chunk.
pub open spec fn edge_opening(m: ChunkMetrics, first: int, last: int, arch: bool) -> Opening {
    Opening {
        start: ((first + last + 1) / 2 - m.medium_hole / 2) as usize,
        width: m.medium_hole,
        closed: false,
        arch,
    }
}

/// The two cells belong to one room.
pub open spec fn same_room(a: PlanCell, b: PlanCell) -> bool {
    a.room is Some && a.room == b.room
}

/// South wall: none inside a room, a drawn doorway between cells, a doorway in
/// the middle on the edge of the chunk.
pub open spec fn with_south_wall(
    g: GridModel,
    plan: PlanModel,
    m: ChunkMetrics,
    cx: int,
    cz: int,
    d: DoorDraw,
) -> GridModel {
    let cell = plan.at(cx, cz);
    let f = footprint(m, cx, cz);
    let top = m.top_of(cell.zone);
    let arch = cell.zone == MicrobiomeZone::Arch;
    if cz == plan.depth - 1 {
        g.painted(
            strip_x_brush(
                f.x0 as int,
                f.x1 as int,
                f.z1 as int,
                top,
                m.door_top as int,
                edge_opening(m, f.x0 as int, f.x1 as int, arch),
                VOXEL_WALL,
            ),
        )
    } else if same_room(cell, plan.at(cx, cz + 1)) {
        g
    } else {
        g.painted(
            strip_x_brush(
                f.x0 as int,
                f.x1 as int,
                f.z1 as int,
                top,
                m.door_top as int,
                drawn_opening(m, d, f.x0 as int, cell.south, arch),
                VOXEL_WALL,
            ),
        )
    }
}

/// East wall, by the same rules.
pub open spec fn with_east_wall(
    g: GridModel,
    plan: PlanModel,
    m: ChunkMetrics,
    cx: int,
    cz: int,
    d: DoorDraw,
) -> GridModel {
    let cell = plan.at(cx, cz);
    let f = footprint(m, cx, cz);
    let top = m.top_of(cell.zone);
    let arch = cell.zone == MicrobiomeZone::Arch;
    if cx == plan.width - 1 {
        g.painted(
            strip_z_brush(
                f.z0 as int,
                f.z1 as int,
                f.x1 as int,
                top,
                m.door_top as int,
                edge_opening(m, f.z0 as int, f.z1 as int, arch),
                VOXEL_WALL,
            ),
        )
    } else if same_room(cell, plan.at(cx + 1, cz)) {
        g
    } else {
        g.painted(
            strip_z_brush(
                f.z0 as int,
                f.z1 as int,
                f.x1 as int,
                top,
                m.door_top as int,
                drawn_opening(m, d, f.z0 as int, cell.east, arch),
                VOXEL_WALL,
            ),
        )
    }
}

/// The corridor runs on to the north or the south.
pub open spec fn hall_ns(plan: PlanModel, cx: int, cz: int) -> bool {
    let cell = plan.at(cx, cz);
    cell.is_corridor && ((!cell.north && cz > 0 && plan.at(cx, cz - 1).is_corridor) || (!cell.south
        && cz < plan.depth - 1 && plan.at(cx, cz + 1).is_corridor))
}

/// The corridor runs on to the east or the west.
pub open spec fn hall_ew(plan: PlanModel, cx: int, cz: int) -> bool {
    let cell = plan.at(cx, cz);
    cell.is_corridor && ((!cell.east && cx < plan.width - 1 && plan.at(cx + 1, cz).is_corridor) || (
    !cell.west && cx > 0 && plan.at(cx - 1, cz).is_corridor))
}

/// How far a hall's walls move in from either side.
pub open spec fn hall_inset(a: int, b: int) -> int {
    if b - a + 1 >= HALL_WIDTH {
        (b - a + 1 - HALL_WIDTH) / 2
    } else {
        0
    }
}

/// Thickened walls: both sides of a straight hall, the corners of a crossing.
pub open spec fn hall_brush(f: Footprint, top: int, ns: bool, ew: bool) -> spec_fn(
    int,
    int,
    int,
) -> Option<u8> {
    let ix = hall_inset(f.x0 as int, f.x1 as int);
    let iz = hall_inset(f.z0 as int, f.z1 as int);
    |i: int, j: int, k: int|
        if 1 <= j <= top && in_footprint(f, i, k) && (ns || ew) && (ns ==> i <= f.x0 + ix || i >= f.x1
            - ix) && (ew ==> k <= f.z0 + iz || k >= f.z1 - iz) {
            Some(VOXEL_WALL)
        } else {
            None
        }
}

/// The grid after one cell is drawn.
pub open spec fn drawn_cell(
    g: GridModel,
    plan: PlanModel,
    m: ChunkMetrics,
    cx: int,
    cz: int,
    draws: CellRecord,
) -> GridModel {
    let cell = plan.at(cx, cz);
    let f = footprint(m, cx, cz);
    let top = m.top_of(cell.zone);
    let shell = g.painted(shell_brush(f, cell.zone, top, draws.details));
    if cell.zone == MicrobiomeZone::PillarField {
        shell.painted(pillar_brush(f, top, draws.details))
    } else {
        let south = with_south_wall(shell, plan, m, cx, cz, draws.south);
        let east = with_east_wall(south, plan, m, cx, cz, draws.east);
        east.painted(hall_brush(f, top, hall_ns(plan, cx, cz), hall_ew(plan, cx, cz)))
    }
}

/// The draws fit the cell: offsets inside its span, one detail per decision.
pub open spec fn draws_fit(plan: PlanModel, m: ChunkMetrics, cx: int, cz: int, d: CellRecord) -> bool {
    let zone = plan.at(cx, cz).zone;
    &&& d.south.offset_cm < CELL_SPAN_CM
    &&& d.east.offset_cm < CELL_SPAN_CM
    &&& d.details.len() == detail_count(footprint(m, cx, cz), zone, m.top_of(zone))
}

fn opening_width(m: &ChunkMetrics, width_choice: i32) -> (w: usize)
    requires
        m.wf(),
    ensures
        w == hole_width(*m, width_choice),
        w <= MAX_SPAN,
{
    if width_choice < 15 {
        m.narrow_hole
    } else if width_choice < 85 {
        m.medium_hole
    } else {
        m.wide_hole
    }
}

fn door_opening(m: &ChunkMetrics, d: DoorDraw, first: usize, closed: bool, arch: bool) -> (o: Opening)
    requires
        m.wf(),
        d.offset_cm < CELL_SPAN_CM,
        first <= MAX_SPAN,
    ensures
        o == drawn_opening(*m, d, first as int, closed, arch),
        o.start <= 2 * MAX_SPAN,
        o.width <= MAX_SPAN,
{
    let offset: usize = m.offsets[d.offset_cm as usize];
    Opening { start: first + offset, width: opening_width(m, d.width_choice), closed, arch }
}

pub fn middle_opening(m: &ChunkMetrics, first: usize, last: usize, arch: bool) -> (o: Opening)
    requires
        m.wf(),
        first <= MAX_SPAN,
        last <= MAX_SPAN,
        m.medium_hole / 2 <= (first + last + 1) / 2,
    ensures
        o == edge_opening(*m, first as int, last as int, arch),
        o.start <= 2 * MAX_SPAN,
        o.width <= MAX_SPAN,
{
    let start: usize = (first + last + 1) / 2 - m.medium_hole / 2;
    Opening { start, width: m.medium_hole, closed: false, arch }
}

pub fn cell_footprint(m: &ChunkMetrics, cx: usize, cz: usize) -> (f: Footprint)
    requires
        m.wf(),
        cx < m.cells,
        cz < m.cells,
    ensures
        f == footprint(*m, cx as int, cz as int),
        f.x0 == m.first(cx as int),
        f.x1 == m.last(cx as int),
        f.z0 == m.first(cz as int),
        f.z1 == m.last(cz as int),
        f.x0 <= f.x1 < m.width,
        f.z0 <= f.z1 < m.width,
        m.medium_hole / 2 <= (f.x0 + f.x1 + 1) / 2,
        m.medium_hole / 2 <= (f.z0 + f.z1 + 1) / 2,
{
    assert(m.cell_ok(cx as int) && m.cell_ok(cz as int));
    Footprint {
        x0: m.first_voxel(cx),
        x1: m.last_voxel(cx),
        z0: m.first_voxel(cz),
        z1: m.last_voxel(cz),
    }
}

fn draw_south_wall(
    grid: &mut VoxelGrid,
    plan: &Blueprint,
    m: &ChunkMetrics,
    cx: usize,
    cz: usize,
    d: DoorDraw,
)
    requires
        old(grid).wf(),
        plan.wf(),
        m.wf(),
        plan@.width == m.cells,
        plan@.depth == m.cells,
        cx < m.cells,
        cz < m.cells,
        d.offset_cm < CELL_SPAN_CM,
    ensures
        final(grid).wf(),
        final(grid)@ == with_south_wall(old(grid)@, plan@, *m, cx as int, cz as int, d),
{
    let cell = plan.get(cx, cz);
    let f = cell_footprint(m, cx, cz);
    let top: usize = m.wall_top(cell.zone);
    let arch: bool = cell.zone == MicrobiomeZone::Arch;
    if cz == m.cells - 1 {
        let o = middle_opening(m, f.x0, f.x1, arch);
        draw_strip_x(grid, f.x0, f.x1, f.z1, top, m.door_top, o, VOXEL_WALL);
    } else {
        let other = plan.get(cx, cz + 1);
        if !in_same_room(cell, other) {
            let o = door_opening(m, d, f.x0, cell.south, arch);
            draw_strip_x(grid, f.x0, f.x1, f.z1, top, m.door_top, o, VOXEL_WALL);
        }
    }
}

fn draw_east_wall(
    grid: &mut VoxelGrid,
    plan: &Blueprint,
    m: &ChunkMetrics,
    cx: usize,
    cz: usize,
    d: DoorDraw,
)
    requires
        old(grid).wf(),
        plan.wf(),
        m.wf(),
        plan@.width == m.cells,
        plan@.depth == m.cells,
        cx < m.cells,
        cz < m.cells,
        d.offset_cm < CELL_SPAN_CM,
    ensures
        final(grid).wf(),
        final(grid)@ == with_east_wall(old(grid)@, plan@, *m, cx as int, cz as int, d),
{
    let cell = plan.get(cx, cz);
    let f = cell_footprint(m, cx, cz);
    let top: usize = m.wall_top(cell.zone);
    let arch: bool = cell.zone == MicrobiomeZone::Arch;
    if cx == m.cells - 1 {
        let o = middle_opening(m, f.z0, f.z1, arch);
        draw_strip_z(grid, f.z0, f.z1, f.x1, top, m.door_top, o, VOXEL_WALL);
    } else {
        let other = plan.get(cx + 1, cz);
        if !in_same_room(cell, other) {
            let o = door_opening(m, d, f.z0, cell.east, arch);
            draw_strip_z(grid, f.z0, f.z1, f.x1, top, m.door_top, o, VOXEL_WALL);
        }
    }
}

/// Whether two cells belong to one room.
pub fn in_same_room(a: PlanCell, b: PlanCell) -> (same: bool)
    ensures
        same == same_room(a, b),
{
    match (a.room, b.room) {
        (Some(i), Some(j)) => i == j,
        _ => false,
    }
}

fn runs_ns(plan: &Blueprint, cx: usize, cz: usize) -> (hall: bool)
    requires
        plan.wf(),
        plan@.inside(cx as int, cz as int),
    ensures
        hall == hall_ns(plan@, cx as int, cz as int),
{
    let cell = plan.get(cx, cz);
    if !cell.is_corridor {
        return false;
    }
    if !cell.north && cz > 0 && plan.get(cx, cz - 1).is_corridor {
        return true;
    }
    !cell.south && cz < plan.depth() - 1 && plan.get(cx, cz + 1).is_corridor
}

fn runs_ew(plan: &Blueprint, cx: usize, cz: usize) -> (hall: bool)
    requires
        plan.wf(),
        plan@.inside(cx as int, cz as int),
    ensures
        hall == hall_ew(plan@, cx as int, cz as int),
{
    let cell = plan.get(cx, cz);
    if !cell.is_corridor {
        return false;
    }
    if !cell.east && cx < plan.width() - 1 && plan.get(cx + 1, cz).is_corridor {
        return true;
    }
    !cell.west && cx > 0 && plan.get(cx - 1, cz).is_corridor
}

fn inset(a: usize, b: usize) -> (i: usize)
    requires
        a <= b < MAX_SPAN,
    ensures
        i == hall_inset(a as int, b as int),
{
    if b - a + 1 >= HALL_WIDTH {
        (b - a + 1 - HALL_WIDTH) / 2
    } else {
        0
    }
}

fn draw_hall(grid: &mut VoxelGrid, f: Footprint, top: usize, ns: bool, ew: bool)
    requires
        old(grid).wf(),
        f.x0 <= f.x1 < MAX_SPAN,
        f.z0 <= f.z1 < MAX_SPAN,
        top <= MAX_SPAN,
    ensures
        final(grid).wf(),
        final(grid)@ == old(grid)@.painted(hall_brush(f, top as int, ns, ew)),
{
    let ghost start = grid@;
    let ix: usize = inset(f.x0, f.x1);
    let iz: usize = inset(f.z0, f.z1);
    let t: usize = top + 1;
    let left: usize = f.x0 + ix + 1;
    let right: usize = f.x1 - ix;
    let near: usize = f.z0 + iz + 1;
    let far: usize = f.z1 - iz;
    if ns && !ew {
        fill_box(grid, f.x0, left, 1, t, f.z0, f.z1 + 1, VOXEL_WALL);
        fill_box(grid, right, f.x1 + 1, 1, t, f.z0, f.z1 + 1, VOXEL_WALL);
    } else if ew && !ns {
        fill_box(grid, f.x0, f.x1 + 1, 1, t, f.z0, near, VOXEL_WALL);
        fill_box(grid, f.x0, f.x1 + 1, 1, t, far, f.z1 + 1, VOXEL_WALL);
    } else if ns && ew {
        fill_box(grid, f.x0, left, 1, t, f.z0, near, VOXEL_WALL);
        fill_box(grid, right, f.x1 + 1, 1, t, f.z0, near, VOXEL_WALL);
        fill_box(grid, f.x0, left, 1, t, far, f.z1 + 1, VOXEL_WALL);
        fill_box(grid, right, f.x1 + 1, 1, t, far, f.z1 + 1, VOXEL_WALL);
    }
    assert(grid@.cells =~= start.painted(hall_brush(f, top as int, ns, ew)).cells);
}

/// Draws one cell of the plan.
pub fn draw_cell(
    grid: &mut VoxelGrid,
    plan: &Blueprint,
    m: &ChunkMetrics,
    cx: usize,
    cz: usize,
    draws: &CellDraws,
)
    requires
        old(grid).wf(),
        plan.wf(),
        m.wf(),
        plan@.width == m.cells,
        plan@.depth == m.cells,
        cx < m.cells,
        cz < m.cells,
        draws_fit(plan@, *m, cx as int, cz as int, draws@),
    ensures
        final(grid).wf(),
        final(grid)@ == drawn_cell(old(grid)@, plan@, *m, cx as int, cz as int, draws@),
{
    let cell = plan.get(cx, cz);
    let f = cell_footprint(m, cx, cz);
    let top: usize = m.wall_top(cell.zone);
    draw_shell(grid, f, cell.zone, top, &draws.details);
    if cell.zone == MicrobiomeZone::PillarField {
        draw_pillars(grid, f, top, &draws.details);
    } else {
        draw_south_wall(grid, plan, m, cx, cz, draws.south);
        draw_east_wall(grid, plan, m, cx, cz, draws.east);
        let ns: bool = runs_ns(plan, cx, cz);
        let ew: bool = runs_ew(plan, cx, cz);
        draw_hall(grid, f, top, ns, ew);
    }
}

} // verus!
