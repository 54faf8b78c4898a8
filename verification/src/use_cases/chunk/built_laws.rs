//! What a finished chunk promises: its lamps burn, its rooms are furnished, and it
//! joins its neighbours.

use rand::distr::Bernoulli;
use rand::rngs::StdRng;
use vstd::prelude::*;

use crate::domain::entities::blueprint::PlanModel;
use crate::domain::entities::voxel_grid::{
    empty_model, GridModel, VOXEL_AIR, VOXEL_CEILING, VOXEL_LIGHT, VOXEL_RED_LIGHT, VOXEL_WALL,
};
use crate::domain::use_cases::calculate_lighting::flooded;
use crate::domain::use_cases::lighting_laws::{law_lighting_frame, material_at, Spot};
use crate::domain::use_cases::tint_laws::law_lamps_keep_their_own_light;
use crate::use_cases::chunk::cells::CellRecord;
use crate::use_cases::chunk::connection_laws::{
    along_edges, belongs, has_middle, law_chunks_connect, lemma_cells_extents, lemma_edges_extents,
};
use crate::use_cases::chunk::decor::{chosen_pattern, decorated, decorated_rooms, RoomRoll};
use crate::use_cases::chunk::draws::{cell_stream, law_details_do_not_move_doorways, roll_draws};
use crate::use_cases::chunk::furniture_laws::{
    law_every_free_place_is_furnished, law_room_lamps_hang_down_the_middle, lemma_from,
    touched_well,
};
use crate::use_cases::chunk::lamps::corridor_lamp_brush;
use crate::use_cases::chunk::layout::{drawn_cells, with_north_edge, with_west_edge};
use crate::use_cases::chunk::metrics::ChunkMetrics;
use crate::use_cases::chunk::stamps::{
    free_at, furnished, furnished_from, furnished_line, gap, placement_valid, stamp_brush, Room,
    StampModel,
};
use crate::use_cases::generate_chunk::{built_chunk, drawn_chunk};

verus! {

/// The chunk with its cells and its edges, before rooms are furnished.
pub open spec fn bare_chunk(plan: PlanModel, m: ChunkMetrics, draws: Seq<CellRecord>) -> GridModel {
    let bare = empty_model(m.width as int, m.height as int, m.width as int);
    let cells = drawn_cells(bare, plan, m, draws, draws.len());
    with_north_edge(
        with_west_edge(cells, plan, m, m.cells as nat),
        plan,
        m,
        m.cells as nat,
    )
}

proof fn lemma_bare_extents(plan: PlanModel, m: ChunkMetrics, draws: Seq<CellRecord>)
    ensures
        ({
            let g = bare_chunk(plan, m, draws);
            g.width == m.width && g.height == m.height && g.depth == m.width
        }),
{
    let bare = empty_model(m.width as int, m.height as int, m.width as int);
    let cells = drawn_cells(bare, plan, m, draws, draws.len());
    lemma_cells_extents(bare, plan, m, draws, draws.len());
    lemma_edges_extents(cells, plan, m, m.cells as nat);
    lemma_edges_extents(
        with_west_edge(cells, plan, m, m.cells as nat),
        plan,
        m,
        m.cells as nat,
    );
}

/// Furniture leaves the top row alone.
proof fn lemma_top_line(
    g: GridModel,
    room: Room,
    stamp: StampModel,
    spacing: int,
    sx: int,
    sz: int,
    x: int,
    z: int,
)
    requires
        g.height >= 5,
    ensures
        furnished_line(g, room, stamp, spacing, sx, sz).same_extents(g),
        furnished_line(g, room, stamp, spacing, sx, sz).material(x, g.height - 1, z) == g.material(
            x,
            g.height - 1,
            z,
        ),
    decreases gap(room.z1 - sz),
{
    if 0 <= spacing && 0 < stamp.depth && sz + stamp.depth <= room.z1 - spacing {
        let next = if placement_valid(g, room, stamp, sx, sz) {
            g.painted(stamp_brush(stamp, sx, sz, g.height - 2))
        } else {
            g
        };
        lemma_top_line(next, room, stamp, spacing, sx, sz + stamp.depth + spacing, x, z);
    }
}

proof fn lemma_top(
    g: GridModel,
    room: Room,
    stamp: StampModel,
    spacing: int,
    sx: int,
    x: int,
    z: int,
)
    requires
        g.height >= 5,
    ensures
        furnished_from(g, room, stamp, spacing, sx).same_extents(g),
        furnished_from(g, room, stamp, spacing, sx).material(x, g.height - 1, z) == g.material(
            x,
            g.height - 1,
            z,
        ),
    decreases gap(room.x1 - sx),
{
    if 0 <= spacing && 0 < stamp.width && sx + stamp.width <= room.x1 - spacing {
        let next = furnished_line(g, room, stamp, spacing, sx, room.z0 + spacing);
        lemma_top_line(g, room, stamp, spacing, sx, room.z0 + spacing, x, z);
        lemma_top(next, room, stamp, spacing, sx + stamp.width + spacing, x, z);
    }
}

proof fn lemma_decorated_extents(
    g: GridModel,
    rooms: Seq<Room>,
    rolls: Seq<RoomRoll>,
    spacing: int,
    n: nat,
)
    ensures
        decorated_rooms(g, rooms, rolls, spacing, n).same_extents(g),
    decreases n,
{
    if n > 0 {
        lemma_decorated_extents(g, rooms, rolls, spacing, (n - 1) as nat);
        let before = decorated_rooms(g, rooms, rolls, spacing, (n - 1) as nat);
        let room = rooms[n - 1];
        if let Some(p) = chosen_pattern(room, rolls[n - 1]) {
            lemma_from(before, room, p, spacing, room.x0 + spacing, 0, 0, 0);
            assert(touched_well(
                before,
                furnished(before, room, p, spacing),
                room,
                spacing,
                0,
                0,
                0,
            ));
        }
        assert(decorated_rooms(g, rooms, rolls, spacing, n) == decorated(
            before,
            room,
            rolls[n - 1],
            spacing,
        ));
    }
}

/// Where the lamps of a room hang: in its middle, twelve voxels apart, strips four long.
pub open spec fn hangs_at(room: Room, is_strip: bool, n: int, within: int, x: int, z: int) -> bool {
    let start = room.z0 + 8 + 12 * n;
    &&& x == (room.x0 + room.x1) / 2
    &&& 0 <= n && 0 <= within < (if is_strip {
        4int
    } else {
        1
    })
    &&& start + 8 <= room.z1
    &&& z == start + within
}

proof fn lemma_lamps_hang(
    g: GridModel,
    rooms: Seq<Room>,
    rolls: Seq<RoomRoll>,
    spacing: int,
    n: nat,
    i: int,
    step: int,
    within: int,
    x: int,
    z: int,
)
    requires
        g.height >= 5,
        0 <= i < n <= rooms.len(),
        hangs_at(rooms[i], rolls[i].strip, step, within, x, z),
        g.inside(x, g.height - 1, z),
    ensures
        decorated_rooms(g, rooms, rolls, spacing, n).material(x, g.height - 1, z) == VOXEL_LIGHT,
    decreases n,
{
    let before = decorated_rooms(g, rooms, rolls, spacing, (n - 1) as nat);
    let room = rooms[n - 1];
    let roll = rolls[n - 1];
    lemma_decorated_extents(g, rooms, rolls, spacing, (n - 1) as nat);
    let filled = match chosen_pattern(room, roll) {
        Some(p) => furnished(before, room, p, spacing),
        None => before,
    };
    if let Some(p) = chosen_pattern(room, roll) {
        lemma_top(before, room, p, spacing, room.x0 + spacing, x, z);
    }
    assert(filled.same_extents(g));
    if i < n - 1 {
        lemma_lamps_hang(g, rooms, rolls, spacing, (n - 1) as nat, i, step, within, x, z);
    } else {
        law_room_lamps_hang_down_the_middle(
            filled,
            room,
            roll.strip,
            filled.height - 1,
            x,
            g.height - 1,
            step,
            within,
        );
    }
}

/// Every room is lit: wherever a lamp of it hangs inside the chunk, the finished chunk
/// has a lamp in its top row, at full level. Five rows keep low walls clear of it.
pub proof fn law_room_lamps_burn(
    plan: PlanModel,
    rooms: Seq<Room>,
    m: ChunkMetrics,
    draws: Seq<CellRecord>,
    rolls: Seq<RoomRoll>,
    i: int,
    n: int,
    within: int,
    x: int,
    z: int,
)
    requires
        m.height >= 5,
        0 <= i < rooms.len(),
        hangs_at(rooms[i], rolls[i].strip, n, within, x, z),
        0 <= x < m.width,
        0 <= z < m.width,
    ensures
        ({
            let g = flooded(built_chunk(plan, rooms, m, draws, rolls));
            g.material(x, m.height - 1, z) == VOXEL_LIGHT && g.level(x, m.height - 1, z) == 15
        }),
{
    let bare = bare_chunk(plan, m, draws);
    lemma_bare_extents(plan, m, draws);
    let spacing = m.spacing as int;
    let full = decorated_rooms(bare, rooms, rolls, spacing, rooms.len());
    lemma_decorated_extents(bare, rooms, rolls, spacing, rooms.len());
    lemma_lamps_hang(bare, rooms, rolls, spacing, rooms.len(), i, n, within, x, z);
    let all = built_chunk(plan, rooms, m, draws, rolls);
    assert(all == full.painted(corridor_lamp_brush(full)));
    let s = Spot { x, y: m.height - 1, z };
    law_lighting_frame(all, s);
    law_lamps_keep_their_own_light(all, s);
    assert(material_at(flooded(all), s) == VOXEL_LIGHT);
}

/// No corridor is left dark: on every sixteenth column both ways, from the eighth on,
/// the finished chunk has no plain ceiling over air.
pub proof fn law_no_lamp_of_a_corridor_is_missing(
    plan: PlanModel,
    rooms: Seq<Room>,
    m: ChunkMetrics,
    draws: Seq<CellRecord>,
    rolls: Seq<RoomRoll>,
    x: int,
    z: int,
)
    requires
        m.height >= 3,
        0 <= x < m.width,
        0 <= z < m.width,
        x % 16 == 8,
        z % 16 == 8,
    ensures
        ({
            let g = flooded(built_chunk(plan, rooms, m, draws, rolls));
            g.material(x, m.height - 1, z) != VOXEL_CEILING || g.material(x, 1, z) != VOXEL_AIR
        }),
{
    let bare = bare_chunk(plan, m, draws);
    lemma_bare_extents(plan, m, draws);
    let full = decorated_rooms(bare, rooms, rolls, m.spacing as int, rooms.len());
    lemma_decorated_extents(bare, rooms, rolls, m.spacing as int, rooms.len());
    let all = built_chunk(plan, rooms, m, draws, rolls);
    assert(all == full.painted(corridor_lamp_brush(full)));
    law_lighting_frame(all, Spot { x, y: m.height - 1, z });
    law_lighting_frame(all, Spot { x, y: 1, z });
    assert(material_at(flooded(all), Spot { x, y: m.height - 1, z }) == all.material(
        x,
        m.height - 1,
        z,
    ));
    assert(material_at(flooded(all), Spot { x, y: 1, z }) == all.material(x, 1, z));
}

proof fn lemma_walls_stand(
    g: GridModel,
    rooms: Seq<Room>,
    rolls: Seq<RoomRoll>,
    spacing: int,
    n: nat,
    x: int,
    y: int,
    z: int,
)
    requires
        1 <= n <= rooms.len(),
        1 <= y < g.height - 1,
        decorated_rooms(g, rooms, rolls, spacing, 1).material(x, y, z) == VOXEL_WALL,
        decorated_rooms(g, rooms, rolls, spacing, 1).material(x, 1, z) == VOXEL_WALL,
    ensures
        decorated_rooms(g, rooms, rolls, spacing, n).material(x, y, z) == VOXEL_WALL,
        decorated_rooms(g, rooms, rolls, spacing, n).material(x, 1, z) == VOXEL_WALL,
    decreases n,
{
    if n > 1 {
        lemma_walls_stand(g, rooms, rolls, spacing, (n - 1) as nat, x, y, z);
        lemma_decorated_extents(g, rooms, rolls, spacing, (n - 1) as nat);
        let before = decorated_rooms(g, rooms, rolls, spacing, (n - 1) as nat);
        let room = rooms[n - 1];
        assert(!free_at(before, x, z));
        if let Some(p) = chosen_pattern(room, rolls[n - 1]) {
            let after = furnished(before, room, p, spacing);
            lemma_from(before, room, p, spacing, room.x0 + spacing, x, y, z);
            lemma_from(before, room, p, spacing, room.x0 + spacing, x, 1, z);
            assert(after.same_extents(g));
        }
        assert(decorated_rooms(g, rooms, rolls, spacing, n) == decorated(
            before,
            room,
            rolls[n - 1],
            spacing,
        ));
    }
}

/// Furniture lasts: where a copy of the first room's stamp fits in and its ground is
/// free, its walls stand in the finished chunk, three rows high, up to below the top row,
/// or one row high, as its pattern says.
pub proof fn law_furniture_stands_in_the_chunk(
    plan: PlanModel,
    rooms: Seq<Room>,
    m: ChunkMetrics,
    draws: Seq<CellRecord>,
    rolls: Seq<RoomRoll>,
    stamp: StampModel,
    a: int,
    b: int,
    i: int,
    k: int,
    y: int,
)
    requires
        rooms.len() > 0,
        chosen_pattern(rooms[0], rolls[0]) == Some(stamp),
        0 <= a,
        0 <= b,
        stamp.holds(i, k),
        ({
            let sx = rooms[0].x0 + m.spacing + a * (stamp.width + m.spacing);
            let sz = rooms[0].z0 + m.spacing + b * (stamp.depth + m.spacing);
            &&& sx + stamp.width <= rooms[0].x1 - m.spacing && sz + stamp.depth <= rooms[0].z1
                - m.spacing
            &&& placement_valid(bare_chunk(plan, m, draws), rooms[0], stamp, sx, sz)
            &&& sx + i < m.width && sz + k < m.width
        }),
        1 <= y < m.height - 1,
        (stamp.at(i, k) == 1 && y <= 3) || stamp.at(i, k) == 2 || (stamp.at(i, k) == 3 && y == 1),
    ensures
        flooded(built_chunk(plan, rooms, m, draws, rolls)).material(
            rooms[0].x0 + m.spacing + a * (stamp.width + m.spacing) + i,
            y,
            rooms[0].z0 + m.spacing + b * (stamp.depth + m.spacing) + k,
        ) == VOXEL_WALL,
{
    let bare = bare_chunk(plan, m, draws);
    let spacing = m.spacing as int;
    let room = rooms[0];
    let x = room.x0 + spacing + a * (stamp.width + spacing) + i;
    let z = room.z0 + spacing + b * (stamp.depth + spacing) + k;
    lemma_bare_extents(plan, m, draws);
    assert(a * (stamp.width + spacing) >= 0 && b * (stamp.depth + spacing) >= 0)
        by (nonlinear_arith)
        requires
            a >= 0,
            b >= 0,
            stamp.width >= 0,
            stamp.depth >= 0,
            spacing >= 0,
    ;
    law_every_free_place_is_furnished(bare, room, stamp, spacing, a, b, i, k, y);
    law_every_free_place_is_furnished(bare, room, stamp, spacing, a, b, i, k, 1);
    let filled = furnished(bare, room, stamp, spacing);
    lemma_from(bare, room, stamp, spacing, room.x0 + spacing, x, y, z);
    assert(filled.same_extents(bare));
    assert(decorated_rooms(bare, rooms, rolls, spacing, 0) == bare);
    assert(decorated_rooms(bare, rooms, rolls, spacing, 1) == decorated(
        bare,
        room,
        rolls[0],
        spacing,
    ));
    lemma_walls_stand(bare, rooms, rolls, spacing, rooms.len(), x, y, z);
    lemma_decorated_extents(bare, rooms, rolls, spacing, rooms.len());
    let full = decorated_rooms(bare, rooms, rolls, spacing, rooms.len());
    let all = built_chunk(plan, rooms, m, draws, rolls);
    assert(all == full.painted(corridor_lamp_brush(full)));
    law_lighting_frame(all, Spot { x, y, z });
    assert(material_at(flooded(all), Spot { x, y, z }) == all.material(x, y, z));
}

/// A drawn chunk is lit: every lamp in it, white or red, stands at full level.
pub proof fn law_drawn_chunks_are_lit(
    plan: PlanModel,
    rooms: Seq<Room>,
    m: ChunkMetrics,
    rng: StdRng,
    detail: StdRng,
    stairs: Bernoulli,
    x: int,
    y: int,
    z: int,
)
    requires
        0 <= x < m.width,
        0 <= y < m.height,
        0 <= z < m.width,
    ensures
        ({
            let g = drawn_chunk(plan, rooms, m, rng, detail, stairs);
            g.material(x, y, z) == VOXEL_LIGHT || g.material(x, y, z) == VOXEL_RED_LIGHT
                ==> g.level(x, y, z) == 15
        }),
{
    let cells = cell_stream(rng, detail, plan, m, (m.cells * m.cells) as nat);
    let rolls = roll_draws(cells.rng, stairs, rooms.len());
    let all = built_chunk(plan, rooms, m, cells.records, rolls.0);
    let bare = bare_chunk(plan, m, cells.records);
    lemma_bare_extents(plan, m, cells.records);
    let full = decorated_rooms(bare, rooms, rolls.0, m.spacing as int, rooms.len());
    lemma_decorated_extents(bare, rooms, rolls.0, m.spacing as int, rooms.len());
    assert(all == full.painted(corridor_lamp_brush(full)));
    let s = Spot { x, y, z };
    law_lighting_frame(all, s);
    law_lamps_keep_their_own_light(all, s);
    assert(material_at(flooded(all), s) == material_at(all, s));
}

/// Drawn chunks connect, whatever the generators give: on each of the four edges, every
/// cell that is neither a pillar field nor narrowed to a hall can be walked through.
pub proof fn law_drawn_chunks_connect(
    plan: PlanModel,
    rooms: Seq<Room>,
    m: ChunkMetrics,
    rng: StdRng,
    detail: StdRng,
    stairs: Bernoulli,
    c: int,
)
    requires
        m.wf(),
        plan.width == m.cells,
        plan.depth == m.cells,
        forall|i: int|
            0 <= i < rooms.len() ==> (#[trigger] rooms[i]).x1 <= m.last(m.cells - 1) + m.spacing + 2
                && rooms[i].z1 <= m.last(m.cells - 1) + m.spacing + 2,
        m.medium_hole >= 1,
        0 <= c < m.cells,
        has_middle(m, c),
        has_middle(m, 0),
        has_middle(m, m.cells - 1),
    ensures
        exists|v: int|
            m.first(c) <= v <= m.last(c) && #[trigger] along_edges(
                plan,
                m,
                drawn_chunk(plan, rooms, m, rng, detail, stairs),
                c,
                v,
            ),
{
    let n = (m.cells * m.cells) as nat;
    let cells = cell_stream(rng, detail, plan, m, n);
    let rolls = roll_draws(cells.rng, stairs, rooms.len());
    law_details_do_not_move_doorways(rng, plan, detail, m, detail, m, n);
    assert(belongs(plan, rooms, m, cells.records));
    law_chunks_connect(plan, rooms, m, cells.records, rolls.0, c);
    let g = flooded(built_chunk(plan, rooms, m, cells.records, rolls.0));
    assert(g == drawn_chunk(plan, rooms, m, rng, detail, stairs));
    let v = choose|v: int| m.first(c) <= v <= m.last(c) && #[trigger] along_edges(plan, m, g, c, v);
    assert(along_edges(plan, m, drawn_chunk(plan, rooms, m, rng, detail, stairs), c, v));
}

} // verus!
