//! Rooms and corridors in the cell plan.

use vstd::prelude::*;

use crate::domain::entities::blueprint::{Blueprint, PlanCell, PlanModel};
use crate::use_cases::chunk::metrics::ChunkMetrics;
use crate::use_cases::chunk::stamps::{room_ok, Room};

verus! {

/// What chance decides about one attempt to place a room: its first cell and
/// its size in cells.
#[derive(Debug, Clone, Copy, PartialEq, Eq, Structural)]
pub struct RoomDraw {
    pub cx: usize,
    pub cz: usize,
    pub rw: usize,
    pub rd: usize,
}

pub open spec fn in_rect(d: RoomDraw, x: int, z: int) -> bool {
    d.cx <= x < d.cx + d.rw && d.cz <= z < d.cz + d.rd
}

/// The room lies inside the plan and touches no earlier room.
pub open spec fn room_fits(plan: PlanModel, d: RoomDraw) -> bool {
    &&& d.cx + d.rw <= plan.width
    &&& d.cz + d.rd <= plan.depth
    &&& forall|x: int, z: int| in_rect(d, x, z) ==> (#[trigger] plan.at(x, z)).room is None
}

/// A cell of the room: it belongs to the room, and walls between cells of the
/// room are gone.
pub open spec fn carved_cell(cell: PlanCell, d: RoomDraw, id: int, x: int, z: int) -> PlanCell {
    PlanCell {
        north: cell.north && z == d.cz,
        east: cell.east && x == d.cx + d.rw - 1,
        south: cell.south && z == d.cz + d.rd - 1,
        west: cell.west && x == d.cx,
        zone: cell.zone,
        is_corridor: cell.is_corridor,
        room: Some(id as usize),
    }
}

pub open spec fn carved(plan: PlanModel, d: RoomDraw, id: int) -> PlanModel {
    PlanModel {
        width: plan.width,
        depth: plan.depth,
        cells: |x: int, z: int|
            if in_rect(d, x, z) {
                carved_cell(plan.at(x, z), d, id, x, z)
            } else {
                plan.at(x, z)
            },
    }
}

/// The voxels of a room, both ends included.
pub open spec fn room_bounds(m: ChunkMetrics, d: RoomDraw) -> Room {
    Room {
        x0: m.borders@[d.cx as int],
        x1: (m.borders@[d.cx + d.rw] - 1) as usize,
        z0: m.borders@[d.cz as int],
        z1: (m.borders@[d.cz + d.rd] - 1) as usize,
    }
}

/// A plan and the rooms placed in it so far.
#[verifier::ext_equal]
pub struct Placed {
    pub plan: PlanModel,
    pub rooms: Seq<Room>,
}

pub open spec fn after_attempt(p: Placed, m: ChunkMetrics, d: RoomDraw) -> Placed {
    if room_fits(p.plan, d) {
        Placed {
            plan: carved(p.plan, d, p.rooms.len() as int),
            rooms: p.rooms.push(room_bounds(m, d)),
        }
    } else {
        p
    }
}

/// The plan after the first `n` attempts.
pub open spec fn after_attempts(p: Placed, m: ChunkMetrics, draws: Seq<RoomDraw>, n: nat) -> Placed
    decreases n,
{
    if n == 0 {
        p
    } else {
        after_attempt(after_attempts(p, m, draws, (n - 1) as nat), m, draws[n - 1])
    }
}

fn fits(plan: &Blueprint, d: RoomDraw) -> (ok: bool)
    requires
        plan.wf(),
        d.cx + d.rw <= usize::MAX,
        d.cz + d.rd <= usize::MAX,
    ensures
        ok == room_fits(plan@, d),
{
    if d.cx + d.rw > plan.width() || d.cz + d.rd > plan.depth() {
        return false;
    }
    let mut x: usize = d.cx;
    while x < d.cx + d.rw
        invariant
            plan.wf(),
            d.cx <= x <= d.cx + d.rw <= plan@.width <= usize::MAX,
            d.cz + d.rd <= plan@.depth <= usize::MAX,
            forall|i: int, k: int|
                in_rect(d, i, k) && i < x ==> (#[trigger] plan@.at(i, k)).room is None,
        decreases d.cx + d.rw - x,
    {
        let mut z: usize = d.cz;
        while z < d.cz + d.rd
            invariant
                plan.wf(),
                d.cx <= x < d.cx + d.rw <= plan@.width,
                d.cz <= z <= d.cz + d.rd <= plan@.depth <= usize::MAX,
                forall|i: int, k: int|
                    in_rect(d, i, k) && (i < x || (i == x && k < z)) ==> (#[trigger] plan@.at(
                        i,
                        k,
                    )).room is None,
            decreases d.cz + d.rd - z,
        {
            if plan.get(x, z).room.is_some() {
                assert(in_rect(d, x as int, z as int) && plan@.at(x as int, z as int).room is Some);
                return false;
            }
            z = z + 1;
        }
        x = x + 1;
    }
    true
}

spec fn carved_before(plan: PlanModel, d: RoomDraw, id: int, x: int, z: int) -> PlanModel {
    PlanModel {
        width: plan.width,
        depth: plan.depth,
        cells: |i: int, k: int|
            if in_rect(d, i, k) && (i < x || (i == x && k < z)) {
                carved_cell(plan.at(i, k), d, id, i, k)
            } else {
                plan.at(i, k)
            },
    }
}

fn carve(plan: &mut Blueprint, d: RoomDraw, id: usize)
    requires
        old(plan).wf(),
        d.cx + d.rw <= old(plan)@.width <= usize::MAX,
        d.cz + d.rd <= old(plan)@.depth <= usize::MAX,
    ensures
        final(plan).wf(),
        final(plan)@ == carved(old(plan)@, d, id as int),
{
    let ghost start = plan@;
    let mut x: usize = d.cx;
    assert(plan@.cells =~= carved_before(start, d, id as int, x as int, 0).cells);
    while x < d.cx + d.rw
        invariant
            plan.wf(),
            d.cx <= x <= d.cx + d.rw <= start.width <= usize::MAX,
            d.cz + d.rd <= start.depth <= usize::MAX,
            plan@ == carved_before(start, d, id as int, x as int, 0),
        decreases d.cx + d.rw - x,
    {
        let mut z: usize = d.cz;
        assert(plan@.cells =~= carved_before(start, d, id as int, x as int, z as int).cells);
        while z < d.cz + d.rd
            invariant
                plan.wf(),
                d.cx <= x < d.cx + d.rw <= start.width <= usize::MAX,
                d.cz <= z <= d.cz + d.rd <= start.depth <= usize::MAX,
                plan@ == carved_before(start, d, id as int, x as int, z as int),
            decreases d.cz + d.rd - z,
        {
            let mut cell = plan.get(x, z);
            assert(cell == start.at(x as int, z as int));
            cell.room = Some(id);
            if z > d.cz {
                cell.north = false;
            }
            if x < d.cx + d.rw - 1 {
                cell.east = false;
            }
            if z < d.cz + d.rd - 1 {
                cell.south = false;
            }
            if x > d.cx {
                cell.west = false;
            }
            plan.set(x, z, cell);
            assert(plan@.cells =~= carved_before(start, d, id as int, x as int, z + 1).cells);
            z = z + 1;
        }
        assert(plan@.cells =~= carved_before(start, d, id as int, x + 1, 0).cells);
        x = x + 1;
    }
    assert(plan@.cells =~= carved(start, d, id as int).cells);
}

/// Places a room per attempt where it fits, opening the walls inside it.
pub fn place_rooms(plan: &mut Blueprint, m: &ChunkMetrics, draws: &Vec<RoomDraw>) -> (rooms: Vec<
    Room,
>)
    requires
        old(plan).wf(),
        m.wf(),
        old(plan)@.width == m.cells,
        old(plan)@.depth == m.cells,
        forall|i: int|
            0 <= i < draws@.len() ==> {
                let d = #[trigger] draws@[i];
                d.cx + d.rw <= usize::MAX && d.cz + d.rd <= usize::MAX && d.rw > 0 && d.rd > 0
            },
    ensures
        final(plan).wf(),
        final(plan)@.width == m.cells,
        final(plan)@.depth == m.cells,
        ({
            let end = after_attempts(
                Placed { plan: old(plan)@, rooms: Seq::empty() },
                *m,
                draws@,
                draws@.len(),
            );
            final(plan)@ == end.plan && rooms@ == end.rooms
        }),
        forall|i: int| 0 <= i < rooms@.len() ==> room_ok(#[trigger] rooms@[i]),
{
    let mut rooms: Vec<Room> = Vec::new();
    let ghost start = Placed { plan: plan@, rooms: Seq::empty() };
    let mut i: usize = 0;
    while i < draws.len()
        invariant
            i <= draws@.len(),
            plan.wf(),
            m.wf(),
            plan@.width == m.cells,
            plan@.depth == m.cells,
            forall|k: int|
                0 <= k < draws@.len() ==> {
                    let d = #[trigger] draws@[k];
                    d.cx + d.rw <= usize::MAX && d.cz + d.rd <= usize::MAX && d.rw > 0 && d.rd > 0
                },
            after_attempts(start, *m, draws@, i as nat) == (Placed {
                plan: plan@,
                rooms: rooms@,
            }),
            forall|k: int| 0 <= k < rooms@.len() ==> room_ok(#[trigger] rooms@[k]),
        decreases draws@.len() - i,
    {
        let d = draws[i];
        if fits(plan, d) {
            proof {
                plan.lemma_model();
                lemma_borders_rise(*m, d.cx as int, d.cx + d.rw);
                lemma_borders_rise(*m, d.cz as int, d.cz + d.rd);
            }
            carve(plan, d, rooms.len());
            rooms.push(
                Room {
                    x0: m.borders[d.cx],
                    x1: m.borders[d.cx + d.rw] - 1,
                    z0: m.borders[d.cz],
                    z1: m.borders[d.cz + d.rd] - 1,
                },
            );
        }
        i = i + 1;
    }
    rooms
}

/// Later cells start further on.
pub proof fn lemma_borders_rise(m: ChunkMetrics, a: int, b: int)
    requires
        m.wf(),
        0 <= a < b <= m.cells,
    ensures
        m.borders@[a] < m.borders@[b],
    decreases b - a,
{
    assert(m.cell_ok(b - 1));
    if a < b - 1 {
        lemma_borders_rise(m, a, b - 1);
    }
}

/// Nothing separates the cell from a neighbour of the same room.
pub open spec fn seams_open(plan: PlanModel, x: int, z: int) -> bool {
    let cell = plan.at(x, z);
    let east = plan.at(x + 1, z);
    let south = plan.at(x, z + 1);
    &&& cell.room is Some && cell.room == east.room ==> !cell.east && !east.west
    &&& cell.room is Some && cell.room == south.room ==> !cell.south && !south.north
}

/// Room numbers count up from the first room, and nothing separates two
/// neighbouring cells of one room.
pub open spec fn open_inside(plan: PlanModel, count: int) -> bool {
    &&& forall|x: int, z: int|
        (#[trigger] plan.at(x, z)).room matches Some(id) ==> id < count
    &&& forall|x: int, z: int| #[trigger] seams_open(plan, x, z)
}

/// However the attempts come out, no wall is left inside a room.
pub proof fn law_rooms_are_open_inside(
    plan: PlanModel,
    m: ChunkMetrics,
    draws: Seq<RoomDraw>,
    n: nat,
)
    requires
        n <= draws.len(),
        n <= usize::MAX,
        forall|x: int, z: int| (#[trigger] plan.at(x, z)).room is None,
    ensures
        ({
            let p = after_attempts(Placed { plan, rooms: Seq::empty() }, m, draws, n);
            p.rooms.len() <= n && open_inside(p.plan, p.rooms.len() as int)
        }),
    decreases n,
{
    if n > 0 {
        law_rooms_are_open_inside(plan, m, draws, (n - 1) as nat);
        let before = after_attempts(
            Placed { plan, rooms: Seq::empty() },
            m,
            draws,
            (n - 1) as nat,
        );
        let d = draws[n - 1];
        if room_fits(before.plan, d) {
            let id = before.rooms.len() as int;
            let after = carved(before.plan, d, id);
            assert forall|x: int, z: int| (#[trigger] after.at(x, z)).room is Some implies after.at(
                x,
                z,
            ).room->0 < id + 1 by {
                let _ = before.plan.at(x, z);
            }
            assert forall|x: int, z: int| #[trigger] seams_open(after, x, z) by {
                assert(seams_open(before.plan, x, z));
                let _ = before.plan.at(x, z).room;
                let _ = before.plan.at(x + 1, z).room;
                let _ = before.plan.at(x, z + 1).room;
            }
        }
    }
}

/// The room stands in the plan: it lies inside, its bounds are those of its cells in
/// voxels, and all its cells, and no others, have its number.
pub open spec fn stands_in_plan(p: Placed, m: ChunkMetrics, i: int, d: RoomDraw) -> bool {
    &&& d.cx + d.rw <= p.plan.width
    &&& d.cz + d.rd <= p.plan.depth
    &&& p.rooms[i].x0 == m.borders@[d.cx as int] && p.rooms[i].x1 == m.borders@[d.cx + d.rw] - 1
    &&& p.rooms[i].z0 == m.borders@[d.cz as int] && p.rooms[i].z1 == m.borders@[d.cz + d.rd] - 1
    &&& forall|x: int, z: int|
        #![trigger p.plan.at(x, z)]
        p.plan.at(x, z).room == Some(i as usize) <==> d.cx <= x < d.cx + d.rw && d.cz <= z < d.cz
            + d.rd
}

/// Rooms never overlap: after any number of attempts every room stands in the plan on
/// cells of its own, and a cell without a room has never been part of one.
pub proof fn law_rooms_stand_apart(
    plan: PlanModel,
    m: ChunkMetrics,
    draws: Seq<RoomDraw>,
    n: nat,
    i: int,
)
    requires
        m.wf(),
        plan.width == m.cells,
        plan.depth == m.cells,
        n <= draws.len(),
        n <= usize::MAX,
        forall|x: int, z: int| (#[trigger] plan.at(x, z)).room is None,
        forall|k: int| 0 <= k < draws.len() ==> (#[trigger] draws[k]).rw >= 1 && draws[k].rd >= 1,
        0 <= i < after_attempts(Placed { plan, rooms: Seq::empty() }, m, draws, n).rooms.len(),
    ensures
        exists|k: int|
            0 <= k < n && stands_in_plan(
                after_attempts(Placed { plan, rooms: Seq::empty() }, m, draws, n),
                m,
                i,
                #[trigger] draws[k],
            ),
    decreases n,
{
    let start = Placed { plan, rooms: Seq::empty() };
    lemma_rooms_numbered(plan, m, draws, n);
    if n > 0 {
        let before = after_attempts(start, m, draws, (n - 1) as nat);
        let after = after_attempts(start, m, draws, n);
        let d = draws[n - 1];
        lemma_rooms_numbered(plan, m, draws, (n - 1) as nat);
        if i < before.rooms.len() {
            law_rooms_stand_apart(plan, m, draws, (n - 1) as nat, i);
            let k = choose|k: int|
                0 <= k < n - 1 && stands_in_plan(before, m, i, #[trigger] draws[k]);
            if room_fits(before.plan, d) {
                assert(after.rooms[i] == before.rooms[i]);
                assert forall|x: int, z: int|
                    #![trigger after.plan.at(x, z)]
                    after.plan.at(x, z).room == Some(i as usize) <==> draws[k].cx <= x < draws[k].cx
                        + draws[k].rw && draws[k].cz <= z < draws[k].cz + draws[k].rd by {
                    assert(before.plan.at(x, z).room == Some(i as usize) <==> draws[k].cx <= x
                        < draws[k].cx + draws[k].rw && draws[k].cz <= z < draws[k].cz
                        + draws[k].rd);
                    if in_rect(d, x, z) {
                        assert(before.plan.at(x, z).room is None);
                    }
                }
            }
            assert(stands_in_plan(after, m, i, draws[k]));
        } else {
            assert(room_fits(before.plan, d));
            lemma_border_order(m, d.cx as int, d.cx + d.rw);
            lemma_border_order(m, d.cz as int, d.cz + d.rd);
            assert forall|x: int, z: int|
                #![trigger after.plan.at(x, z)]
                after.plan.at(x, z).room == Some(i as usize) <==> d.cx <= x < d.cx + d.rw && d.cz
                    <= z < d.cz + d.rd by {
                if !in_rect(d, x, z) {
                    assert(after.plan.at(x, z) == before.plan.at(x, z));
                }
            }
            assert(stands_in_plan(after, m, i, draws[n - 1]));
        }
    }
}

proof fn lemma_rooms_numbered(plan: PlanModel, m: ChunkMetrics, draws: Seq<RoomDraw>, n: nat)
    requires
        n <= draws.len(),
        n <= usize::MAX,
        forall|x: int, z: int| (#[trigger] plan.at(x, z)).room is None,
    ensures
        ({
            let p = after_attempts(Placed { plan, rooms: Seq::empty() }, m, draws, n);
            &&& p.rooms.len() <= n
            &&& p.plan.width == plan.width && p.plan.depth == plan.depth
            &&& forall|x: int, z: int|
                (#[trigger] p.plan.at(x, z)).room matches Some(id) ==> id < p.rooms.len()
        }),
    decreases n,
{
    if n > 0 {
        lemma_rooms_numbered(plan, m, draws, (n - 1) as nat);
    }
}

proof fn lemma_border_order(m: ChunkMetrics, a: int, b: int)
    requires
        m.wf(),
        0 <= a < b <= m.cells,
    ensures
        m.borders@[a] < m.borders@[b],
    decreases b - a,
{
    assert(m.cell_ok(b - 1));
    if a < b - 1 {
        lemma_border_order(m, a, b - 1);
    }
}

/// Carving a room takes walls away between its own cells alone: a cell of the room keeps
/// the walls on the outside of the room, and all its cells keep zone and corridor mark.
/// Cells outside stay as they were.
pub proof fn law_carving_keeps_outer_walls(
    plan: PlanModel,
    d: RoomDraw,
    id: int,
    x: int,
    z: int,
)
    requires
        0 <= id <= usize::MAX,
    ensures
        ({
            let before = plan.at(x, z);
            let after = carved(plan, d, id).at(x, z);
            let inside = d.cx <= x < d.cx + d.rw && d.cz <= z < d.cz + d.rd;
            &&& !inside ==> after == before
            &&& inside ==> after.room == Some(id as usize) && after.zone == before.zone
                && after.is_corridor == before.is_corridor
            &&& inside && z == d.cz ==> after.north == before.north
            &&& inside && z > d.cz ==> !after.north
            &&& inside && z == d.cz + d.rd - 1 ==> after.south == before.south
            &&& inside && z < d.cz + d.rd - 1 ==> !after.south
            &&& inside && x == d.cx ==> after.west == before.west
            &&& inside && x > d.cx ==> !after.west
            &&& inside && x == d.cx + d.rw - 1 ==> after.east == before.east
            &&& inside && x < d.cx + d.rw - 1 ==> !after.east
        }),
{
}

/// Where the cells of a chunk end inside it, so do all its rooms: none reaches past the
/// last voxel of the last cell.
pub proof fn law_rooms_end_with_the_cells(
    plan: PlanModel,
    m: ChunkMetrics,
    draws: Seq<RoomDraw>,
    n: nat,
    i: int,
)
    requires
        m.wf(),
        m.borders@[m.cells as int] <= m.width,
        plan.width == m.cells,
        plan.depth == m.cells,
        n <= draws.len(),
        n <= usize::MAX,
        forall|x: int, z: int| (#[trigger] plan.at(x, z)).room is None,
        forall|k: int| 0 <= k < draws.len() ==> (#[trigger] draws[k]).rw >= 1 && draws[k].rd >= 1,
        0 <= i < after_attempts(Placed { plan, rooms: Seq::empty() }, m, draws, n).rooms.len(),
    ensures
        ({
            let room = after_attempts(Placed { plan, rooms: Seq::empty() }, m, draws, n).rooms[i];
            room.x0 <= room.x1 <= m.last(m.cells - 1) && room.z0 <= room.z1 <= m.last(m.cells - 1)
        }),
{
    let p = after_attempts(Placed { plan, rooms: Seq::empty() }, m, draws, n);
    law_rooms_stand_apart(plan, m, draws, n, i);
    lemma_rooms_numbered(plan, m, draws, n);
    let k = choose|k: int| 0 <= k < n && stands_in_plan(p, m, i, #[trigger] draws[k]);
    let d = draws[k];
    lemma_border_order(m, d.cx as int, d.cx + d.rw);
    lemma_border_order(m, d.cz as int, d.cz + d.rd);
    if d.cx + d.rw < m.cells {
        lemma_border_order(m, d.cx + d.rw, m.cells as int);
    }
    if d.cz + d.rd < m.cells {
        lemma_border_order(m, d.cz + d.rd, m.cells as int);
    }
}

} // verus!
