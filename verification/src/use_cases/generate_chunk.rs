//! The office blueprint chunk: from a planned maze to a lit voxel grid.

use rand::distr::Bernoulli;
use rand::rngs::StdRng;
use vstd::prelude::*;

use crate::domain::entities::blueprint::{Blueprint, PlanModel};
use crate::domain::entities::voxel_grid::{empty_model, GridModel, VoxelGrid};
use crate::domain::use_cases::calculate_lighting::{calculate_voxel_lighting, flooded};
use crate::use_cases::chunk::cells::{records, CellDraws, CellRecord};
use crate::use_cases::chunk::corridors::{
    free_cells, law_corridors_avoid_rooms, list_free_cells, order_free, reserve_corridors, reserved, Reserved,
};
use crate::use_cases::chunk::decor::{decorate_rooms, decorated_rooms, RoomRoll};
use crate::use_cases::chunk::draws::{
    attempt_draws, cell_stream, draw_cells_draws, draw_room_attempts, draw_room_rolls, roll_draws,
    shuffle_cells, shuffle_draw, ROOM_ATTEMPTS,
};
use crate::use_cases::chunk::lamps::{corridor_lamp_brush, draw_hub, hub_brush, light_corridors};
use crate::use_cases::chunk::layout::{
    all_draws_fit, draw_cells, draw_edges, drawn_cells, with_north_edge, with_west_edge,
};
use crate::use_cases::chunk::metrics::{ChunkMetrics, MAX_SPAN};
use crate::use_cases::chunk::rooms::{after_attempts, place_rooms, Placed};
use crate::use_cases::chunk::stamps::{room_ok, Room};

verus! {

/// The chunk that a plan, its rooms and the draws make, before lighting: cells,
/// edges, room by room furniture and lamps, then corridor lamps.
pub open spec fn built_chunk(
    plan: PlanModel,
    rooms: Seq<Room>,
    m: ChunkMetrics,
    draws: Seq<CellRecord>,
    rolls: Seq<RoomRoll>,
) -> GridModel {
    let bare = empty_model(m.width as int, m.height as int, m.width as int);
    let cells = drawn_cells(bare, plan, m, draws, draws.len());
    let edged = with_north_edge(
        with_west_edge(cells, plan, m, m.cells as nat),
        plan,
        m,
        m.cells as nat,
    );
    let decorated = decorated_rooms(edged, rooms, rolls, m.spacing as int, rooms.len());
    decorated.painted(corridor_lamp_brush(decorated))
}

/// Builds and lights the chunk that a plan, its rooms and the draws make.
pub fn build_chunk(
    plan: &Blueprint,
    rooms: &Vec<Room>,
    m: &ChunkMetrics,
    draws: &Vec<CellDraws>,
    rolls: &Vec<RoomRoll>,
) -> (grid: VoxelGrid)
    requires
        plan.wf(),
        m.wf(),
        plan@.width == m.cells,
        plan@.depth == m.cells,
        all_draws_fit(plan@, *m, records(draws@)),
        rolls@.len() == rooms@.len(),
        forall|i: int| 0 <= i < rooms@.len() ==> room_ok(#[trigger] rooms@[i]),
    ensures
        grid.wf(),
        grid@ == flooded(built_chunk(plan@, rooms@, *m, records(draws@), rolls@)),
{
    let mut grid = VoxelGrid::new(m.width, m.height, m.width);
    draw_cells(&mut grid, plan, m, draws);
    proof {
        lemma_cells_extents(
            empty_model(m.width as int, m.height as int, m.width as int),
            plan@,
            *m,
            records(draws@),
            draws@.len(),
        );
        let west = with_west_edge(grid@, plan@, *m, m.cells as nat);
        lemma_edges_extents(grid@, plan@, *m, m.cells as nat);
        lemma_edges_extents(west, plan@, *m, m.cells as nat);
    }
    draw_edges(&mut grid, plan, m);
    decorate_rooms(&mut grid, rooms, rolls, m.spacing);
    light_corridors(&mut grid);
    calculate_voxel_lighting(&mut grid);
    grid
}

proof fn lemma_cells_extents(
    g: GridModel,
    plan: PlanModel,
    m: ChunkMetrics,
    draws: Seq<CellRecord>,
    n: nat,
)
    ensures
        drawn_cells(g, plan, m, draws, n).same_extents(g),
    decreases n,
{
    if n > 0 {
        lemma_cells_extents(g, plan, m, draws, (n - 1) as nat);
    }
}

proof fn lemma_edges_extents(g: GridModel, plan: PlanModel, m: ChunkMetrics, n: nat)
    ensures
        with_west_edge(g, plan, m, n).same_extents(g),
        with_north_edge(g, plan, m, n).same_extents(g),
    decreases n,
{
    if n > 0 {
        lemma_edges_extents(g, plan, m, (n - 1) as nat);
    }
}

/// The hub chunk, lit.
pub fn build_hub(m: &ChunkMetrics) -> (grid: VoxelGrid)
    requires
        2 <= m.height,
        m.width * m.height <= usize::MAX,
        m.width * m.height * m.width <= usize::MAX,
    ensures
        grid.wf(),
        grid@ == flooded(
            empty_model(m.width as int, m.height as int, m.width as int).painted(
                hub_brush(m.height as int),
            ),
        ),
{
    let mut grid = VoxelGrid::new(m.width, m.height, m.width);
    draw_hub(&mut grid);
    calculate_voxel_lighting(&mut grid);
    grid
}

/// A plan with its rooms placed, and the cells left over in an order left to
/// chance.
pub struct RoomPlan {
    pub rooms: Vec<Room>,
    pub order: Vec<usize>,
}

/// The mathematical content of a plan with its rooms placed, and the generator
/// that placed them.
#[verifier::ext_equal]
pub struct RoomPlanModel {
    pub plan: PlanModel,
    pub rooms: Seq<Room>,
    pub order: Seq<usize>,
    pub rng: StdRng,
}

/// What a generator makes of a plan: rooms where its attempts fit, then the cells
/// outside them in its order.
pub open spec fn planned_rooms(plan: PlanModel, m: ChunkMetrics, rng: StdRng) -> RoomPlanModel {
    let attempts = attempt_draws(rng, m.cells, ROOM_ATTEMPTS as nat);
    let placed = after_attempts(
        Placed { plan, rooms: Seq::empty() },
        m,
        attempts.0,
        attempts.0.len(),
    );
    let order = shuffle_draw(attempts.1, free_cells(placed.plan, (m.cells * m.cells) as nat));
    RoomPlanModel { plan: placed.plan, rooms: placed.rooms, order: order.0, rng: order.1 }
}

/// Draws and places the rooms of a chunk, then shuffles the cells outside them.
pub fn plan_rooms(plan: &mut Blueprint, m: &ChunkMetrics, rng: &mut StdRng) -> (placed: RoomPlan)
    requires
        old(plan).wf(),
        m.wf(),
        old(plan)@.width == m.cells,
        old(plan)@.depth == m.cells,
    ensures
        final(plan).wf(),
        final(plan)@.width == m.cells,
        final(plan)@.depth == m.cells,
        planned_rooms(old(plan)@, *m, *old(rng)) == (RoomPlanModel {
            plan: final(plan)@,
            rooms: placed.rooms@,
            order: placed.order@,
            rng: *final(rng),
        }),
        placed.order@.to_multiset() == free_cells(
            final(plan)@,
            (m.cells * m.cells) as nat,
        ).to_multiset(),
        forall|i: int| 0 <= i < placed.rooms@.len() ==> room_ok(#[trigger] placed.rooms@[i]),
        order_free(final(plan)@, placed.order@),
{
    let draws = draw_room_attempts(rng, m.cells);
    proof {
        assert forall|i: int| 0 <= i < draws@.len() implies {
            let d = #[trigger] draws@[i];
            d.cx + d.rw <= usize::MAX && d.cz + d.rd <= usize::MAX && d.rw > 0 && d.rd > 0
        } by {
            lemma_cells_small(*m);
            let d = draws@[i];
        }
    }
    let rooms = place_rooms(plan, m, &draws);
    let mut order = list_free_cells(plan);
    let ghost listed = order@;
    shuffle_cells(rng, &mut order);
    proof {
        assert forall|i: int| 0 <= i < order@.len() implies ({
            let x = (#[trigger] order@[i]) as int % plan@.width;
            let z = order@[i] as int / plan@.width;
            plan@.inside(x, z) && plan@.at(x, z).room is None
        }) by {
            order@.to_multiset_ensures();
            listed.to_multiset_ensures();
            assert(order@.to_multiset().count(order@[i]) > 0);
            assert(listed.contains(order@[i]));
            let k = listed.index_of(order@[i]);
            assert(listed[k] == order@[i]);
        }
    }
    RoomPlan { rooms, order }
}

proof fn lemma_cells_small(m: ChunkMetrics)
    requires
        m.wf(),
    ensures
        m.cells <= MAX_SPAN,
{
    lemma_border_grows(m, m.cells as int);
}

proof fn lemma_border_grows(m: ChunkMetrics, c: int)
    requires
        m.wf(),
        0 <= c <= m.cells,
    ensures
        m.borders@[c] >= c,
    decreases c,
{
    if c > 0 {
        lemma_border_grows(m, c - 1);
        assert(m.cell_ok(c - 1));
    }
}

/// The lit chunk of a plan with its rooms and corridors, and of what the two
/// generators draw for it.
pub open spec fn drawn_chunk(
    plan: PlanModel,
    rooms: Seq<Room>,
    m: ChunkMetrics,
    rng: StdRng,
    detail: StdRng,
    stairs: Bernoulli,
) -> GridModel {
    let cells = cell_stream(rng, detail, plan, m, (m.cells * m.cells) as nat);
    let rolls = roll_draws(cells.rng, stairs, rooms.len());
    flooded(built_chunk(plan, rooms, m, cells.records, rolls.0))
}

/// Reserves corridors, draws what is left to draw, and builds the chunk. The same
/// generators make the same chunk.
pub fn finish_chunk(
    plan: &mut Blueprint,
    placed: &RoomPlan,
    corridor_target: usize,
    m: &ChunkMetrics,
    rng: &mut StdRng,
    detail: &mut StdRng,
    stairs: &Bernoulli,
) -> (grid: VoxelGrid)
    requires
        old(plan).wf(),
        m.wf(),
        old(plan)@.width == m.cells,
        old(plan)@.depth == m.cells,
        corridor_target <= usize::MAX - 2 * MAX_SPAN,
        order_free(old(plan)@, placed.order@),
        forall|i: int| 0 <= i < placed.rooms@.len() ==> room_ok(#[trigger] placed.rooms@[i]),
    ensures
        final(plan).wf(),
        final(plan)@ == reserved(
            Reserved { plan: old(plan)@, count: 0 },
            placed.order@,
            corridor_target as int,
            placed.order@.len(),
        ).plan,
        grid.wf(),
        grid@ == drawn_chunk(
            final(plan)@,
            placed.rooms@,
            *m,
            *old(rng),
            *old(detail),
            *stairs,
        ),
{
    let ghost start = plan@;
    proof {
        lemma_cells_small(*m);
        law_corridors_avoid_rooms(
            Reserved { plan: start, count: 0 },
            placed.order@,
            corridor_target as int,
            placed.order@.len(),
        );
    }
    reserve_corridors(plan, &placed.order, corridor_target);
    let draws = draw_cells_draws(rng, detail, plan, m);
    let rolls = draw_room_rolls(rng, placed.rooms.len(), stairs);
    build_chunk(plan, &placed.rooms, m, &draws, &rolls)
}

} // verus!
