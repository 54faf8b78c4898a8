//! Drawing the whole plan: every cell, then the west and north edges.

use vstd::prelude::*;

use crate::domain::entities::blueprint::{Blueprint, MicrobiomeZone, PlanModel};
use crate::domain::entities::voxel_grid::{GridModel, VoxelGrid, VOXEL_RED_WALL, VOXEL_WALL};
use crate::use_cases::chunk::cells::{
    cell_footprint, draw_cell, draw_strip_x, draw_strip_z, drawn_cell, draws_fit, edge_opening,
    middle_opening, records, strip_x_brush, strip_z_brush, CellDraws, CellRecord,
};
use crate::use_cases::chunk::metrics::ChunkMetrics;

verus! {

/// The grid after the first `n` cells are drawn, row by row from the north.
pub open spec fn drawn_cells(
    g: GridModel,
    plan: PlanModel,
    m: ChunkMetrics,
    draws: Seq<CellRecord>,
    n: nat,
) -> GridModel
    decreases n,
{
    if n == 0 {
        g
    } else {
        let before = drawn_cells(g, plan, m, draws, (n - 1) as nat);
        let i = n - 1;
        drawn_cell(before, plan, m, i % plan.width, i / plan.width, draws[i])
    }
}

/// Every cell has draws that fit it.
pub open spec fn all_draws_fit(plan: PlanModel, m: ChunkMetrics, draws: Seq<CellRecord>) -> bool {
    &&& draws.len() == plan.width * plan.depth
    &&& forall|i: int|
        0 <= i < draws.len() ==> draws_fit(
            plan,
            m,
            i % plan.width,
            i / plan.width,
            #[trigger] draws[i],
        )
}

/// Wall material on the west and north edges.
pub open spec fn edge_material(zone: MicrobiomeZone) -> u8 {
    if zone == MicrobiomeZone::RedRoom {
        VOXEL_RED_WALL
    } else {
        VOXEL_WALL
    }
}

/// The grid with the west edge of the first `n` rows; pillar fields stay open.
pub open spec fn with_west_edge(g: GridModel, plan: PlanModel, m: ChunkMetrics, n: nat) -> GridModel
    decreases n,
{
    if n == 0 {
        g
    } else {
        let before = with_west_edge(g, plan, m, (n - 1) as nat);
        let c = n - 1;
        let zone = plan.at(0, c).zone;
        if zone == MicrobiomeZone::PillarField {
            before
        } else {
            before.painted(
                strip_z_brush(
                    m.first(c),
                    m.last(c),
                    0,
                    m.top_of(zone),
                    m.door_top as int,
                    edge_opening(m, m.first(c), m.last(c), zone == MicrobiomeZone::Arch),
                    edge_material(zone),
                ),
            )
        }
    }
}

/// The grid with the north edge of the first `n` columns of cells.
pub open spec fn with_north_edge(
    g: GridModel,
    plan: PlanModel,
    m: ChunkMetrics,
    n: nat,
) -> GridModel
    decreases n,
{
    if n == 0 {
        g
    } else {
        let before = with_north_edge(g, plan, m, (n - 1) as nat);
        let c = n - 1;
        let zone = plan.at(c, 0).zone;
        if zone == MicrobiomeZone::PillarField {
            before
        } else {
            before.painted(
                strip_x_brush(
                    m.first(c),
                    m.last(c),
                    0,
                    m.top_of(zone),
                    m.door_top as int,
                    edge_opening(m, m.first(c), m.last(c), zone == MicrobiomeZone::Arch),
                    edge_material(zone),
                ),
            )
        }
    }
}

/// Draws every cell of the plan.
pub fn draw_cells(
    grid: &mut VoxelGrid,
    plan: &Blueprint,
    m: &ChunkMetrics,
    draws: &Vec<CellDraws>,
)
    requires
        old(grid).wf(),
        plan.wf(),
        m.wf(),
        plan@.width == m.cells,
        plan@.depth == m.cells,
        all_draws_fit(plan@, *m, records(draws@)),
    ensures
        final(grid).wf(),
        final(grid)@ == drawn_cells(old(grid)@, plan@, *m, records(draws@), draws@.len()),
{
    let ghost start = grid@;
    let mut i: usize = 0;
    while i < draws.len()
        invariant
            i <= draws@.len(),
            grid.wf(),
            plan.wf(),
            m.wf(),
            plan@.width == m.cells,
            plan@.depth == m.cells,
            all_draws_fit(plan@, *m, records(draws@)),
            grid@ == drawn_cells(start, plan@, *m, records(draws@), i as nat),
        decreases draws@.len() - i,
    {
        let cx: usize = i % m.cells;
        let cz: usize = i / m.cells;
        proof {
            assert(cz < m.cells) by (nonlinear_arith)
                requires
                    i < m.cells * m.cells,
                    cz == i / m.cells,
                    m.cells >= 1,
            ;
            assert(draws_fit(plan@, *m, cx as int, cz as int, records(draws@)[i as int]));
        }
        draw_cell(grid, plan, m, cx, cz, &draws[i]);
        i = i + 1;
    }
}

fn edge_voxel(zone: MicrobiomeZone) -> (m: u8)
    ensures
        m == edge_material(zone),
{
    if zone == MicrobiomeZone::RedRoom {
        VOXEL_RED_WALL
    } else {
        VOXEL_WALL
    }
}

/// Draws the west edge of the chunk, then the north edge.
pub fn draw_edges(grid: &mut VoxelGrid, plan: &Blueprint, m: &ChunkMetrics)
    requires
        old(grid).wf(),
        plan.wf(),
        m.wf(),
        plan@.width == m.cells,
        plan@.depth == m.cells,
    ensures
        final(grid).wf(),
        final(grid)@ == with_north_edge(
            with_west_edge(old(grid)@, plan@, *m, m.cells as nat),
            plan@,
            *m,
            m.cells as nat,
        ),
{
    let ghost start = grid@;
    let mut c: usize = 0;
    while c < m.cells
        invariant
            c <= m.cells,
            grid.wf(),
            plan.wf(),
            m.wf(),
            plan@.width == m.cells,
            plan@.depth == m.cells,
            grid@ == with_west_edge(start, plan@, *m, c as nat),
        decreases m.cells - c,
    {
        let zone = plan.get(0, c).zone;
        if zone != MicrobiomeZone::PillarField {
            let f = cell_footprint(m, 0, c);
            let o = middle_opening(m, f.z0, f.z1, zone == MicrobiomeZone::Arch);
            draw_strip_z(grid, f.z0, f.z1, 0, m.wall_top(zone), m.door_top, o, edge_voxel(zone));
        }
        c = c + 1;
    }
    let ghost west = grid@;
    c = 0;
    while c < m.cells
        invariant
            c <= m.cells,
            grid.wf(),
            plan.wf(),
            m.wf(),
            plan@.width == m.cells,
            plan@.depth == m.cells,
            grid@ == with_north_edge(west, plan@, *m, c as nat),
        decreases m.cells - c,
    {
        let zone = plan.get(c, 0).zone;
        if zone != MicrobiomeZone::PillarField {
            let f = cell_footprint(m, c, 0);
            let o = middle_opening(m, f.x0, f.x1, zone == MicrobiomeZone::Arch);
            draw_strip_x(grid, f.x0, f.x1, 0, m.wall_top(zone), m.door_top, o, edge_voxel(zone));
        }
        c = c + 1;
    }
}

} // verus!
