//! Writing measured columns into a voxel grid.

use vstd::prelude::*;

use crate::domain::entities::voxel_grid::{
    empty_model, GridModel, VoxelGrid, VOXEL_CEILING, VOXEL_RED_LIGHT,
};
use crate::use_cases::chunk::paint::fill_column;
use crate::use_cases::level_zero::column::{ColumnField, FieldModel, VoxelColumn};

verus! {

/// A height brought inside a grid: at least two voxels above the ground, at most
/// the top row.
pub open spec fn within_rows(height: int, max_y: int) -> int {
    if height < 2 {
        2
    } else if height > max_y {
        max_y
    } else {
        height
    }
}

pub open spec fn taller(a: int, b: int) -> int {
    if a >= b {
        a
    } else {
        b
    }
}

/// Row of the ceiling of the column at `(x, z)`.
pub open spec fn ceiling_row(field: FieldModel, max_y: int, x: int, z: int) -> int {
    within_rows(field.at(x, z).ceiling as int, max_y)
}

/// The highest ceiling among the four columns beside `(x, z)`.
pub open spec fn tallest_neighbour(field: FieldModel, max_y: int, x: int, z: int) -> int {
    taller(
        taller(ceiling_row(field, max_y, x - 1, z), ceiling_row(field, max_y, x + 1, z)),
        taller(ceiling_row(field, max_y, x, z - 1), ceiling_row(field, max_y, x, z + 1)),
    )
}

/// What row `y` of a column holds, where the column says anything about it. A
/// light hides the ceiling panel it hangs in; the ceiling, with its skirt up to
/// the row `top`, hides the wall; the wall hides raised floor.
pub open spec fn column_row(column: VoxelColumn, max_y: int, top: int, y: int) -> Option<u8> {
    let ceiling = within_rows(column.ceiling as int, max_y);
    if y == ceiling && column.light && !column.solid {
        Some(
            if column.red_light {
                VOXEL_RED_LIGHT
            } else {
                column.light_material
            },
        )
    } else if ceiling <= y <= taller(top, ceiling) {
        Some(
            if column.solid {
                column.wall_material
            } else {
                VOXEL_CEILING
            },
        )
    } else if column.solid && 1 <= y < ceiling {
        Some(column.wall_material)
    } else if !column.solid && column.lintel is Some && within_rows(column.lintel->0 as int, max_y)
        <= y < ceiling {
        Some(column.wall_material)
    } else if column.floor && y == 0 {
        Some(column.floor_material)
    } else if column.floor && 1 <= y <= column.raised && y <= max_y {
        Some(column.wall_material)
    } else {
        None
    }
}

/// The brush of one column.
pub open spec fn column_brush(
    column: VoxelColumn,
    max_y: int,
    top: int,
    x: int,
    z: int,
) -> spec_fn(int, int, int) -> Option<u8> {
    |i: int, j: int, k: int|
        if i == x && k == z {
            column_row(column, max_y, top, j)
        } else {
            None
        }
}

/// The brush of a whole field.
pub open spec fn field_brush(field: FieldModel, max_y: int) -> spec_fn(int, int, int) -> Option<u8> {
    |i: int, j: int, k: int|
        if 0 <= i < field.width && 0 <= k < field.depth {
            column_row(field.at(i, k), max_y, tallest_neighbour(field, max_y, i, k), j)
        } else {
            None
        }
}

/// The part of a field's brush that comes before `(x, z)`, row by row.
spec fn partial_brush(field: FieldModel, max_y: int, x: int, z: int) -> spec_fn(
    int,
    int,
    int,
) -> Option<u8> {
    |i: int, j: int, k: int|
        if 0 <= i < field.width && 0 <= k && (k < z || k == z && i < x) {
            column_row(field.at(i, k), max_y, tallest_neighbour(field, max_y, i, k), j)
        } else {
            None
        }
}

fn clamp_row(height: usize, max_y: usize) -> (row: usize)
    requires
        2 <= max_y,
    ensures
        row == within_rows(height as int, max_y as int),
{
    if height < 2 {
        2
    } else if height > max_y {
        max_y
    } else {
        height
    }
}

fn higher(a: usize, b: usize) -> (c: usize)
    ensures
        c == taller(a as int, b as int),
{
    if a >= b {
        a
    } else {
        b
    }
}

/// Writes one column. `top` is the row that the ceiling's skirt has to reach.
pub fn voxelize_column(grid: &mut VoxelGrid, column: &VoxelColumn, x: usize, z: usize, top: usize)
    requires
        old(grid).wf(),
        3 <= old(grid)@.height,
        top < old(grid)@.height,
    ensures
        final(grid).wf(),
        final(grid)@ == old(grid)@.painted(
            column_brush(*column, old(grid)@.height - 1, top as int, x as int, z as int),
        ),
{
    let ghost start = grid@;
    proof {
        grid.lemma_model();
    }
    let max_y: usize = grid.height() - 1;
    let ceiling: usize = clamp_row(column.ceiling, max_y);
    if column.floor {
        grid.set(x, 0, z, column.floor_material);
        let raised: usize = if column.raised <= max_y {
            column.raised
        } else {
            max_y
        };
        fill_column(grid, x, z, 1, raised + 1, column.wall_material);
    }
    if column.solid {
        fill_column(grid, x, z, 1, ceiling, column.wall_material);
    } else if let Some(lintel) = column.lintel {
        fill_column(grid, x, z, clamp_row(lintel, max_y), ceiling, column.wall_material);
    }
    let cap: u8 = if column.solid {
        column.wall_material
    } else {
        VOXEL_CEILING
    };
    fill_column(grid, x, z, ceiling, higher(top, ceiling) + 1, cap);
    if column.light && !column.solid {
        let material: u8 = if column.red_light {
            VOXEL_RED_LIGHT
        } else {
            column.light_material
        };
        grid.set(x, ceiling, z, material);
    }
    assert(grid@.cells =~= start.painted(
        column_brush(*column, max_y as int, top as int, x as int, z as int),
    ).cells);
}

fn skirt_row(field: &ColumnField, max_y: usize, x: i64, z: i64) -> (top: usize)
    requires
        field.wf(),
        2 <= max_y,
        0 <= x < field@.width,
        0 <= z < field@.depth,
    ensures
        top == tallest_neighbour(field@, max_y as int, x as int, z as int),
        top <= max_y,
{
    proof {
        field.lemma_model();
    }
    let west: usize = clamp_row(field.get(x - 1, z).ceiling, max_y);
    let east: usize = clamp_row(field.get(x + 1, z).ceiling, max_y);
    let north: usize = clamp_row(field.get(x, z - 1).ceiling, max_y);
    let south: usize = clamp_row(field.get(x, z + 1).ceiling, max_y);
    higher(higher(west, east), higher(north, south))
}

/// Writes geometry and fixture voxels. Columns outside the grid are dropped, and
/// a lower ceiling grows a skirt up to its tallest neighbour, so that no request
/// can see through a height step just across its boundary.
pub fn voxelize_columns(grid: &mut VoxelGrid, field: &ColumnField)
    requires
        old(grid).wf(),
        field.wf(),
        3 <= old(grid)@.height,
    ensures
        final(grid).wf(),
        final(grid)@ == old(grid)@.painted(field_brush(field@, old(grid)@.height - 1)),
{
    let ghost start = grid@;
    proof {
        grid.lemma_model();
        field.lemma_model();
    }
    let max_y: usize = grid.height() - 1;
    let mut z: usize = 0;
    assert(grid@.cells =~= start.painted(partial_brush(field@, max_y as int, 0, 0)).cells);
    while z < field.depth()
        invariant
            grid.wf(),
            field.wf(),
            0 <= field@.width <= i64::MAX - 2,
            0 <= field@.depth <= i64::MAX - 2,
            z <= field@.depth,
            2 <= max_y,
            start.height == max_y + 1,
            grid@ == start.painted(partial_brush(field@, max_y as int, 0, z as int)),
        decreases field@.depth - z,
    {
        let mut x: usize = 0;
        while x < field.width()
            invariant
                grid.wf(),
                field.wf(),
                0 <= field@.width <= i64::MAX - 2,
                0 <= field@.depth <= i64::MAX - 2,
                z < field@.depth,
                x <= field@.width,
                2 <= max_y,
                start.height == max_y + 1,
                grid@ == start.painted(partial_brush(field@, max_y as int, x as int, z as int)),
            decreases field@.width - x,
        {
            let top: usize = skirt_row(field, max_y, x as i64, z as i64);
            let column = field.get(x as i64, z as i64);
            voxelize_column(grid, &column, x, z, top);
            assert(grid@.cells =~= start.painted(
                partial_brush(field@, max_y as int, x + 1, z as int),
            ).cells);
            x = x + 1;
        }
        assert(grid@.cells =~= start.painted(
            partial_brush(field@, max_y as int, 0, z + 1),
        ).cells);
        z = z + 1;
    }
    assert(grid@.cells =~= start.painted(field_brush(field@, max_y as int)).cells);
}

/// A solid column stays ordinary architecture: whatever lights it asks for, it
/// holds only its floor and its wall material.
pub proof fn law_solid_columns_never_emit(
    grid: GridModel,
    field: FieldModel,
    x: int,
    y: int,
    z: int,
)
    requires
        3 <= grid.height,
        grid.inside(x, y, z),
        0 <= x < field.width,
        0 <= z < field.depth,
        field.at(x, z).solid,
    ensures
        ({
            let after = grid.painted(field_brush(field, grid.height - 1)).material(x, y, z);
            ||| after == field.at(x, z).wall_material
            ||| after == field.at(x, z).floor_material
            ||| after == grid.material(x, y, z)
        }),
{
}

/// Chunks tile seamlessly: what a column holds depends on the column and on its
/// four neighbours only, so two requests that see the same world columns, at
/// whatever offset, write the same voxels.
pub proof fn law_chunks_tile_seamlessly(
    a: FieldModel,
    b: FieldModel,
    max_y: int,
    x: int,
    z: int,
    dx: int,
    dz: int,
    y: int,
)
    requires
        0 <= x < a.width,
        0 <= z < a.depth,
        0 <= x + dx < b.width,
        0 <= z + dz < b.depth,
        a.at(x, z) == b.at(x + dx, z + dz),
        a.at(x - 1, z) == b.at(x + dx - 1, z + dz),
        a.at(x + 1, z) == b.at(x + dx + 1, z + dz),
        a.at(x, z - 1) == b.at(x + dx, z + dz - 1),
        a.at(x, z + 1) == b.at(x + dx, z + dz + 1),
    ensures
        field_brush(a, max_y)(x, y, z) == field_brush(b, max_y)(x + dx, y, z + dz),
{
}

/// The field shows the world's columns from the given corner on, its margin too.
pub open spec fn shows(
    field: FieldModel,
    world: spec_fn(int, int) -> VoxelColumn,
    corner_x: int,
    corner_z: int,
) -> bool {
    forall|x: int, z: int| #[trigger]
        field.covers(x, z) ==> field.at(x, z) == world(corner_x + x, corner_z + z)
}

/// Output does not depend on how the world is cut up: wherever the outputs of two
/// requests for the same world overlap, whatever their corners and extents, they
/// hold the same material.
pub proof fn law_output_is_independent_of_partition(
    world: spec_fn(int, int) -> VoxelColumn,
    a: FieldModel,
    ax: int,
    az: int,
    b: FieldModel,
    bx: int,
    bz: int,
    height: int,
    wx: int,
    y: int,
    wz: int,
)
    requires
        shows(a, world, ax, az),
        shows(b, world, bx, bz),
        ax <= wx < ax + a.width,
        az <= wz < az + a.depth,
        bx <= wx < bx + b.width,
        bz <= wz < bz + b.depth,
    ensures
        empty_model(a.width, height, a.depth).painted(field_brush(a, height - 1)).material(
            wx - ax,
            y,
            wz - az,
        ) == empty_model(b.width, height, b.depth).painted(field_brush(b, height - 1)).material(
            wx - bx,
            y,
            wz - bz,
        ),
{
    let (x, z) = (wx - ax, wz - az);
    let (dx, dz) = (ax - bx, az - bz);
    assert(a.covers(x, z) && a.covers(x - 1, z) && a.covers(x + 1, z) && a.covers(x, z - 1)
        && a.covers(x, z + 1));
    assert(b.covers(x + dx, z + dz) && b.covers(x + dx - 1, z + dz) && b.covers(x + dx + 1, z + dz)
        && b.covers(x + dx, z + dz - 1) && b.covers(x + dx, z + dz + 1));
    law_chunks_tile_seamlessly(a, b, height - 1, x, z, dx, dz, y);
}

/// Where two neighbouring ceilings differ, every row between the two is closed on
/// the lower side.
pub proof fn law_height_steps_are_sealed(
    grid: GridModel,
    field: FieldModel,
    x: int,
    z: int,
    dx: int,
    dz: int,
    y: int,
)
    requires
        3 <= grid.height,
        0 <= x < grid.width,
        0 <= z < grid.depth,
        0 <= x < field.width,
        0 <= z < field.depth,
        (dx == 0 && (dz == 1 || dz == -1)) || (dz == 0 && (dx == 1 || dx == -1)),
        ceiling_row(field, grid.height - 1, x, z) <= y,
        y <= ceiling_row(field, grid.height - 1, x + dx, z + dz),
    ensures
        ({
            let column = field.at(x, z);
            let after = grid.painted(field_brush(field, grid.height - 1)).material(x, y, z);
            ||| after == VOXEL_CEILING
            ||| column.solid && after == column.wall_material
            ||| column.light && (after == VOXEL_RED_LIGHT || after == column.light_material)
        }),
{
}

/// A column stands as it was planned. Its ceiling row is the planned one, brought
/// to at least the third row and at most the top row. A floor lies in the lowest
/// row. A solid column is wall from the floor to its ceiling row; an open one is
/// left as it was between its raised floor and its ceiling, but for a lintel, which
/// is wall from where it starts. A light hangs in the ceiling row of an open column,
/// which is ceiling otherwise. Above the ceiling row, and above those of the four
/// columns beside it, nothing changes.
pub proof fn law_columns_stand_as_planned(grid: GridModel, field: FieldModel, x: int, y: int, z: int)
    requires
        3 <= grid.height,
        grid.inside(x, y, z),
        0 <= x < field.width,
        0 <= z < field.depth,
    ensures
        ({
            let column = field.at(x, z);
            let before = grid.material(x, y, z);
            let after = grid.painted(field_brush(field, grid.height - 1)).material(x, y, z);
            let top = grid.height - 1;
            let roof = clipped(column.ceiling as int, top);
            let west = clipped(field.at(x - 1, z).ceiling as int, top);
            let east = clipped(field.at(x + 1, z).ceiling as int, top);
            let north = clipped(field.at(x, z - 1).ceiling as int, top);
            let south = clipped(field.at(x, z + 1).ceiling as int, top);
            let under_lintel = column.lintel is None || y < clipped(column.lintel->0 as int, top);
            &&& y == 0 && column.floor ==> after == column.floor_material
            &&& y == 0 && !column.floor ==> after == before
            &&& column.solid && 1 <= y <= roof ==> after == column.wall_material
            &&& !column.solid && 1 <= y < roof && !under_lintel ==> after == column.wall_material
            &&& !column.solid && 1 <= y < roof && under_lintel && column.floor && y <= column.raised
                ==> after == column.wall_material
            &&& !column.solid && 1 <= y < roof && under_lintel && !(column.floor && y
                <= column.raised) ==> after == before
            &&& !column.solid && y == roof && !column.light ==> after == VOXEL_CEILING
            &&& !column.solid && y == roof && column.light && column.red_light ==> after
                == VOXEL_RED_LIGHT
            &&& !column.solid && y == roof && column.light && !column.red_light ==> after
                == column.light_material
            &&& y > roof && (y <= west || y <= east || y <= north || y <= south) ==> after
                == if column.solid {
                column.wall_material
            } else {
                VOXEL_CEILING
            }
            &&& y > roof && y > west && y > east && y > north && y > south && !(column.floor && y
                <= column.raised) ==> after == before
        }),
{
}

/// A planned row brought inside a grid whose top row is given.
pub open spec fn clipped(row: int, top: int) -> int {
    if row <= 2 {
        2
    } else if row <= top {
        row
    } else {
        top
    }
}

} // verus!
