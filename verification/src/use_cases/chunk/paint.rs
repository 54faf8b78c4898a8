//! Painting materials into the voxel grid, brush by brush.
//!
//! A brush names the material of some voxels and leaves the rest alone. Painting
//! outside the grid has no effect.

use vstd::prelude::*;

use crate::domain::entities::voxel_grid::VoxelGrid;

verus! {

/// The voxels of a box; lower ends included, upper ends not.
pub open spec fn box_brush(
    x0: int,
    x1: int,
    y0: int,
    y1: int,
    z0: int,
    z1: int,
    m: u8,
) -> spec_fn(int, int, int) -> Option<u8> {
    |i: int, j: int, k: int|
        if x0 <= i < x1 && y0 <= j < y1 && z0 <= k < z1 {
            Some(m)
        } else {
            None
        }
}

/// Fills the voxels of one column from row `y0` up to, not including, `y1`.
pub fn fill_column(grid: &mut VoxelGrid, x: usize, z: usize, y0: usize, y1: usize, m: u8)
    requires
        old(grid).wf(),
    ensures
        final(grid).wf(),
        final(grid)@ == old(grid)@.painted(
            box_brush(x as int, x + 1, y0 as int, y1 as int, z as int, z + 1, m),
        ),
{
    let ghost start = grid@;
    let ghost (a, b, c) = (x as int, y0 as int, z as int);
    let mut y: usize = y0;
    assert(grid@.cells =~= start.painted(box_brush(a, a + 1, b, b, c, c + 1, m)).cells);
    while y < y1
        invariant
            grid.wf(),
            y0 <= y,
            y <= y1 || y == y0,
            a == x,
            b == y0,
            c == z,
            grid@ == start.painted(box_brush(a, a + 1, b, y as int, c, c + 1, m)),
        decreases y1 - y,
    {
        grid.set(x, y, z, m);
        assert(grid@.cells =~= start.painted(box_brush(a, a + 1, b, y + 1, c, c + 1, m)).cells);
        y = y + 1;
    }
    assert(grid@.cells =~= start.painted(box_brush(a, a + 1, b, y1 as int, c, c + 1, m)).cells);
}

/// Fills a box of voxels; lower ends included, upper ends not.
pub fn fill_box(
    grid: &mut VoxelGrid,
    x0: usize,
    x1: usize,
    y0: usize,
    y1: usize,
    z0: usize,
    z1: usize,
    m: u8,
)
    requires
        old(grid).wf(),
    ensures
        final(grid).wf(),
        final(grid)@ == old(grid)@.painted(
            box_brush(x0 as int, x1 as int, y0 as int, y1 as int, z0 as int, z1 as int, m),
        ),
{
    let ghost start = grid@;
    let ghost (a, b, t) = (x0 as int, y0 as int, y1 as int);
    let ghost (c, e) = (z0 as int, z1 as int);
    let mut x: usize = x0;
    assert(grid@.cells =~= start.painted(box_brush(a, a, b, t, c, e, m)).cells);
    while x < x1
        invariant
            grid.wf(),
            x0 <= x,
            x <= x1 || x == x0,
            a == x0,
            b == y0,
            t == y1,
            c == z0,
            e == z1,
            grid@ == start.painted(box_brush(a, x as int, b, t, c, e, m)),
        decreases x1 - x,
    {
        let ghost before = grid@;
        let ghost i = x as int;
        let mut z: usize = z0;
        assert(grid@.cells =~= before.painted(box_brush(i, i + 1, b, t, c, c, m)).cells);
        while z < z1
            invariant
                grid.wf(),
                z0 <= z,
                z <= z1 || z == z0,
                i == x,
                b == y0,
                t == y1,
                c == z0,
                grid@ == before.painted(box_brush(i, i + 1, b, t, c, z as int, m)),
            decreases z1 - z,
        {
            fill_column(grid, x, z, y0, y1, m);
            assert(grid@.cells =~= before.painted(
                box_brush(i, i + 1, b, t, c, z + 1, m),
            ).cells);
            z = z + 1;
        }
        assert(grid@.cells =~= start.painted(box_brush(a, x + 1, b, t, c, e, m)).cells);
        x = x + 1;
    }
    assert(grid@.cells =~= start.painted(box_brush(a, x1 as int, b, t, c, e, m)).cells);
}

} // verus!
