//! What one world column holds, and a rectangle of columns with its margin.

use vstd::prelude::*;

use crate::domain::entities::voxel_grid::{VOXEL_FLOOR, VOXEL_LIGHT, VOXEL_WALL};
use crate::domain::float_bits::FloatBits;

verus! {

/// A column as the planning stages decide it. Heights are world units, held as
/// the bits of 32-bit floats.
#[derive(Clone, Copy, Debug, PartialEq, Eq, Structural)]
pub struct ColumnPlan {
    pub floor: bool,
    /// Height of raised floor above the ground: stair treads and landings.
    pub floor_units: FloatBits,
    pub solid: bool,
    pub ceiling_units: FloatBits,
    pub light: bool,
    pub red_light: bool,
    /// Where a door's lintel starts, if the column passes under one.
    pub lintel_from_units: Option<FloatBits>,
    pub wall_material: u8,
    pub floor_material: u8,
    pub light_material: u8,
}

/// An open column: carpet below, a ceiling above, nothing between.
pub open spec fn open_column(ceiling_units: FloatBits) -> ColumnPlan {
    ColumnPlan {
        floor: true,
        floor_units: 0,
        solid: false,
        ceiling_units,
        light: false,
        red_light: false,
        lintel_from_units: None,
        wall_material: VOXEL_WALL,
        floor_material: VOXEL_FLOOR,
        light_material: VOXEL_LIGHT,
    }
}

impl ColumnPlan {
    pub fn open(ceiling_units: FloatBits) -> (plan: ColumnPlan)
        ensures
            plan == open_column(ceiling_units),
    {
        ColumnPlan {
            floor: true,
            floor_units: 0,
            solid: false,
            ceiling_units,
            light: false,
            red_light: false,
            lintel_from_units: None,
            wall_material: VOXEL_WALL,
            floor_material: VOXEL_FLOOR,
            light_material: VOXEL_LIGHT,
        }
    }
}

/// A column measured in voxels. The heights are as they come out of dividing by
/// the voxel size; placing them inside a grid is up to whoever writes the voxels.
#[derive(Clone, Copy, Debug, PartialEq, Eq, Structural)]
pub struct VoxelColumn {
    pub floor: bool,
    pub raised: usize,
    pub solid: bool,
    pub ceiling: usize,
    pub light: bool,
    pub red_light: bool,
    pub lintel: Option<usize>,
    pub wall_material: u8,
    pub floor_material: u8,
    pub light_material: u8,
}

/// The measured column of a plan whose heights come to the given voxel counts.
pub open spec fn measured_column(
    plan: ColumnPlan,
    raised: usize,
    ceiling: usize,
    lintel: usize,
) -> VoxelColumn {
    VoxelColumn {
        floor: plan.floor,
        raised,
        solid: plan.solid,
        ceiling,
        light: plan.light,
        red_light: plan.red_light,
        lintel: if plan.lintel_from_units is Some {
            Some(lintel)
        } else {
            None
        },
        wall_material: plan.wall_material,
        floor_material: plan.floor_material,
        light_material: plan.light_material,
    }
}

impl VoxelColumn {
    /// Measures a plan; `lintel` matters only where the plan has one.
    pub fn measured(plan: &ColumnPlan, raised: usize, ceiling: usize, lintel: usize) -> (column:
        VoxelColumn)
        ensures
            column == measured_column(*plan, raised, ceiling, lintel),
    {
        VoxelColumn {
            floor: plan.floor,
            raised,
            solid: plan.solid,
            ceiling,
            light: plan.light,
            red_light: plan.red_light,
            lintel: match plan.lintel_from_units {
                Some(_) => Some(lintel),
                None => None,
            },
            wall_material: plan.wall_material,
            floor_material: plan.floor_material,
            light_material: plan.light_material,
        }
    }
}

/// The mathematical content of a field: columns from -1 to the extents, both
/// margins included.
#[verifier::ext_equal]
pub struct FieldModel {
    pub width: int,
    pub depth: int,
    pub columns: spec_fn(int, int) -> VoxelColumn,
}

impl FieldModel {
    /// Inside the field or its margin.
    pub open spec fn covers(self, x: int, z: int) -> bool {
        -1 <= x <= self.width && -1 <= z <= self.depth
    }

    pub open spec fn at(self, x: int, z: int) -> VoxelColumn {
        (self.columns)(x, z)
    }
}

/// A rectangle of columns with a margin of one column on every side.
pub struct ColumnField {
    width: usize,
    depth: usize,
    columns: Vec<VoxelColumn>,
}

spec fn field_index(width: int, x: int, z: int) -> int {
    (z + 1) * (width + 2) + (x + 1)
}

proof fn lemma_field_index(width: int, depth: int, x: int, z: int)
    requires
        -1 <= x <= width,
        -1 <= z <= depth,
    ensures
        0 <= (z + 1) * (width + 2) <= field_index(width, x, z) < (width + 2) * (depth + 2),
{
    assert(0 <= (z + 1) * (width + 2) && (z + 1) * (width + 2) + (x + 1) < (width + 2) * (depth + 2))
        by (nonlinear_arith)
        requires
            -1 <= x <= width,
            -1 <= z <= depth,
    ;
}

impl View for ColumnField {
    type V = FieldModel;

    closed spec fn view(&self) -> FieldModel {
        FieldModel {
            width: self.width as int,
            depth: self.depth as int,
            columns: |x: int, z: int| self.columns@[field_index(self.width as int, x, z)],
        }
    }
}

impl ColumnField {
    /// Every column has its storage, and every coordinate fits in an `i64`.
    pub closed spec fn wf(&self) -> bool {
        &&& (self.width + 2) * (self.depth + 2) <= usize::MAX
        &&& self.width + 2 <= i64::MAX && self.width + 2 <= usize::MAX
        &&& self.depth + 2 <= i64::MAX && self.depth + 2 <= usize::MAX
        &&& self.columns@.len() == (self.width + 2) * (self.depth + 2)
    }

    /// What holds of the model of every field.
    pub proof fn lemma_model(&self)
        requires
            self.wf(),
        ensures
            0 <= self@.width <= i64::MAX - 2,
            0 <= self@.depth <= i64::MAX - 2,
    {
    }

    /// Asks for every column, row by row, margins included.
    pub fn sample<F: Fn(i64, i64) -> VoxelColumn>(width: usize, depth: usize, plan_at: F) -> (field:
        Self)
        requires
            (width + 2) * (depth + 2) <= usize::MAX,
            forall|x: i64, z: i64|
                -1 <= x <= width && -1 <= z <= depth ==> call_requires(plan_at, (x, z)),
        ensures
            field.wf(),
            field@.width == width,
            field@.depth == depth,
            forall|x: i64, z: i64|
                field@.covers(x as int, z as int) ==> call_ensures(
                    plan_at,
                    (x, z),
                    #[trigger] field@.at(x as int, z as int),
                ),
    {
        assert(width + 2 <= i64::MAX && depth + 2 <= i64::MAX) by (nonlinear_arith)
            requires
                0 <= width,
                0 <= depth,
                (width + 2) * (depth + 2) <= 0xFFFF_FFFF_FFFF_FFFF,
        ;
        assert(width + 2 <= usize::MAX && depth + 2 <= usize::MAX) by (nonlinear_arith)
            requires
                0 <= width,
                0 <= depth,
                (width + 2) * (depth + 2) <= usize::MAX,
        ;
        let mut columns: Vec<VoxelColumn> = Vec::new();
        let x_end: i64 = width as i64;
        let z_end: i64 = depth as i64;
        let mut z: i64 = -1;
        while z <= z_end
            invariant
                -1 <= z <= z_end + 1,
                x_end == width,
                z_end == depth,
                width + 2 <= i64::MAX,
                depth + 2 <= i64::MAX,
                columns@.len() == (z + 1) * (width + 2),
                forall|i: i64, j: i64|
                    -1 <= i <= width && -1 <= j <= depth ==> call_requires(plan_at, (i, j)),
                forall|i: i64, j: i64|
                    -1 <= i <= width && -1 <= j < z ==> call_ensures(
                        plan_at,
                        (i, j),
                        columns@[#[trigger] field_index(width as int, i as int, j as int)],
                    ),
            decreases z_end + 1 - z,
        {
            let ghost row = columns@.len();
            let mut x: i64 = -1;
            while x <= x_end
                invariant
                    -1 <= x <= x_end + 1,
                    -1 <= z <= z_end,
                    x_end == width,
                    z_end == depth,
                    width + 2 <= i64::MAX,
                    depth + 2 <= i64::MAX,
                    row == (z + 1) * (width + 2),
                    columns@.len() == row + x + 1,
                    forall|i: i64, j: i64|
                        -1 <= i <= width && -1 <= j <= depth ==> call_requires(plan_at, (i, j)),
                    forall|i: i64, j: i64|
                        -1 <= i <= width && -1 <= j && (j < z || j == z && i < x) ==> call_ensures(
                            plan_at,
                            (i, j),
                            columns@[#[trigger] field_index(width as int, i as int, j as int)],
                        ),
                decreases x_end + 1 - x,
            {
                let ghost before = columns@;
                let column = plan_at(x, z);
                columns.push(column);
                proof {
                    assert forall|i: i64, j: i64|
                        -1 <= i <= width && -1 <= j && (j < z || j == z && i < x
                            + 1) implies call_ensures(
                        plan_at,
                        (i, j),
                        columns@[#[trigger] field_index(width as int, i as int, j as int)],
                    ) by {
                        if j < z {
                            lemma_field_index(width as int, z - 1, i as int, j as int);
                            assert((z + 1) * (width + 2) == (width + 2) * (z - 1 + 2))
                                by (nonlinear_arith);
                            assert(before[field_index(width as int, i as int, j as int)]
                                == columns@[field_index(width as int, i as int, j as int)]);
                        } else if i < x {
                            assert(before[field_index(width as int, i as int, j as int)]
                                == columns@[field_index(width as int, i as int, j as int)]);
                        }
                    }
                }
                x = x + 1;
            }
            assert((z + 1 + 1) * (width + 2) == row + (width + 2)) by (nonlinear_arith)
                requires
                    row == (z + 1) * (width + 2),
            ;
            z = z + 1;
        }
        assert((depth + 1 + 1) * (width + 2) == (width + 2) * (depth + 2)) by (nonlinear_arith);
        let field = ColumnField { width, depth, columns };
        proof {
            assert forall|x: i64, z: i64| field@.covers(x as int, z as int) implies call_ensures(
                plan_at,
                (x, z),
                #[trigger] field@.at(x as int, z as int),
            ) by {
                let i = field_index(width as int, x as int, z as int);
                assert(field@.at(x as int, z as int) == columns@[i]);
            }
        }
        field
    }

    pub fn width(&self) -> (width: usize)
        ensures
            width == self@.width,
    {
        self.width
    }

    pub fn depth(&self) -> (depth: usize)
        ensures
            depth == self@.depth,
    {
        self.depth
    }

    pub fn get(&self, x: i64, z: i64) -> (column: VoxelColumn)
        requires
            self.wf(),
            self@.covers(x as int, z as int),
        ensures
            column == self@.at(x as int, z as int),
    {
        proof {
            lemma_field_index(self.width as int, self.depth as int, x as int, z as int);
        }
        let row: usize = (z + 1) as usize;
        let column: usize = (x + 1) as usize;
        self.columns[row * (self.width + 2) + column]
    }
}

} // verus!
