//! Sampling one planned assembly: perimeter walls pierced by entrances, sparse
//! interior partitions, structural bays, and fixtures on the room's ceiling.

use vstd::prelude::*;

use crate::domain::entities::architecture::{SpaceProgram, StructuralSystem};
use crate::domain::float_bits::{at_most, bits_at_most, bits_less, less, FloatBits};
use crate::use_cases::level_zero::column::{open_column, ColumnPlan};
use crate::use_cases::level_zero::fabric::DOOR_HEIGHT;

verus! {

/// Depth of the wall band that an entrance pierces: the wall thickness plus 0.05.
pub const ENTRANCE_REACH: FloatBits = 0x3EE6_6667;

/// Distance under which a partition counts as the perimeter, 0.1.
pub const PERIMETER_SLACK: FloatBits = 0x3DCC_CCCD;

/// Half the wall thickness, 0.2.
pub const HALF_WALL: FloatBits = 0x3E4C_CCCD;

/// Half the width of a partition's doorway, 0.6.
pub const PARTITION_DOOR_HALF: FloatBits = 0x3F19_999A;

/// How a column lies in one structural grid.
#[derive(Clone, Copy, Debug, PartialEq, Eq, Structural)]
pub struct BaySample {
    pub system: StructuralSystem,
    /// Offset inside the bay along X, and the same with the grid shifted by half
    /// a bay.
    pub in_bay_x: FloatBits,
    pub shifted_x: FloatBits,
    /// Offset inside the bay along Z, and the bay's number.
    pub in_bay_z: FloatBits,
    pub row: i64,
    pub column_side: FloatBits,
}

pub open spec fn stands_on_column(s: BaySample) -> bool {
    let x = if s.system is OffsetGrid && s.row as int % 2 == 1 {
        s.shifted_x
    } else {
        s.in_bay_x
    };
    !(s.system is CoreAndShell) && less(x, s.column_side) && less(s.in_bay_z, s.column_side)
}

/// Whether a column of the building stands here. Core-and-shell designers hide
/// columns in walls; an offset grid shifts every odd row by half a bay.
pub fn on_column(s: &BaySample) -> (on: bool)
    ensures
        on == stands_on_column(*s),
{
    if s.system == StructuralSystem::CoreAndShell {
        return false;
    }
    let odd: bool = (s.row & 1) == 1;
    proof {
        let row = s.row;
        assert(((row & 1) == 1) == (row % 2 == 1)) by (bit_vector);
    }
    let x: FloatBits = if s.system == StructuralSystem::OffsetGrid && odd {
        s.shifted_x
    } else {
        s.in_bay_x
    };
    bits_less(x, s.column_side) && bits_less(s.in_bay_z, s.column_side)
}

/// Whether a column is part of a stair's flight: inside a stair, not filled, and
/// only while there are walls at all.
pub fn stair_shapes(program: SpaceProgram, inside: bool, solid: bool, walls_on: bool) -> (shapes: bool)
    ensures
        shapes == (program is Stair && inside && !solid && walls_on),
{
    program == SpaceProgram::Stair && inside && !solid && walls_on
}

/// How a column lies to one entrance.
#[derive(Clone, Copy, Debug, PartialEq, Eq, Structural)]
pub struct EntranceSample {
    /// Distance from the entrance's center along its wall, and half its width.
    pub along: FloatBits,
    pub half_width: FloatBits,
    /// Distance through the wall.
    pub through: FloatBits,
    pub lintel_units: Option<FloatBits>,
}

pub open spec fn in_entrance(e: EntranceSample) -> bool {
    less(e.along, e.half_width) && at_most(e.through, ENTRANCE_REACH)
}

/// How a column lies to one side of an interior space.
#[derive(Clone, Copy, Debug, PartialEq, Eq, Structural)]
pub struct PartitionSample {
    /// Position of the column along the side, and the side's ends.
    pub at: FloatBits,
    pub low: FloatBits,
    pub high: FloatBits,
    /// Distance of the side from the two parallel sides of the footprint.
    pub from_low_edge: FloatBits,
    pub from_high_edge: FloatBits,
    /// Distance of the column from the side, and from the side's middle.
    pub off_plane: FloatBits,
    pub off_middle: FloatBits,
}

/// The column lies in a partition that is not part of the perimeter.
pub open spec fn in_partition(p: PartitionSample) -> bool {
    at_most(p.low, p.at) && at_most(p.at, p.high) && less(PERIMETER_SLACK, p.from_low_edge) && less(
        PERIMETER_SLACK,
        p.from_high_edge,
    ) && less(p.off_plane, HALF_WALL)
}

pub open spec fn in_partition_door(p: PartitionSample) -> bool {
    less(p.off_middle, PARTITION_DOOR_HALF)
}

/// How a column lies to one fixture.
#[derive(Clone, Copy, Debug, PartialEq, Eq, Structural)]
pub struct FixtureSample {
    pub lit: bool,
    /// Distance from the fixture's center along X and Z.
    pub off_x: FloatBits,
    pub off_z: FloatBits,
    pub half_x: FloatBits,
    pub half_z: FloatBits,
}

pub open spec fn under_fixture(f: FixtureSample) -> bool {
    f.lit && at_most(f.off_x, f.half_x) && at_most(f.off_z, f.half_z)
}

/// Everything about one column of an assembly or of its surrounding wall band.
pub struct AssemblySample {
    pub ceiling_units: FloatBits,
    /// Inside the footprint, not just in the band around it.
    pub inside: bool,
    pub entrances: Vec<EntranceSample>,
    pub partitions: Vec<PartitionSample>,
    pub structure: BaySample,
    /// A renovator's contradictory grid, where one overlays the assembly.
    pub overlay: Option<BaySample>,
    pub fixtures: Vec<FixtureSample>,
    pub red_room: bool,
}

/// Which systems of the building are switched on.
#[derive(Clone, Copy, Debug, PartialEq, Eq, Structural)]
pub struct Systems {
    pub walls: bool,
    pub pillars: bool,
    pub lights: bool,
}

/// The first of the first `n` entrances that the column lies in.
pub open spec fn entrance_at(entrances: Seq<EntranceSample>, n: nat) -> Option<EntranceSample>
    decreases n,
{
    if n == 0 {
        None
    } else {
        match entrance_at(entrances, (n - 1) as nat) {
            Some(e) => Some(e),
            None => if in_entrance(entrances[n - 1]) {
                Some(entrances[n - 1])
            } else {
                None
            },
        }
    }
}

/// The lintel of an entrance, where it has one of some height.
pub open spec fn entrance_lintel(e: EntranceSample, walls: bool) -> Option<u32> {
    match e.lintel_units {
        Some(u) => if walls && less(0, u) {
            Some(u)
        } else {
            None
        },
        None => None,
    }
}

/// A partition fills the column.
pub open spec fn walled_off(partitions: Seq<PartitionSample>) -> bool {
    exists|i: int|
        0 <= i < partitions.len() && in_partition(#[trigger] partitions[i]) && !in_partition_door(
            partitions[i],
        )
}

/// The column lies in the doorway of a partition.
pub open spec fn in_some_door(partitions: Seq<PartitionSample>) -> bool {
    exists|i: int|
        0 <= i < partitions.len() && in_partition(#[trigger] partitions[i]) && in_partition_door(
            partitions[i],
        )
}

pub open spec fn lit_from_above(fixtures: Seq<FixtureSample>) -> bool {
    exists|i: int| 0 <= i < fixtures.len() && under_fixture(#[trigger] fixtures[i])
}

/// The inside of an assembly, away from its entrances.
pub open spec fn interior_plan(a: AssemblySample, on: Systems) -> ColumnPlan {
    let solid = (on.walls && walled_off(a.partitions@)) || (on.pillars && (stands_on_column(
        a.structure,
    ) || (a.overlay is Some && stands_on_column(a.overlay->0))));
    let light = !solid && on.lights && lit_from_above(a.fixtures@);
    ColumnPlan {
        solid,
        light,
        red_light: light && a.red_room,
        lintel_from_units: if on.walls && in_some_door(a.partitions@) {
            Some(DOOR_HEIGHT)
        } else {
            None
        },
        ..open_column(a.ceiling_units)
    }
}

pub open spec fn assembly_plan(a: AssemblySample, on: Systems) -> ColumnPlan {
    match entrance_at(a.entrances@, a.entrances@.len()) {
        Some(e) => ColumnPlan {
            lintel_from_units: entrance_lintel(e, on.walls),
            ..open_column(a.ceiling_units)
        },
        None => if a.inside {
            interior_plan(a, on)
        } else {
            ColumnPlan { solid: on.walls, ..open_column(a.ceiling_units) }
        },
    }
}

fn first_entrance(entrances: &Vec<EntranceSample>) -> (found: Option<EntranceSample>)
    ensures
        found == entrance_at(entrances@, entrances@.len()),
{
    let mut found: Option<EntranceSample> = None;
    let mut i: usize = 0;
    while i < entrances.len()
        invariant
            i <= entrances@.len(),
            found == entrance_at(entrances@, i as nat),
        decreases entrances@.len() - i,
    {
        let e = entrances[i];
        if found.is_none() && bits_less(e.along, e.half_width) && bits_at_most(
            e.through,
            ENTRANCE_REACH,
        ) {
            found = Some(e);
        }
        i = i + 1;
    }
    found
}

/// Whether a partition fills the column, and whether it lies in a doorway of one.
fn sample_partitions(partitions: &Vec<PartitionSample>) -> (found: (bool, bool))
    ensures
        found.0 == walled_off(partitions@),
        found.1 == in_some_door(partitions@),
{
    let mut solid: bool = false;
    let mut door: bool = false;
    let mut i: usize = 0;
    while i < partitions.len()
        invariant
            i <= partitions@.len(),
            solid == exists|k: int|
                0 <= k < i && in_partition(#[trigger] partitions@[k]) && !in_partition_door(
                    partitions@[k],
                ),
            door == exists|k: int|
                0 <= k < i && in_partition(#[trigger] partitions@[k]) && in_partition_door(
                    partitions@[k],
                ),
        decreases partitions@.len() - i,
    {
        let p = partitions[i];
        let ghost here = partitions@[i as int];
        if bits_at_most(p.low, p.at) && bits_at_most(p.at, p.high) && bits_less(
            PERIMETER_SLACK,
            p.from_low_edge,
        ) && bits_less(PERIMETER_SLACK, p.from_high_edge) && bits_less(p.off_plane, HALF_WALL) {
            if bits_less(p.off_middle, PARTITION_DOOR_HALF) {
                door = true;
            } else {
                solid = true;
            }
        }
        i = i + 1;
    }
    (solid, door)
}

fn any_fixture(fixtures: &Vec<FixtureSample>) -> (lit: bool)
    ensures
        lit == lit_from_above(fixtures@),
{
    let mut i: usize = 0;
    while i < fixtures.len()
        invariant
            i <= fixtures@.len(),
            forall|k: int| 0 <= k < i ==> !under_fixture(#[trigger] fixtures@[k]),
        decreases fixtures@.len() - i,
    {
        let f = fixtures[i];
        let ghost here = fixtures@[i as int];
        if f.lit && bits_at_most(f.off_x, f.half_x) && bits_at_most(f.off_z, f.half_z) {
            return true;
        }
        i = i + 1;
    }
    false
}

/// Column plan of a point inside an assembly's footprint or its surrounding wall
/// band. Entrances pierce the band and win over everything solid; in a red room
/// every fixture burns red.
pub fn assembly_column(a: &AssemblySample, on: &Systems) -> (plan: ColumnPlan)
    ensures
        plan == assembly_plan(*a, *on),
{
    let mut plan = ColumnPlan::open(a.ceiling_units);
    if let Some(e) = first_entrance(&a.entrances) {
        if let Some(u) = e.lintel_units {
            if on.walls && bits_less(0, u) {
                plan.lintel_from_units = Some(u);
            }
        }
        return plan;
    }
    if !a.inside {
        plan.solid = on.walls;
        return plan;
    }
    if on.walls {
        let (solid, door) = sample_partitions(&a.partitions);
        plan.solid = solid;
        if door {
            plan.lintel_from_units = Some(DOOR_HEIGHT);
        }
    }
    if on.pillars && !plan.solid {
        if on_column(&a.structure) {
            plan.solid = true;
        }
        if let Some(bay) = a.overlay {
            if on_column(&bay) {
                plan.solid = true;
            }
        }
    }
    if !plan.solid && on.lights && any_fixture(&a.fixtures) {
        plan.light = true;
        plan.red_light = a.red_room;
    }
    plan
}

/// Entrances win over everything solid: no column of an entrance is ever filled.
pub proof fn law_entrances_stay_open(a: AssemblySample, on: Systems, i: int)
    requires
        0 <= i < a.entrances@.len(),
        in_entrance(a.entrances@[i]),
    ensures
        !assembly_plan(a, on).solid,
{
    lemma_entrance_found(a.entrances@, a.entrances@.len(), i);
}

proof fn lemma_entrance_found(entrances: Seq<EntranceSample>, n: nat, i: int)
    requires
        n <= entrances.len(),
        0 <= i < n,
        in_entrance(entrances[i]),
    ensures
        entrance_at(entrances, n) is Some,
    decreases n,
{
    if i < n - 1 {
        lemma_entrance_found(entrances, (n - 1) as nat, i);
    }
}

/// Away from its entrances the wall band around an assembly is solid wherever
/// walls are switched on.
pub proof fn law_perimeter_is_walled(a: AssemblySample, on: Systems)
    requires
        !a.inside,
        on.walls,
        forall|i: int| 0 <= i < a.entrances@.len() ==> !in_entrance(#[trigger] a.entrances@[i]),
    ensures
        assembly_plan(a, on).solid,
{
    lemma_no_entrance(a.entrances@, a.entrances@.len());
}

proof fn lemma_no_entrance(entrances: Seq<EntranceSample>, n: nat)
    requires
        n <= entrances.len(),
        forall|i: int| 0 <= i < entrances.len() ==> !in_entrance(#[trigger] entrances[i]),
    ensures
        entrance_at(entrances, n) is None,
    decreases n,
{
    if n > 0 {
        lemma_no_entrance(entrances, (n - 1) as nat);
        assert(!in_entrance(entrances[n - 1]));
    }
}

/// Rooms without a lit fixture are dark, and red light takes a red room: the
/// anomaly of a red room is its light, never its masonry.
pub proof fn law_assembly_lights(a: AssemblySample, on: Systems)
    ensures
        assembly_plan(a, on).light ==> lit_from_above(a.fixtures@) && !assembly_plan(a, on).solid,
        assembly_plan(a, on).red_light ==> a.red_room && assembly_plan(a, on).light,
        assembly_plan(a, on).wall_material == open_column(a.ceiling_units).wall_material,
{
}

/// Inside an assembly, away from its entrances, only a partition without a doorway
/// or a column of the building fills a column, and only while walls or pillars are
/// on. A light takes an open column under a lit fixture and lights that are on; it is
/// red exactly in a red room. A partition's doorway has a lintel at 2.2.
pub proof fn law_interiors_are_sparse(a: AssemblySample, on: Systems)
    requires
        a.inside,
        forall|i: int|
            0 <= i < a.entrances@.len() ==> !less(
                (#[trigger] a.entrances@[i]).along,
                a.entrances@[i].half_width,
            ) || !at_most(a.entrances@[i].through, 0x3EE6_6667),
    ensures
        ({
            let plan = assembly_plan(a, on);
            let partition = exists|i: int|
                0 <= i < a.partitions@.len() && in_partition(#[trigger] a.partitions@[i]) && !less(
                    a.partitions@[i].off_middle,
                    0x3F19_999A,
                );
            let door = exists|i: int|
                0 <= i < a.partitions@.len() && in_partition(#[trigger] a.partitions@[i]) && less(
                    a.partitions@[i].off_middle,
                    0x3F19_999A,
                );
            let pillar = stands_on_column(a.structure) || (a.overlay matches Some(b)
                && stands_on_column(b));
            let lit = exists|i: int|
                0 <= i < a.fixtures@.len() && (#[trigger] a.fixtures@[i]).lit && at_most(
                    a.fixtures@[i].off_x,
                    a.fixtures@[i].half_x,
                ) && at_most(a.fixtures@[i].off_z, a.fixtures@[i].half_z);
            &&& plan.solid <==> (on.walls && partition) || (on.pillars && pillar)
            &&& plan.light <==> !plan.solid && on.lights && lit
            &&& plan.red_light <==> plan.light && a.red_room
            &&& plan.lintel_from_units == if on.walls && door {
                Some(0x400C_CCCDu32)
            } else {
                None
            }
            &&& plan.floor && plan.ceiling_units == a.ceiling_units
        }),
{
    assert forall|i: int| 0 <= i < a.entrances@.len() implies !in_entrance(
        #[trigger] a.entrances@[i],
    ) by {}
    lemma_no_entrance(a.entrances@, a.entrances@.len());
    if lit_from_above(a.fixtures@) {
        let i = choose|i: int| 0 <= i < a.fixtures@.len() && under_fixture(#[trigger] a.fixtures@[i]);
        assert(a.fixtures@[i].lit);
    }
    if exists|i: int|
        0 <= i < a.fixtures@.len() && (#[trigger] a.fixtures@[i]).lit && at_most(
            a.fixtures@[i].off_x,
            a.fixtures@[i].half_x,
        ) && at_most(a.fixtures@[i].off_z, a.fixtures@[i].half_z) {
        let i = choose|i: int|
            0 <= i < a.fixtures@.len() && (#[trigger] a.fixtures@[i]).lit && at_most(
                a.fixtures@[i].off_x,
                a.fixtures@[i].half_x,
            ) && at_most(a.fixtures@[i].off_z, a.fixtures@[i].half_z);
        assert(under_fixture(a.fixtures@[i]));
    }
}

/// The columns of a building stand where both offsets into the bay are below a
/// column's side. A core and shell shows none; an offset grid shifts every other
/// row, so that of two neighbouring rows one is measured from the bay and one from
/// the shifted bay.
pub proof fn law_bays_repeat(s: BaySample)
    ensures
        s.system is CoreAndShell ==> !stands_on_column(s),
        stands_on_column(s) ==> less(s.in_bay_z, s.column_side),
        !(s.system is CoreAndShell) && !(s.system is OffsetGrid) ==> (stands_on_column(s) <==> less(
            s.in_bay_x,
            s.column_side,
        ) && less(s.in_bay_z, s.column_side)),
        s.system is OffsetGrid && less(s.in_bay_z, s.column_side) && less(s.in_bay_x, s.column_side)
            != less(s.shifted_x, s.column_side) && s.row < i64::MAX ==> stands_on_column(s)
            != stands_on_column(BaySample { row: (s.row + 1) as i64, ..s }),
        s.system is OffsetGrid && s.row == 0 ==> (stands_on_column(s) <==> less(
            s.in_bay_x,
            s.column_side,
        ) && less(s.in_bay_z, s.column_side)),
{
}

/// An entrance is open all the way up but for a lintel: that of the first entrance
/// that the column lies in, where walls are on and the lintel has some height.
pub proof fn law_entrances_keep_their_lintel(a: AssemblySample, on: Systems, i: int)
    requires
        0 <= i < a.entrances@.len(),
        in_entrance(a.entrances@[i]),
        forall|k: int| 0 <= k < i ==> !in_entrance(#[trigger] a.entrances@[k]),
    ensures
        ({
            let plan = assembly_plan(a, on);
            &&& !plan.light && !plan.red_light && plan.floor && plan.ceiling_units
                == a.ceiling_units
            &&& plan.lintel_from_units is Some <==> on.walls && a.entrances@[i].lintel_units is Some
                && less(0, a.entrances@[i].lintel_units->0)
            &&& plan.lintel_from_units is Some ==> plan.lintel_from_units
                == a.entrances@[i].lintel_units
        }),
{
    lemma_first_entrance(a.entrances@, a.entrances@.len(), i);
}

proof fn lemma_first_entrance(entrances: Seq<EntranceSample>, n: nat, i: int)
    requires
        n <= entrances.len(),
        0 <= i < entrances.len(),
        in_entrance(entrances[i]),
        forall|k: int| 0 <= k < i ==> !in_entrance(#[trigger] entrances[k]),
    ensures
        n > i ==> entrance_at(entrances, n) == Some(entrances[i]),
        n <= i ==> entrance_at(entrances, n) is None,
    decreases n,
{
    if n > 0 {
        lemma_first_entrance(entrances, (n - 1) as nat, i);
    }
}

/// A column stands in a partition if it lies between the ends of the side, within half a
/// wall of it, and the side is farther than 0.1 from both parallel sides of the
/// footprint, so that it is no part of the perimeter.
pub proof fn law_partitions_are_thin_and_inside(p: PartitionSample)
    ensures
        in_partition(p) <==> {
            &&& at_most(p.low, p.at) && at_most(p.at, p.high)
            &&& less(p.off_plane, 0x3E4C_CCCD)
            &&& less(0x3DCC_CCCD, p.from_low_edge) && less(0x3DCC_CCCD, p.from_high_edge)
        },
        in_partition_door(p) <==> less(p.off_middle, 0x3F19_999A),
{
}

/// A column lies in an entrance if it is nearer to the entrance's middle than half its
/// width and no farther through the wall than the wall is deep.
pub proof fn law_entrances_pierce_the_wall(e: EntranceSample)
    ensures
        in_entrance(e) <==> less(e.along, e.half_width) && at_most(e.through, 0x3EE6_6667),
{
}

} // verus!
