//! Sampling planned circulation: corridor ceilings, the edges of corridors that
//! dissolve into rooms and fabric, and what all spines together make of a column.

use vstd::prelude::*;

use crate::domain::entities::architecture::SpaceProgram;
use crate::domain::float_bits::{
    at_most, bits_at_most, bits_clamped, bits_less, bits_max, clamped, is_nan_bits, larger, less,
    FloatBits,
};

verus! {

/// Squared radius around the spawn point, 26 squared, within which the main
/// corridor keeps both of its edge walls.
pub const SPAWN_READABLE_RADIUS2: FloatBits = 0x4429_0000;

/// Half width of a corridor's light strip, 0.45.
pub const STRIP_HALF: FloatBits = 0x3EE6_6666;

/// Length of a light module, 1.0.
pub const MODULE_LENGTH: FloatBits = 0x3F80_0000;

pub open spec fn corridor_range(kind: SpaceProgram) -> (u32, u32) {
    match kind {
        // 3.4 to 4.2
        SpaceProgram::MainCorridor => (0x4059_999Au32, 0x4086_6666u32),
        // 3.0 to 3.6
        SpaceProgram::SecondaryHall => (0x4040_0000u32, 0x4066_6666u32),
        // 3.4
        _ => (0x4059_999Au32, 0x4059_999Au32),
    }
}

/// Ceiling of a corridor, from its drifting height snapped to the voxel lattice.
/// Clamping comes last, so that snapping cannot leave the corridor's range.
pub fn corridor_ceiling(kind: SpaceProgram, snapped: FloatBits) -> (ceiling: FloatBits)
    ensures
        ceiling == clamped(snapped, corridor_range(kind).0, corridor_range(kind).1),
{
    match kind {
        SpaceProgram::MainCorridor => bits_clamped(snapped, 0x4059_999A, 0x4086_6666),
        SpaceProgram::SecondaryHall => bits_clamped(snapped, 0x4040_0000, 0x4066_6666),
        _ => bits_clamped(snapped, 0x4059_999A, 0x4059_999A),
    }
}

/// Whether a corridor-side wall dissolves into the adjacent room or fabric. Near
/// the spawn point it never does; in an expanse it always does; elsewhere it does
/// from `start` up to `end` of the span that the column lies `offset` into.
pub fn corridor_edge_opens(
    spawn_distance2: FloatBits,
    expanse: bool,
    offset: FloatBits,
    start: FloatBits,
    end: FloatBits,
) -> (opens: bool)
    ensures
        opens == edge_opens(spawn_distance2, expanse, offset, start, end),
{
    if bits_less(spawn_distance2, SPAWN_READABLE_RADIUS2) {
        return false;
    }
    if expanse {
        return true;
    }
    bits_at_most(start, offset) && bits_less(offset, end)
}

pub open spec fn edge_opens(
    spawn_distance2: u32,
    expanse: bool,
    offset: u32,
    start: u32,
    end: u32,
) -> bool {
    !less(spawn_distance2, SPAWN_READABLE_RADIUS2) && (expanse || at_most(start, offset) && less(
        offset,
        end,
    ))
}

/// How one spine lies to a column.
#[derive(Clone, Copy, Debug, PartialEq, Eq, Structural)]
pub struct SpineSample {
    /// Distance to the centerline.
    pub distance: FloatBits,
    /// Half the spine's width, and that plus the wall thickness.
    pub half: FloatBits,
    pub outer: FloatBits,
    /// Position along the spine inside its light module.
    pub phase: FloatBits,
    pub ceiling: FloatBits,
    /// Whether the spine's edge wall is dissolved here.
    pub opens: bool,
}

pub open spec fn within_spine(s: SpineSample) -> bool {
    at_most(s.distance, s.half)
}

pub open spec fn on_spine_edge(s: SpineSample) -> bool {
    !within_spine(s) && at_most(s.distance, s.outer)
}

pub open spec fn under_strip(s: SpineSample) -> bool {
    within_spine(s) && less(s.distance, STRIP_HALF) && less(s.phase, MODULE_LENGTH)
}

/// What all spines together make of a column.
#[derive(Clone, Copy, Debug, PartialEq, Eq, Structural)]
pub struct Circulation {
    pub in_corridor: bool,
    /// The highest ceiling of the spines that the column lies in or beside.
    pub ceiling: FloatBits,
    pub light: bool,
    /// The column lies in some spine's edge wall,
    pub wall: bool,
    /// and some of those walls are dissolved here.
    pub gap: bool,
}

/// The highest ceiling of those among the first `n` spines that reach the column.
pub open spec fn highest_ceiling(samples: Seq<SpineSample>, n: nat) -> u32
    decreases n,
{
    if n == 0 {
        0
    } else {
        let before = highest_ceiling(samples, (n - 1) as nat);
        let s = samples[n - 1];
        if within_spine(s) || on_spine_edge(s) {
            larger(before, s.ceiling)
        } else {
            before
        }
    }
}

pub open spec fn circulation_of(samples: Seq<SpineSample>) -> Circulation {
    Circulation {
        in_corridor: exists|i: int| 0 <= i < samples.len() && within_spine(#[trigger] samples[i]),
        ceiling: highest_ceiling(samples, samples.len()),
        light: exists|i: int| 0 <= i < samples.len() && under_strip(#[trigger] samples[i]),
        wall: exists|i: int| 0 <= i < samples.len() && on_spine_edge(#[trigger] samples[i]),
        gap: exists|i: int|
            0 <= i < samples.len() && on_spine_edge(#[trigger] samples[i]) && samples[i].opens,
    }
}

/// Folds the spines of a region into one answer about a column.
pub fn sample_circulation(samples: &Vec<SpineSample>) -> (circulation: Circulation)
    ensures
        circulation == circulation_of(samples@),
{
    let mut c = Circulation { in_corridor: false, ceiling: 0, light: false, wall: false, gap: false };
    let mut i: usize = 0;
    while i < samples.len()
        invariant
            i <= samples@.len(),
            c.in_corridor == exists|k: int|
                0 <= k < i && within_spine(#[trigger] samples@[k]),
            c.ceiling == highest_ceiling(samples@, i as nat),
            c.light == exists|k: int| 0 <= k < i && under_strip(#[trigger] samples@[k]),
            c.wall == exists|k: int| 0 <= k < i && on_spine_edge(#[trigger] samples@[k]),
            c.gap == exists|k: int|
                0 <= k < i && on_spine_edge(#[trigger] samples@[k]) && samples@[k].opens,
        decreases samples@.len() - i,
    {
        let s = samples[i];
        let ghost here = samples@[i as int];
        if bits_at_most(s.distance, s.half) {
            c.in_corridor = true;
            c.ceiling = bits_max(c.ceiling, s.ceiling);
            if bits_less(s.distance, STRIP_HALF) && bits_less(s.phase, MODULE_LENGTH) {
                c.light = true;
            }
        } else if bits_at_most(s.distance, s.outer) {
            c.wall = true;
            c.ceiling = bits_max(c.ceiling, s.ceiling);
            if s.opens {
                c.gap = true;
            }
        }
        i = i + 1;
    }
    c
}

/// A corridor's light hangs inside a corridor, and its gaps are in its walls.
pub proof fn law_circulation_is_consistent(samples: Seq<SpineSample>)
    ensures
        circulation_of(samples).light ==> circulation_of(samples).in_corridor,
        circulation_of(samples).gap ==> circulation_of(samples).wall,
{
}

/// Near the spawn point every corridor edge stays walled: no gap can open where
/// all spines were asked about the readable surroundings.
pub proof fn law_spawn_edges_stay_walled(spawn_distance2: u32, expanse: bool, offset: u32, start: u32, end: u32)
    requires
        less(spawn_distance2, SPAWN_READABLE_RADIUS2),
    ensures
        !edge_opens(spawn_distance2, expanse, offset, start, end),
{
}

/// The ceiling over a column is as high as that of every corridor that it lies in or
/// beside, and is the ceiling of one of them.
pub proof fn law_ceiling_is_the_highest(samples: Seq<SpineSample>, i: int)
    requires
        0 <= i < samples.len(),
        at_most(samples[i].distance, samples[i].half) || at_most(
            samples[i].distance,
            samples[i].outer,
        ),
    ensures
        !less(circulation_of(samples).ceiling, samples[i].ceiling),
        circulation_of(samples).ceiling == 0 || exists|k: int|
            0 <= k < samples.len() && (#[trigger] samples[k]).ceiling == circulation_of(
                samples,
            ).ceiling,
{
    lemma_highest_ceiling(samples, samples.len(), i);
}

proof fn lemma_highest_ceiling(samples: Seq<SpineSample>, n: nat, i: int)
    requires
        n <= samples.len(),
    ensures
        0 <= i < n && (within_spine(samples[i]) || on_spine_edge(samples[i])) ==> !less(
            highest_ceiling(samples, n),
            samples[i].ceiling,
        ),
        highest_ceiling(samples, n) == 0 || exists|k: int|
            0 <= k < n && (#[trigger] samples[k]).ceiling == highest_ceiling(samples, n),
        !is_nan_bits(highest_ceiling(samples, n)),
    decreases n,
{
    if n > 0 {
        lemma_highest_ceiling(samples, (n - 1) as nat, i);
    }
}

/// A corridor's edge stays walled near the spawn point. Farther off it is dissolved
/// all along an expanse, and elsewhere exactly from the start of the gap up to its
/// end.
pub proof fn law_edges_dissolve_in_gaps(
    spawn_distance2: u32,
    expanse: bool,
    offset: u32,
    start: u32,
    end: u32,
)
    requires
        !less(spawn_distance2, 0x4429_0000),
    ensures
        expanse ==> edge_opens(spawn_distance2, expanse, offset, start, end),
        !expanse ==> (edge_opens(spawn_distance2, expanse, offset, start, end) <==> at_most(
            start,
            offset,
        ) && less(offset, end)),
{
}

/// A column is in a corridor exactly if it lies no farther from some centerline than
/// half that corridor's width, and in an edge wall if it lies beyond that but within
/// the wall. Light hangs over the middle of a corridor, along the first part of each
/// light module.
pub proof fn law_corridors_are_bands(samples: Seq<SpineSample>)
    ensures
        circulation_of(samples).in_corridor <==> exists|i: int|
            0 <= i < samples.len() && at_most(
                (#[trigger] samples[i]).distance,
                samples[i].half,
            ),
        circulation_of(samples).wall <==> exists|i: int|
            0 <= i < samples.len() && !at_most((#[trigger] samples[i]).distance, samples[i].half)
                && at_most(samples[i].distance, samples[i].outer),
        circulation_of(samples).gap <==> exists|i: int|
            0 <= i < samples.len() && !at_most((#[trigger] samples[i]).distance, samples[i].half)
                && at_most(samples[i].distance, samples[i].outer) && samples[i].opens,
        circulation_of(samples).light <==> exists|i: int|
            0 <= i < samples.len() && at_most((#[trigger] samples[i]).distance, samples[i].half)
                && less(samples[i].distance, 0x3EE6_6666) && less(samples[i].phase, 0x3F80_0000),
{
    let c = circulation_of(samples);
    assert forall|i: int| 0 <= i < samples.len() implies within_spine(#[trigger] samples[i])
        == at_most(samples[i].distance, samples[i].half) by {}
    if c.light {
        let i = choose|i: int| 0 <= i < samples.len() && under_strip(#[trigger] samples[i]);
        assert(at_most(samples[i].distance, samples[i].half));
    }
    assert forall|i: int|
        0 <= i < samples.len() && at_most((#[trigger] samples[i]).distance, samples[i].half) && less(
            samples[i].distance,
            0x3EE6_6666,
        ) && less(samples[i].phase, 0x3F80_0000) implies c.light by {
        assert(under_strip(samples[i]));
    }
}

/// Corridor ceilings keep to their range however they drift: from 3.4 to 4.2 over a
/// main corridor, from 3.0 to 3.6 over a secondary hall, and 3.4 over any other.
pub proof fn law_corridor_ceilings_keep_their_range(kind: SpaceProgram, snapped: u32)
    requires
        !is_nan_bits(snapped),
    ensures
        ({
            let ceiling = clamped(snapped, corridor_range(kind).0, corridor_range(kind).1);
            &&& kind is MainCorridor ==> at_most(0x4059_999A, ceiling) && at_most(
                ceiling,
                0x4086_6666,
            )
            &&& kind is SecondaryHall ==> at_most(0x4040_0000, ceiling) && at_most(
                ceiling,
                0x4066_6666,
            )
            &&& !(kind is MainCorridor) && !(kind is SecondaryHall) ==> ceiling == 0x4059_999A
            &&& at_most(corridor_range(kind).0, snapped) && at_most(
                snapped,
                corridor_range(kind).1,
            ) && (kind is MainCorridor || kind is SecondaryHall) ==> ceiling == snapped
        }),
{
}

} // verus!
