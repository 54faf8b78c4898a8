//! Zones of the cells of a chunk, from clustered noise.

use vstd::prelude::*;

use crate::domain::entities::blueprint::{Blueprint, MicrobiomeZone, PlanCell, PlanModel};
use crate::domain::float_bits::{at_most, bits_less, is_nan_bits, less};
use crate::use_cases::chunk::metrics::MAX_SPAN;

verus! {

/// Bits of -0.7: noise below is blackout.
pub const BLACKOUT_BELOW: u32 = 0xBF33_3333;

/// Bits of -0.4: noise below is a floor with holes.
pub const HOLES_BELOW: u32 = 0xBECC_CCCD;

/// Bits of 0.6: noise above is a pillar field.
pub const PILLARS_ABOVE: u32 = 0x3F19_999A;

/// Bits of 0.4: noise above has arches.
pub const ARCH_ABOVE: u32 = 0x3ECC_CCCD;

/// Bits of 0.2 and 0.25: noise between is a red room.
pub const RED_ABOVE: u32 = 0x3E4C_CCCD;

pub const RED_BELOW: u32 = 0x3E80_0000;

/// The zone for a noise value; `atrium_above` is the tunable level, in bits, over
/// which cells vault into atria.
pub open spec fn zone_of(noise: u32, atrium_above: u32) -> MicrobiomeZone {
    if less(noise, BLACKOUT_BELOW) {
        MicrobiomeZone::Blackout
    } else if less(noise, HOLES_BELOW) {
        MicrobiomeZone::Holes
    } else if less(atrium_above, noise) {
        MicrobiomeZone::Atrium
    } else if less(PILLARS_ABOVE, noise) {
        MicrobiomeZone::PillarField
    } else if less(ARCH_ABOVE, noise) {
        MicrobiomeZone::Arch
    } else if less(RED_ABOVE, noise) && less(noise, RED_BELOW) {
        MicrobiomeZone::RedRoom
    } else {
        MicrobiomeZone::Standard
    }
}

/// The zone for a noise value, given as bits.
pub fn classify_zone(noise: u32, atrium_above: u32) -> (zone: MicrobiomeZone)
    ensures
        zone == zone_of(noise, atrium_above),
{
    if bits_less(noise, BLACKOUT_BELOW) {
        MicrobiomeZone::Blackout
    } else if bits_less(noise, HOLES_BELOW) {
        MicrobiomeZone::Holes
    } else if bits_less(atrium_above, noise) {
        MicrobiomeZone::Atrium
    } else if bits_less(PILLARS_ABOVE, noise) {
        MicrobiomeZone::PillarField
    } else if bits_less(ARCH_ABOVE, noise) {
        MicrobiomeZone::Arch
    } else if bits_less(RED_ABOVE, noise) && bits_less(noise, RED_BELOW) {
        MicrobiomeZone::RedRoom
    } else {
        MicrobiomeZone::Standard
    }
}

pub open spec fn with_zone(cell: PlanCell, zone: MicrobiomeZone) -> PlanCell {
    PlanCell {
        north: cell.north,
        east: cell.east,
        south: cell.south,
        west: cell.west,
        zone,
        is_corridor: cell.is_corridor,
        room: cell.room,
    }
}

/// The plan with the zones of the first `n` cells set, row by row.
pub open spec fn zoned(plan: PlanModel, noise: Seq<u32>, atrium_above: u32, n: nat) -> PlanModel
    decreases n,
{
    if n == 0 {
        plan
    } else {
        let before = zoned(plan, noise, atrium_above, (n - 1) as nat);
        let x = (n - 1) as int % plan.width;
        let z = (n - 1) as int / plan.width;
        before.put(x, z, with_zone(before.at(x, z), zone_of(noise[n - 1], atrium_above)))
    }
}

/// Sets the zone of every cell from its noise value, row by row.
pub fn assign_zones(plan: &mut Blueprint, noise: &Vec<u32>, atrium_above: u32)
    requires
        old(plan).wf(),
        old(plan)@.width > 0,
        noise@.len() == old(plan)@.width * old(plan)@.depth,
    ensures
        final(plan).wf(),
        final(plan)@.width == old(plan)@.width,
        final(plan)@.depth == old(plan)@.depth,
        final(plan)@ == zoned(old(plan)@, noise@, atrium_above, noise@.len()),
{
    let ghost start = plan@;
    let w: usize = plan.width();
    let d: usize = plan.depth();
    let mut i: usize = 0;
    while i < noise.len()
        invariant
            i <= noise@.len(),
            plan.wf(),
            plan@.width == w,
            plan@.depth == d,
            start.width == w,
            w > 0,
            noise@.len() == w * d,
            plan@ == zoned(start, noise@, atrium_above, i as nat),
        decreases noise@.len() - i,
    {
        let x: usize = i % w;
        let z: usize = i / w;
        assert(z < d) by (nonlinear_arith)
            requires
                i < w * d,
                z == i / w,
                w > 0,
        ;
        let mut cell = plan.get(x, z);
        cell.zone = classify_zone(noise[i], atrium_above);
        plan.set(x, z, cell);
        i = i + 1;
    }
}

/// Ceiling row of a zone, given the rows of atria, blackout and other cells.
pub open spec fn zone_top(zone: MicrobiomeZone, tall: int, low: int, standard: int) -> int {
    match zone {
        MicrobiomeZone::Atrium => tall,
        MicrobiomeZone::Blackout => low,
        _ => standard,
    }
}

/// The chunk has two rows more than the highest ceiling row of any cell.
pub open spec fn is_chunk_height(
    plan: PlanModel,
    tall: int,
    low: int,
    standard: int,
    height: int,
) -> bool {
    &&& forall|x: int, z: int|
        plan.inside(x, z) ==> zone_top((#[trigger] plan.at(x, z)).zone, tall, low, standard) + 2
            <= height
    &&& exists|x: int, z: int|
        plan.inside(x, z) && zone_top((#[trigger] plan.at(x, z)).zone, tall, low, standard) + 2
            == height
}

/// Rows of a chunk: the highest ceiling of any cell, and one row of floor and
/// one of ceiling beyond it.
pub fn chunk_height(plan: &Blueprint, tall: usize, low: usize, standard: usize) -> (height: usize)
    requires
        plan.wf(),
        plan@.width > 0,
        plan@.depth > 0,
        tall <= MAX_SPAN,
        low <= MAX_SPAN,
        standard <= MAX_SPAN,
    ensures
        forall|x: int, z: int|
            plan@.inside(x, z) ==> zone_top(
                (#[trigger] plan@.at(x, z)).zone,
                tall as int,
                low as int,
                standard as int,
            ) + 2 <= height,
        exists|x: int, z: int|
            plan@.inside(x, z) && zone_top(
                (#[trigger] plan@.at(x, z)).zone,
                tall as int,
                low as int,
                standard as int,
            ) + 2 == height,
        is_chunk_height(plan@, tall as int, low as int, standard as int, height as int),
{
    let w: usize = plan.width();
    let d: usize = plan.depth();
    let mut top: usize = top_row(plan.get(0, 0).zone, tall, low, standard);
    assert(plan@.inside(0, 0) && zone_top(
        plan@.at(0, 0).zone,
        tall as int,
        low as int,
        standard as int,
    ) == top);
    let mut z: usize = 0;
    while z < d
        invariant
            z <= d,
            plan.wf(),
            plan@.width == w,
            plan@.depth == d,
            top <= MAX_SPAN,
            tall <= MAX_SPAN,
            low <= MAX_SPAN,
            standard <= MAX_SPAN,
            forall|i: int, k: int|
                plan@.inside(i, k) && k < z ==> zone_top(
                    (#[trigger] plan@.at(i, k)).zone,
                    tall as int,
                    low as int,
                    standard as int,
                ) <= top,
            exists|i: int, k: int|
                plan@.inside(i, k) && zone_top(
                    (#[trigger] plan@.at(i, k)).zone,
                    tall as int,
                    low as int,
                    standard as int,
                ) == top,
        decreases d - z,
    {
        let mut x: usize = 0;
        while x < w
            invariant
                x <= w,
                z < d,
                plan.wf(),
                plan@.width == w,
                plan@.depth == d,
                top <= MAX_SPAN,
                tall <= MAX_SPAN,
                low <= MAX_SPAN,
                standard <= MAX_SPAN,
                forall|i: int, k: int|
                    plan@.inside(i, k) && (k < z || (k == z && i < x)) ==> zone_top(
                        (#[trigger] plan@.at(i, k)).zone,
                        tall as int,
                        low as int,
                        standard as int,
                    ) <= top,
                exists|i: int, k: int|
                    plan@.inside(i, k) && zone_top(
                        (#[trigger] plan@.at(i, k)).zone,
                        tall as int,
                        low as int,
                        standard as int,
                    ) == top,
            decreases w - x,
        {
            let row: usize = top_row(plan.get(x, z).zone, tall, low, standard);
            if row > top {
                top = row;
                assert(plan@.inside(x as int, z as int) && zone_top(
                    plan@.at(x as int, z as int).zone,
                    tall as int,
                    low as int,
                    standard as int,
                ) == top);
            }
            x = x + 1;
        }
        z = z + 1;
    }
    top + 2
}

fn top_row(zone: MicrobiomeZone, tall: usize, low: usize, standard: usize) -> (row: usize)
    ensures
        row == zone_top(zone, tall as int, low as int, standard as int),
{
    match zone {
        MicrobiomeZone::Atrium => tall,
        MicrobiomeZone::Blackout => low,
        _ => standard,
    }
}

proof fn lemma_zoned(plan: PlanModel, noise: Seq<u32>, atrium_above: u32, n: nat, x: int, z: int)
    requires
        plan.inside(x, z),
        n <= plan.width * plan.depth,
    ensures
        zoned(plan, noise, atrium_above, n).width == plan.width,
        zoned(plan, noise, atrium_above, n).depth == plan.depth,
        zoned(plan, noise, atrium_above, n).at(x, z) == if z * plan.width + x < n {
            with_zone(plan.at(x, z), zone_of(noise[z * plan.width + x], atrium_above))
        } else {
            plan.at(x, z)
        },
    decreases n,
{
    if n > 0 {
        let i = n - 1;
        let w = plan.width;
        lemma_zoned(plan, noise, atrium_above, (n - 1) as nat, x, z);
        vstd::arithmetic::div_mod::lemma_fundamental_div_mod(i, w);
        assert(w * (i / w) == (i / w) * w) by (nonlinear_arith);
        assert(0 <= i / w < plan.depth) by (nonlinear_arith)
            requires
                0 <= i < w * plan.depth,
                w > 0,
        ;
        if i == z * w + x {
            vstd::arithmetic::div_mod::lemma_fundamental_div_mod_converse(i, w, z, x);
        }
    }
}

/// Every cell gets the zone of its own noise value, row by row from the north-west
/// corner, and keeps everything else.
pub proof fn law_cells_get_the_zone_of_their_noise(
    plan: PlanModel,
    noise: Seq<u32>,
    atrium_above: u32,
    x: int,
    z: int,
)
    requires
        plan.inside(x, z),
        noise.len() == plan.width * plan.depth,
    ensures
        ({
            let before = plan.at(x, z);
            let after = zoned(plan, noise, atrium_above, noise.len()).at(x, z);
            &&& after.zone == zone_of(noise[z * plan.width + x], atrium_above)
            &&& after.north == before.north && after.east == before.east && after.south
                == before.south && after.west == before.west
            &&& after.is_corridor == before.is_corridor && after.room == before.room
        }),
{
    lemma_zoned(plan, noise, atrium_above, noise.len(), x, z);
    assert(0 <= z * plan.width + x < plan.width * plan.depth) by (nonlinear_arith)
        requires
            0 <= x < plan.width,
            0 <= z < plan.depth,
    ;
}

/// The zones divide the noise. Below -0.7 it is dark, from there up to -0.4 the floor
/// has holes, and above the tunable level cells vault into atria. Of the rest pillars
/// take what is above 0.6, arches what is above 0.4, red rooms the narrow band between
/// 0.2 and 0.25, and everything else is ordinary.
pub proof fn law_zones_divide_the_noise(noise: u32, atrium_above: u32)
    requires
        !is_nan_bits(noise),
        !is_nan_bits(atrium_above),
    ensures
        ({
            let zone = zone_of(noise, atrium_above);
            let low = less(noise, 0xBECC_CCCD);
            let vaults = less(atrium_above, noise);
            &&& zone is Blackout <==> less(noise, 0xBF33_3333)
            &&& zone is Holes <==> low && at_most(0xBF33_3333, noise)
            &&& zone is Atrium <==> !low && vaults
            &&& zone is PillarField <==> less(0x3F19_999A, noise) && !vaults
            &&& zone is Arch <==> less(0x3ECC_CCCD, noise) && at_most(noise, 0x3F19_999A) && !vaults
            &&& zone is RedRoom <==> less(0x3E4C_CCCD, noise) && less(noise, 0x3E80_0000) && !vaults
        }),
{
}

/// A chunk is as high as it has to be: above the ceiling row of every cell one row is
/// left, above that of the highest no more than one. Only one height is right, and only
/// an atrium makes a chunk as high as atria are.
pub proof fn law_chunks_are_as_high_as_needed(
    plan: PlanModel,
    tall: int,
    low: int,
    standard: int,
    height: int,
    other: int,
    x: int,
    z: int,
)
    requires
        is_chunk_height(plan, tall, low, standard, height),
        low <= standard < tall,
        plan.inside(x, z),
    ensures
        is_chunk_height(plan, tall, low, standard, other) ==> other == height,
        plan.at(x, z).zone is Atrium ==> height == tall + 2,
        !(plan.at(x, z).zone is Atrium) && !(plan.at(x, z).zone is Blackout) ==> height >= standard
            + 2,
        (forall|a: int, b: int|
            plan.inside(a, b) ==> !((#[trigger] plan.at(a, b)).zone is Atrium)) ==> height
            <= standard + 2,
        height >= low + 2,
{
    let (a, b) = choose|a: int, b: int|
        plan.inside(a, b) && zone_top((#[trigger] plan.at(a, b)).zone, tall, low, standard) + 2
            == height;
    assert(zone_top(plan.at(x, z).zone, tall, low, standard) + 2 <= height);
    if is_chunk_height(plan, tall, low, standard, other) {
        let (c, d) = choose|c: int, d: int|
            plan.inside(c, d) && zone_top((#[trigger] plan.at(c, d)).zone, tall, low, standard) + 2
                == other;
        assert(zone_top(plan.at(c, d).zone, tall, low, standard) + 2 <= height);
        assert(zone_top(plan.at(a, b).zone, tall, low, standard) + 2 <= other);
    }
}

} // verus!
