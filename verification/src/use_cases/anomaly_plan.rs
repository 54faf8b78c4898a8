//! Deterministic planning of large anomalies.
//!
//! A candidate's identity is anchored to a world lattice, never to a region or a
//! chunk that asks. Every region that an instance reaches therefore gets the same
//! record, with the same lattice phase and the same gate ids.

use vstd::prelude::*;

use crate::domain::entities::anomaly::traversal::{TraversalGate, TraversalGateKind};
use crate::domain::entities::anomaly::{
    encode_kind, kind_code, rotate_bits, rotated, AnomalyId, AnomalyInstance, AnomalyKind, Axis2,
    AxisDirection, MacroCell, OrientedFootprint, OrthoBasis, PillarLattice, PitLattice, Position,
    QuarterTurn, WorldBounds,
};
use crate::domain::entities::architecture::Opening;
use crate::domain::float_bits::{at_most, bits_at_most, bits_less, is_nan_bits, less, FloatBits};
use crate::domain::hashing::{law_mixing_keeps_apart, lemma_products_differ, mix64, mixed};
use crate::domain::ordering::{first_by_id, picks_first};
use crate::domain::unit_interval::{ticks_of, unit, unit_bits};

verus! {

/// Hash of a lattice cell under a salt.
pub open spec fn cell_hash(seed: u32, salt: u64, x: i64, z: i64) -> u64 {
    mixed(
        (seed as u64) ^ salt ^ (x as u64).wrapping_mul(0x9E37_79B9_7F4A_7C15) ^ rotated(z as u64, 31),
    )
}

pub fn hash(seed: u32, salt: u64, x: i64, z: i64) -> (h: u64)
    ensures
        h == cell_hash(seed, salt, x, z),
{
    mix64(
        (seed as u64) ^ salt ^ (x as u64).wrapping_mul(0x9E37_79B9_7F4A_7C15) ^ rotate_bits(
            z as u64,
            31,
        ),
    )
}

/// The number between zero and one that a cell rolls under a salt.
pub open spec fn cell_roll(seed: u32, salt: u64, x: i64, z: i64) -> u32 {
    unit_bits(ticks_of(cell_hash(seed, salt, x, z)))
}

/// Id of the anomaly anchored to a cell whose family has the given code.
pub open spec fn family_id(seed: u32, code: u32, x: i64, z: i64) -> AnomalyId {
    cell_hash(seed, 0xA110_4A1E_0000_0000 | (code as u64), x, z)
}

/// Id of the anomaly of a kind that is anchored to a cell.
pub open spec fn anchored_id(seed: u32, kind: AnomalyKind, x: i64, z: i64) -> AnomalyId {
    family_id(seed, kind_code(kind), x, z)
}

pub fn stable_id(seed: u32, kind: AnomalyKind, x: i64, z: i64) -> (id: AnomalyId)
    ensures
        id == anchored_id(seed, kind, x, z),
{
    hash(seed, 0xA110_4A1E_0000_0000 | (encode_kind(kind) as u64), x, z)
}

/// A rectangle of lattice cells, both ends included.
#[derive(Clone, Copy, Debug, PartialEq, Eq, Structural)]
pub struct CellRange {
    pub x0: i64,
    pub x1: i64,
    pub z0: i64,
    pub z1: i64,
}

/// The cells of row `z` from `x0` up to, not including, `x` that roll below the
/// chance.
pub open spec fn row_candidates(seed: u32, salt: u64, chance: u32, x0: int, x: int, z: int) -> Seq<
    MacroCell,
>
    decreases x - x0,
{
    if x <= x0 {
        Seq::empty()
    } else {
        let before = row_candidates(seed, salt, chance, x0, x - 1, z);
        if at_most(chance, cell_roll(seed, salt, (x - 1) as i64, z as i64)) {
            before
        } else {
            before.push(MacroCell { x: (x - 1) as i64, z: z as i64 })
        }
    }
}

/// The cells of the rows from `z0` up to, not including, `z` that roll below the
/// chance.
pub open spec fn candidates(seed: u32, salt: u64, chance: u32, cells: CellRange, z: int) -> Seq<
    MacroCell,
>
    decreases z - cells.z0,
{
    if z <= cells.z0 {
        Seq::empty()
    } else {
        candidates(seed, salt, chance, cells, z - 1) + row_candidates(
            seed,
            salt,
            chance,
            cells.x0 as int,
            cells.x1 + 1,
            z - 1,
        )
    }
}

/// All cells of a range, row by row, that roll below the chance.
pub fn scan_candidates(seed: u32, salt: u64, chance: FloatBits, cells: &CellRange) -> (found: Vec<
    MacroCell,
>)
    ensures
        found@ == candidates(seed, salt, chance, *cells, cells.z1 + 1),
{
    let mut found: Vec<MacroCell> = Vec::new();
    let mut z: i128 = cells.z0 as i128;
    while z <= cells.z1 as i128
        invariant
            cells.z0 <= z,
            z <= cells.z1 + 1 || z == cells.z0,
            found@ == candidates(seed, salt, chance, *cells, z as int),
        decreases cells.z1 + 1 - z,
    {
        let ghost rows = found@;
        let mut x: i128 = cells.x0 as i128;
        while x <= cells.x1 as i128
            invariant
                cells.x0 <= x,
                x <= cells.x1 + 1 || x == cells.x0,
                cells.z0 <= z <= cells.z1,
                found@ == rows + row_candidates(
                    seed,
                    salt,
                    chance,
                    cells.x0 as int,
                    x as int,
                    z as int,
                ),
            decreases cells.x1 + 1 - x,
        {
            let ghost before = found@;
            let roll: FloatBits = unit(hash(seed, salt, x as i64, z as i64));
            if !bits_at_most(chance, roll) {
                found.push(MacroCell { x: x as i64, z: z as i64 });
            }
            x = x + 1;
            assert(found@ =~= rows + row_candidates(
                seed,
                salt,
                chance,
                cells.x0 as int,
                x as int,
                z as int,
            ));
        }
        proof {
            lemma_empty_row(seed, salt, chance, cells.x0 as int, x as int, cells.x1 + 1, z as int);
        }
        z = z + 1;
    }
    proof {
        lemma_empty_rows(seed, salt, chance, *cells, z as int, cells.z1 + 1);
    }
    found
}

proof fn lemma_empty_row(seed: u32, salt: u64, chance: u32, x0: int, a: int, b: int, z: int)
    requires
        a == b || a <= x0 && b <= x0,
    ensures
        row_candidates(seed, salt, chance, x0, a, z) == row_candidates(seed, salt, chance, x0, b, z),
{
}

proof fn lemma_empty_rows(seed: u32, salt: u64, chance: u32, cells: CellRange, a: int, b: int)
    requires
        a == b || a <= cells.z0 && b <= cells.z0,
    ensures
        candidates(seed, salt, chance, cells, a) == candidates(seed, salt, chance, cells, b),
{
}

/// A kind that covers its ground with a lattice, and the weight it is drawn with.
#[derive(Clone, Copy, Debug, PartialEq, Eq, Structural)]
pub struct FamilyWeight {
    pub weight: FloatBits,
    /// What is left of the draw when this kind's turn comes.
    pub cursor: FloatBits,
}

pub open spec fn drawn_family(
    total: u32,
    pillars: FamilyWeight,
    blackouts: FamilyWeight,
    pits: FamilyWeight,
) -> Option<AnomalyKind> {
    if at_most(total, 0) {
        None
    } else if less(pillars.cursor, pillars.weight) {
        Some(AnomalyKind::PillarExpanse)
    } else if less(blackouts.cursor, blackouts.weight) {
        Some(AnomalyKind::BlackoutExpanse)
    } else if less(pits.cursor, pits.weight) {
        Some(AnomalyKind::PitLattice)
    } else {
        Some(AnomalyKind::PillarExpanse)
    }
}

/// Draws a kind in proportion to the weights; nothing where all weights are zero.
pub fn weighted_family(
    total: FloatBits,
    pillars: &FamilyWeight,
    blackouts: &FamilyWeight,
    pits: &FamilyWeight,
) -> (kind: Option<AnomalyKind>)
    ensures
        kind == drawn_family(total, *pillars, *blackouts, *pits),
{
    if bits_at_most(total, 0) {
        None
    } else if bits_less(pillars.cursor, pillars.weight) {
        Some(AnomalyKind::PillarExpanse)
    } else if bits_less(blackouts.cursor, blackouts.weight) {
        Some(AnomalyKind::BlackoutExpanse)
    } else if bits_less(pits.cursor, pits.weight) {
        Some(AnomalyKind::PitLattice)
    } else {
        Some(AnomalyKind::PillarExpanse)
    }
}

/// Where a gate of an instance stands.
#[derive(Clone, Copy, Debug, PartialEq, Eq, Structural)]
pub struct GateSite {
    /// Its number, counted from the instance's center.
    pub index: i64,
    /// Where its plane meets the instance's long axis.
    pub at: Position,
}

/// The kinds whose interior is divided by gates.
pub open spec fn has_gates(kind: AnomalyKind) -> bool {
    kind is PillarExpanse || kind is BlackoutExpanse
}

pub open spec fn gate_id(instance: AnomalyId, index: i64) -> u64 {
    mixed(instance ^ rotated(index as u64, 23) ^ 0x6A7E)
}

/// The world axis that an instance's local x axis lies along.
pub open spec fn gate_axis(basis: OrthoBasis) -> Axis2 {
    match basis.turn {
        QuarterTurn::Zero => Axis2::X,
        QuarterTurn::Clockwise => Axis2::Z,
    }
}

pub open spec fn site_gate(
    id: AnomalyId,
    kind: AnomalyKind,
    basis: OrthoBasis,
    bounds: WorldBounds,
    site: GateSite,
) -> TraversalGate {
    TraversalGate {
        id: gate_id(id, site.index),
        instance_id: id,
        anomaly_kind: kind,
        kind: TraversalGateKind::Remap,
        axis: gate_axis(basis),
        plane: match gate_axis(basis) {
            Axis2::X => site.at.x,
            Axis2::Z => site.at.z,
        },
        span_min: match gate_axis(basis) {
            Axis2::X => bounds.min_z,
            Axis2::Z => bounds.min_x,
        },
        span_max: match gate_axis(basis) {
            Axis2::X => bounds.max_z,
            Axis2::Z => bounds.max_x,
        },
        forward: AxisDirection::Positive,
        affected_bounds: bounds,
    }
}

pub open spec fn site_gates(
    id: AnomalyId,
    kind: AnomalyKind,
    basis: OrthoBasis,
    bounds: WorldBounds,
    sites: Seq<GateSite>,
) -> Seq<TraversalGate> {
    if has_gates(kind) {
        Seq::new(sites.len(), |i: int| site_gate(id, kind, basis, bounds, sites[i]))
    } else {
        Seq::empty()
    }
}

/// The gates of an instance, one per site. They span the whole footprint.
pub fn gates_for(
    id: AnomalyId,
    kind: AnomalyKind,
    basis: OrthoBasis,
    bounds: WorldBounds,
    sites: &Vec<GateSite>,
) -> (gates: Vec<TraversalGate>)
    ensures
        gates@ == site_gates(id, kind, basis, bounds, sites@),
{
    let mut gates: Vec<TraversalGate> = Vec::new();
    let gated: bool = match kind {
        AnomalyKind::PillarExpanse => true,
        AnomalyKind::BlackoutExpanse => true,
        _ => false,
    };
    if !gated {
        assert(gates@ =~= site_gates(id, kind, basis, bounds, sites@));
        return gates;
    }
    let axis = basis.local_axis_in_world(Axis2::X);
    assert(axis == gate_axis(basis));
    let mut i: usize = 0;
    while i < sites.len()
        invariant
            i <= sites@.len(),
            axis == gate_axis(basis),
            gates@.len() == i,
            forall|k: int|
                0 <= k < i ==> #[trigger] gates@[k] == site_gate(id, kind, basis, bounds, sites@[k]),
        decreases sites@.len() - i,
    {
        let site = sites[i];
        let (plane, span_min, span_max) = match axis {
            Axis2::X => (site.at.x, bounds.min_z, bounds.max_z),
            Axis2::Z => (site.at.z, bounds.min_x, bounds.max_x),
        };
        gates.push(
            TraversalGate {
                id: mix64(id ^ rotate_bits(site.index as u64, 23) ^ 0x6A7E),
                instance_id: id,
                anomaly_kind: kind,
                kind: TraversalGateKind::Remap,
                axis,
                plane,
                span_min,
                span_max,
                forward: AxisDirection::Positive,
                affected_bounds: bounds,
            },
        );
        i = i + 1;
    }
    assert(gates@ =~= site_gates(id, kind, basis, bounds, sites@));
    gates
}

/// Bays and phases of a pillar lattice.
#[derive(Clone, Copy, Debug, PartialEq, Eq, Structural)]
pub struct PillarMeasures {
    pub bay_x: FloatBits,
    pub bay_z: FloatBits,
    pub phase_x: FloatBits,
    pub phase_z: FloatBits,
}

/// Spacings, phases and side of a pit lattice.
#[derive(Clone, Copy, Debug, PartialEq, Eq, Structural)]
pub struct PitMeasures {
    pub spacing_x: FloatBits,
    pub spacing_z: FloatBits,
    pub phase_x: FloatBits,
    pub phase_z: FloatBits,
    pub side: FloatBits,
}

/// What was measured for an instance.
pub struct MacroMeasures {
    pub center: Position,
    pub half_x: FloatBits,
    pub half_z: FloatBits,
    /// Bounds of the footprint.
    pub bounds: WorldBounds,
    pub pillars: PillarMeasures,
    pub pits: PitMeasures,
    pub sites: Vec<GateSite>,
}

/// Boundary depth that a kind keeps regular: 16, 12 or 6.
pub open spec fn entry_band(kind: AnomalyKind) -> u32 {
    match kind {
        AnomalyKind::PillarExpanse => 0x4180_0000,
        AnomalyKind::BlackoutExpanse => 0x4140_0000,
        _ => 0x40C0_0000,
    }
}

/// Half width of a kind's lasting route: 2, or 1.8 between pits.
pub open spec fn skeleton_half_width(kind: AnomalyKind) -> u32 {
    match kind {
        AnomalyKind::PillarExpanse => 0x4000_0000,
        AnomalyKind::BlackoutExpanse => 0x4000_0000,
        _ => 0x3FE6_6666,
    }
}

/// How the instance anchored to a cell is turned.
pub open spec fn anchored_turn(seed: u32, x: i64, z: i64) -> QuarterTurn {
    if cell_hash(seed, 0xC3, x, z) & 1 == 0 {
        QuarterTurn::Zero
    } else {
        QuarterTurn::Clockwise
    }
}

/// What it takes to be the instance of a kind that is anchored to a cell.
pub open spec fn is_macro_instance(
    instance: AnomalyInstance,
    seed: u32,
    cell: MacroCell,
    kind: AnomalyKind,
    m: MacroMeasures,
) -> bool {
    let id = anchored_id(seed, kind, cell.x, cell.z);
    let basis = OrthoBasis { turn: anchored_turn(seed, cell.x, cell.z) };
    &&& instance.id == id
    &&& instance.kind == kind
    &&& instance.footprint == (OrientedFootprint {
        center: m.center,
        half_x: m.half_x,
        half_z: m.half_z,
        basis,
    })
    &&& instance.basis == basis
    &&& instance.macro_anchor == cell
    &&& instance.pillar_lattice == if kind is PillarExpanse {
        Some(
            PillarLattice {
                bay_x: m.pillars.bay_x,
                bay_z: m.pillars.bay_z,
                phase_x: m.pillars.phase_x,
                phase_z: m.pillars.phase_z,
                // 1.2 and 1.6
                min_side: 0x3F99_999A,
                max_side: 0x3FCC_CCCD,
                variation_seed: id ^ 0xA111_AA55,
            },
        )
    } else {
        None
    }
    &&& instance.pit_lattice == if kind is PitLattice {
        Some(
            PitLattice {
                spacing_x: m.pits.spacing_x,
                spacing_z: m.pits.spacing_z,
                phase_x: m.pits.phase_x,
                phase_z: m.pits.phase_z,
                side: m.pits.side,
                // 2.4
                depth: 0x4019_999A,
            },
        )
    } else {
        None
    }
    &&& instance.gates@ == site_gates(id, kind, basis, m.bounds, m.sites@)
    &&& instance.skeleton_half_width == skeleton_half_width(kind)
    &&& instance.entry_band == entry_band(kind)
}

/// The instance of a kind that is anchored to a cell. Red rooms derive from
/// assemblies instead.
pub fn macro_instance(seed: u32, cell: MacroCell, kind: AnomalyKind, m: &MacroMeasures) -> (instance:
    AnomalyInstance)
    requires
        kind != AnomalyKind::RedRoom,
    ensures
        is_macro_instance(instance, seed, cell, kind, *m),
{
    let id: AnomalyId = stable_id(seed, kind, cell.x, cell.z);
    let basis = OrthoBasis {
        turn: if hash(seed, 0xC3, cell.x, cell.z) & 1 == 0 {
            QuarterTurn::Zero
        } else {
            QuarterTurn::Clockwise
        },
    };
    let (band, skeleton): (FloatBits, FloatBits) = match kind {
        AnomalyKind::PillarExpanse => (0x4180_0000, 0x4000_0000),
        AnomalyKind::BlackoutExpanse => (0x4140_0000, 0x4000_0000),
        _ => (0x40C0_0000, 0x3FE6_6666),
    };
    AnomalyInstance {
        id,
        kind,
        footprint: OrientedFootprint {
            center: m.center,
            half_x: m.half_x,
            half_z: m.half_z,
            basis,
        },
        basis,
        macro_anchor: cell,
        pillar_lattice: match kind {
            AnomalyKind::PillarExpanse => Some(
                PillarLattice {
                    bay_x: m.pillars.bay_x,
                    bay_z: m.pillars.bay_z,
                    phase_x: m.pillars.phase_x,
                    phase_z: m.pillars.phase_z,
                    min_side: 0x3F99_999A,
                    max_side: 0x3FCC_CCCD,
                    variation_seed: id ^ 0xA111_AA55,
                },
            ),
            _ => None,
        },
        pit_lattice: match kind {
            AnomalyKind::PitLattice => Some(
                PitLattice {
                    spacing_x: m.pits.spacing_x,
                    spacing_z: m.pits.spacing_z,
                    phase_x: m.pits.phase_x,
                    phase_z: m.pits.phase_z,
                    side: m.pits.side,
                    depth: 0x4019_999A,
                },
            ),
            _ => None,
        },
        gates: gates_for(id, kind, basis, m.bounds, &m.sites),
        skeleton_half_width: skeleton,
        entry_band: band,
    }
}

/// An assembly that became a red room, measured.
pub struct RedRoomMeasures {
    pub assembly: u32,
    pub entrances: Vec<Opening>,
    pub center: Position,
    pub half_x: FloatBits,
    pub half_z: FloatBits,
    pub bounds: WorldBounds,
    /// The first entrance's coordinate across its wall, moved inward past the
    /// vestibule, for a room on its high side and on its low side.
    pub plane_above: FloatBits,
    pub plane_below: FloatBits,
    /// Ends of the first entrance along its wall.
    pub span_min: FloatBits,
    pub span_max: FloatBits,
}

pub open spec fn red_room_id(seed: u32, region: MacroCell, assembly: u32) -> AnomalyId {
    mixed(
        anchored_id(seed, AnomalyKind::RedRoom, region.x, region.z) ^ (
        assembly as u64).wrapping_mul(0x9E37_79B9),
    )
}

/// Which way the first entrance leads in.
pub open spec fn red_room_forward(m: RedRoomMeasures) -> AxisDirection {
    let e = m.entrances@[0];
    let (edge, center) = if e.through_x_wall {
        (e.center.z, m.center.z)
    } else {
        (e.center.x, m.center.x)
    };
    if at_most(edge, center) {
        AxisDirection::Positive
    } else {
        AxisDirection::Negative
    }
}

/// The threshold beyond a red room's vestibule.
pub open spec fn red_room_gate(id: AnomalyId, m: RedRoomMeasures) -> TraversalGate {
    let forward = red_room_forward(m);
    TraversalGate {
        id: mixed(id ^ 0x6A7E_0ED0),
        instance_id: id,
        anomaly_kind: AnomalyKind::RedRoom,
        kind: TraversalGateKind::RedThreshold,
        axis: if m.entrances@[0].through_x_wall {
            Axis2::Z
        } else {
            Axis2::X
        },
        plane: match forward {
            AxisDirection::Positive => m.plane_above,
            AxisDirection::Negative => m.plane_below,
        },
        span_min: m.span_min,
        span_max: m.span_max,
        forward,
        affected_bounds: m.bounds,
    }
}

/// The checkpoint of a red room's loop: a plane through the middle of the room,
/// parallel to its threshold, across the whole room.
pub open spec fn red_loop_gate(id: AnomalyId, m: RedRoomMeasures) -> TraversalGate {
    let threshold = red_room_gate(id, m);
    TraversalGate {
        id: mixed(id ^ 0x6A7E_100D),
        kind: TraversalGateKind::RedLoop,
        plane: match threshold.axis {
            Axis2::X => m.center.x,
            Axis2::Z => m.center.z,
        },
        span_min: match threshold.axis {
            Axis2::X => m.bounds.min_z,
            Axis2::Z => m.bounds.min_x,
        },
        span_max: match threshold.axis {
            Axis2::X => m.bounds.max_z,
            Axis2::Z => m.bounds.max_x,
        },
        ..threshold
    }
}

pub open spec fn is_red_room(
    instance: AnomalyInstance,
    seed: u32,
    region: MacroCell,
    m: RedRoomMeasures,
) -> bool {
    let id = red_room_id(seed, region, m.assembly);
    let basis = OrthoBasis { turn: QuarterTurn::Zero };
    &&& instance.id == id
    &&& instance.kind is RedRoom
    &&& instance.footprint == (OrientedFootprint {
        center: m.center,
        half_x: m.half_x,
        half_z: m.half_z,
        basis,
    })
    &&& instance.basis == basis
    &&& instance.macro_anchor == region
    &&& instance.pillar_lattice is None
    &&& instance.pit_lattice is None
    &&& instance.gates@ == seq![red_room_gate(id, m), red_loop_gate(id, m)]
    // 1.0 and 2.8
    &&& instance.skeleton_half_width == 0x3F80_0000
    &&& instance.entry_band == 0x4033_3333
}

/// Promotes an assembly of a region to a red room, with a threshold that commits to
/// it and a checkpoint that advances its loop. Without an entrance there is no
/// threshold to cross, and nothing is promoted.
pub fn red_room_instance(seed: u32, region: MacroCell, m: &RedRoomMeasures) -> (instance: Option<
    AnomalyInstance,
>)
    ensures
        instance is None <==> m.entrances@.len() == 0,
        instance is Some ==> is_red_room(instance->0, seed, region, *m),
{
    if m.entrances.len() == 0 {
        return None;
    }
    let e = m.entrances[0];
    let id: AnomalyId = mix64(
        stable_id(seed, AnomalyKind::RedRoom, region.x, region.z) ^ (m.assembly as u64).wrapping_mul(
            0x9E37_79B9,
        ),
    );
    let basis = OrthoBasis { turn: QuarterTurn::Zero };
    let (axis, edge, center) = if e.through_x_wall {
        (Axis2::Z, e.center.z, m.center.z)
    } else {
        (Axis2::X, e.center.x, m.center.x)
    };
    let forward = if bits_at_most(edge, center) {
        AxisDirection::Positive
    } else {
        AxisDirection::Negative
    };
    let gate = TraversalGate {
        id: mix64(id ^ 0x6A7E_0ED0),
        instance_id: id,
        anomaly_kind: AnomalyKind::RedRoom,
        kind: TraversalGateKind::RedThreshold,
        axis,
        plane: match forward {
            AxisDirection::Positive => m.plane_above,
            AxisDirection::Negative => m.plane_below,
        },
        span_min: m.span_min,
        span_max: m.span_max,
        forward,
        affected_bounds: m.bounds,
    };
    let mut gates: Vec<TraversalGate> = Vec::new();
    gates.push(gate);
    let (middle, low, high) = match axis {
        Axis2::X => (m.center.x, m.bounds.min_z, m.bounds.max_z),
        Axis2::Z => (m.center.z, m.bounds.min_x, m.bounds.max_x),
    };
    gates.push(
        TraversalGate {
            id: mix64(id ^ 0x6A7E_100D),
            kind: TraversalGateKind::RedLoop,
            plane: middle,
            span_min: low,
            span_max: high,
            ..gate
        },
    );
    assert(gates@ =~= seq![red_room_gate(id, *m), red_loop_gate(id, *m)]);
    Some(
        AnomalyInstance {
            id,
            kind: AnomalyKind::RedRoom,
            footprint: OrientedFootprint {
                center: m.center,
                half_x: m.half_x,
                half_z: m.half_z,
                basis,
            },
            basis,
            macro_anchor: region,
            pillar_lattice: None,
            pit_lattice: None,
            gates,
            skeleton_half_width: 0x3F80_0000,
            entry_band: 0x4033_3333,
        },
    )
}

/// The two gates of a red room are told apart by their ids, so neither keeps the
/// other from being exported.
pub proof fn law_red_room_gates_differ(id: AnomalyId, m: RedRoomMeasures)
    ensures
        red_room_gate(id, m).id != red_loop_gate(id, m).id,
{
    assert(id ^ 0x6A7E_0ED0u64 != id ^ 0x6A7E_100Du64) by (bit_vector);
    law_mixing_keeps_apart(id ^ 0x6A7E_0ED0, id ^ 0x6A7E_100D);
}

/// Which stream a planned anomaly comes from.
#[derive(Clone, Copy, Debug, PartialEq, Eq, Structural)]
pub enum PlanStream {
    /// Families that take their ground over.
    Hostile,
    /// Stable archway rooms.
    Anchor,
    /// Promoted assemblies.
    RedRoom,
    /// The one that the region was told to have.
    Forced,
}

/// What the planner looks at of an instance.
#[derive(Clone, Copy, Debug, PartialEq, Eq, Structural)]
pub struct PlanCandidate {
    pub id: AnomalyId,
    pub bounds: WorldBounds,
    /// The bounds with the distance kept from the protected point around them.
    pub guarded: WorldBounds,
    /// The bounds with the distance kept from anchors around them.
    pub fenced: WorldBounds,
}

/// An instance, by its stream and its place in it.
#[derive(Clone, Copy, Debug, PartialEq, Eq, Structural)]
pub struct PlanPick {
    pub stream: PlanStream,
    pub index: usize,
    pub id: AnomalyId,
}

/// An anomaly that has to be planned, however rare anomalies are.
#[derive(Clone, Copy, Debug, PartialEq, Eq, Structural)]
pub enum ForcedPlan {
    /// The instance of a hostile family on the protected point's cell.
    Hostile { candidate: PlanCandidate },
    /// The archway room of that cell.
    Anchor { candidate: PlanCandidate },
    /// Every promoted assembly.
    RedRooms,
}

/// A region's question.
pub struct PlanQuery {
    pub bounds: WorldBounds,
    /// A point whose surroundings stay ordinary.
    pub protected: Position,
    /// How often anomalies occur; none do at zero.
    pub frequency: FloatBits,
    /// How often archways do.
    pub archways: FloatBits,
    /// How often red rooms do.
    pub red_rooms: FloatBits,
    /// What is planned in any case.
    pub forced: Option<ForcedPlan>,
}

/// The candidate that is planned in any case, wherever it reaches.
pub open spec fn forced_candidate(q: PlanQuery) -> Option<PlanCandidate> {
    match q.forced {
        Some(ForcedPlan::Hostile { candidate }) => Some(candidate),
        Some(ForcedPlan::Anchor { candidate }) => Some(candidate),
        _ => None,
    }
}

/// The forced candidate, where it reaches the region. Neither the frequency nor the
/// protected point turns it away.
pub open spec fn kept_forced(q: PlanQuery) -> Seq<PlanPick> {
    match forced_candidate(q) {
        Some(c) => if c.bounds.meets(q.bounds) {
            seq![PlanPick { stream: PlanStream::Forced, index: 0, id: c.id }]
        } else {
            Seq::empty()
        },
        None => Seq::empty(),
    }
}

/// A forced hostile instance comes near the anchor.
pub open spec fn forced_fences(c: PlanCandidate, q: PlanQuery) -> bool {
    match q.forced {
        Some(ForcedPlan::Hostile { candidate }) => candidate.bounds.meets(q.bounds)
            && candidate.fenced.meets(c.bounds),
        _ => false,
    }
}

/// The instance reaches the region and leaves the protected point alone.
pub open spec fn hostile_stays(c: PlanCandidate, q: PlanQuery) -> bool {
    c.bounds.meets(q.bounds) && !c.guarded.holds(q.protected.x, q.protected.z)
}

/// The first `n` of the hostile candidates that stay.
pub open spec fn kept_hostiles(hostile: Seq<PlanCandidate>, q: PlanQuery, n: nat) -> Seq<PlanPick>
    decreases n,
{
    if n == 0 {
        Seq::empty()
    } else {
        let before = kept_hostiles(hostile, q, (n - 1) as nat);
        let c = hostile[n - 1];
        if hostile_stays(c, q) {
            before.push(PlanPick { stream: PlanStream::Hostile, index: (n - 1) as usize, id: c.id })
        } else {
            before
        }
    }
}

/// The anchor reaches the region and no hostile instance that stays comes near it.
pub open spec fn anchor_stays(c: PlanCandidate, hostile: Seq<PlanCandidate>, q: PlanQuery) -> bool {
    &&& c.bounds.meets(q.bounds)
    &&& !forced_fences(c, q)
    &&& forall|i: int|
        0 <= i < hostile.len() && hostile_stays(#[trigger] hostile[i], q)
            ==> !hostile[i].fenced.meets(c.bounds)
}

/// The first `n` of the anchor candidates that stay.
pub open spec fn kept_anchors(
    anchors: Seq<PlanCandidate>,
    hostile: Seq<PlanCandidate>,
    q: PlanQuery,
    n: nat,
) -> Seq<PlanPick>
    decreases n,
{
    if n == 0 {
        Seq::empty()
    } else {
        let before = kept_anchors(anchors, hostile, q, (n - 1) as nat);
        let c = anchors[n - 1];
        if anchor_stays(c, hostile, q) {
            before.push(PlanPick { stream: PlanStream::Anchor, index: (n - 1) as usize, id: c.id })
        } else {
            before
        }
    }
}

pub open spec fn kept_reds(reds: Seq<AnomalyId>) -> Seq<PlanPick> {
    Seq::new(
        reds.len(),
        |i: int| PlanPick { stream: PlanStream::RedRoom, index: i as usize, id: reds[i] },
    )
}

/// Anomalies occur of themselves.
pub open spec fn occurs(q: PlanQuery) -> bool {
    !at_most(q.frequency, 0)
}

/// Promoted assemblies are planned.
pub open spec fn reds_occur(q: PlanQuery) -> bool {
    q.forced == Some(ForcedPlan::RedRooms) || (occurs(q) && less(0, q.red_rooms))
}

/// Everything that stays, stream by stream.
pub open spec fn kept(
    hostile: Seq<PlanCandidate>,
    anchors: Seq<PlanCandidate>,
    reds: Seq<AnomalyId>,
    q: PlanQuery,
) -> Seq<PlanPick> {
    let first = if occurs(q) {
        kept_hostiles(hostile, q, hostile.len())
    } else {
        Seq::empty()
    };
    let second = if occurs(q) && less(0, q.archways) {
        kept_anchors(anchors, hostile, q, anchors.len())
    } else {
        Seq::empty()
    };
    let third = if reds_occur(q) {
        kept_reds(reds)
    } else {
        Seq::empty()
    };
    kept_forced(q) + first + second + third
}

pub open spec fn pick_ids(picks: Seq<PlanPick>) -> Seq<AnomalyId> {
    Seq::new(picks.len(), |i: int| picks[i].id)
}

/// `plan` is `list` in the order of ids, the first of every id only.
pub open spec fn ordered_by_id(plan: Seq<PlanPick>, list: Seq<PlanPick>) -> bool {
    exists|order: Seq<usize>|
        #![trigger picks_first(order, pick_ids(list))]
        {
            &&& picks_first(order, pick_ids(list))
            &&& plan.len() == order.len()
            &&& forall|i: int|
                0 <= i < plan.len() ==> #[trigger] plan[i] == list[order[i] as int]
        }
}

fn keep_forced(q: &PlanQuery) -> (picks: Vec<PlanPick>)
    ensures
        picks@ == kept_forced(*q),
{
    let mut picks: Vec<PlanPick> = Vec::new();
    let candidate: Option<PlanCandidate> = match q.forced {
        Some(ForcedPlan::Hostile { candidate }) => Some(candidate),
        Some(ForcedPlan::Anchor { candidate }) => Some(candidate),
        _ => None,
    };
    if let Some(c) = candidate {
        if c.bounds.intersects(q.bounds) {
            picks.push(PlanPick { stream: PlanStream::Forced, index: 0, id: c.id });
        }
    }
    assert(picks@ =~= kept_forced(*q));
    picks
}

fn keep_hostiles(picks: &mut Vec<PlanPick>, hostile: &Vec<PlanCandidate>, q: &PlanQuery)
    ensures
        final(picks)@ == old(picks)@ + kept_hostiles(hostile@, *q, hostile@.len()),
{
    let ghost start = picks@;
    let mut i: usize = 0;
    assert(picks@ =~= start + kept_hostiles(hostile@, *q, 0));
    while i < hostile.len()
        invariant
            i <= hostile@.len(),
            picks@ == start + kept_hostiles(hostile@, *q, i as nat),
        decreases hostile@.len() - i,
    {
        let c = hostile[i];
        if c.bounds.intersects(q.bounds) && !c.guarded.contains(q.protected.x, q.protected.z) {
            picks.push(PlanPick { stream: PlanStream::Hostile, index: i, id: c.id });
        }
        i = i + 1;
        assert(picks@ =~= start + kept_hostiles(hostile@, *q, i as nat));
    }
}

fn keeps_anchor(c: &PlanCandidate, hostile: &Vec<PlanCandidate>, q: &PlanQuery) -> (keep: bool)
    ensures
        keep == anchor_stays(*c, hostile@, *q),
{
    if !c.bounds.intersects(q.bounds) {
        return false;
    }
    if let Some(ForcedPlan::Hostile { candidate }) = q.forced {
        if candidate.bounds.intersects(q.bounds) && candidate.fenced.intersects(c.bounds) {
            return false;
        }
    }
    let mut i: usize = 0;
    while i < hostile.len()
        invariant
            i <= hostile@.len(),
            !forced_fences(*c, *q),
            c.bounds.meets(q.bounds),
            forall|k: int|
                0 <= k < i && hostile_stays(#[trigger] hostile@[k], *q)
                    ==> !hostile@[k].fenced.meets(c.bounds),
        decreases hostile@.len() - i,
    {
        let h = hostile[i];
        let ghost here = hostile@[i as int];
        if h.bounds.intersects(q.bounds) && !h.guarded.contains(q.protected.x, q.protected.z)
            && h.fenced.intersects(c.bounds) {
            return false;
        }
        i = i + 1;
    }
    true
}

fn keep_anchors(
    picks: &mut Vec<PlanPick>,
    anchors: &Vec<PlanCandidate>,
    hostile: &Vec<PlanCandidate>,
    q: &PlanQuery,
)
    ensures
        final(picks)@ == old(picks)@ + kept_anchors(anchors@, hostile@, *q, anchors@.len()),
{
    let ghost start = picks@;
    let mut i: usize = 0;
    assert(picks@ =~= start + kept_anchors(anchors@, hostile@, *q, 0));
    while i < anchors.len()
        invariant
            i <= anchors@.len(),
            picks@ == start + kept_anchors(anchors@, hostile@, *q, i as nat),
        decreases anchors@.len() - i,
    {
        let c = anchors[i];
        if keeps_anchor(&c, hostile, q) {
            picks.push(PlanPick { stream: PlanStream::Anchor, index: i, id: c.id });
        }
        i = i + 1;
        assert(picks@ =~= start + kept_anchors(anchors@, hostile@, *q, i as nat));
    }
}

fn keep_reds(picks: &mut Vec<PlanPick>, reds: &Vec<AnomalyId>)
    ensures
        final(picks)@ == old(picks)@ + kept_reds(reds@),
{
    let ghost start = picks@;
    let mut i: usize = 0;
    assert(picks@ =~= start + kept_reds(reds@).take(0));
    while i < reds.len()
        invariant
            i <= reds@.len(),
            picks@ == start + kept_reds(reds@).take(i as int),
        decreases reds@.len() - i,
    {
        picks.push(PlanPick { stream: PlanStream::RedRoom, index: i, id: reds[i] });
        i = i + 1;
        assert(picks@ =~= start + kept_reds(reds@).take(i as int));
    }
    assert(picks@ =~= start + kept_reds(reds@));
}

/// Every instance that reaches a region, each id once, ids rising. Anchors give
/// way to hostile ground; red rooms come from the region's own assemblies. What is
/// forced is planned even where anomalies never occur.
pub fn plan_anomalies_for_region(
    hostile: &Vec<PlanCandidate>,
    anchors: &Vec<PlanCandidate>,
    reds: &Vec<AnomalyId>,
    q: &PlanQuery,
) -> (plan: Vec<PlanPick>)
    ensures
        ordered_by_id(plan@, kept(hostile@, anchors@, reds@, *q)),
        at_most(q.frequency, 0) && q.forced is None ==> plan@.len() == 0,
{
    let mut picks = keep_forced(q);
    let occurring: bool = !bits_at_most(q.frequency, 0);
    if occurring {
        keep_hostiles(&mut picks, hostile, q);
        if bits_less(0, q.archways) {
            keep_anchors(&mut picks, anchors, hostile, q);
        }
    }
    let red_forced: bool = match q.forced {
        Some(ForcedPlan::RedRooms) => true,
        _ => false,
    };
    if red_forced || (occurring && bits_less(0, q.red_rooms)) {
        keep_reds(&mut picks, reds);
    }
    assert(picks@ =~= kept(hostile@, anchors@, reds@, *q));
    let mut ids: Vec<AnomalyId> = Vec::new();
    let mut i: usize = 0;
    while i < picks.len()
        invariant
            i <= picks@.len(),
            ids@ == pick_ids(picks@).take(i as int),
        decreases picks@.len() - i,
    {
        ids.push(picks[i].id);
        i = i + 1;
        assert(ids@ =~= pick_ids(picks@).take(i as int));
    }
    assert(ids@ =~= pick_ids(picks@));
    let order = first_by_id(&ids);
    let mut plan: Vec<PlanPick> = Vec::new();
    let mut k: usize = 0;
    while k < order.len()
        invariant
            k <= order@.len(),
            picks_first(order@, pick_ids(picks@)),
            plan@.len() == k,
            forall|j: int| 0 <= j < k ==> #[trigger] plan@[j] == picks@[order@[j] as int],
        decreases order@.len() - k,
    {
        plan.push(picks[order[k]]);
        k = k + 1;
    }
    assert(ordered_by_id(plan@, picks@));
    proof {
        if picks@.len() == 0 && plan@.len() > 0 {
            assert(order@[0] < picks@.len());
        }
    }
    plan
}

/// A plan holds every id at most once, in rising order.
pub proof fn law_plan_ids_rise(plan: Seq<PlanPick>, list: Seq<PlanPick>, a: int, b: int)
    requires
        ordered_by_id(plan, list),
        0 <= a < b < plan.len(),
    ensures
        plan[a].id < plan[b].id,
{
    let order = choose|order: Seq<usize>|
        #![trigger picks_first(order, pick_ids(list))]
        {
            &&& picks_first(order, pick_ids(list))
            &&& plan.len() == order.len()
            &&& forall|i: int|
                0 <= i < plan.len() ==> #[trigger] plan[i] == list[order[i] as int]
        };
    let ids = pick_ids(list);
    assert(order[a] < ids.len() && order[b] < ids.len());
    assert(ids[order[a] as int] < ids[order[b] as int]);
    assert(plan[a] == list[order[a] as int]);
    assert(plan[b] == list[order[b] as int]);
}

/// What stays is planned: every id of the list is in the plan.
proof fn lemma_ids_are_planned(plan: Seq<PlanPick>, list: Seq<PlanPick>, i: int) -> (k: int)
    requires
        ordered_by_id(plan, list),
        0 <= i < list.len(),
    ensures
        0 <= k < plan.len(),
        plan[k].id == list[i].id,
{
    let order = choose|order: Seq<usize>|
        #![trigger picks_first(order, pick_ids(list))]
        {
            &&& picks_first(order, pick_ids(list))
            &&& plan.len() == order.len()
            &&& forall|j: int|
                0 <= j < plan.len() ==> #[trigger] plan[j] == list[order[j] as int]
        };
    let ids = pick_ids(list);
    assert(ids[i] == list[i].id);
    let k = choose|k: int| 0 <= k < order.len() && ids[#[trigger] order[k] as int] == ids[i];
    assert(plan[k] == list[order[k] as int]);
    k
}

/// A forced anomaly is planned in every region that it reaches, however rare
/// anomalies are and however near the protected point is.
pub proof fn law_forced_anomalies_are_planned(
    plan: Seq<PlanPick>,
    hostile: Seq<PlanCandidate>,
    anchors: Seq<PlanCandidate>,
    reds: Seq<AnomalyId>,
    q: PlanQuery,
)
    requires
        ordered_by_id(plan, kept(hostile, anchors, reds, q)),
        forced_candidate(q) is Some,
        forced_candidate(q)->0.bounds.meets(q.bounds),
    ensures
        exists|k: int|
            0 <= k < plan.len() && (#[trigger] plan[k]).id == forced_candidate(q)->0.id,
{
    let list = kept(hostile, anchors, reds, q);
    assert(list[0] == kept_forced(q)[0]);
    let k = lemma_ids_are_planned(plan, list, 0);
    assert(plan[k].id == forced_candidate(q)->0.id);
}

/// Where red rooms are forced every promoted assembly is planned, however rare
/// anomalies and red rooms are.
pub proof fn law_forced_red_rooms_are_planned(
    plan: Seq<PlanPick>,
    hostile: Seq<PlanCandidate>,
    anchors: Seq<PlanCandidate>,
    reds: Seq<AnomalyId>,
    q: PlanQuery,
    i: int,
)
    requires
        ordered_by_id(plan, kept(hostile, anchors, reds, q)),
        q.forced == Some(ForcedPlan::RedRooms),
        0 <= i < reds.len(),
    ensures
        exists|k: int| 0 <= k < plan.len() && (#[trigger] plan[k]).id == reds[i],
{
    let list = kept(hostile, anchors, reds, q);
    let at = list.len() - reds.len() + i;
    assert(list[at] == kept_reds(reds)[i]);
    let k = lemma_ids_are_planned(plan, list, at);
    assert(plan[k].id == reds[i]);
}

/// Identity does not depend on who asks: of two regions that a hostile instance
/// reaches, it stays in both or in neither.
pub proof fn law_partition_keeps_identity(c: PlanCandidate, a: PlanQuery, b: PlanQuery)
    requires
        a.protected == b.protected,
        c.bounds.meets(a.bounds),
        c.bounds.meets(b.bounds),
    ensures
        hostile_stays(c, a) == hostile_stays(c, b),
{
}

/// The record of an instance is settled by its seed, its cell, its kind and what
/// was measured: two instances of the same agree in everything.
pub proof fn law_macro_instance_is_settled(
    a: AnomalyInstance,
    b: AnomalyInstance,
    seed: u32,
    cell: MacroCell,
    kind: AnomalyKind,
    m: MacroMeasures,
)
    requires
        is_macro_instance(a, seed, cell, kind, m),
        is_macro_instance(b, seed, cell, kind, m),
    ensures
        a.id == b.id,
        a.footprint == b.footprint,
        a.pillar_lattice == b.pillar_lattice,
        a.pit_lattice == b.pit_lattice,
        a.gates@ == b.gates@,
{
}

/// Anchors and hostile ground keep apart: where both stay, the hostile instance's
/// fence does not meet the anchor, and neither does the fence of a forced one.
pub proof fn law_anchors_keep_apart(
    c: PlanCandidate,
    hostile: Seq<PlanCandidate>,
    q: PlanQuery,
    i: int,
)
    requires
        anchor_stays(c, hostile, q),
        0 <= i < hostile.len(),
        hostile_stays(hostile[i], q),
    ensures
        !hostile[i].fenced.meets(c.bounds),
        !forced_fences(c, q),
{
}

proof fn lemma_row_cells(seed: u32, salt: u64, chance: u32, x0: int, x: int, z: int, c: MacroCell)
    requires
        i64::MIN <= x0,
        x <= i64::MAX + 1,
        i64::MIN <= z <= i64::MAX,
    ensures
        row_candidates(seed, salt, chance, x0, x, z).contains(c) <==> x0 <= c.x < x && c.z == z
            && !at_most(chance, cell_roll(seed, salt, c.x, c.z)),
    decreases x - x0,
{
    if x > x0 {
        let before = row_candidates(seed, salt, chance, x0, x - 1, z);
        let all = row_candidates(seed, salt, chance, x0, x, z);
        let here = MacroCell { x: (x - 1) as i64, z: z as i64 };
        lemma_row_cells(seed, salt, chance, x0, x - 1, z, c);
        if !at_most(chance, cell_roll(seed, salt, here.x, here.z)) {
            assert(all == before.push(here));
            assert(all[before.len() as int] == here);
            if before.contains(c) {
                let i = before.index_of(c);
                assert(all[i] == c);
            }
            if all.contains(c) && !before.contains(c) {
                let i = all.index_of(c);
                if i < before.len() {
                    assert(before[i] == c);
                }
            }
        }
    }
}

proof fn lemma_range_cells(seed: u32, salt: u64, chance: u32, cells: CellRange, z: int, c: MacroCell)
    requires
        z <= cells.z1 + 1,
    ensures
        candidates(seed, salt, chance, cells, z).contains(c) <==> cells.x0 <= c.x <= cells.x1
            && cells.z0 <= c.z < z && !at_most(chance, cell_roll(seed, salt, c.x, c.z)),
    decreases z - cells.z0,
{
    if z > cells.z0 {
        let before = candidates(seed, salt, chance, cells, z - 1);
        let row = row_candidates(seed, salt, chance, cells.x0 as int, cells.x1 + 1, z - 1);
        let all = candidates(seed, salt, chance, cells, z);
        lemma_range_cells(seed, salt, chance, cells, z - 1, c);
        lemma_row_cells(seed, salt, chance, cells.x0 as int, cells.x1 + 1, z - 1, c);
        assert(all == before + row);
        if before.contains(c) {
            let i = before.index_of(c);
            assert(all[i] == c);
        }
        if row.contains(c) {
            let i = row.index_of(c);
            assert(all[before.len() + i] == c);
        }
        if all.contains(c) {
            let i = all.index_of(c);
            if i < before.len() {
                assert(before[i] == c);
            } else {
                assert(row[i - before.len()] == c);
            }
        }
    }
}

/// A scan finds exactly the cells of its range whose own roll stays below the chance,
/// so what it finds of a cell does not depend on the range that it was asked about.
pub proof fn law_scans_find_every_lucky_cell(
    seed: u32,
    salt: u64,
    chance: u32,
    cells: CellRange,
    c: MacroCell,
)
    ensures
        candidates(seed, salt, chance, cells, cells.z1 + 1).contains(c) <==> cells.x0 <= c.x
            <= cells.x1 && cells.z0 <= c.z <= cells.z1 && !at_most(
            chance,
            cell_roll(seed, salt, c.x, c.z),
        ),
{
    lemma_range_cells(seed, salt, chance, cells, cells.z1 + 1, c);
}

/// Only the two expanses are divided by gates: one per site, across the instance's
/// long axis, from one side of its bounds to the other. Gates at different sites have
/// different ids.
pub proof fn law_gates_span_their_instance(
    id: AnomalyId,
    kind: AnomalyKind,
    basis: OrthoBasis,
    bounds: WorldBounds,
    sites: Seq<GateSite>,
    i: int,
    j: int,
)
    requires
        0 <= i < sites.len(),
        0 <= j < sites.len(),
    ensures
        ({
            let gates = site_gates(id, kind, basis, bounds, sites);
            &&& !(kind is PillarExpanse) && !(kind is BlackoutExpanse) ==> gates.len() == 0
            &&& kind is PillarExpanse || kind is BlackoutExpanse ==> {
                &&& gates.len() == sites.len()
                &&& gates[i].instance_id == id && gates[i].anomaly_kind == kind && gates[i].kind
                    == TraversalGateKind::Remap && gates[i].affected_bounds == bounds
                &&& basis.turn == QuarterTurn::Zero ==> gates[i].axis == Axis2::X && gates[i].plane
                    == sites[i].at.x && gates[i].span_min == bounds.min_z && gates[i].span_max
                    == bounds.max_z
                &&& basis.turn == QuarterTurn::Clockwise ==> gates[i].axis == Axis2::Z
                    && gates[i].plane == sites[i].at.z && gates[i].span_min == bounds.min_x
                    && gates[i].span_max == bounds.max_x
                &&& sites[i].index != sites[j].index ==> gates[i].id != gates[j].id
            }
        }),
{
    if (kind is PillarExpanse || kind is BlackoutExpanse) && sites[i].index != sites[j].index {
        let (a, b) = (sites[i].index as u64, sites[j].index as u64);
        lemma_words_of_indices(sites[i].index, sites[j].index);
        lemma_rotated_apart(a, b);
        let (p, q) = (rotated(a, 23), rotated(b, 23));
        assert(p != q ==> (id ^ p) ^ 0x6A7Eu64 != (id ^ q) ^ 0x6A7Eu64) by (bit_vector);
        law_mixing_keeps_apart(id ^ p ^ 0x6A7E, id ^ q ^ 0x6A7E);
    }
}

proof fn lemma_words_of_indices(a: i64, b: i64)
    requires
        a != b,
    ensures
        a as u64 != b as u64,
{
    assert(a != b ==> a as u64 != b as u64) by (bit_vector);
}

proof fn lemma_rotated_apart(a: u64, b: u64)
    requires
        a != b,
    ensures
        rotated(a, 23) != rotated(b, 23),
{
    assert(a != b ==> (a << 23u64) | (a >> 41u64) != (b << 23u64) | (b >> 41u64)) by (bit_vector);
}

/// An instance has the lattice of its kind and no other, is named by its own id in
/// all its gates, and keeps the ground and the cell that it was measured on.
pub proof fn law_instances_suit_their_kind(
    instance: AnomalyInstance,
    seed: u32,
    cell: MacroCell,
    kind: AnomalyKind,
    m: MacroMeasures,
    i: int,
)
    requires
        is_macro_instance(instance, seed, cell, kind, m),
    ensures
        instance.kind == kind && instance.macro_anchor == cell,
        instance.pillar_lattice is Some <==> kind is PillarExpanse,
        instance.pit_lattice is Some <==> kind is PitLattice,
        instance.gates@.len() > 0 ==> kind is PillarExpanse || kind is BlackoutExpanse,
        0 <= i < instance.gates@.len() ==> instance.gates@[i].instance_id == instance.id
            && instance.gates@[i].anomaly_kind == kind,
        instance.footprint.center == m.center && instance.footprint.half_x == m.half_x
            && instance.footprint.half_z == m.half_z && instance.footprint.basis == instance.basis,
        less(instance.skeleton_half_width, instance.entry_band),
{
}

/// A red room's threshold leads in: it lies across the wall of the first entrance, on
/// the side of it where the middle of the room is, and its forward direction points
/// there. The loop's checkpoint is parallel to it and runs through the middle of the
/// room from side to side.
pub proof fn law_red_thresholds_lead_in(
    instance: AnomalyInstance,
    seed: u32,
    region: MacroCell,
    m: RedRoomMeasures,
)
    requires
        is_red_room(instance, seed, region, m),
        m.entrances@.len() > 0,
        !is_nan_bits(m.center.x) && !is_nan_bits(m.center.z),
        !is_nan_bits(m.entrances@[0].center.x) && !is_nan_bits(m.entrances@[0].center.z),
    ensures
        ({
            let door = m.entrances@[0];
            let threshold = instance.gates@[0];
            let checkpoint = instance.gates@[1];
            let (edge, middle) = if door.through_x_wall {
                (door.center.z, m.center.z)
            } else {
                (door.center.x, m.center.x)
            };
            &&& instance.gates@.len() == 2
            &&& threshold.kind == TraversalGateKind::RedThreshold && checkpoint.kind
                == TraversalGateKind::RedLoop
            &&& threshold.instance_id == instance.id && checkpoint.instance_id == instance.id
            &&& threshold.axis == checkpoint.axis && (threshold.axis == Axis2::Z
                <==> door.through_x_wall)
            &&& less(edge, middle) ==> threshold.forward == AxisDirection::Positive
                && threshold.plane == m.plane_above
            &&& less(middle, edge) ==> threshold.forward == AxisDirection::Negative
                && threshold.plane == m.plane_below
            &&& threshold.span_min == m.span_min && threshold.span_max == m.span_max
            &&& checkpoint.plane == middle
            &&& door.through_x_wall ==> checkpoint.span_min == m.bounds.min_x && checkpoint.span_max
                == m.bounds.max_x
            &&& !door.through_x_wall ==> checkpoint.span_min == m.bounds.min_z && checkpoint.span_max
                == m.bounds.max_z
        }),
{
}

/// Nothing is drawn where all weights are zero; otherwise the kind whose turn comes
/// while the rest of the draw is below its weight, and pillars where rounding leaves
/// none.
pub proof fn law_families_are_drawn_in_turn(
    total: u32,
    pillars: FamilyWeight,
    blackouts: FamilyWeight,
    pits: FamilyWeight,
)
    ensures
        ({
            let kind = drawn_family(total, pillars, blackouts, pits);
            let first = less(pillars.cursor, pillars.weight);
            let second = less(blackouts.cursor, blackouts.weight);
            let third = less(pits.cursor, pits.weight);
            &&& kind is None <==> at_most(total, 0)
            &&& kind is Some && first ==> kind->0 is PillarExpanse
            &&& kind is Some && kind->0 is BlackoutExpanse <==> kind is Some && !first && second
            &&& kind is Some && kind->0 is PitLattice <==> kind is Some && !first && !second && third
            &&& kind is Some ==> !(kind->0 is RedRoom)
        }),
{
}

/// The pick stands for the candidate of its stream at its index.
pub open spec fn stands_for(
    p: PlanPick,
    hostile: Seq<PlanCandidate>,
    anchors: Seq<PlanCandidate>,
    reds: Seq<AnomalyId>,
    q: PlanQuery,
) -> bool {
    match p.stream {
        PlanStream::Hostile => p.index < hostile.len() && p.id == hostile[p.index as int].id
            && hostile[p.index as int].bounds.meets(q.bounds) && !hostile[p.index as int].guarded.holds(
            q.protected.x,
            q.protected.z,
        ) && !at_most(q.frequency, 0),
        PlanStream::Anchor => p.index < anchors.len() && p.id == anchors[p.index as int].id
            && anchors[p.index as int].bounds.meets(q.bounds) && less(0, q.archways) && !at_most(
            q.frequency,
            0,
        ),
        PlanStream::RedRoom => p.index < reds.len() && p.id == reds[p.index as int],
        PlanStream::Forced => forced_candidate(q) is Some && p.id == forced_candidate(q)->0.id
            && forced_candidate(q)->0.bounds.meets(q.bounds),
    }
}

proof fn lemma_hostiles_kept(
    hostile: Seq<PlanCandidate>,
    anchors: Seq<PlanCandidate>,
    reds: Seq<AnomalyId>,
    q: PlanQuery,
    n: nat,
)
    requires
        n <= hostile.len() <= usize::MAX,
        occurs(q),
    ensures
        forall|k: int|
            0 <= k < kept_hostiles(hostile, q, n).len() ==> stands_for(
                #[trigger] kept_hostiles(hostile, q, n)[k],
                hostile,
                anchors,
                reds,
                q,
            ),
        forall|i: int|
            0 <= i < n && hostile_stays(#[trigger] hostile[i], q) ==> exists|k: int|
                0 <= k < kept_hostiles(hostile, q, n).len() && (#[trigger] kept_hostiles(
                    hostile,
                    q,
                    n,
                )[k]).id == hostile[i].id,
    decreases n,
{
    if n > 0 {
        lemma_hostiles_kept(hostile, anchors, reds, q, (n - 1) as nat);
        let before = kept_hostiles(hostile, q, (n - 1) as nat);
        let all = kept_hostiles(hostile, q, n);
        assert forall|k: int| 0 <= k < all.len() implies stands_for(
            #[trigger] all[k],
            hostile,
            anchors,
            reds,
            q,
        ) by {
            if k < before.len() {
                assert(all[k] == before[k]);
            }
        }
        assert forall|i: int| 0 <= i < n && hostile_stays(#[trigger] hostile[i], q) implies exists|
            k: int,
        |
            0 <= k < all.len() && (#[trigger] all[k]).id == hostile[i].id by {
            if i < n - 1 {
                let k = choose|k: int|
                    0 <= k < before.len() && (#[trigger] before[k]).id == hostile[i].id;
                assert(all[k] == before[k]);
            } else {
                assert(all[all.len() - 1].id == hostile[i].id);
            }
        }
    }
}

proof fn lemma_anchors_kept(
    anchors: Seq<PlanCandidate>,
    hostile: Seq<PlanCandidate>,
    reds: Seq<AnomalyId>,
    q: PlanQuery,
    n: nat,
)
    requires
        n <= anchors.len() <= usize::MAX,
        occurs(q),
        less(0, q.archways),
    ensures
        forall|k: int|
            0 <= k < kept_anchors(anchors, hostile, q, n).len() ==> stands_for(
                #[trigger] kept_anchors(anchors, hostile, q, n)[k],
                hostile,
                anchors,
                reds,
                q,
            ),
        forall|i: int|
            0 <= i < n && anchor_stays(#[trigger] anchors[i], hostile, q) ==> exists|k: int|
                0 <= k < kept_anchors(anchors, hostile, q, n).len() && (#[trigger] kept_anchors(
                    anchors,
                    hostile,
                    q,
                    n,
                )[k]).id == anchors[i].id,
    decreases n,
{
    if n > 0 {
        lemma_anchors_kept(anchors, hostile, reds, q, (n - 1) as nat);
        let before = kept_anchors(anchors, hostile, q, (n - 1) as nat);
        let all = kept_anchors(anchors, hostile, q, n);
        assert forall|k: int| 0 <= k < all.len() implies stands_for(
            #[trigger] all[k],
            hostile,
            anchors,
            reds,
            q,
        ) by {
            if k < before.len() {
                assert(all[k] == before[k]);
            }
        }
        assert forall|i: int|
            0 <= i < n && anchor_stays(#[trigger] anchors[i], hostile, q) implies exists|k: int|
            0 <= k < all.len() && (#[trigger] all[k]).id == anchors[i].id by {
            if i < n - 1 {
                let k = choose|k: int|
                    0 <= k < before.len() && (#[trigger] before[k]).id == anchors[i].id;
                assert(all[k] == before[k]);
            } else {
                assert(all[all.len() - 1].id == anchors[i].id);
            }
        }
    }
}

/// Nothing is planned that was not asked for: every entry of a plan stands for a
/// candidate that reaches the region, and none of the hostile ones comes near the
/// protected point.
pub proof fn law_plans_hold_only_candidates(
    plan: Seq<PlanPick>,
    hostile: Seq<PlanCandidate>,
    anchors: Seq<PlanCandidate>,
    reds: Seq<AnomalyId>,
    q: PlanQuery,
    k: int,
)
    requires
        ordered_by_id(plan, kept(hostile, anchors, reds, q)),
        hostile.len() <= usize::MAX,
        anchors.len() <= usize::MAX,
        reds.len() <= usize::MAX,
        0 <= k < plan.len(),
    ensures
        stands_for(plan[k], hostile, anchors, reds, q),
{
    let list = kept(hostile, anchors, reds, q);
    let order = choose|order: Seq<usize>|
        #![trigger picks_first(order, pick_ids(list))]
        {
            &&& picks_first(order, pick_ids(list))
            &&& plan.len() == order.len()
            &&& forall|i: int|
                0 <= i < plan.len() ==> #[trigger] plan[i] == list[order[i] as int]
        };
    let at = order[k] as int;
    assert(0 <= at < pick_ids(list).len());
    assert(plan[k] == list[at]);
    let zero = kept_forced(q);
    let first = if occurs(q) {
        kept_hostiles(hostile, q, hostile.len())
    } else {
        Seq::empty()
    };
    let second = if occurs(q) && less(0, q.archways) {
        kept_anchors(anchors, hostile, q, anchors.len())
    } else {
        Seq::empty()
    };
    if occurs(q) {
        lemma_hostiles_kept(hostile, anchors, reds, q, hostile.len());
        if less(0, q.archways) {
            lemma_anchors_kept(anchors, hostile, reds, q, anchors.len());
        }
    }
    let (a, b, c) = (
        at - zero.len(),
        at - zero.len() - first.len(),
        at - zero.len() - first.len() - second.len(),
    );
    if a < 0 {
        assert(list[at] == zero[at]);
    } else if b < 0 {
        assert(list[at] == first[a]);
    } else if c < 0 {
        assert(list[at] == second[b]);
    } else {
        assert(list[at] == kept_reds(reds)[c]);
    }
}

/// What has its place is planned: wherever anomalies occur, every hostile instance
/// that reaches the region and leaves the protected point alone, every archway that no
/// hostile ground comes near, and every promoted assembly where red rooms occur.
pub proof fn law_plans_leave_nothing_out(
    plan: Seq<PlanPick>,
    hostile: Seq<PlanCandidate>,
    anchors: Seq<PlanCandidate>,
    reds: Seq<AnomalyId>,
    q: PlanQuery,
    i: int,
)
    requires
        ordered_by_id(plan, kept(hostile, anchors, reds, q)),
        hostile.len() <= usize::MAX,
        anchors.len() <= usize::MAX,
        !at_most(q.frequency, 0),
    ensures
        0 <= i < hostile.len() && hostile[i].bounds.meets(q.bounds) && !hostile[i].guarded.holds(
            q.protected.x,
            q.protected.z,
        ) ==> exists|k: int| 0 <= k < plan.len() && (#[trigger] plan[k]).id == hostile[i].id,
        0 <= i < anchors.len() && less(0, q.archways) && anchor_stays(anchors[i], hostile, q)
            ==> exists|k: int| 0 <= k < plan.len() && (#[trigger] plan[k]).id == anchors[i].id,
        0 <= i < reds.len() && less(0, q.red_rooms) ==> exists|k: int|
            0 <= k < plan.len() && (#[trigger] plan[k]).id == reds[i],
{
    if 0 <= i < hostile.len() && hostile_stays(hostile[i], q) {
        lemma_hostile_planned(plan, hostile, anchors, reds, q, i);
    }
    if 0 <= i < anchors.len() && less(0, q.archways) && anchor_stays(anchors[i], hostile, q) {
        lemma_anchor_planned(plan, hostile, anchors, reds, q, i);
    }
    if 0 <= i < reds.len() && less(0, q.red_rooms) {
        let list = kept(hostile, anchors, reds, q);
        let at = list.len() - reds.len() + i;
        assert(list[at] == kept_reds(reds)[i]);
        let p = lemma_ids_are_planned(plan, list, at);
        assert(plan[p].id == reds[i]);
    }
}

proof fn lemma_hostile_planned(
    plan: Seq<PlanPick>,
    hostile: Seq<PlanCandidate>,
    anchors: Seq<PlanCandidate>,
    reds: Seq<AnomalyId>,
    q: PlanQuery,
    i: int,
)
    requires
        ordered_by_id(plan, kept(hostile, anchors, reds, q)),
        hostile.len() <= usize::MAX,
        occurs(q),
        0 <= i < hostile.len(),
        hostile_stays(hostile[i], q),
    ensures
        exists|k: int| 0 <= k < plan.len() && (#[trigger] plan[k]).id == hostile[i].id,
{
    let list = kept(hostile, anchors, reds, q);
    let first = kept_hostiles(hostile, q, hostile.len());
    lemma_hostiles_kept(hostile, anchors, reds, q, hostile.len());
    let k = choose|k: int| 0 <= k < first.len() && (#[trigger] first[k]).id == hostile[i].id;
    let at = kept_forced(q).len() + k;
    assert(list[at] == first[k]);
    let p = lemma_ids_are_planned(plan, list, at);
    assert(plan[p].id == hostile[i].id);
}

proof fn lemma_anchor_planned(
    plan: Seq<PlanPick>,
    hostile: Seq<PlanCandidate>,
    anchors: Seq<PlanCandidate>,
    reds: Seq<AnomalyId>,
    q: PlanQuery,
    i: int,
)
    requires
        ordered_by_id(plan, kept(hostile, anchors, reds, q)),
        anchors.len() <= usize::MAX,
        occurs(q),
        less(0, q.archways),
        0 <= i < anchors.len(),
        anchor_stays(anchors[i], hostile, q),
    ensures
        exists|k: int| 0 <= k < plan.len() && (#[trigger] plan[k]).id == anchors[i].id,
{
    let list = kept(hostile, anchors, reds, q);
    let second = kept_anchors(anchors, hostile, q, anchors.len());
    lemma_anchors_kept(anchors, hostile, reds, q, anchors.len());
    let k = choose|k: int| 0 <= k < second.len() && (#[trigger] second[k]).id == anchors[i].id;
    let at = kept_forced(q).len() + kept_hostiles(hostile, q, hostile.len()).len() + k;
    assert(list[at] == second[k]);
    let p = lemma_ids_are_planned(plan, list, at);
    assert(plan[p].id == anchors[i].id);
}

/// Cells hash apart as far as one difference goes: another seed, another salt, another
/// column or another row alone gives another hash. So along a row or a column no two
/// anomalies of one kind share an id, and neither do two kinds on one cell.
pub proof fn law_cells_hash_apart(seed: u32, salt: u64, x: i64, z: i64, other: i64)
    ensures
        other != x ==> cell_hash(seed, salt, other, z) != cell_hash(seed, salt, x, z),
        other != z ==> cell_hash(seed, salt, x, other) != cell_hash(seed, salt, x, z),
        other as u32 != seed ==> cell_hash(other as u32, salt, x, z) != cell_hash(seed, salt, x, z),
        other as u64 != salt ==> cell_hash(seed, other as u64, x, z) != cell_hash(seed, salt, x, z),
{
    let s = seed as u64;
    let t = other as u32 as u64;
    let w = other as u64;
    let a = (x as u64).wrapping_mul(0x9E37_79B9_7F4A_7C15);
    let b = (other as u64).wrapping_mul(0x9E37_79B9_7F4A_7C15);
    let c = rotated(z as u64, 31);
    let d = rotated(other as u64, 31);
    if other != x {
        lemma_words_of_indices(other, x);
        if a == b {
            lemma_products_differ(x as u64, other as u64, 0x9E37_79B9_7F4A_7C15, 0xF1DE_83E1_9937_733D);
        }
    }
    if other != z {
        lemma_words_of_indices(other, z);
        lemma_turned_apart(other as u64, z as u64);
    }
    assert((a != b ==> ((s ^ salt) ^ a) ^ c != ((s ^ salt) ^ b) ^ c) && (c != d ==> ((s ^ salt) ^ a)
        ^ c != ((s ^ salt) ^ a) ^ d) && (t != s ==> ((s ^ salt) ^ a) ^ c != ((t ^ salt) ^ a) ^ c)
        && (w != salt ==> ((s ^ salt) ^ a) ^ c != ((s ^ w) ^ a) ^ c)) by (bit_vector);
    if other != x {
        law_mixing_keeps_apart(s ^ salt ^ a ^ c, s ^ salt ^ b ^ c);
    }
    if other != z {
        law_mixing_keeps_apart(s ^ salt ^ a ^ c, s ^ salt ^ a ^ d);
    }
    if other as u32 != seed {
        law_mixing_keeps_apart(s ^ salt ^ a ^ c, t ^ salt ^ a ^ c);
    }
    if other as u64 != salt {
        law_mixing_keeps_apart(s ^ salt ^ a ^ c, s ^ w ^ a ^ c);
    }
}

proof fn lemma_turned_apart(a: u64, b: u64)
    requires
        a != b,
    ensures
        rotated(a, 31) != rotated(b, 31),
{
    assert(a != b ==> (a << 31u64) | (a >> 33u64) != (b << 31u64) | (b >> 33u64)) by (bit_vector);
}

/// Red rooms of one region have ids of their own: no two assemblies share one.
pub proof fn law_red_rooms_have_their_own_ids(seed: u32, region: MacroCell, a: u32, b: u32)
    requires
        a != b,
    ensures
        red_room_id(seed, region, a) != red_room_id(seed, region, b),
{
    let id = anchored_id(seed, AnomalyKind::RedRoom, region.x, region.z);
    let p = (a as u64).wrapping_mul(0x9E37_79B9);
    let q = (b as u64).wrapping_mul(0x9E37_79B9);
    assert(a * 0x9E37_79B9 <= u64::MAX && b * 0x9E37_79B9 <= u64::MAX && a * 0x9E37_79B9 != b
        * 0x9E37_79B9) by (nonlinear_arith)
        requires
            a != b,
            0 <= a <= 0xFFFF_FFFF,
            0 <= b <= 0xFFFF_FFFF,
    ;
    assert(p == a * 0x9E37_79B9 && q == b * 0x9E37_79B9);
    assert(p != q ==> id ^ p != id ^ q) by (bit_vector);
    law_mixing_keeps_apart(id ^ p, id ^ q);
}

} // verus!
