//! What a chunk exports besides voxels: traversal gates, pit hazards and the
//! lights that the renderer draws directly.
//!
//! Neighbouring region plans repeat large anomalies and their fixtures, so
//! everything is exported once, as it is first met.

use vstd::prelude::*;

use crate::domain::entities::anomaly::traversal::{TraversalGate, TraversalGateKind};
use crate::domain::entities::anomaly::{AnomalyId, Axis2, PitHazard, Position, WorldBounds};
use crate::domain::entities::architecture::{LightKind, RuntimeLight, SpaceProgram};
use crate::domain::float_bits::{at_most, bits_at_most, bits_less, bits_max, larger, less, FloatBits};

verus! {

/// The part of an anomaly that a chunk exports.
pub struct AnomalyInteractions {
    pub id: AnomalyId,
    pub bounds: WorldBounds,
    pub gates: Vec<TraversalGate>,
    pub hazards: Vec<PitHazard>,
}

/// The chunk that asks.
#[derive(Clone, Copy, Debug, PartialEq, Eq, Structural)]
pub struct ExportBounds {
    pub bounds: WorldBounds,
    /// The bounds, a hair wider on every side: where a gate's plane may lie.
    pub planes: WorldBounds,
    /// The bounds with a margin: where an anomaly may reach to.
    pub margin: WorldBounds,
}

pub open spec fn gate_crosses(g: TraversalGate, chunk: ExportBounds) -> bool {
    match g.axis {
        Axis2::X => at_most(chunk.planes.min_x, g.plane) && at_most(g.plane, chunk.planes.max_x)
            && at_most(chunk.bounds.min_z, g.span_max) && at_most(g.span_min, chunk.bounds.max_z),
        Axis2::Z => at_most(chunk.planes.min_z, g.plane) && at_most(g.plane, chunk.planes.max_z)
            && at_most(chunk.bounds.min_x, g.span_max) && at_most(g.span_min, chunk.bounds.max_x),
    }
}

/// Whether a gate's plane and span pass through the chunk.
pub fn gate_crosses_bounds(g: &TraversalGate, chunk: &ExportBounds) -> (crosses: bool)
    ensures
        crosses == gate_crosses(*g, *chunk),
{
    match g.axis {
        Axis2::X => bits_at_most(chunk.planes.min_x, g.plane) && bits_at_most(
            g.plane,
            chunk.planes.max_x,
        ) && bits_at_most(chunk.bounds.min_z, g.span_max) && bits_at_most(
            g.span_min,
            chunk.bounds.max_z,
        ),
        Axis2::Z => bits_at_most(chunk.planes.min_z, g.plane) && bits_at_most(
            g.plane,
            chunk.planes.max_z,
        ) && bits_at_most(chunk.bounds.min_x, g.span_max) && bits_at_most(
            g.span_min,
            chunk.bounds.max_x,
        ),
    }
}

/// The anomaly is met for the first time, and reaches the chunk.
pub open spec fn is_visited(anomalies: Seq<AnomalyInteractions>, margin: WorldBounds, i: int) -> bool {
    &&& forall|j: int| 0 <= j < i ==> (#[trigger] anomalies[j]).id != anomalies[i].id
    &&& anomalies[i].bounds.meets(margin)
}

pub open spec fn has_gate(list: Seq<TraversalGate>, id: u64) -> bool {
    exists|k: int| 0 <= k < list.len() && (#[trigger] list[k]).id == id
}

pub open spec fn has_hazard(list: Seq<PitHazard>, id: u64) -> bool {
    exists|k: int| 0 <= k < list.len() && (#[trigger] list[k]).id == id
}

/// A list of gates after the first `n` of an anomaly's gates were offered to it.
pub open spec fn with_gates(
    list: Seq<TraversalGate>,
    gates: Seq<TraversalGate>,
    n: nat,
    chunk: ExportBounds,
) -> Seq<TraversalGate>
    decreases n,
{
    if n == 0 {
        list
    } else {
        let before = with_gates(list, gates, (n - 1) as nat, chunk);
        let g = gates[n - 1];
        if gate_crosses(g, chunk) && !has_gate(before, g.id) {
            before.push(g)
        } else {
            before
        }
    }
}

/// A list of hazards after the first `n` of an anomaly's hazards were offered.
pub open spec fn with_hazards(list: Seq<PitHazard>, hazards: Seq<PitHazard>, n: nat) -> Seq<PitHazard>
    decreases n,
{
    if n == 0 {
        list
    } else {
        let before = with_hazards(list, hazards, (n - 1) as nat);
        let h = hazards[n - 1];
        if has_hazard(before, h.id) {
            before
        } else {
            before.push(h)
        }
    }
}

/// The gates exported from the first `n` anomalies.
pub open spec fn exported_gates(
    anomalies: Seq<AnomalyInteractions>,
    chunk: ExportBounds,
    n: nat,
) -> Seq<TraversalGate>
    decreases n,
{
    if n == 0 {
        Seq::empty()
    } else {
        let before = exported_gates(anomalies, chunk, (n - 1) as nat);
        if is_visited(anomalies, chunk.margin, n - 1) {
            let gates = anomalies[n - 1].gates@;
            with_gates(before, gates, gates.len(), chunk)
        } else {
            before
        }
    }
}

/// The hazards exported from the first `n` anomalies.
pub open spec fn exported_hazards(
    anomalies: Seq<AnomalyInteractions>,
    chunk: ExportBounds,
    n: nat,
) -> Seq<PitHazard>
    decreases n,
{
    if n == 0 {
        Seq::empty()
    } else {
        let before = exported_hazards(anomalies, chunk, (n - 1) as nat);
        if is_visited(anomalies, chunk.margin, n - 1) {
            let hazards = anomalies[n - 1].hazards@;
            with_hazards(before, hazards, hazards.len())
        } else {
            before
        }
    }
}

fn knows_gate(list: &Vec<TraversalGate>, id: u64) -> (known: bool)
    ensures
        known == has_gate(list@, id),
{
    let mut i: usize = 0;
    while i < list.len()
        invariant
            i <= list@.len(),
            forall|k: int| 0 <= k < i ==> (#[trigger] list@[k]).id != id,
        decreases list@.len() - i,
    {
        if list[i].id == id {
            return true;
        }
        i = i + 1;
    }
    false
}

fn knows_hazard(list: &Vec<PitHazard>, id: u64) -> (known: bool)
    ensures
        known == has_hazard(list@, id),
{
    let mut i: usize = 0;
    while i < list.len()
        invariant
            i <= list@.len(),
            forall|k: int| 0 <= k < i ==> (#[trigger] list@[k]).id != id,
        decreases list@.len() - i,
    {
        if list[i].id == id {
            return true;
        }
        i = i + 1;
    }
    false
}

fn visits(anomalies: &Vec<AnomalyInteractions>, margin: &WorldBounds, i: usize) -> (visited: bool)
    requires
        i < anomalies@.len(),
    ensures
        visited == is_visited(anomalies@, *margin, i as int),
{
    let id: AnomalyId = anomalies[i].id;
    let mut j: usize = 0;
    while j < i
        invariant
            j <= i < anomalies@.len(),
            id == anomalies@[i as int].id,
            forall|k: int| 0 <= k < j ==> (#[trigger] anomalies@[k]).id != id,
        decreases i - j,
    {
        if anomalies[j].id == id {
            return false;
        }
        j = j + 1;
    }
    anomalies[i].bounds.intersects(*margin)
}

/// What a chunk exports of the anomalies around it.
pub struct Interactions {
    pub gates: Vec<TraversalGate>,
    pub hazards: Vec<PitHazard>,
}

/// Gates and hazards of every anomaly that reaches the chunk, in plan order.
pub fn export_interactions(anomalies: &Vec<AnomalyInteractions>, chunk: &ExportBounds) -> (exported:
    Interactions)
    ensures
        exported.gates@ == exported_gates(anomalies@, *chunk, anomalies@.len()),
        exported.hazards@ == exported_hazards(anomalies@, *chunk, anomalies@.len()),
{
    let mut gates: Vec<TraversalGate> = Vec::new();
    let mut hazards: Vec<PitHazard> = Vec::new();
    let mut i: usize = 0;
    while i < anomalies.len()
        invariant
            i <= anomalies@.len(),
            gates@ == exported_gates(anomalies@, *chunk, i as nat),
            hazards@ == exported_hazards(anomalies@, *chunk, i as nat),
        decreases anomalies@.len() - i,
    {
        if visits(anomalies, &chunk.margin, i) {
            let ghost gates_before = gates@;
            let ghost hazards_before = hazards@;
            let anomaly = &anomalies[i];
            let mut k: usize = 0;
            while k < anomaly.gates.len()
                invariant
                    k <= anomaly.gates@.len(),
                    gates@ == with_gates(gates_before, anomaly.gates@, k as nat, *chunk),
                decreases anomaly.gates@.len() - k,
            {
                let gate = anomaly.gates[k];
                if gate_crosses_bounds(&gate, chunk) && !knows_gate(&gates, gate.id) {
                    gates.push(gate);
                }
                k = k + 1;
            }
            k = 0;
            while k < anomaly.hazards.len()
                invariant
                    k <= anomaly.hazards@.len(),
                    hazards@ == with_hazards(hazards_before, anomaly.hazards@, k as nat),
                decreases anomaly.hazards@.len() - k,
            {
                let hazard = anomaly.hazards[k];
                if !knows_hazard(&hazards, hazard.id) {
                    hazards.push(hazard);
                }
                k = k + 1;
            }
        }
        i = i + 1;
    }
    Interactions { gates, hazards }
}

/// The gates of a list that advance the loop of a red room.
pub open spec fn loop_gates(gates: Seq<TraversalGate>, n: nat) -> Seq<TraversalGate>
    decreases n,
{
    if n == 0 {
        Seq::empty()
    } else if gates[n - 1].kind is RedLoop {
        loop_gates(gates, (n - 1) as nat).push(gates[n - 1])
    } else {
        loop_gates(gates, (n - 1) as nat)
    }
}

/// A list of gates after the loop gates of every one of the first `n` anomalies
/// that is the given instance were offered to it.
pub open spec fn with_checkpoints(
    list: Seq<TraversalGate>,
    anomalies: Seq<AnomalyInteractions>,
    instance: AnomalyId,
    chunk: ExportBounds,
    n: nat,
) -> Seq<TraversalGate>
    decreases n,
{
    if n == 0 {
        list
    } else {
        let before = with_checkpoints(list, anomalies, instance, chunk, (n - 1) as nat);
        if anomalies[n - 1].id == instance {
            let gates = loop_gates(anomalies[n - 1].gates@, anomalies[n - 1].gates@.len());
            with_gates(before, gates, gates.len(), chunk)
        } else {
            before
        }
    }
}

/// Offers the loop gates among an anomaly's gates.
proof fn lemma_offer_loop_gate(
    list: Seq<TraversalGate>,
    gates: Seq<TraversalGate>,
    k: nat,
    chunk: ExportBounds,
)
    requires
        k < gates.len(),
    ensures
        ({
            let before = loop_gates(gates, k);
            let after = loop_gates(gates, k + 1);
            let offered = with_gates(list, before, before.len(), chunk);
            let g = gates[k as int];
            with_gates(list, after, after.len(), chunk) == if g.kind is RedLoop && gate_crosses(g, chunk)
                && !has_gate(offered, g.id) {
                offered.push(g)
            } else {
                offered
            }
        }),
{
    let before = loop_gates(gates, k);
    let after = loop_gates(gates, k + 1);
    if gates[k as int].kind is RedLoop {
        lemma_with_gates_prefix(list, before, after, before.len(), chunk);
    }
}

proof fn lemma_with_gates_prefix(
    list: Seq<TraversalGate>,
    a: Seq<TraversalGate>,
    b: Seq<TraversalGate>,
    n: nat,
    chunk: ExportBounds,
)
    requires
        n <= a.len(),
        n <= b.len(),
        forall|i: int| 0 <= i < n ==> #[trigger] a[i] == b[i],
    ensures
        with_gates(list, a, n, chunk) == with_gates(list, b, n, chunk),
    decreases n,
{
    if n > 0 {
        lemma_with_gates_prefix(list, a, b, (n - 1) as nat, chunk);
        assert(a[n - 1] == b[n - 1]);
    }
}

/// The encounter that opened a recursive branch keeps its loop checkpoints in
/// visible space. They are exported unless a gate of the same id already was.
pub fn export_checkpoints(
    exported: &Vec<TraversalGate>,
    anomalies: &Vec<AnomalyInteractions>,
    instance: AnomalyId,
    chunk: &ExportBounds,
) -> (gates: Vec<TraversalGate>)
    ensures
        gates@ == with_checkpoints(exported@, anomalies@, instance, *chunk, anomalies@.len()),
{
    let mut list: Vec<TraversalGate> = Vec::new();
    let mut e: usize = 0;
    while e < exported.len()
        invariant
            e <= exported@.len(),
            list@ == exported@.take(e as int),
        decreases exported@.len() - e,
    {
        list.push(exported[e]);
        e = e + 1;
        assert(list@ =~= exported@.take(e as int));
    }
    assert(list@ =~= exported@);
    let mut i: usize = 0;
    while i < anomalies.len()
        invariant
            i <= anomalies@.len(),
            list@ == with_checkpoints(exported@, anomalies@, instance, *chunk, i as nat),
        decreases anomalies@.len() - i,
    {
        let anomaly = &anomalies[i];
        if anomaly.id == instance {
            let ghost start = list@;
            let mut k: usize = 0;
            while k < anomaly.gates.len()
                invariant
                    k <= anomaly.gates@.len(),
                    ({
                        let offered = loop_gates(anomaly.gates@, k as nat);
                        list@ == with_gates(start, offered, offered.len(), *chunk)
                    }),
                decreases anomaly.gates@.len() - k,
            {
                proof {
                    lemma_offer_loop_gate(start, anomaly.gates@, k as nat, *chunk);
                }
                let gate = anomaly.gates[k];
                if gate.kind == TraversalGateKind::RedLoop && gate_crosses_bounds(&gate, chunk)
                    && !knows_gate(&list, gate.id) {
                    list.push(gate);
                }
                k = k + 1;
            }
        }
        i = i + 1;
    }
    list
}

pub open spec fn gate_ids_differ(list: Seq<TraversalGate>) -> bool {
    forall|a: int, b: int|
        #![trigger list[a], list[b]]
        0 <= a < b < list.len() ==> list[a].id != list[b].id
}

proof fn lemma_with_gates(
    list: Seq<TraversalGate>,
    gates: Seq<TraversalGate>,
    n: nat,
    chunk: ExportBounds,
)
    requires
        n <= gates.len(),
        gate_ids_differ(list),
        forall|k: int| 0 <= k < list.len() ==> gate_crosses(#[trigger] list[k], chunk),
    ensures
        ({
            let after = with_gates(list, gates, n, chunk);
            &&& gate_ids_differ(after)
            &&& forall|k: int| 0 <= k < after.len() ==> gate_crosses(#[trigger] after[k], chunk)
            &&& list.len() <= after.len()
            &&& forall|k: int| 0 <= k < list.len() ==> #[trigger] after[k] == list[k]
            &&& forall|i: int|
                0 <= i < n && gate_crosses(#[trigger] gates[i], chunk) ==> has_gate(
                    after,
                    gates[i].id,
                )
        }),
    decreases n,
{
    if n > 0 {
        lemma_with_gates(list, gates, (n - 1) as nat, chunk);
        let before = with_gates(list, gates, (n - 1) as nat, chunk);
        let after = with_gates(list, gates, n, chunk);
        assert forall|i: int| 0 <= i < n && gate_crosses(#[trigger] gates[i], chunk) implies has_gate(
            after,
            gates[i].id,
        ) by {
            if i < n - 1 {
                let k = choose|k: int| 0 <= k < before.len() && (#[trigger] before[k]).id == gates[i].id;
                assert(after[k].id == gates[i].id);
            } else if !has_gate(before, gates[i].id) {
                assert(after[before.len() as int].id == gates[i].id);
            }
        }
    }
}

/// Exported gates cross the chunk, no two share an id, and every crossing gate of
/// an anomaly that reaches the chunk is among them under its id.
pub proof fn law_gates_are_exported_once(
    anomalies: Seq<AnomalyInteractions>,
    chunk: ExportBounds,
    n: nat,
)
    requires
        n <= anomalies.len(),
    ensures
        ({
            let gates = exported_gates(anomalies, chunk, n);
            &&& gate_ids_differ(gates)
            &&& forall|k: int| 0 <= k < gates.len() ==> gate_crosses(#[trigger] gates[k], chunk)
            &&& forall|i: int, k: int|
                #![trigger anomalies[i].gates@[k]]
                0 <= i < n && is_visited(anomalies, chunk.margin, i) && 0 <= k
                    < anomalies[i].gates@.len() && gate_crosses(anomalies[i].gates@[k], chunk)
                    ==> has_gate(gates, anomalies[i].gates@[k].id)
        }),
    decreases n,
{
    if n > 0 {
        law_gates_are_exported_once(anomalies, chunk, (n - 1) as nat);
        let before = exported_gates(anomalies, chunk, (n - 1) as nat);
        let gates = exported_gates(anomalies, chunk, n);
        let own = anomalies[n - 1].gates@;
        if is_visited(anomalies, chunk.margin, n - 1) {
            lemma_with_gates(before, own, own.len(), chunk);
        }
        assert forall|i: int, k: int|
            #![trigger anomalies[i].gates@[k]]
            0 <= i < n && is_visited(anomalies, chunk.margin, i) && 0 <= k < anomalies[i].gates@.len()
                && gate_crosses(anomalies[i].gates@[k], chunk) implies has_gate(
            gates,
            anomalies[i].gates@[k].id,
        ) by {
            if i < n - 1 {
                let id = anomalies[i].gates@[k].id;
                assert(has_gate(before, id));
                let j = choose|j: int| 0 <= j < before.len() && (#[trigger] before[j]).id == id;
                assert(gates[j].id == id);
            }
        }
    }
}

pub open spec fn hazard_ids_differ(list: Seq<PitHazard>) -> bool {
    forall|a: int, b: int|
        #![trigger list[a], list[b]]
        0 <= a < b < list.len() ==> list[a].id != list[b].id
}

proof fn lemma_with_hazards(list: Seq<PitHazard>, hazards: Seq<PitHazard>, n: nat)
    requires
        n <= hazards.len(),
        hazard_ids_differ(list),
    ensures
        hazard_ids_differ(with_hazards(list, hazards, n)),
    decreases n,
{
    if n > 0 {
        lemma_with_hazards(list, hazards, (n - 1) as nat);
    }
}

/// No hazard is exported twice.
pub proof fn law_hazards_are_exported_once(
    anomalies: Seq<AnomalyInteractions>,
    chunk: ExportBounds,
    n: nat,
)
    requires
        n <= anomalies.len(),
    ensures
        hazard_ids_differ(exported_hazards(anomalies, chunk, n)),
    decreases n,
{
    if n > 0 {
        law_hazards_are_exported_once(anomalies, chunk, (n - 1) as nat);
        let own = anomalies[n - 1].hazards@;
        lemma_with_hazards(exported_hazards(anomalies, chunk, (n - 1) as nat), own, own.len());
    }
}

/// One fixture of the planned assemblies around a chunk.
#[derive(Clone, Copy, Debug, PartialEq, Eq, Structural)]
pub struct FixtureReport {
    /// The assembly was never occupied.
    pub abandoned: bool,
    pub lit: bool,
    /// Where the light would be drawn.
    pub at: Position,
    /// An anomaly other than a red room owns the place.
    pub owned: bool,
    /// Where the light would be, from the chunk's corner.
    pub from_corner: Position,
}

/// How far outside a chunk a light may be, 15 units to the low side.
pub const LIGHT_REACH: FloatBits = 0xC170_0000;

pub open spec fn burns(f: FixtureReport) -> bool {
    !f.abandoned && f.lit
}

pub open spec fn in_light_reach(f: FixtureReport, far: u32) -> bool {
    at_most(LIGHT_REACH, f.from_corner.x) && at_most(f.from_corner.x, far) && at_most(
        LIGHT_REACH,
        f.from_corner.z,
    ) && at_most(f.from_corner.z, far)
}

/// The fixture is the first burning one at its place, no anomaly owns the place,
/// and the chunk is near enough.
pub open spec fn is_light_candidate(fixtures: Seq<FixtureReport>, far: u32, i: int) -> bool {
    &&& burns(fixtures[i])
    &&& forall|j: int| 0 <= j < i && burns(#[trigger] fixtures[j]) ==> fixtures[j].at != fixtures[i].at
    &&& !fixtures[i].owned
    &&& in_light_reach(fixtures[i], far)
}

/// The candidates among the first `n` fixtures, in order.
pub open spec fn candidates_of(fixtures: Seq<FixtureReport>, far: u32, n: nat) -> Seq<usize>
    decreases n,
{
    if n == 0 {
        Seq::empty()
    } else {
        let before = candidates_of(fixtures, far, (n - 1) as nat);
        if is_light_candidate(fixtures, far, n - 1) {
            before.push((n - 1) as usize)
        } else {
            before
        }
    }
}

/// The fixtures that may become direct lights of a chunk. `far` is the chunk's
/// size plus the reach of lights. A fixture that is turned away still keeps later
/// ones from its place.
pub fn light_candidates(fixtures: &Vec<FixtureReport>, far: FloatBits) -> (candidates: Vec<usize>)
    ensures
        candidates@ == candidates_of(fixtures@, far, fixtures@.len()),
{
    let mut candidates: Vec<usize> = Vec::new();
    let mut i: usize = 0;
    while i < fixtures.len()
        invariant
            i <= fixtures@.len(),
            candidates@ == candidates_of(fixtures@, far, i as nat),
        decreases fixtures@.len() - i,
    {
        let f = fixtures[i];
        let mut first: bool = true;
        let mut j: usize = 0;
        while j < i
            invariant
                j <= i < fixtures@.len(),
                f == fixtures@[i as int],
                first == forall|k: int|
                    0 <= k < j && burns(#[trigger] fixtures@[k]) ==> fixtures@[k].at != f.at,
            decreases i - j,
        {
            let other = fixtures[j];
            let ghost here = fixtures@[j as int];
            if !other.abandoned && other.lit && other.at == f.at {
                first = false;
            }
            j = j + 1;
        }
        if !f.abandoned && f.lit && first && !f.owned && bits_at_most(LIGHT_REACH, f.from_corner.x)
            && bits_at_most(f.from_corner.x, far) && bits_at_most(LIGHT_REACH, f.from_corner.z)
            && bits_at_most(f.from_corner.z, far) {
            candidates.push(i);
        }
        i = i + 1;
    }
    candidates
}

/// Lowest height of a direct light, 2.4.
pub const LOWEST_LIGHT: FloatBits = 0x4019_999A;

/// Drop of a pendant below its panel: 1.1, or 1.6 in an atrium.
pub fn pendant_drop(is_atrium: bool) -> (drop: FloatBits)
    ensures
        drop == if is_atrium {
            0x3FCC_CCCDu32
        } else {
            0x3F8C_CCCDu32
        },
{
    if is_atrium {
        0x3FCC_CCCD
    } else {
        0x3F8C_CCCD
    }
}

/// Height of a direct light that would hang at `hung`.
pub fn runtime_light_height(hung: FloatBits) -> (height: FloatBits)
    ensures
        height == larger(hung, LOWEST_LIGHT),
{
    bits_max(hung, LOWEST_LIGHT)
}

/// Everything about a fixture that becomes a direct light.
#[derive(Clone, Copy, Debug, PartialEq, Eq, Structural)]
pub struct FixtureShape {
    pub at: Position,
    /// Height at which it hangs below its panel.
    pub hung: FloatBits,
    pub half_x: FloatBits,
    pub half_z: FloatBits,
    /// Twice the half extents.
    pub double_x: FloatBits,
    pub double_z: FloatBits,
    pub program: SpaceProgram,
    /// The place burns red.
    pub red: bool,
}

pub open spec fn light_of(f: FixtureShape) -> RuntimeLight {
    let atrium = f.program is Atrium;
    RuntimeLight {
        at: f.at,
        height: larger(f.hung, LOWEST_LIGHT),
        half_x: f.half_x,
        half_z: f.half_z,
        // 1.0, 0.22, 0.16 or 1.0, 0.95, 0.8
        red: 0x3F80_0000,
        green: if f.red {
            0x3E61_47AEu32
        } else {
            0x3F73_3333u32
        },
        blue: if f.red {
            0x3E23_D70Au32
        } else {
            0x3F4C_CCCDu32
        },
        // 24 or 16
        range: if atrium {
            0x41C0_0000u32
        } else {
            0x4180_0000u32
        },
        // 4 or 1
        intensity: if atrium {
            0x4080_0000u32
        } else {
            0x3F80_0000u32
        },
        enabled: true,
        kind: if less(f.double_z, f.half_x) || less(f.double_x, f.half_z) {
            LightKind::Strip
        } else {
            LightKind::CeilingPanel
        },
    }
}

/// The direct light of a fixture that is not buried.
pub fn runtime_light(f: &FixtureShape) -> (light: RuntimeLight)
    ensures
        light == light_of(*f),
{
    let atrium: bool = f.program == SpaceProgram::Atrium;
    RuntimeLight {
        at: f.at,
        height: runtime_light_height(f.hung),
        half_x: f.half_x,
        half_z: f.half_z,
        red: 0x3F80_0000,
        green: if f.red {
            0x3E61_47AE
        } else {
            0x3F73_3333
        },
        blue: if f.red {
            0x3E23_D70A
        } else {
            0x3F4C_CCCD
        },
        range: if atrium {
            0x41C0_0000
        } else {
            0x4180_0000
        },
        intensity: if atrium {
            0x4080_0000
        } else {
            0x3F80_0000
        },
        enabled: true,
        kind: if bits_less(f.double_z, f.half_x) || bits_less(f.double_x, f.half_z) {
            LightKind::Strip
        } else {
            LightKind::CeilingPanel
        },
    }
}

/// Abandoned assemblies export no light, and no two lights share a place.
pub proof fn law_lights_are_exported_once(fixtures: Seq<FixtureReport>, far: u32, n: nat)
    requires
        n <= fixtures.len(),
        n <= usize::MAX,
    ensures
        ({
            let picked = candidates_of(fixtures, far, n);
            &&& forall|a: int|
                0 <= a < picked.len() ==> (#[trigger] picked[a]) < n
                    && !fixtures[picked[a] as int].abandoned && fixtures[picked[a] as int].lit
            &&& forall|a: int, b: int|
                #![trigger picked[a], picked[b]]
                0 <= a < b < picked.len() ==> picked[a] < picked[b] && fixtures[picked[a] as int].at
                    != fixtures[picked[b] as int].at
        }),
    decreases n,
{
    if n > 0 {
        law_lights_are_exported_once(fixtures, far, (n - 1) as nat);
        let before = candidates_of(fixtures, far, (n - 1) as nat);
        let picked = candidates_of(fixtures, far, n);
        if is_light_candidate(fixtures, far, n - 1) {
            assert forall|a: int, b: int|
                #![trigger picked[a], picked[b]]
                0 <= a < b < picked.len() implies picked[a] < picked[b] && fixtures[picked[a] as int].at
                != fixtures[picked[b] as int].at by {
                if b == before.len() {
                    assert(before[a] == picked[a]);
                    assert(burns(fixtures[picked[a] as int]));
                } else {
                    assert(before[a] == picked[a] && before[b] == picked[b]);
                }
            }
        }
    }
}

/// A gate crosses a chunk wherever a point of its span lies in the chunk's bounds and
/// its plane in the chunk's planes, and never where its plane or its whole span lies
/// outside.
pub proof fn law_gates_cross_where_they_pass(g: TraversalGate, chunk: ExportBounds, at: u32)
    ensures
        g.axis == Axis2::X && at_most(chunk.planes.min_x, g.plane) && at_most(
            g.plane,
            chunk.planes.max_x,
        ) && at_most(g.span_min, at) && at_most(at, g.span_max) && at_most(chunk.bounds.min_z, at)
            && at_most(at, chunk.bounds.max_z) ==> gate_crosses(g, chunk),
        g.axis == Axis2::Z && at_most(chunk.planes.min_z, g.plane) && at_most(
            g.plane,
            chunk.planes.max_z,
        ) && at_most(g.span_min, at) && at_most(at, g.span_max) && at_most(chunk.bounds.min_x, at)
            && at_most(at, chunk.bounds.max_x) ==> gate_crosses(g, chunk),
        g.axis == Axis2::X && (less(g.plane, chunk.planes.min_x) || less(
            chunk.planes.max_x,
            g.plane,
        ) || less(g.span_max, chunk.bounds.min_z) || less(chunk.bounds.max_z, g.span_min))
            ==> !gate_crosses(g, chunk),
        g.axis == Axis2::Z && (less(g.plane, chunk.planes.min_z) || less(
            chunk.planes.max_z,
            g.plane,
        ) || less(g.span_max, chunk.bounds.min_x) || less(chunk.bounds.max_x, g.span_min))
            ==> !gate_crosses(g, chunk),
{
}

/// It belongs to an anomaly that reaches the margin of the chunk.
pub open spec fn gate_of_reaching(
    anomalies: Seq<AnomalyInteractions>,
    chunk: ExportBounds,
    g: TraversalGate,
) -> bool {
    exists|i: int|
        0 <= i < anomalies.len() && (#[trigger] anomalies[i]).bounds.meets(chunk.margin)
            && anomalies[i].gates@.contains(g)
}

proof fn lemma_offered(
    list: Seq<TraversalGate>,
    gates: Seq<TraversalGate>,
    n: nat,
    chunk: ExportBounds,
    k: int,
)
    requires
        n <= gates.len(),
        0 <= k < with_gates(list, gates, n, chunk).len(),
    ensures
        list.len() <= with_gates(list, gates, n, chunk).len(),
        k < list.len() ==> with_gates(list, gates, n, chunk)[k] == list[k],
        k >= list.len() ==> gates.contains(with_gates(list, gates, n, chunk)[k]) && gate_crosses(
            with_gates(list, gates, n, chunk)[k],
            chunk,
        ),
    decreases n,
{
    if n > 0 {
        let before = with_gates(list, gates, (n - 1) as nat, chunk);
        let after = with_gates(list, gates, n, chunk);
        lemma_grows(list, gates, (n - 1) as nat, chunk);
        if k < before.len() {
            lemma_offered(list, gates, (n - 1) as nat, chunk, k);
            assert(after[k] == before[k]);
        } else {
            assert(after[k] == gates[n - 1]);
        }
    }
}

proof fn lemma_grows(
    list: Seq<TraversalGate>,
    gates: Seq<TraversalGate>,
    n: nat,
    chunk: ExportBounds,
)
    requires
        n <= gates.len(),
    ensures
        list.len() <= with_gates(list, gates, n, chunk).len(),
    decreases n,
{
    if n > 0 {
        lemma_grows(list, gates, (n - 1) as nat, chunk);
    }
}

/// Nothing is exported that does not belong here: every exported gate is a gate of an
/// anomaly that reaches the chunk's margin.
pub proof fn law_exported_gates_belong_to_reaching_anomalies(
    anomalies: Seq<AnomalyInteractions>,
    chunk: ExportBounds,
    n: nat,
    k: int,
)
    requires
        n <= anomalies.len(),
        0 <= k < exported_gates(anomalies, chunk, n).len(),
    ensures
        gate_of_reaching(anomalies, chunk, exported_gates(anomalies, chunk, n)[k]),
    decreases n,
{
    if n > 0 {
        let before = exported_gates(anomalies, chunk, (n - 1) as nat);
        let own = anomalies[n - 1].gates@;
        if is_visited(anomalies, chunk.margin, n - 1) {
            lemma_offered(before, own, own.len(), chunk, k);
            if k < before.len() {
                law_exported_gates_belong_to_reaching_anomalies(
                    anomalies,
                    chunk,
                    (n - 1) as nat,
                    k,
                );
            } else {
                assert(anomalies[n - 1].bounds.meets(chunk.margin));
            }
        } else {
            law_exported_gates_belong_to_reaching_anomalies(anomalies, chunk, (n - 1) as nat, k);
        }
    }
}

proof fn lemma_hazards_offered(list: Seq<PitHazard>, hazards: Seq<PitHazard>, n: nat, id: u64)
    requires
        n <= hazards.len(),
    ensures
        has_hazard(with_hazards(list, hazards, n), id) <==> has_hazard(list, id) || exists|i: int|
            0 <= i < n && (#[trigger] hazards[i]).id == id,
    decreases n,
{
    if n > 0 {
        lemma_hazards_offered(list, hazards, (n - 1) as nat, id);
        let before = with_hazards(list, hazards, (n - 1) as nat);
        let after = with_hazards(list, hazards, n);
        let h = hazards[n - 1];
        if has_hazard(before, id) {
            let k = choose|k: int| 0 <= k < before.len() && (#[trigger] before[k]).id == id;
            assert(after[k] == before[k]);
        }
        if h.id == id && !has_hazard(before, id) {
            assert(after[before.len() as int].id == id);
        }
        if has_hazard(after, id) && !has_hazard(before, id) {
            let k = choose|k: int| 0 <= k < after.len() && (#[trigger] after[k]).id == id;
            if k < before.len() {
                assert(before[k].id == id);
            }
        }
    }
}

/// Every hazard of an anomaly that reaches the chunk's margin is exported under its id,
/// and no other: of several records of one anomaly the first one counts.
pub proof fn law_hazards_come_from_reaching_anomalies(
    anomalies: Seq<AnomalyInteractions>,
    chunk: ExportBounds,
    n: nat,
    id: u64,
)
    requires
        n <= anomalies.len(),
    ensures
        has_hazard(exported_hazards(anomalies, chunk, n), id) <==> exists|i: int, k: int|
            0 <= i < n && is_visited(anomalies, chunk.margin, i) && 0 <= k
                < anomalies[i].hazards@.len() && (#[trigger] anomalies[i].hazards@[k]).id == id,
    decreases n,
{
    if n > 0 {
        law_hazards_come_from_reaching_anomalies(anomalies, chunk, (n - 1) as nat, id);
        let before = exported_hazards(anomalies, chunk, (n - 1) as nat);
        let own = anomalies[n - 1].hazards@;
        lemma_hazards_offered(before, own, own.len(), id);
        if exists|i: int, k: int|
            0 <= i < n && is_visited(anomalies, chunk.margin, i) && 0 <= k
                < anomalies[i].hazards@.len() && (#[trigger] anomalies[i].hazards@[k]).id == id {
            let (i, k) = choose|i: int, k: int|
                0 <= i < n && is_visited(anomalies, chunk.margin, i) && 0 <= k
                    < anomalies[i].hazards@.len() && (#[trigger] anomalies[i].hazards@[k]).id == id;
            if i == n - 1 {
                assert(own[k].id == id);
            } else {
                assert(anomalies[i].hazards@[k].id == id);
            }
        }
        if is_visited(anomalies, chunk.margin, n - 1) && exists|k: int|
            0 <= k < own.len() && (#[trigger] own[k]).id == id {
            let k = choose|k: int| 0 <= k < own.len() && (#[trigger] own[k]).id == id;
            assert(anomalies[n - 1].hazards@[k].id == id);
        }
    }
}

proof fn lemma_loop_gates(gates: Seq<TraversalGate>, n: nat, g: TraversalGate)
    requires
        n <= gates.len(),
    ensures
        loop_gates(gates, n).contains(g) <==> exists|i: int|
            0 <= i < n && #[trigger] gates[i] == g && g.kind is RedLoop,
    decreases n,
{
    if n > 0 {
        lemma_loop_gates(gates, (n - 1) as nat, g);
        let before = loop_gates(gates, (n - 1) as nat);
        let after = loop_gates(gates, n);
        if gates[n - 1].kind is RedLoop {
            assert(after == before.push(gates[n - 1]));
            assert(after[before.len() as int] == gates[n - 1]);
            if before.contains(g) {
                let i = before.index_of(g);
                assert(after[i] == g);
            }
            if after.contains(g) && !before.contains(g) {
                let i = after.index_of(g);
                if i < before.len() {
                    assert(before[i] == g);
                }
                assert(gates[n - 1] == g);
            }
        }
    }
}

/// Keeping checkpoints adds to what was exported and takes nothing away; all that it
/// adds are loop gates of the one instance that cross the chunk.
pub proof fn law_checkpoints_add_loop_gates_alone(
    list: Seq<TraversalGate>,
    anomalies: Seq<AnomalyInteractions>,
    instance: AnomalyId,
    chunk: ExportBounds,
    n: nat,
    k: int,
)
    requires
        n <= anomalies.len(),
        0 <= k < with_checkpoints(list, anomalies, instance, chunk, n).len(),
    ensures
        ({
            let after = with_checkpoints(list, anomalies, instance, chunk, n);
            &&& list.len() <= after.len()
            &&& k < list.len() ==> after[k] == list[k]
            &&& k >= list.len() ==> after[k].kind is RedLoop && gate_crosses(after[k], chunk)
                && exists|i: int|
                0 <= i < n && (#[trigger] anomalies[i]).id == instance
                    && anomalies[i].gates@.contains(after[k])
        }),
    decreases n,
{
    if n > 0 {
        let before = with_checkpoints(list, anomalies, instance, chunk, (n - 1) as nat);
        let after = with_checkpoints(list, anomalies, instance, chunk, n);
        lemma_checkpoints_grow(list, anomalies, instance, chunk, (n - 1) as nat);
        if anomalies[n - 1].id == instance {
            let own = anomalies[n - 1].gates@;
            let gates = loop_gates(own, own.len());
            lemma_grows(before, gates, gates.len(), chunk);
            lemma_offered(before, gates, gates.len(), chunk, k);
            if k >= before.len() {
                lemma_loop_gates(own, own.len(), after[k]);
                assert(anomalies[n - 1].gates@.contains(after[k]));
            }
        }
        if k < before.len() {
            law_checkpoints_add_loop_gates_alone(
                list,
                anomalies,
                instance,
                chunk,
                (n - 1) as nat,
                k,
            );
        }
    }
}

proof fn lemma_checkpoints_grow(
    list: Seq<TraversalGate>,
    anomalies: Seq<AnomalyInteractions>,
    instance: AnomalyId,
    chunk: ExportBounds,
    n: nat,
)
    requires
        n <= anomalies.len(),
    ensures
        list.len() <= with_checkpoints(list, anomalies, instance, chunk, n).len(),
    decreases n,
{
    if n > 0 {
        lemma_checkpoints_grow(list, anomalies, instance, chunk, (n - 1) as nat);
        let before = with_checkpoints(list, anomalies, instance, chunk, (n - 1) as nat);
        let gates = loop_gates(anomalies[n - 1].gates@, anomalies[n - 1].gates@.len());
        lemma_grows(before, gates, gates.len(), chunk);
    }
}

/// A fixture becomes a light exactly if it burns, no anomaly owns its place, the chunk
/// is within fifteen units, and no earlier fixture burns at the same place.
pub proof fn law_burning_fixtures_become_lights(
    fixtures: Seq<FixtureReport>,
    far: u32,
    n: nat,
    i: usize,
)
    requires
        n <= fixtures.len(),
        n <= usize::MAX,
    ensures
        candidates_of(fixtures, far, n).contains(i) <==> {
            let f = fixtures[i as int];
            &&& i < n
            &&& f.lit && !f.abandoned && !f.owned
            &&& at_most(0xC170_0000, f.from_corner.x) && at_most(f.from_corner.x, far)
            &&& at_most(0xC170_0000, f.from_corner.z) && at_most(f.from_corner.z, far)
            &&& forall|j: int|
                0 <= j < i && (#[trigger] fixtures[j]).lit && !fixtures[j].abandoned
                    ==> fixtures[j].at != f.at
        },
    decreases n,
{
    if n > 0 {
        law_burning_fixtures_become_lights(fixtures, far, (n - 1) as nat, i);
        let before = candidates_of(fixtures, far, (n - 1) as nat);
        let after = candidates_of(fixtures, far, n);
        let here = (n - 1) as usize;
        if is_light_candidate(fixtures, far, n - 1) {
            assert(after == before.push(here));
            assert(after[before.len() as int] == here);
            if before.contains(i) {
                let k = before.index_of(i);
                assert(after[k] == i);
            }
            if after.contains(i) && !before.contains(i) {
                let k = after.index_of(i);
                if k < before.len() {
                    assert(before[k] == i);
                }
            }
            assert forall|j: int|
                0 <= j < here && (#[trigger] fixtures[j]).lit && !fixtures[j].abandoned implies fixtures[j].at
                != fixtures[here as int].at by {
                assert(burns(fixtures[j]));
            }
        } else if i == here {
            assert forall|j: int| 0 <= j < i && burns(#[trigger] fixtures[j]) implies (
            fixtures[j].lit && !fixtures[j].abandoned) by {}
        }
    }
}

/// A light is as red as its room: full red everywhere, and less green and blue where
/// the place burns red. Lights of an atrium reach farther and burn brighter. A fixture
/// more than twice as long as wide is a strip, and no light hangs below its lowest
/// height.
pub proof fn law_lights_suit_their_fixture(f: FixtureShape)
    ensures
        ({
            let l = light_of(f);
            &&& l.at == f.at && l.half_x == f.half_x && l.half_z == f.half_z && l.enabled
            &&& l.red == 0x3F80_0000
            &&& f.red ==> l.green == 0x3E61_47AE && l.blue == 0x3E23_D70A
            &&& !f.red ==> l.green == 0x3F73_3333 && l.blue == 0x3F4C_CCCD
            &&& f.program is Atrium ==> l.range == 0x41C0_0000 && l.intensity == 0x4080_0000
            &&& !(f.program is Atrium) ==> l.range == 0x4180_0000 && l.intensity == 0x3F80_0000
            &&& l.kind is Strip <==> less(f.double_z, f.half_x) || less(f.double_x, f.half_z)
            &&& !less(l.height, LOWEST_LIGHT)
            &&& less(LOWEST_LIGHT, f.hung) ==> l.height == f.hung
        }),
{
}

} // verus!
