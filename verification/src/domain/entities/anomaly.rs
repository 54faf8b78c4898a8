//! Immutable anomaly plans and deterministic encounter-state snapshots.
//!
//! Lengths and coordinates are carried as the bits of 32-bit floats. Comparing
//! them and changing their sign is done here; arithmetic on them is not.

use vstd::prelude::*;

use crate::domain::entities::stamp_ledger::{
    build_ledger, covered, find_stamp, ledger, lemma_ledger_order_free, lemma_ledger_summarizes,
    lemma_replaced, lemma_stamp_of, replace_stamp, replaced, rising, stamp_of, LedgerStamp,
};
use crate::domain::entities::stamp_transport::{
    law_one_wrong_word_shows, ledger_body, ledger_fingerprint, ledger_words, lemma_canonical,
    lemma_round_trip, read_ledger, received, write_ledger, wrong_word_error,
};
use crate::domain::float_bits::{
    absolute, at_most, bits_absolute, bits_at_most, bits_less, bits_max, bits_min, bits_negated,
    is_nan_bits, larger, law_negation, less, negated, same_number, smaller, FloatBits,
};
use crate::domain::hashing::{
    high_half, high_word, join_halves, joined, law_halves, low_half, low_word, mix64, mixed,
    words_hash,
};

use crate::domain::ordering::{first_by_id, picks_first};

pub use crate::domain::entities::stamp_ledger::RealitySnapshotDecodeError;

pub mod reality;
pub mod traversal;

verus! {

pub type AnomalyId = u64;

#[derive(Debug, Clone, Copy, PartialEq, Eq, Hash, PartialOrd, Ord, Structural)]
pub enum AnomalyKind {
    PillarExpanse,
    BlackoutExpanse,
    PitLattice,
    RedRoom,
}

#[derive(Debug, Clone, Copy, PartialEq, Eq, Hash, PartialOrd, Ord, Structural)]
pub enum Axis2 {
    X,
    Z,
}

#[derive(Debug, Clone, Copy, PartialEq, Eq, Hash, PartialOrd, Ord, Structural)]
pub enum AxisDirection {
    Negative,
    Positive,
}

#[derive(Debug, Clone, Copy, PartialEq, Eq, Hash, Structural)]
pub enum QuarterTurn {
    Zero,
    Clockwise,
}

#[derive(Debug, Clone, Copy, PartialEq, Eq, Hash, Structural)]
pub enum TraversalGateKind {
    Remap,
    RedThreshold,
}

pub open spec fn kind_code(kind: AnomalyKind) -> u32 {
    match kind {
        AnomalyKind::PillarExpanse => 0,
        AnomalyKind::BlackoutExpanse => 1,
        AnomalyKind::PitLattice => 2,
        AnomalyKind::RedRoom => 3,
    }
}

pub open spec fn axis_code(axis: Axis2) -> u32 {
    match axis {
        Axis2::X => 0,
        Axis2::Z => 1,
    }
}

pub open spec fn direction_code(direction: AxisDirection) -> u32 {
    match direction {
        AxisDirection::Negative => 0,
        AxisDirection::Positive => 1,
    }
}

pub open spec fn gate_kind_code(kind: TraversalGateKind) -> u32 {
    match kind {
        TraversalGateKind::Remap => 0,
        TraversalGateKind::RedThreshold => 1,
    }
}

pub open spec fn kind_from(code: u32) -> Option<AnomalyKind> {
    if code == 0 {
        Some(AnomalyKind::PillarExpanse)
    } else if code == 1 {
        Some(AnomalyKind::BlackoutExpanse)
    } else if code == 2 {
        Some(AnomalyKind::PitLattice)
    } else if code == 3 {
        Some(AnomalyKind::RedRoom)
    } else {
        None
    }
}

pub open spec fn axis_from(code: u32) -> Option<Axis2> {
    if code == 0 {
        Some(Axis2::X)
    } else if code == 1 {
        Some(Axis2::Z)
    } else {
        None
    }
}

pub open spec fn direction_from(code: u32) -> Option<AxisDirection> {
    if code == 0 {
        Some(AxisDirection::Negative)
    } else if code == 1 {
        Some(AxisDirection::Positive)
    } else {
        None
    }
}

pub open spec fn gate_kind_from(code: u32) -> Option<TraversalGateKind> {
    if code == 0 {
        Some(TraversalGateKind::Remap)
    } else if code == 1 {
        Some(TraversalGateKind::RedThreshold)
    } else {
        None
    }
}

pub fn encode_kind(kind: AnomalyKind) -> (code: u32)
    ensures
        code == kind_code(kind),
{
    match kind {
        AnomalyKind::PillarExpanse => 0,
        AnomalyKind::BlackoutExpanse => 1,
        AnomalyKind::PitLattice => 2,
        AnomalyKind::RedRoom => 3,
    }
}

pub fn encode_axis(axis: Axis2) -> (code: u32)
    ensures
        code == axis_code(axis),
{
    match axis {
        Axis2::X => 0,
        Axis2::Z => 1,
    }
}

pub fn encode_direction(direction: AxisDirection) -> (code: u32)
    ensures
        code == direction_code(direction),
{
    match direction {
        AxisDirection::Negative => 0,
        AxisDirection::Positive => 1,
    }
}

fn encode_gate_kind(kind: TraversalGateKind) -> (code: u32)
    ensures
        code == gate_kind_code(kind),
{
    match kind {
        TraversalGateKind::Remap => 0,
        TraversalGateKind::RedThreshold => 1,
    }
}

pub fn decode_axis(v: u32) -> (axis: Option<Axis2>)
    ensures
        axis == axis_from(v),
{
    match v {
        0 => Some(Axis2::X),
        1 => Some(Axis2::Z),
        _ => None,
    }
}

pub fn decode_direction(v: u32) -> (direction: Option<AxisDirection>)
    ensures
        direction == direction_from(v),
{
    match v {
        0 => Some(AxisDirection::Negative),
        1 => Some(AxisDirection::Positive),
        _ => None,
    }
}

pub fn decode_kind(v: u32) -> (kind: Option<AnomalyKind>)
    ensures
        kind == kind_from(v),
{
    match v {
        0 => Some(AnomalyKind::PillarExpanse),
        1 => Some(AnomalyKind::BlackoutExpanse),
        2 => Some(AnomalyKind::PitLattice),
        3 => Some(AnomalyKind::RedRoom),
        _ => None,
    }
}

fn decode_gate_kind(v: u32) -> (kind: Option<TraversalGateKind>)
    ensures
        kind == gate_kind_from(v),
{
    match v {
        0 => Some(TraversalGateKind::Remap),
        1 => Some(TraversalGateKind::RedThreshold),
        _ => None,
    }
}

impl AxisDirection {
    /// Minus one or one.
    pub fn sign(self) -> (sign: i32)
        ensures
            sign == match self {
                AxisDirection::Negative => -1i32,
                AxisDirection::Positive => 1i32,
            },
    {
        match self {
            AxisDirection::Negative => -1,
            AxisDirection::Positive => 1,
        }
    }
}

/// A world position on the ground plane.
#[derive(Debug, Clone, Copy, PartialEq, Eq, Structural)]
pub struct Position {
    pub x: FloatBits,
    pub z: FloatBits,
}

/// Axis-aligned bounds in world X/Z. All anomaly footprints are rectangles
/// rotated in 90-degree increments so construction remains rectilinear.
#[derive(Debug, Clone, Copy, PartialEq, Eq, Structural)]
pub struct WorldBounds {
    pub min_x: FloatBits,
    pub min_z: FloatBits,
    pub max_x: FloatBits,
    pub max_z: FloatBits,
}

/// The bounds between two corners, whatever their order.
pub open spec fn bounds_between(ax: u32, az: u32, bx: u32, bz: u32) -> WorldBounds {
    WorldBounds {
        min_x: smaller(ax, bx),
        min_z: smaller(az, bz),
        max_x: larger(ax, bx),
        max_z: larger(az, bz),
    }
}

impl WorldBounds {
    pub fn new(min_x: FloatBits, min_z: FloatBits, max_x: FloatBits, max_z: FloatBits) -> (bounds: Self)
        ensures
            bounds == bounds_between(min_x, min_z, max_x, max_z),
    {
        WorldBounds {
            min_x: bits_min(min_x, max_x),
            min_z: bits_min(min_z, max_z),
            max_x: bits_max(min_x, max_x),
            max_z: bits_max(min_z, max_z),
        }
    }

    pub open spec fn holds(self, x: u32, z: u32) -> bool {
        at_most(self.min_x, x) && at_most(x, self.max_x) && at_most(self.min_z, z) && at_most(
            z,
            self.max_z,
        )
    }

    pub open spec fn meets(self, other: WorldBounds) -> bool {
        at_most(self.min_x, other.max_x) && at_most(other.min_x, self.max_x) && at_most(
            self.min_z,
            other.max_z,
        ) && at_most(other.min_z, self.max_z)
    }

    pub fn contains(&self, x: FloatBits, z: FloatBits) -> (inside: bool)
        ensures
            inside == self.holds(x, z),
    {
        bits_at_most(self.min_x, x) && bits_at_most(x, self.max_x) && bits_at_most(self.min_z, z)
            && bits_at_most(z, self.max_z)
    }

    pub fn intersects(&self, other: Self) -> (touching: bool)
        ensures
            touching == self.meets(other),
    {
        bits_at_most(self.min_x, other.max_x) && bits_at_most(other.min_x, self.max_x)
            && bits_at_most(self.min_z, other.max_z) && bits_at_most(other.min_z, self.max_z)
    }
}

/// Bounds meet whenever they share a point, and meeting is mutual.
pub proof fn law_bounds_meet(a: WorldBounds, b: WorldBounds, x: u32, z: u32)
    ensures
        a.meets(b) == b.meets(a),
        a.holds(x, z) && b.holds(x, z) ==> a.meets(b),
{
}

/// Bounds between two corners of numbers hold both corners, and rebuilding
/// bounds from their own ends gives them back.
pub proof fn law_bounds_hold_corners(ax: u32, az: u32, bx: u32, bz: u32)
    requires
        !is_nan_bits(ax),
        !is_nan_bits(az),
        !is_nan_bits(bx),
        !is_nan_bits(bz),
    ensures
        bounds_between(ax, az, bx, bz).holds(ax, az),
        bounds_between(ax, az, bx, bz).holds(bx, bz),
        ({
            let b = bounds_between(ax, az, bx, bz);
            bounds_between(b.min_x, b.min_z, b.max_x, b.max_z) == b
        }),
{
}

#[derive(Debug, Clone, Copy, PartialEq, Eq, Structural)]
pub struct OrthoBasis {
    pub turn: QuarterTurn,
}

impl OrthoBasis {
    pub open spec fn local_of(self, dx: u32, dz: u32) -> (u32, u32) {
        match self.turn {
            QuarterTurn::Zero => (dx, dz),
            QuarterTurn::Clockwise => (dz, negated(dx)),
        }
    }

    pub open spec fn world_of(self, lx: u32, lz: u32) -> (u32, u32) {
        match self.turn {
            QuarterTurn::Zero => (lx, lz),
            QuarterTurn::Clockwise => (negated(lz), lx),
        }
    }

    pub fn to_local(self, dx: FloatBits, dz: FloatBits) -> (local: (FloatBits, FloatBits))
        ensures
            local == self.local_of(dx, dz),
    {
        match self.turn {
            QuarterTurn::Zero => (dx, dz),
            QuarterTurn::Clockwise => (dz, bits_negated(dx)),
        }
    }

    pub fn to_world(self, lx: FloatBits, lz: FloatBits) -> (world: (FloatBits, FloatBits))
        ensures
            world == self.world_of(lx, lz),
    {
        match self.turn {
            QuarterTurn::Zero => (lx, lz),
            QuarterTurn::Clockwise => (bits_negated(lz), lx),
        }
    }

    pub fn local_axis_in_world(self, axis: Axis2) -> (world: Axis2)
        ensures
            self.turn == QuarterTurn::Zero ==> world == axis,
            self.turn == QuarterTurn::Clockwise ==> world != axis,
    {
        match (self.turn, axis) {
            (QuarterTurn::Zero, a) => a,
            (QuarterTurn::Clockwise, Axis2::X) => Axis2::Z,
            (QuarterTurn::Clockwise, Axis2::Z) => Axis2::X,
        }
    }
}

/// Turning into local coordinates and back changes nothing, in either order.
pub proof fn law_basis_is_invertible(basis: OrthoBasis, a: u32, b: u32)
    ensures
        ({
            let l = basis.local_of(a, b);
            basis.world_of(l.0, l.1) == (a, b)
        }),
        ({
            let w = basis.world_of(a, b);
            basis.local_of(w.0, w.1) == (a, b)
        }),
{
    law_negation(a);
    law_negation(b);
}

#[derive(Debug, Clone, Copy, PartialEq, Eq, Structural)]
pub struct OrientedFootprint {
    pub center: Position,
    /// Half extents in the instance's local coordinates.
    pub half_x: FloatBits,
    pub half_z: FloatBits,
    pub basis: OrthoBasis,
}

impl OrientedFootprint {
    /// The local coordinates lie within the half extents.
    pub open spec fn holds_local(self, lx: u32, lz: u32) -> bool {
        at_most(absolute(lx), self.half_x) && at_most(absolute(lz), self.half_z)
    }

    /// Half extents along world x and z.
    pub open spec fn world_halves(self) -> (u32, u32) {
        match self.basis.turn {
            QuarterTurn::Zero => (self.half_x, self.half_z),
            QuarterTurn::Clockwise => (self.half_z, self.half_x),
        }
    }

    /// Whether local coordinates lie within the half extents.
    pub fn contains(&self, lx: FloatBits, lz: FloatBits) -> (inside: bool)
        ensures
            inside == (at_most(absolute(lx), self.half_x) && at_most(absolute(lz), self.half_z)),
            inside == self.holds_local(lx, lz),
    {
        bits_at_most(bits_absolute(lx), self.half_x) && bits_at_most(bits_absolute(lz), self.half_z)
    }

    /// Half extents along world x and z.
    pub fn world_half_extents(&self) -> (half: (FloatBits, FloatBits))
        ensures
            half == match self.basis.turn {
                QuarterTurn::Zero => (self.half_x, self.half_z),
                QuarterTurn::Clockwise => (self.half_z, self.half_x),
            },
            half == self.world_halves(),
    {
        match self.basis.turn {
            QuarterTurn::Zero => (self.half_x, self.half_z),
            QuarterTurn::Clockwise => (self.half_z, self.half_x),
        }
    }
}

/// `x` with its bits moved up by `n`, those that fall out coming back below.
pub open spec fn rotated(x: u64, n: u64) -> u64 {
    (x << n) | (x >> ((64 - n) as u64))
}

pub fn rotate_bits(x: u64, n: u64) -> (r: u64)
    requires
        0 < n < 64,
    ensures
        r == rotated(x, n),
{
    (x << n) | (x >> (64 - n))
}

#[derive(Debug, Clone, Copy, PartialEq, Eq, Structural)]
pub struct PillarLattice {
    pub bay_x: FloatBits,
    pub bay_z: FloatBits,
    pub phase_x: FloatBits,
    pub phase_z: FloatBits,
    pub min_side: FloatBits,
    pub max_side: FloatBits,
    pub variation_seed: u64,
}

impl PillarLattice {
    /// Hash of a lattice cell.
    pub open spec fn cell_hash(self, cell_x: i64, cell_z: i64) -> u64 {
        mixed(
            self.variation_seed ^ (cell_x as u64).wrapping_mul(0x9E37_79B9_7F4A_7C15) ^ rotated(
                cell_z as u64,
                29,
            ),
        )
    }

    /// How many size steps above the smallest side the pillar of a cell is:
    /// variable sizes, always on the shared plan lattice of `steps` steps.
    pub fn pillar_size(&self, cell_x: i64, cell_z: i64, steps: u64) -> (step: u64)
        requires
            steps < u64::MAX,
        ensures
            step == self.cell_hash(cell_x, cell_z) % ((if steps >= 1 {
                steps as int
            } else {
                1
            }) + 1) as u64,
            step <= steps || step <= 1,
    {
        let h: u64 = mix64(
            self.variation_seed ^ (cell_x as u64).wrapping_mul(0x9E37_79B9_7F4A_7C15) ^ rotate_bits(
                cell_z as u64,
                29,
            ),
        );
        let count: u64 = if steps >= 1 {
            steps
        } else {
            1
        };
        h % (count + 1)
    }
}

#[derive(Debug, Clone, Copy, PartialEq, Eq, Structural)]
pub struct PitLattice {
    pub spacing_x: FloatBits,
    pub spacing_z: FloatBits,
    pub phase_x: FloatBits,
    pub phase_z: FloatBits,
    pub side: FloatBits,
    pub depth: FloatBits,
}

/// A semantic plane crossing. `span_*` lies on the perpendicular world axis.
#[derive(Debug, Clone, Copy, PartialEq, Eq, Structural)]
pub struct TraversalGate {
    pub id: u64,
    pub instance_id: AnomalyId,
    pub anomaly_kind: AnomalyKind,
    pub kind: TraversalGateKind,
    pub axis: Axis2,
    pub plane: FloatBits,
    pub span_min: FloatBits,
    pub span_max: FloatBits,
    /// For directional thresholds (red rooms), the authored inward direction.
    pub forward: AxisDirection,
    pub affected_bounds: WorldBounds,
}

/// Bits of 0.000001: shorter movements cross nothing.
pub const MIN_CROSSING: FloatBits = 0x3586_37BD;

/// Bits of 0.0 and 1.0.
pub const ZERO_BITS: FloatBits = 0;

pub const ONE_BITS: FloatBits = 0x3F80_0000;

/// Words of a transported gate.
pub const GATE_WORDS: usize = 15;

/// The words of a gate.
pub open spec fn gate_words(g: TraversalGate) -> Seq<u32> {
    seq![
        low_word(g.id),
        high_word(g.id),
        low_word(g.instance_id),
        high_word(g.instance_id),
        kind_code(g.anomaly_kind),
        gate_kind_code(g.kind),
        axis_code(g.axis),
        g.plane,
        g.span_min,
        g.span_max,
        direction_code(g.forward),
        g.affected_bounds.min_x,
        g.affected_bounds.min_z,
        g.affected_bounds.max_x,
        g.affected_bounds.max_z,
    ]
}

/// What the words of a gate say; nothing for a wrong count or a word without
/// meaning.
pub open spec fn gate_from(w: Seq<u32>) -> Option<TraversalGate> {
    if w.len() != GATE_WORDS {
        None
    } else {
        match (kind_from(w[4]), gate_kind_from(w[5]), axis_from(w[6]), direction_from(w[10])) {
            (Some(anomaly_kind), Some(kind), Some(axis), Some(forward)) => Some(
                TraversalGate {
                    id: joined(w[0], w[1]),
                    instance_id: joined(w[2], w[3]),
                    anomaly_kind,
                    kind,
                    axis,
                    plane: w[7],
                    span_min: w[8],
                    span_max: w[9],
                    forward,
                    affected_bounds: bounds_between(w[11], w[12], w[13], w[14]),
                },
            ),
            _ => None,
        }
    }
}

/// A measured movement segment, seen along the axis of a gate.
#[derive(Debug, Clone, Copy, PartialEq, Eq, Structural)]
pub struct SegmentMeasures {
    /// The movement along the axis, and where it ends.
    pub delta: FloatBits,
    pub end: FloatBits,
    /// The fraction of the movement before the plane.
    pub t: FloatBits,
    /// The coordinate on the other axis at that point.
    pub across: FloatBits,
}

/// The movement starts short of the plane and ends strictly beyond it.
pub open spec fn passes(plane: u32, s: SegmentMeasures) -> bool {
    &&& !less(absolute(s.delta), MIN_CROSSING)
    &&& less(ZERO_BITS, s.t) && at_most(s.t, ONE_BITS)
    &&& if less(ZERO_BITS, s.delta) {
        less(plane, s.end)
    } else {
        less(s.end, plane)
    }
}

/// The direction of a movement across a plane, inside its span.
pub open spec fn crossing_of(
    plane: u32,
    span_min: u32,
    span_max: u32,
    s: SegmentMeasures,
) -> Option<AxisDirection> {
    if !passes(plane, s) || less(s.across, span_min) || less(span_max, s.across) {
        None
    } else if less(ZERO_BITS, s.delta) {
        Some(AxisDirection::Positive)
    } else {
        Some(AxisDirection::Negative)
    }
}

/// The direction of a movement across a plane, inside its span. Merely touching
/// the plane or moving parallel to it is no crossing.
pub fn plane_crossing(
    plane: FloatBits,
    span_min: FloatBits,
    span_max: FloatBits,
    s: &SegmentMeasures,
) -> (direction: Option<AxisDirection>)
    ensures
        direction == crossing_of(plane, span_min, span_max, *s),
{
    if bits_less(bits_absolute(s.delta), MIN_CROSSING) {
        return None;
    }
    if !(bits_less(ZERO_BITS, s.t) && bits_at_most(s.t, ONE_BITS)) {
        return None;
    }
    let forward: bool = bits_less(ZERO_BITS, s.delta);
    let beyond: bool = if forward {
        bits_less(plane, s.end)
    } else {
        bits_less(s.end, plane)
    };
    if !beyond || bits_less(s.across, span_min) || bits_less(span_max, s.across) {
        None
    } else if forward {
        Some(AxisDirection::Positive)
    } else {
        Some(AxisDirection::Negative)
    }
}

impl TraversalGate {
    /// Returns traversal direction when a movement segment crosses the plane
    /// inside its span. Merely touching or moving parallel does not fire: a
    /// movement that starts or ends on the plane is no crossing.
    pub fn crossing(&self, s: &SegmentMeasures) -> (direction: Option<AxisDirection>)
        ensures
            direction == crossing_of(self.plane, self.span_min, self.span_max, *s),
    {
        plane_crossing(self.plane, self.span_min, self.span_max, s)
    }

    pub fn to_words(self) -> (words: [u32; 15])
        ensures
            words@ == gate_words(self),
    {
        let words = [
            low_half(self.id),
            high_half(self.id),
            low_half(self.instance_id),
            high_half(self.instance_id),
            encode_kind(self.anomaly_kind),
            encode_gate_kind(self.kind),
            encode_axis(self.axis),
            self.plane,
            self.span_min,
            self.span_max,
            encode_direction(self.forward),
            self.affected_bounds.min_x,
            self.affected_bounds.min_z,
            self.affected_bounds.max_x,
            self.affected_bounds.max_z,
        ];
        assert(words@ =~= gate_words(self));
        words
    }

    pub fn from_words(w: &[u32]) -> (gate: Option<Self>)
        ensures
            gate == gate_from(w@),
    {
        if w.len() != GATE_WORDS {
            return None;
        }
        match (decode_kind(w[4]), decode_gate_kind(w[5]), decode_axis(w[6]), decode_direction(w[10])) {
            (Some(anomaly_kind), Some(kind), Some(axis), Some(forward)) => Some(
                TraversalGate {
                    id: join_halves(w[0], w[1]),
                    instance_id: join_halves(w[2], w[3]),
                    anomaly_kind,
                    kind,
                    axis,
                    plane: w[7],
                    span_min: w[8],
                    span_max: w[9],
                    forward,
                    affected_bounds: WorldBounds::new(w[11], w[12], w[13], w[14]),
                },
            ),
            _ => None,
        }
    }
}

/// A gate sent and received is the same gate, with its bounds in order.
pub proof fn law_gate_round_trip(g: TraversalGate)
    ensures
        gate_from(gate_words(g)) == Some(
            TraversalGate {
                affected_bounds: bounds_between(
                    g.affected_bounds.min_x,
                    g.affected_bounds.min_z,
                    g.affected_bounds.max_x,
                    g.affected_bounds.max_z,
                ),
                ..g
            },
        ),
{
    law_halves(g.id, 0, 0);
    law_halves(g.instance_id, 0, 0);
}

/// Moving the other way across the same point of a plane, to its near side, gives
/// the other direction.
pub proof fn law_crossing_is_directional(
    plane: u32,
    span_min: u32,
    span_max: u32,
    s: SegmentMeasures,
    back: u32,
)
    requires
        crossing_of(plane, span_min, span_max, s) is Some,
        !is_nan_bits(s.delta),
        if less(ZERO_BITS, s.delta) {
            less(back, plane)
        } else {
            less(plane, back)
        },
    ensures
        ({
            let returned = crossing_of(
                plane,
                span_min,
                span_max,
                SegmentMeasures { delta: negated(s.delta), end: back, ..s },
            );
            returned is Some && returned != crossing_of(plane, span_min, span_max, s)
        }),
{
    law_negation(s.delta);
}

/// Merely touching a plane never fires: a movement that ends on it crosses
/// nothing, whatever else was measured.
pub proof fn law_touching_is_no_crossing(
    plane: u32,
    span_min: u32,
    span_max: u32,
    s: SegmentMeasures,
)
    requires
        same_number(s.end, plane),
    ensures
        crossing_of(plane, span_min, span_max, s) is None,
{
}

#[derive(Debug, Clone, Copy, PartialEq, Eq, Structural)]
pub struct PitHazard {
    pub id: u64,
    pub instance_id: AnomalyId,
    pub center: Position,
    pub half_side: FloatBits,
    pub depth: FloatBits,
    pub recovery: Position,
}

/// Words of a transported hazard.
pub const HAZARD_WORDS: usize = 10;

pub open spec fn hazard_words(h: PitHazard) -> Seq<u32> {
    seq![
        low_word(h.id),
        high_word(h.id),
        low_word(h.instance_id),
        high_word(h.instance_id),
        h.center.x,
        h.center.z,
        h.half_side,
        h.depth,
        h.recovery.x,
        h.recovery.z,
    ]
}

pub open spec fn hazard_from(w: Seq<u32>) -> Option<PitHazard> {
    if w.len() != HAZARD_WORDS {
        None
    } else {
        Some(
            PitHazard {
                id: joined(w[0], w[1]),
                instance_id: joined(w[2], w[3]),
                center: Position { x: w[4], z: w[5] },
                half_side: w[6],
                depth: w[7],
                recovery: Position { x: w[8], z: w[9] },
            },
        )
    }
}

impl PitHazard {
    /// The pit lies under a point with these offsets from its center.
    pub open spec fn lies_under(self, dx: u32, dz: u32) -> bool {
        less(absolute(dx), self.half_side) && less(absolute(dz), self.half_side)
    }

    /// Whether a point is over the pit, given its offsets from the center.
    pub fn contains(&self, dx: FloatBits, dz: FloatBits) -> (over: bool)
        ensures
            over == (less(absolute(dx), self.half_side) && less(absolute(dz), self.half_side)),
            over == self.lies_under(dx, dz),
    {
        bits_less(bits_absolute(dx), self.half_side) && bits_less(bits_absolute(dz), self.half_side)
    }

    pub fn write_words(self, out: &mut Vec<u32>)
        ensures
            final(out)@ == old(out)@ + hazard_words(self),
    {
        let ghost before = out@;
        out.push(low_half(self.id));
        out.push(high_half(self.id));
        out.push(low_half(self.instance_id));
        out.push(high_half(self.instance_id));
        out.push(self.center.x);
        out.push(self.center.z);
        out.push(self.half_side);
        out.push(self.depth);
        out.push(self.recovery.x);
        out.push(self.recovery.z);
        assert(out@ =~= before + hazard_words(self));
    }

    pub fn from_transport_words(w: &[u32]) -> (hazard: Option<Self>)
        ensures
            hazard == hazard_from(w@),
    {
        if w.len() != HAZARD_WORDS {
            return None;
        }
        Some(
            PitHazard {
                id: join_halves(w[0], w[1]),
                instance_id: join_halves(w[2], w[3]),
                center: Position { x: w[4], z: w[5] },
                half_side: w[6],
                depth: w[7],
                recovery: Position { x: w[8], z: w[9] },
            },
        )
    }
}

/// A hazard sent and received is the same hazard, and only words that a hazard
/// writes are received as it.
pub proof fn law_hazard_round_trip(h: PitHazard, w: Seq<u32>)
    ensures
        hazard_from(hazard_words(h)) == Some(h),
        hazard_from(w) == Some(h) ==> hazard_words(h) == w,
{
    law_halves(h.id, 0, 0);
    law_halves(h.instance_id, 0, 0);
    if hazard_from(w) == Some(h) {
        law_halves(0, w[0], w[1]);
        law_halves(0, w[2], w[3]);
        assert(hazard_words(h) =~= w);
    }
}

/// A lattice point that may hold a pit, with what was measured there.
#[derive(Debug, Clone, Copy, PartialEq, Eq, Structural)]
pub struct PitCandidate {
    /// Lattice indices.
    pub ix: i64,
    pub iz: i64,
    pub center: Position,
    /// The center in the instance's local coordinates.
    pub local: Position,
    /// Distance of the center from the edge of the footprint.
    pub boundary_distance: FloatBits,
    /// Local z of the lattice point.
    pub lane_offset: FloatBits,
    pub recovery: Position,
}

/// Cell of the coarse lattice that anomalies are anchored to.
#[derive(Debug, Clone, Copy, PartialEq, Eq, Structural)]
pub struct MacroCell {
    pub x: i64,
    pub z: i64,
}

#[derive(Debug, Clone)]
pub struct AnomalyInstance {
    pub id: AnomalyId,
    pub kind: AnomalyKind,
    pub footprint: OrientedFootprint,
    pub basis: OrthoBasis,
    pub macro_anchor: MacroCell,
    pub pillar_lattice: Option<PillarLattice>,
    pub pit_lattice: Option<PitLattice>,
    pub gates: Vec<traversal::TraversalGate>,
    /// Epoch-invariant internal route half-width.
    pub skeleton_half_width: FloatBits,
    /// Boundary depth kept regular before corruption/remapping begins.
    pub entry_band: FloatBits,
}

/// Stable id of the pit at a lattice point.
pub open spec fn pit_id(instance: AnomalyId, ix: i64, iz: i64) -> u64 {
    mixed(instance ^ rotated(ix as u64, 17) ^ rotated(iz as u64, 43))
}

impl AnomalyInstance {
    /// A lattice point holds a pit: well inside the footprint, near the queried
    /// bounds, and off the center lane, which stays solid and navigable.
    pub open spec fn holds_pit(
        self,
        lattice: PitLattice,
        c: PitCandidate,
        near: WorldBounds,
        lane: u32,
    ) -> bool {
        &&& at_most(absolute(c.local.x), self.footprint.half_x)
        &&& at_most(absolute(c.local.z), self.footprint.half_z)
        &&& !less(c.boundary_distance, lattice.side)
        &&& near.holds(c.center.x, c.center.z)
        &&& !less(absolute(c.lane_offset), lane)
    }

    pub open spec fn pit_of(self, lattice: PitLattice, c: PitCandidate, half_side: u32) -> PitHazard {
        PitHazard {
            id: pit_id(self.id, c.ix, c.iz),
            instance_id: self.id,
            center: c.center,
            half_side,
            depth: lattice.depth,
            recovery: c.recovery,
        }
    }

    /// The pits of the first `n` candidates, in order.
    pub open spec fn pits(
        self,
        lattice: PitLattice,
        candidates: Seq<PitCandidate>,
        near: WorldBounds,
        lane: u32,
        half_side: u32,
        n: nat,
    ) -> Seq<PitHazard>
        decreases n,
    {
        if n == 0 {
            Seq::empty()
        } else {
            let before = self.pits(lattice, candidates, near, lane, half_side, (n - 1) as nat);
            let c = candidates[n - 1];
            if self.holds_pit(lattice, c, near, lane) {
                before.push(self.pit_of(lattice, c, half_side))
            } else {
                before
            }
        }
    }

    pub fn contains(&self, lx: FloatBits, lz: FloatBits) -> (inside: bool)
        ensures
            inside == (at_most(absolute(lx), self.footprint.half_x) && at_most(
                absolute(lz),
                self.footprint.half_z,
            )),
    {
        self.footprint.contains(lx, lz)
    }

    pub fn state<'a>(&self, reality: &'a RealitySnapshot) -> (stamp: Option<&'a AnomalyStateStamp>)
        requires
            reality.wf(),
        ensures
            match (stamp, stamp_of(reality@, self.id)) {
                (Some(s), Some(t)) => *s == t,
                (None, None) => true,
                _ => false,
            },
    {
        reality.lookup(self.id)
    }

    pub fn traversal_gates(&self) -> (gates: &[traversal::TraversalGate])
        ensures
            gates@ == self.gates@,
    {
        self.gates.as_slice()
    }

    pub fn pillar_size(&self, cx: i64, cz: i64, steps: u64) -> (step: Option<u64>)
        requires
            steps < u64::MAX,
        ensures
            match (step, self.pillar_lattice) {
                (Some(n), Some(lattice)) => n == lattice.cell_hash(cx, cz) % ((if steps >= 1 {
                    steps as int
                } else {
                    1
                }) + 1) as u64,
                (None, None) => true,
                _ => false,
            },
    {
        match self.pillar_lattice {
            Some(lattice) => Some(lattice.pillar_size(cx, cz, steps)),
            None => None,
        }
    }

    /// The pits among the given lattice points, one per id, ids rising. The
    /// caller measures the points; `near` is the queried bounds grown by a pit's
    /// side, `lane` the half width of the lane that must stay solid.
    pub fn pit_hazards_for_bounds(
        &self,
        candidates: &Vec<PitCandidate>,
        near: WorldBounds,
        lane: FloatBits,
        half_side: FloatBits,
    ) -> (hazards: Vec<PitHazard>)
        ensures
            self.pit_lattice is None ==> hazards@.len() == 0,
            self.pit_lattice matches Some(lattice) ==> one_per_id(
                hazards@,
                self.pits(lattice, candidates@, near, lane, half_side, candidates@.len()),
            ),
    {
        let lattice = match self.pit_lattice {
            None => {
                return Vec::new();
            },
            Some(lattice) => lattice,
        };
        let mut found: Vec<PitHazard> = Vec::new();
        let mut ids: Vec<u64> = Vec::new();
        let mut i: usize = 0;
        while i < candidates.len()
            invariant
                i <= candidates@.len(),
                found@ == self.pits(lattice, candidates@, near, lane, half_side, i as nat),
                ids@ == hazard_ids(found@),
            decreases candidates@.len() - i,
        {
            let c = candidates[i];
            if self.contains(c.local.x, c.local.z) && !bits_less(c.boundary_distance, lattice.side)
                && near.contains(c.center.x, c.center.z) && !bits_less(
                bits_absolute(c.lane_offset),
                lane,
            ) {
                let id: u64 = mix64(
                    self.id ^ rotate_bits(c.ix as u64, 17) ^ rotate_bits(c.iz as u64, 43),
                );
                found.push(
                    PitHazard {
                        id,
                        instance_id: self.id,
                        center: c.center,
                        half_side,
                        depth: lattice.depth,
                        recovery: c.recovery,
                    },
                );
                ids.push(id);
                assert(ids@ =~= hazard_ids(found@));
            }
            i = i + 1;
        }
        let order = first_by_id(&ids);
        pick_hazards(&found, &order)
    }
}

pub open spec fn hazard_ids(list: Seq<PitHazard>) -> Seq<u64> {
    list.map_values(|h: PitHazard| h.id)
}

/// `picked` holds the first hazard of every id in the list, ids rising.
pub open spec fn one_per_id(picked: Seq<PitHazard>, list: Seq<PitHazard>) -> bool {
    exists|order: Seq<usize>|
        #[trigger] picks_first(order, hazard_ids(list)) && picked.len() == order.len()
            && forall|i: int| 0 <= i < order.len() ==> #[trigger] picked[i] == list[order[i] as int]
}

fn pick_hazards(list: &Vec<PitHazard>, order: &Vec<usize>) -> (picked: Vec<PitHazard>)
    requires
        picks_first(order@, hazard_ids(list@)),
    ensures
        one_per_id(picked@, list@),
{
    let mut picked: Vec<PitHazard> = Vec::new();
    let mut i: usize = 0;
    while i < order.len()
        invariant
            i <= order@.len(),
            picked@.len() == i,
            picks_first(order@, hazard_ids(list@)),
            forall|k: int| 0 <= k < i ==> #[trigger] picked@[k] == list@[order@[k] as int],
        decreases order@.len() - i,
    {
        assert(order@[i as int] < hazard_ids(list@).len());
        picked.push(list[order[i]]);
        i = i + 1;
    }
    picked
}

#[derive(Debug, Clone, Copy, PartialEq, Eq, Hash, PartialOrd, Ord, Structural)]
pub struct AnomalyStateStamp {
    pub instance_id: AnomalyId,
    pub epoch: u32,
    /// Plane of the last gate, in thousandths of a world unit.
    pub gate_plane_milli: i32,
    pub gate_axis: Axis2,
    pub travel_direction: AxisDirection,
}

/// Whether a point lies behind a traveller: `behind` is the plane crossed less the
/// distance kept, `ahead` the same plane plus it.
pub open spec fn wake_holds(
    axis: Axis2,
    direction: AxisDirection,
    x: u32,
    z: u32,
    behind: u32,
    ahead: u32,
) -> bool {
    let coordinate = match axis {
        Axis2::X => x,
        Axis2::Z => z,
    };
    match direction {
        AxisDirection::Positive => less(coordinate, behind),
        AxisDirection::Negative => less(ahead, coordinate),
    }
}

pub fn in_wake(
    axis: Axis2,
    direction: AxisDirection,
    x: FloatBits,
    z: FloatBits,
    behind: FloatBits,
    ahead: FloatBits,
) -> (inside: bool)
    ensures
        inside == wake_holds(axis, direction, x, z, behind, ahead),
{
    let coordinate: u32 = match axis {
        Axis2::X => x,
        Axis2::Z => z,
    };
    match direction {
        AxisDirection::Positive => bits_less(coordinate, behind),
        AxisDirection::Negative => bits_less(ahead, coordinate),
    }
}

impl AnomalyStateStamp {
    pub fn new(
        instance_id: AnomalyId,
        epoch: u32,
        gate_plane_milli: i32,
        gate_axis: Axis2,
        travel_direction: AxisDirection,
    ) -> (stamp: Self)
        ensures
            stamp == (AnomalyStateStamp {
                instance_id,
                epoch,
                gate_plane_milli,
                gate_axis,
                travel_direction,
            }),
    {
        AnomalyStateStamp { instance_id, epoch, gate_plane_milli, gate_axis, travel_direction }
    }

    /// Whether a point lies in the wake of the last crossing. The caller gives
    /// the plane crossed less and plus the distance kept.
    pub fn point_is_in_wake(
        &self,
        x: FloatBits,
        z: FloatBits,
        behind: FloatBits,
        ahead: FloatBits,
    ) -> (inside: bool)
        ensures
            inside == wake_holds(self.gate_axis, self.travel_direction, x, z, behind, ahead),
    {
        in_wake(self.gate_axis, self.travel_direction, x, z, behind, ahead)
    }
}

/// Axis and direction in one word: the axis in the low byte, the direction in
/// the next.
pub open spec fn heading_word(axis: Axis2, direction: AxisDirection) -> u32 {
    axis_code(axis) | (direction_code(direction) << 8u32)
}

proof fn lemma_heading_word(a: u32, d: u32)
    requires
        a <= 1,
        d <= 1,
    ensures
        (a | (d << 8u32)) & 0xffu32 == a,
        ((a | (d << 8u32)) >> 8u32) & 0xffu32 == d,
{
    assert((a | (d << 8u32)) & 0xffu32 == a && ((a | (d << 8u32)) >> 8u32) & 0xffu32 == d)
        by (bit_vector)
        requires
            a <= 1,
            d <= 1,
    ;
}

/// A signed word survives being carried as an unsigned one.
pub proof fn lemma_signed_word(v: i32)
    ensures
        (v as u32) as i32 == v,
{
    assert((v as u32) as i32 == v) by (bit_vector);
}

impl LedgerStamp for AnomalyStateStamp {
    open spec fn key(self) -> u64 {
        self.instance_id
    }

    open spec fn over(self, other: Self) -> bool {
        if self.instance_id != other.instance_id {
            self.instance_id > other.instance_id
        } else if self.epoch != other.epoch {
            self.epoch > other.epoch
        } else if self.gate_plane_milli != other.gate_plane_milli {
            self.gate_plane_milli > other.gate_plane_milli
        } else if self.gate_axis != other.gate_axis {
            axis_code(self.gate_axis) > axis_code(other.gate_axis)
        } else {
            direction_code(self.travel_direction) > direction_code(other.travel_direction)
        }
    }

    open spec fn tag() -> u32 {
        0x5254_5901u32
    }

    open spec fn width() -> nat {
        5
    }

    open spec fn words(self) -> Seq<u32> {
        seq![
            low_word(self.instance_id),
            high_word(self.instance_id),
            self.epoch,
            self.gate_plane_milli as u32,
            heading_word(self.gate_axis, self.travel_direction),
        ]
    }

    open spec fn parsed(words: Seq<u32>) -> Option<Self> {
        match (axis_from(words[4] & 0xffu32), direction_from((words[4] >> 8u32) & 0xffu32)) {
            (Some(gate_axis), Some(travel_direction)) => Some(
                AnomalyStateStamp {
                    instance_id: joined(words[0], words[1]),
                    epoch: words[2],
                    gate_plane_milli: words[3] as i32,
                    gate_axis,
                    travel_direction,
                },
            ),
            _ => None,
        }
    }

    proof fn stamp_laws(a: Self, b: Self, c: Self) {
        law_halves(a.instance_id, 0, 0);
        lemma_heading_word(axis_code(a.gate_axis), direction_code(a.travel_direction));
        lemma_signed_word(a.gate_plane_milli);
    }

    fn id(&self) -> (id: u64) {
        self.instance_id
    }

    fn supersedes(&self, other: &Self) -> (r: bool) {
        if self.instance_id != other.instance_id {
            self.instance_id > other.instance_id
        } else if self.epoch != other.epoch {
            self.epoch > other.epoch
        } else if self.gate_plane_milli != other.gate_plane_milli {
            self.gate_plane_milli > other.gate_plane_milli
        } else if self.gate_axis != other.gate_axis {
            encode_axis(self.gate_axis) > encode_axis(other.gate_axis)
        } else {
            encode_direction(self.travel_direction) > encode_direction(other.travel_direction)
        }
    }

    fn ledger_tag() -> (tag: u32) {
        0x5254_5901u32
    }

    fn word_count() -> (n: usize) {
        5
    }

    fn write(&self, out: &mut Vec<u32>) {
        let ghost before = out@;
        out.push(low_half(self.instance_id));
        out.push(high_half(self.instance_id));
        out.push(self.epoch);
        out.push(self.gate_plane_milli as u32);
        out.push(encode_axis(self.gate_axis) | (encode_direction(self.travel_direction) << 8u32));
        assert(out@ =~= before + self.words());
    }

    fn read(words: &[u32], at: usize) -> (stamp: Option<Self>) {
        let ghost part = words@.subrange(at as int, at + Self::width());
        assert(words.len() == words@.len());
        assert(part[0] == words@[at as int] && part[1] == words@[at + 1] && part[2] == words@[at + 2]
            && part[3] == words@[at + 3] && part[4] == words@[at + 4]);
        let heading: u32 = words[at + 4];
        match (decode_axis(heading & 0xffu32), decode_direction((heading >> 8u32) & 0xffu32)) {
            (Some(gate_axis), Some(travel_direction)) => Some(
                AnomalyStateStamp {
                    instance_id: join_halves(words[at], words[at + 1]),
                    epoch: words[at + 2],
                    gate_plane_milli: words[at + 3] as i32,
                    gate_axis,
                    travel_direction,
                },
            ),
            _ => None,
        }
    }
}

/// The encounter state that a chunk is generated from: at most one stamp per
/// instance, in id order.
#[derive(Debug, Clone, PartialEq, Eq)]
pub struct RealitySnapshot {
    stamps: Vec<AnomalyStateStamp>,
}

impl View for RealitySnapshot {
    type V = Seq<AnomalyStateStamp>;

    closed spec fn view(&self) -> Seq<AnomalyStateStamp> {
        self.stamps@
    }
}

/// The stamp an instance gets from crossing a gate: one epoch on from its last,
/// counting from one and wrapping.
pub open spec fn advanced_stamp(
    stamps: Seq<AnomalyStateStamp>,
    gate: TraversalGate,
    plane_milli: i32,
    direction: AxisDirection,
) -> AnomalyStateStamp {
    AnomalyStateStamp {
        instance_id: gate.instance_id,
        epoch: match stamp_of(stamps, gate.instance_id) {
            Some(s) => s.epoch.wrapping_add(1),
            None => 1,
        },
        gate_plane_milli: plane_milli,
        gate_axis: gate.axis,
        travel_direction: direction,
    }
}

impl RealitySnapshot {
    pub open spec fn wf(&self) -> bool {
        rising(self@)
    }

    pub fn empty() -> (snapshot: Self)
        ensures
            snapshot.wf(),
            snapshot@ == Seq::<AnomalyStateStamp>::empty(),
    {
        RealitySnapshot { stamps: Vec::new() }
    }

    /// Keeps, of the stamps of each instance, the one that supersedes the rest.
    pub fn new(stamps: Vec<AnomalyStateStamp>) -> (snapshot: Self)
        ensures
            snapshot.wf(),
            snapshot@ == ledger(stamps@, stamps@.len()),
    {
        RealitySnapshot { stamps: build_ledger(&stamps) }
    }

    pub fn stamps(&self) -> (stamps: &[AnomalyStateStamp])
        ensures
            stamps@ == self@,
    {
        self.stamps.as_slice()
    }

    pub fn lookup(&self, id: AnomalyId) -> (found: Option<&AnomalyStateStamp>)
        requires
            self.wf(),
        ensures
            match (found, stamp_of(self@, id)) {
                (Some(s), Some(t)) => *s == t,
                (None, None) => true,
                _ => false,
            },
    {
        match find_stamp(&self.stamps, id) {
            Some(i) => Some(&self.stamps[i]),
            None => None,
        }
    }

    /// The snapshot after a gate was crossed, its plane given in thousandths.
    pub fn with_advanced_gate(
        &self,
        gate: &TraversalGate,
        plane_milli: i32,
        direction: AxisDirection,
    ) -> (next: Self)
        requires
            self.wf(),
        ensures
            next.wf(),
            next@ == replaced(self@, advanced_stamp(self@, *gate, plane_milli, direction)),
    {
        let epoch: u32 = match self.lookup(gate.instance_id) {
            Some(s) => s.epoch.wrapping_add(1),
            None => 1,
        };
        let stamp = AnomalyStateStamp::new(
            gate.instance_id,
            epoch,
            plane_milli,
            gate.axis,
            direction,
        );
        RealitySnapshot { stamps: replace_stamp(&self.stamps, stamp) }
    }

    pub fn fingerprint(&self) -> (hash: u64)
        ensures
            hash == words_hash(ledger_body(self@)),
    {
        ledger_fingerprint(&self.stamps)
    }

    pub fn to_words(&self) -> (words: Vec<u32>)
        ensures
            words@ == ledger_words(self@),
    {
        write_ledger(&self.stamps)
    }

    pub fn from_words(words: &[u32]) -> (result: Result<Self, RealitySnapshotDecodeError>)
        ensures
            match (result, received::<AnomalyStateStamp>(words@)) {
                (Ok(snapshot), Ok(expected)) => snapshot@ == expected && snapshot.wf(),
                (Err(a), Err(b)) => a == b,
                _ => false,
            },
    {
        match read_ledger::<AnomalyStateStamp>(words) {
            Ok(stamps) => Ok(RealitySnapshot { stamps }),
            Err(e) => Err(e),
        }
    }
}

/// A snapshot does not depend on the order in which its stamps were given.
pub proof fn law_snapshot_ignores_order(a: Seq<AnomalyStateStamp>, b: Seq<AnomalyStateStamp>)
    requires
        forall|s: AnomalyStateStamp| a.contains(s) <==> b.contains(s),
    ensures
        ledger(a, a.len()) == ledger(b, b.len()),
{
    lemma_ledger_order_free(a, b);
}

/// Transport is lossless: what a snapshot writes is read back as the snapshot.
pub proof fn law_transport_is_lossless(stamps: Seq<AnomalyStateStamp>)
    requires
        rising(stamps),
        stamps.len() <= u32::MAX,
    ensures
        received::<AnomalyStateStamp>(ledger_words(stamps)) == Ok::<
            Seq<AnomalyStateStamp>,
            RealitySnapshotDecodeError,
        >(stamps),
{
    lemma_round_trip(stamps);
}

/// Transport is canonical: words that are accepted are the words that the
/// snapshot they stand for writes.
pub proof fn law_transport_is_canonical(words: Seq<u32>)
    requires
        received::<AnomalyStateStamp>(words) is Ok,
    ensures
        ledger_words(received::<AnomalyStateStamp>(words)->Ok_0) == words,
{
    lemma_canonical::<AnomalyStateStamp>(words);
}

/// A single corrupted word is always detected: of what a snapshot writes, a changed
/// first word is a foreign header, a changed second word a wrong length, and any
/// other changed word a wrong fingerprint.
pub proof fn law_corrupted_word_is_detected(stamps: Seq<AnomalyStateStamp>, at: int, word: u32)
    requires
        stamps.len() <= u32::MAX,
        0 <= at < ledger_words(stamps).len(),
        word != ledger_words(stamps)[at],
    ensures
        received::<AnomalyStateStamp>(ledger_words(stamps).update(at, word)) == Err::<
            Seq<AnomalyStateStamp>,
            RealitySnapshotDecodeError,
        >(wrong_word_error(at)),
{
    law_one_wrong_word_shows(stamps, at, word);
}

/// Crossing a gate stamps its instance and leaves every other instance's
/// stamp as it was.
pub proof fn law_crossing_is_local(stamps: Seq<AnomalyStateStamp>, s: AnomalyStateStamp)
    requires
        rising(stamps),
    ensures
        replaced(stamps, s).contains(s),
        forall|t: AnomalyStateStamp|
            t.instance_id != s.instance_id ==> (#[trigger] replaced(stamps, s).contains(t)
                <==> stamps.contains(t)),
        forall|t: AnomalyStateStamp|
            #[trigger] replaced(stamps, s).contains(t) && t.instance_id == s.instance_id ==> t == s,
{
    lemma_replaced(stamps, s);
    assert forall|t: AnomalyStateStamp| t.instance_id != s.instance_id implies (
    #[trigger] replaced(stamps, s).contains(t) <==> stamps.contains(t)) by {
        assert(t.key() != s.key());
    }
}

/// After a crossing its instance has a stamp that names the plane, the axis and
/// the direction of the crossing. A first crossing is epoch one; every crossing
/// after it raises the instance's epoch by one, starting over from zero after the
/// last, and every other instance keeps its stamp.
pub proof fn law_crossings_are_counted(
    stamps: Seq<AnomalyStateStamp>,
    gate: TraversalGate,
    plane_milli: i32,
    direction: AxisDirection,
    id: AnomalyId,
)
    requires
        rising(stamps),
    ensures
        ({
            let before = stamp_of(stamps, id);
            let after = stamp_of(
                replaced(stamps, advanced_stamp(stamps, gate, plane_milli, direction)),
                id,
            );
            if id != gate.instance_id {
                after == before
            } else {
                &&& after matches Some(a) && a.gate_plane_milli == plane_milli && a.gate_axis
                    == gate.axis && a.travel_direction == direction
                &&& before is None ==> after->0.epoch == 1
                &&& before matches Some(b) ==> after->0.epoch == (if b.epoch == u32::MAX {
                    0
                } else {
                    b.epoch + 1
                })
            }
        }),
{
    let s = advanced_stamp(stamps, gate, plane_milli, direction);
    lemma_replaced(stamps, s);
    let after = replaced(stamps, s);
    lemma_stamp_of(after, id);
    lemma_stamp_of(stamps, id);
    if id == gate.instance_id {
        let k = after.index_of(s);
        assert(after[k].key() == id);
    } else if let Some(t) = stamp_of(stamps, id) {
        assert(t.key() != s.key());
        assert(after.contains(t));
        let k = after.index_of(t);
        assert(after[k].key() == id);
    } else if let Some(t) = stamp_of(after, id) {
        assert(t.key() != s.key());
        assert(stamps.contains(t));
        let k = stamps.index_of(t);
        assert(stamps[k].key() == id);
    }
}

/// The candidate has room for a pit: its center lies in the footprint, no nearer to
/// its edge than a pit's side, in the bounds asked about, and off the center lane.
pub open spec fn has_room(
    instance: AnomalyInstance,
    lattice: PitLattice,
    c: PitCandidate,
    near: WorldBounds,
    lane: u32,
) -> bool {
    &&& at_most(absolute(c.local.x), instance.footprint.half_x) && at_most(
        absolute(c.local.z),
        instance.footprint.half_z,
    )
    &&& !less(c.boundary_distance, lattice.side)
    &&& at_most(near.min_x, c.center.x) && at_most(c.center.x, near.max_x)
    &&& at_most(near.min_z, c.center.z) && at_most(c.center.z, near.max_z)
    &&& !less(absolute(c.lane_offset), lane)
}

proof fn lemma_pits(
    instance: AnomalyInstance,
    lattice: PitLattice,
    candidates: Seq<PitCandidate>,
    near: WorldBounds,
    lane: u32,
    half_side: u32,
    n: nat,
)
    requires
        n <= candidates.len(),
    ensures
        ({
            let pits = instance.pits(lattice, candidates, near, lane, half_side, n);
            &&& forall|k: int|
                0 <= k < pits.len() ==> exists|i: int|
                    0 <= i < n && has_room(instance, lattice, #[trigger] candidates[i], near, lane)
                        && (#[trigger] pits[k]) == instance.pit_of(lattice, candidates[i], half_side)
            &&& forall|i: int|
                0 <= i < n && has_room(instance, lattice, #[trigger] candidates[i], near, lane)
                    ==> exists|k: int|
                    0 <= k < pits.len() && (#[trigger] pits[k]).id == pit_id(
                        instance.id,
                        candidates[i].ix,
                        candidates[i].iz,
                    )
        }),
    decreases n,
{
    if n > 0 {
        lemma_pits(instance, lattice, candidates, near, lane, half_side, (n - 1) as nat);
        let before = instance.pits(lattice, candidates, near, lane, half_side, (n - 1) as nat);
        let pits = instance.pits(lattice, candidates, near, lane, half_side, n);
        assert forall|k: int| 0 <= k < pits.len() implies exists|i: int|
            0 <= i < n && has_room(instance, lattice, #[trigger] candidates[i], near, lane)
                && (#[trigger] pits[k]) == instance.pit_of(lattice, candidates[i], half_side) by {
            if k < before.len() {
                let i = choose|i: int|
                    0 <= i < n - 1 && has_room(
                        instance,
                        lattice,
                        #[trigger] candidates[i],
                        near,
                        lane,
                    ) && before[k] == instance.pit_of(lattice, candidates[i], half_side);
                assert(pits[k] == before[k]);
                assert(has_room(instance, lattice, candidates[i], near, lane));
            } else {
                assert(has_room(instance, lattice, candidates[n - 1], near, lane));
            }
        }
        assert forall|i: int|
            0 <= i < n && has_room(
                instance,
                lattice,
                #[trigger] candidates[i],
                near,
                lane,
            ) implies exists|k: int|
            0 <= k < pits.len() && (#[trigger] pits[k]).id == pit_id(
                instance.id,
                candidates[i].ix,
                candidates[i].iz,
            ) by {
            if i < n - 1 {
                let k = choose|k: int|
                    0 <= k < before.len() && (#[trigger] before[k]).id == pit_id(
                        instance.id,
                        candidates[i].ix,
                        candidates[i].iz,
                    );
                assert(pits[k] == before[k]);
            } else {
                assert(pits[pits.len() - 1].id == pit_id(
                    instance.id,
                    candidates[i].ix,
                    candidates[i].iz,
                ));
            }
        }
    }
}

/// The center lane stays solid: every pit lies on a candidate that has room for one,
/// and leads back where that candidate says.
pub proof fn law_pits_stand_where_there_is_room(
    picked: Seq<PitHazard>,
    instance: AnomalyInstance,
    lattice: PitLattice,
    candidates: Seq<PitCandidate>,
    near: WorldBounds,
    lane: u32,
    half_side: u32,
    k: int,
)
    requires
        one_per_id(
            picked,
            instance.pits(lattice, candidates, near, lane, half_side, candidates.len()),
        ),
        0 <= k < picked.len(),
    ensures
        picked[k].instance_id == instance.id,
        picked[k].half_side == half_side,
        picked[k].depth == lattice.depth,
        exists|j: int|
            0 <= j < candidates.len() && has_room(
                instance,
                lattice,
                #[trigger] candidates[j],
                near,
                lane,
            ) && picked[k].center == candidates[j].center && picked[k].recovery
                == candidates[j].recovery,
{
    let list = instance.pits(lattice, candidates, near, lane, half_side, candidates.len());
    lemma_pits(instance, lattice, candidates, near, lane, half_side, candidates.len());
    let at = lemma_picked_from(picked, list, k);
    let j = choose|j: int|
        0 <= j < candidates.len() && has_room(
            instance,
            lattice,
            #[trigger] candidates[j],
            near,
            lane,
        ) && list[at] == instance.pit_of(lattice, candidates[j], half_side);
    assert(picked[k].center == candidates[j].center);
}

proof fn lemma_picked_from(picked: Seq<PitHazard>, list: Seq<PitHazard>, k: int) -> (at: int)
    requires
        one_per_id(picked, list),
        0 <= k < picked.len(),
    ensures
        0 <= at < list.len(),
        picked[k] == list[at],
{
    let ids = hazard_ids(list);
    let order = choose|order: Seq<usize>|
        #[trigger] picks_first(order, ids) && picked.len() == order.len() && forall|j: int|
            0 <= j < order.len() ==> #[trigger] picked[j] == list[order[j] as int];
    assert(order[k] < ids.len());
    order[k] as int
}

/// Every candidate with room has a pit under its id, and no id is listed twice.
pub proof fn law_every_pit_is_listed_once(
    picked: Seq<PitHazard>,
    instance: AnomalyInstance,
    lattice: PitLattice,
    candidates: Seq<PitCandidate>,
    near: WorldBounds,
    lane: u32,
    half_side: u32,
    i: int,
)
    requires
        one_per_id(
            picked,
            instance.pits(lattice, candidates, near, lane, half_side, candidates.len()),
        ),
        0 <= i < candidates.len(),
        has_room(instance, lattice, candidates[i], near, lane),
    ensures
        exists|j: int|
            0 <= j < picked.len() && (#[trigger] picked[j]).id == pit_id(
                instance.id,
                candidates[i].ix,
                candidates[i].iz,
            ),
        forall|k: int, l: int|
            #![trigger picked[k], picked[l]]
            0 <= k < l < picked.len() ==> picked[k].id < picked[l].id,
{
    let list = instance.pits(lattice, candidates, near, lane, half_side, candidates.len());
    lemma_pits(instance, lattice, candidates, near, lane, half_side, candidates.len());
    let p = choose|p: int|
        0 <= p < list.len() && (#[trigger] list[p]).id == pit_id(
            instance.id,
            candidates[i].ix,
            candidates[i].iz,
        );
    lemma_picked_ids(picked, list, p);
}

proof fn lemma_picked_ids(picked: Seq<PitHazard>, list: Seq<PitHazard>, p: int)
    requires
        one_per_id(picked, list),
        0 <= p < list.len(),
    ensures
        exists|j: int| 0 <= j < picked.len() && (#[trigger] picked[j]).id == list[p].id,
        forall|k: int, l: int|
            #![trigger picked[k], picked[l]]
            0 <= k < l < picked.len() ==> picked[k].id < picked[l].id,
{
    let ids = hazard_ids(list);
    let order = choose|order: Seq<usize>|
        #[trigger] picks_first(order, ids) && picked.len() == order.len() && forall|j: int|
            0 <= j < order.len() ==> #[trigger] picked[j] == list[order[j] as int];
    assert(ids[p] == list[p].id);
    let j = choose|j: int| 0 <= j < order.len() && ids[(#[trigger] order[j]) as int] == ids[p];
    assert(order[j] < ids.len());
    assert(picked[j] == list[order[j] as int]);
    assert forall|k: int, l: int|
        #![trigger picked[k], picked[l]]
        0 <= k < l < picked.len() implies picked[k].id < picked[l].id by {
        assert(order[k] < ids.len() && order[l] < ids.len());
        assert(ids[order[k] as int] < ids[order[l] as int]);
        assert(picked[k] == list[order[k] as int]);
        assert(picked[l] == list[order[l] as int]);
    }
}

/// A wake lies behind the traveller, on the axis that was crossed: nothing between the
/// two ends of the kept distance is in it, what is farther back than a point of it is
/// in it too, and the wakes of the two directions never meet.
pub proof fn law_wakes_lie_behind(
    axis: Axis2,
    x: u32,
    z: u32,
    farther: Position,
    behind: u32,
    ahead: u32,
)
    requires
        at_most(behind, ahead),
    ensures
        ({
            let (here, beyond) = match axis {
                Axis2::X => (x, farther.x),
                Axis2::Z => (z, farther.z),
            };
            let forth = wake_holds(axis, AxisDirection::Positive, x, z, behind, ahead);
            let back = wake_holds(axis, AxisDirection::Negative, x, z, behind, ahead);
            &&& !(forth && back)
            &&& at_most(behind, here) && at_most(here, ahead) ==> !forth && !back
            &&& less(here, behind) ==> forth
            &&& less(ahead, here) ==> back
            &&& forth && less(beyond, here) ==> wake_holds(
                axis,
                AxisDirection::Positive,
                farther.x,
                farther.z,
                behind,
                ahead,
            )
            &&& back && less(here, beyond) ==> wake_holds(
                axis,
                AxisDirection::Negative,
                farther.x,
                farther.z,
                behind,
                ahead,
            )
        }),
{
}

/// A movement of some length that starts short of a plane, ends strictly beyond it and
/// meets it inside its span crosses it, in the direction of the movement. The ends of
/// the span belong to it, and nothing else is a crossing.
pub proof fn law_crossing_takes_start_end_and_span(
    plane: u32,
    span_min: u32,
    span_max: u32,
    s: SegmentMeasures,
)
    requires
        !is_nan_bits(plane) && !is_nan_bits(span_min) && !is_nan_bits(span_max),
        !is_nan_bits(s.delta) && !is_nan_bits(s.end) && !is_nan_bits(s.across),
    ensures
        ({
            let crossed = crossing_of(plane, span_min, span_max, s);
            let inside = at_most(span_min, s.across) && at_most(s.across, span_max);
            let started_short = less(0, s.t) && at_most(s.t, 0x3F80_0000);
            let moved = at_most(0x3586_37BD, absolute(s.delta));
            &&& crossed == Some(AxisDirection::Positive) <==> moved && started_short && inside
                && less(0, s.delta) && less(plane, s.end)
            &&& crossed == Some(AxisDirection::Negative) <==> moved && started_short && inside
                && less(s.delta, 0) && less(s.end, plane)
        }),
{
}

/// A snapshot keeps the latest: of the stamps that it is made of, every instance has
/// one, and none of its other stamps has a later epoch. Nothing else is in it.
pub proof fn law_snapshot_keeps_the_latest(stamps: Seq<AnomalyStateStamp>, i: int, k: int)
    ensures
        ({
            let kept = ledger(stamps, stamps.len());
            &&& 0 <= i < stamps.len() ==> (stamp_of(kept, stamps[i].instance_id) matches Some(s)
                && s.epoch >= stamps[i].epoch)
            &&& 0 <= k < kept.len() ==> stamps.contains(kept[k])
        }),
{
    let kept = ledger(stamps, stamps.len());
    lemma_ledger_summarizes(stamps, stamps.len());
    assert(stamps.take(stamps.len() as int) =~= stamps);
    if 0 <= i < stamps.len() {
        let s = stamps[i];
        assert(covered(kept, s));
        reveal(covered);
        let j = choose|j: int|
            0 <= j < kept.len() && (#[trigger] kept[j]).key() == s.key() && !s.over(kept[j]);
        lemma_stamp_of(kept, s.instance_id);
        assert(stamp_of(kept, s.instance_id) == Some(kept[j]));
    }
}

/// A footprint lies evenly about its center: a point is in it exactly if the points
/// mirrored along either local axis are. Its sides belong to it, and seen along the world
/// axes its extents are those of a point that was turned into local coordinates: turning
/// keeps a point of the world box in the footprint.
pub proof fn law_footprints_lie_about_their_center(
    f: OrientedFootprint,
    lx: u32,
    lz: u32,
    dx: u32,
    dz: u32,
)
    requires
        !is_nan_bits(f.half_x) && !is_nan_bits(f.half_z) && f.half_x < 0x8000_0000 && f.half_z
            < 0x8000_0000,
    ensures
        f.holds_local(0, 0),
        f.holds_local(f.half_x, f.half_z),
        f.holds_local(negated(lx), lz) == f.holds_local(lx, lz),
        f.holds_local(lx, negated(lz)) == f.holds_local(lx, lz),
        less(f.half_x, absolute(lx)) || less(f.half_z, absolute(lz)) ==> !f.holds_local(lx, lz),
        ({
            let local = f.basis.local_of(dx, dz);
            let (wide, deep) = f.world_halves();
            f.holds_local(local.0, local.1) <==> at_most(absolute(dx), wide) && at_most(
                absolute(dz),
                deep,
            )
        }),
{
    law_negation(lx);
    law_negation(lz);
    law_negation(dx);
}

/// A pit lies evenly about its center, and its rim is no part of it.
pub proof fn law_pits_leave_their_rim(h: PitHazard, dx: u32, dz: u32)
    ensures
        h.lies_under(negated(dx), dz) == h.lies_under(dx, dz),
        h.lies_under(dx, negated(dz)) == h.lies_under(dx, dz),
        h.lies_under(dx, dz) == h.lies_under(dz, dx),
        same_number(absolute(dx), h.half_side) ==> !h.lies_under(dx, dz),
        less(0, h.half_side) ==> h.lies_under(0, 0),
{
    law_negation(dx);
    law_negation(dz);
}

} // verus!
