//! Immutable encounter state and its deterministic transition reducer.
//!
//! A snapshot is request identity: workers receive it by value and generate a
//! complete chunk from that exact reality. Gate interpretation is concentrated
//! here so geometry sampling never mutates ambient state.

use vstd::prelude::*;

use crate::domain::entities::anomaly::traversal::{TraversalGate, TraversalGateKind};
use crate::domain::entities::anomaly::{
    axis_code, axis_from, decode_axis, decode_direction, direction_code, direction_from,
    encode_axis, encode_direction, in_wake, lemma_signed_word, wake_holds, AnomalyId, Axis2,
    AxisDirection,
};
use crate::domain::entities::stamp_ledger::{
    build_ledger, covered, find_stamp, ledger, lemma_ledger_order_free, lemma_ledger_summarizes,
    lemma_replaced, lemma_stamp_of, replace_stamp, replaced, rising, stamp_of, LedgerStamp,
};
use crate::domain::entities::stamp_transport::{
    law_one_wrong_word_shows, ledger_body, ledger_fingerprint, ledger_words, lemma_canonical,
    lemma_round_trip, read_ledger, received, write_ledger, wrong_word_error,
};
use crate::domain::float_bits::FloatBits;
use crate::domain::hashing::{
    high_half, high_word, join_halves, joined, law_halves, low_half, low_word, words_hash,
};

pub use crate::domain::entities::stamp_ledger::RealitySnapshotDecodeError;

verus! {

/// Loop crossings that open the escape.
pub const LOOPS_TO_ESCAPE: u8 = 3;

#[derive(Debug, Clone, Copy, PartialEq, Eq, Hash, PartialOrd, Ord, Structural)]
pub enum RedRoomPhase {
    Outside,
    Sealed,
    EscapeOpen,
}

impl Default for RedRoomPhase {
    fn default() -> (phase: Self)
        ensures
            phase == RedRoomPhase::Outside,
    {
        RedRoomPhase::Outside
    }
}

pub open spec fn phase_code(phase: RedRoomPhase) -> u32 {
    match phase {
        RedRoomPhase::Outside => 0,
        RedRoomPhase::Sealed => 1,
        RedRoomPhase::EscapeOpen => 2,
    }
}

pub open spec fn phase_from(code: u32) -> Option<RedRoomPhase> {
    if code == 0 {
        Some(RedRoomPhase::Outside)
    } else if code == 1 {
        Some(RedRoomPhase::Sealed)
    } else if code == 2 {
        Some(RedRoomPhase::EscapeOpen)
    } else {
        None
    }
}

fn encode_phase(phase: RedRoomPhase) -> (code: u32)
    ensures
        code == phase_code(phase),
{
    match phase {
        RedRoomPhase::Outside => 0,
        RedRoomPhase::Sealed => 1,
        RedRoomPhase::EscapeOpen => 2,
    }
}

pub fn decode_phase(value: u32) -> (phase: Option<RedRoomPhase>)
    ensures
        phase == phase_from(value),
{
    match value {
        0 => Some(RedRoomPhase::Outside),
        1 => Some(RedRoomPhase::Sealed),
        2 => Some(RedRoomPhase::EscapeOpen),
        _ => None,
    }
}

#[derive(Debug, Clone, Copy, PartialEq, Eq, Hash, PartialOrd, Ord, Structural)]
pub struct AnomalyStateStamp {
    pub instance_id: AnomalyId,
    pub epoch: u32,
    /// Plane of the last gate, in thousandths of a world unit.
    pub gate_plane_milli: i32,
    pub gate_axis: Axis2,
    pub travel_direction: AxisDirection,
    pub phase: RedRoomPhase,
    pub loop_count: u8,
    pub last_gate_id: u64,
}

impl AnomalyStateStamp {
    #[allow(clippy::too_many_arguments)]
    pub fn new(
        instance_id: AnomalyId,
        epoch: u32,
        gate_plane_milli: i32,
        gate_axis: Axis2,
        travel_direction: AxisDirection,
        phase: RedRoomPhase,
        loop_count: u8,
        last_gate_id: u64,
    ) -> (stamp: Self)
        ensures
            stamp == (AnomalyStateStamp {
                instance_id,
                epoch,
                gate_plane_milli,
                gate_axis,
                travel_direction,
                phase,
                loop_count,
                last_gate_id,
            }),
    {
        AnomalyStateStamp {
            instance_id,
            epoch,
            gate_plane_milli,
            gate_axis,
            travel_direction,
            phase,
            loop_count,
            last_gate_id,
        }
    }

    /// Whether a point lies in the wake of the last crossing. The caller gives
    /// the plane crossed less and plus the distance kept.
    pub fn point_is_in_wake(
        &self,
        x: FloatBits,
        z: FloatBits,
        behind: FloatBits,
        ahead: FloatBits,
    ) -> (inside: bool)
        ensures
            inside == wake_holds(self.gate_axis, self.travel_direction, x, z, behind, ahead),
    {
        in_wake(self.gate_axis, self.travel_direction, x, z, behind, ahead)
    }
}

/// Axis, direction, phase and loop count, a byte each from the lowest up.
pub open spec fn state_word(
    axis: Axis2,
    direction: AxisDirection,
    phase: RedRoomPhase,
    loop_count: u8,
) -> u32 {
    axis_code(axis) | (direction_code(direction) << 8u32) | (phase_code(phase) << 16u32) | ((
    loop_count as u32) << 24u32)
}

proof fn lemma_state_word(a: u32, d: u32, p: u32, n: u8)
    requires
        a <= 1,
        d <= 1,
        p <= 2,
    ensures
        ({
            let w = a | (d << 8u32) | (p << 16u32) | ((n as u32) << 24u32);
            &&& w & 0xffu32 == a
            &&& (w >> 8u32) & 0xffu32 == d
            &&& (w >> 16u32) & 0xffu32 == p
            &&& ((w >> 24u32) & 0xffu32) as u8 == n
        }),
{
    let w = a | (d << 8u32) | (p << 16u32) | ((n as u32) << 24u32);
    assert(w & 0xffu32 == a && (w >> 8u32) & 0xffu32 == d && (w >> 16u32) & 0xffu32 == p && ((w
        >> 24u32) & 0xffu32) as u8 == n) by (bit_vector)
        requires
            a <= 1,
            d <= 1,
            p <= 2,
            w == a | (d << 8u32) | (p << 16u32) | ((n as u32) << 24u32),
    ;
}

impl LedgerStamp for AnomalyStateStamp {
    open spec fn key(self) -> u64 {
        self.instance_id
    }

    open spec fn over(self, other: Self) -> bool {
        if self.instance_id != other.instance_id {
            self.instance_id > other.instance_id
        } else if self.epoch != other.epoch {
            self.epoch > other.epoch
        } else if self.gate_plane_milli != other.gate_plane_milli {
            self.gate_plane_milli > other.gate_plane_milli
        } else if self.gate_axis != other.gate_axis {
            axis_code(self.gate_axis) > axis_code(other.gate_axis)
        } else if self.travel_direction != other.travel_direction {
            direction_code(self.travel_direction) > direction_code(other.travel_direction)
        } else if self.phase != other.phase {
            phase_code(self.phase) > phase_code(other.phase)
        } else if self.loop_count != other.loop_count {
            self.loop_count > other.loop_count
        } else {
            self.last_gate_id > other.last_gate_id
        }
    }

    open spec fn tag() -> u32 {
        0x5254_5902u32
    }

    open spec fn width() -> nat {
        7
    }

    open spec fn words(self) -> Seq<u32> {
        seq![
            low_word(self.instance_id),
            high_word(self.instance_id),
            self.epoch,
            self.gate_plane_milli as u32,
            state_word(self.gate_axis, self.travel_direction, self.phase, self.loop_count),
            low_word(self.last_gate_id),
            high_word(self.last_gate_id),
        ]
    }

    open spec fn parsed(words: Seq<u32>) -> Option<Self> {
        match (
            axis_from(words[4] & 0xffu32),
            direction_from((words[4] >> 8u32) & 0xffu32),
            phase_from((words[4] >> 16u32) & 0xffu32),
        ) {
            (Some(gate_axis), Some(travel_direction), Some(phase)) => Some(
                AnomalyStateStamp {
                    instance_id: joined(words[0], words[1]),
                    epoch: words[2],
                    gate_plane_milli: words[3] as i32,
                    gate_axis,
                    travel_direction,
                    phase,
                    loop_count: ((words[4] >> 24u32) & 0xffu32) as u8,
                    last_gate_id: joined(words[5], words[6]),
                },
            ),
            _ => None,
        }
    }

    proof fn stamp_laws(a: Self, b: Self, c: Self) {
        law_halves(a.instance_id, 0, 0);
        law_halves(a.last_gate_id, 0, 0);
        lemma_state_word(
            axis_code(a.gate_axis),
            direction_code(a.travel_direction),
            phase_code(a.phase),
            a.loop_count,
        );
        lemma_signed_word(a.gate_plane_milli);
    }

    fn id(&self) -> (id: u64) {
        self.instance_id
    }

    fn supersedes(&self, other: &Self) -> (r: bool) {
        if self.instance_id != other.instance_id {
            self.instance_id > other.instance_id
        } else if self.epoch != other.epoch {
            self.epoch > other.epoch
        } else if self.gate_plane_milli != other.gate_plane_milli {
            self.gate_plane_milli > other.gate_plane_milli
        } else if self.gate_axis != other.gate_axis {
            encode_axis(self.gate_axis) > encode_axis(other.gate_axis)
        } else if self.travel_direction != other.travel_direction {
            encode_direction(self.travel_direction) > encode_direction(other.travel_direction)
        } else if self.phase != other.phase {
            encode_phase(self.phase) > encode_phase(other.phase)
        } else if self.loop_count != other.loop_count {
            self.loop_count > other.loop_count
        } else {
            self.last_gate_id > other.last_gate_id
        }
    }

    fn ledger_tag() -> (tag: u32) {
        0x5254_5902u32
    }

    fn word_count() -> (n: usize) {
        7
    }

    fn write(&self, out: &mut Vec<u32>) {
        let ghost before = out@;
        out.push(low_half(self.instance_id));
        out.push(high_half(self.instance_id));
        out.push(self.epoch);
        out.push(self.gate_plane_milli as u32);
        out.push(
            encode_axis(self.gate_axis) | (encode_direction(self.travel_direction) << 8u32) | (
            encode_phase(self.phase) << 16u32) | ((self.loop_count as u32) << 24u32),
        );
        out.push(low_half(self.last_gate_id));
        out.push(high_half(self.last_gate_id));
        assert(out@ =~= before + self.words());
    }

    fn read(words: &[u32], at: usize) -> (stamp: Option<Self>) {
        let ghost part = words@.subrange(at as int, at + Self::width());
        assert(words.len() == words@.len());
        assert(part[0] == words@[at as int] && part[1] == words@[at + 1] && part[2] == words@[at + 2]
            && part[3] == words@[at + 3] && part[4] == words@[at + 4] && part[5] == words@[at + 5]
            && part[6] == words@[at + 6]);
        let state: u32 = words[at + 4];
        match (
            decode_axis(state & 0xffu32),
            decode_direction((state >> 8u32) & 0xffu32),
            decode_phase((state >> 16u32) & 0xffu32),
        ) {
            (Some(gate_axis), Some(travel_direction), Some(phase)) => Some(
                AnomalyStateStamp {
                    instance_id: join_halves(words[at], words[at + 1]),
                    epoch: words[at + 2],
                    gate_plane_milli: words[at + 3] as i32,
                    gate_axis,
                    travel_direction,
                    phase,
                    loop_count: ((state >> 24u32) & 0xffu32) as u8,
                    last_gate_id: join_halves(words[at + 5], words[at + 6]),
                },
            ),
            _ => None,
        }
    }
}

/// The mutable values of one stamp while a single gate event is reduced.
/// Location/direction metadata comes from the event and is written afterwards.
#[derive(Debug, Clone, Copy, PartialEq, Eq, Structural)]
pub struct TransitionState {
    pub epoch: u32,
    pub phase: RedRoomPhase,
    pub loop_count: u8,
}

/// The state before an event: that of the instance's stamp, or a first encounter.
pub open spec fn state_before(existing: Option<AnomalyStateStamp>, first_epoch: u32) -> TransitionState {
    match existing {
        None => TransitionState {
            epoch: first_epoch,
            phase: RedRoomPhase::Outside,
            loop_count: 0,
        },
        Some(s) => TransitionState { epoch: s.epoch, phase: s.phase, loop_count: s.loop_count },
    }
}

/// What a gate does to the state of its instance.
pub open spec fn transition(
    state: TransitionState,
    kind: TraversalGateKind,
    forward: AxisDirection,
    direction: AxisDirection,
    next_epoch: u32,
) -> TransitionState {
    match kind {
        TraversalGateKind::Remap => TransitionState {
            epoch: next_epoch,
            phase: state.phase,
            loop_count: state.loop_count,
        },
        TraversalGateKind::RedThreshold => if direction == forward {
            TransitionState {
                epoch: next_epoch,
                phase: RedRoomPhase::Sealed,
                loop_count: state.loop_count,
            }
        } else {
            state
        },
        TraversalGateKind::RedLoop => if state.phase == RedRoomPhase::Sealed {
            let count = if state.loop_count == u8::MAX {
                u8::MAX
            } else {
                (state.loop_count + 1) as u8
            };
            TransitionState {
                epoch: next_epoch,
                phase: if count >= LOOPS_TO_ESCAPE {
                    RedRoomPhase::EscapeOpen
                } else {
                    RedRoomPhase::Sealed
                },
                loop_count: count,
            }
        } else {
            state
        },
        TraversalGateKind::RedEscape => state,
    }
}

impl TransitionState {
    fn before(existing: Option<&AnomalyStateStamp>, first_epoch: u32) -> (state: Self)
        ensures
            state == state_before(
                match existing {
                    Some(s) => Some(*s),
                    None => None,
                },
                first_epoch,
            ),
    {
        match existing {
            None => TransitionState {
                epoch: first_epoch,
                phase: RedRoomPhase::Outside,
                loop_count: 0,
            },
            Some(s) => TransitionState { epoch: s.epoch, phase: s.phase, loop_count: s.loop_count },
        }
    }
}

/// Remap gates always commit a new geometry epoch while retaining any
/// red-room phase information already associated with the instance.
pub fn advance_remap(state: TransitionState, next_epoch: u32) -> (next: TransitionState)
    ensures
        forall|f: AxisDirection, d: AxisDirection|
            next == #[trigger] transition(state, TraversalGateKind::Remap, f, d, next_epoch),
{
    TransitionState { epoch: next_epoch, phase: state.phase, loop_count: state.loop_count }
}

/// The inner red threshold seals only in its authored forward direction.
pub fn advance_red_threshold(
    state: TransitionState,
    next_epoch: u32,
    direction: AxisDirection,
    forward: AxisDirection,
) -> (next: TransitionState)
    ensures
        next == transition(state, TraversalGateKind::RedThreshold, forward, direction, next_epoch),
{
    if direction == forward {
        TransitionState {
            epoch: next_epoch,
            phase: RedRoomPhase::Sealed,
            loop_count: state.loop_count,
        }
    } else {
        state
    }
}

/// A loop crossing matters only after commitment. Three accepted crossings
/// expose the escape while each accepted crossing advances the geometry epoch.
pub fn advance_red_loop(state: TransitionState, next_epoch: u32) -> (next: TransitionState)
    ensures
        forall|f: AxisDirection, d: AxisDirection|
            next == #[trigger] transition(state, TraversalGateKind::RedLoop, f, d, next_epoch),
{
    if state.phase == RedRoomPhase::Sealed {
        let loop_count: u8 = state.loop_count.saturating_add(1);
        let phase = if loop_count >= LOOPS_TO_ESCAPE {
            RedRoomPhase::EscapeOpen
        } else {
            RedRoomPhase::Sealed
        };
        TransitionState { epoch: next_epoch, phase, loop_count }
    } else {
        state
    }
}

/// RedEscape is observational: crossing it records event metadata without
/// changing phase or epoch.
pub fn advance_red_escape(state: TransitionState) -> (next: TransitionState)
    ensures
        next == state,
{
    state
}

fn transition_for(
    gate: &TraversalGate,
    direction: AxisDirection,
    existing: Option<&AnomalyStateStamp>,
    next_epoch: u32,
) -> (next: TransitionState)
    ensures
        next == transition(
            state_before(
                match existing {
                    Some(s) => Some(*s),
                    None => None,
                },
                next_epoch,
            ),
            gate.kind,
            gate.forward,
            direction,
            next_epoch,
        ),
{
    let state = TransitionState::before(existing, next_epoch);
    match gate.kind {
        TraversalGateKind::Remap => advance_remap(state, next_epoch),
        TraversalGateKind::RedThreshold => advance_red_threshold(
            state,
            next_epoch,
            direction,
            gate.forward,
        ),
        TraversalGateKind::RedLoop => advance_red_loop(state, next_epoch),
        TraversalGateKind::RedEscape => advance_red_escape(state),
    }
}

/// The highest epoch of the first `n` stamps, zero where there are none.
pub open spec fn highest_epoch(stamps: Seq<AnomalyStateStamp>, n: nat) -> u32
    decreases n,
{
    if n == 0 {
        0
    } else {
        let before = highest_epoch(stamps, (n - 1) as nat);
        if stamps[n - 1].epoch > before {
            stamps[n - 1].epoch
        } else {
            before
        }
    }
}

/// The snapshot-wide encounter revision after the latest one.
pub open spec fn next_revision(stamps: Seq<AnomalyStateStamp>) -> u32 {
    let top = highest_epoch(stamps, stamps.len());
    if top == u32::MAX {
        u32::MAX
    } else {
        (top + 1) as u32
    }
}

/// The event repeats the last one that the instance recorded.
pub open spec fn is_repeat(
    stamps: Seq<AnomalyStateStamp>,
    gate: TraversalGate,
    direction: AxisDirection,
) -> bool {
    stamp_of(stamps, gate.instance_id) matches Some(s) && s.last_gate_id == gate.id
        && s.travel_direction == direction
}

/// The stamp that a crossing leaves on its instance.
pub open spec fn crossing_stamp(
    stamps: Seq<AnomalyStateStamp>,
    gate: TraversalGate,
    plane_milli: i32,
    direction: AxisDirection,
) -> AnomalyStateStamp {
    let epoch = next_revision(stamps);
    let next = transition(
        state_before(stamp_of(stamps, gate.instance_id), epoch),
        gate.kind,
        gate.forward,
        direction,
        epoch,
    );
    AnomalyStateStamp {
        instance_id: gate.instance_id,
        epoch: next.epoch,
        gate_plane_milli: plane_milli,
        gate_axis: gate.axis,
        travel_direction: direction,
        phase: next.phase,
        loop_count: next.loop_count,
        last_gate_id: gate.id,
    }
}

/// The snapshot after a crossing; a repeated event changes nothing.
pub open spec fn advanced(
    stamps: Seq<AnomalyStateStamp>,
    gate: TraversalGate,
    plane_milli: i32,
    direction: AxisDirection,
) -> Seq<AnomalyStateStamp> {
    if is_repeat(stamps, gate, direction) {
        stamps
    } else {
        replaced(stamps, crossing_stamp(stamps, gate, plane_milli, direction))
    }
}

/// The encounter state that a chunk is generated from: at most one stamp per
/// instance, in id order.
#[derive(Debug, Clone, PartialEq, Eq)]
pub struct RealitySnapshot {
    stamps: Vec<AnomalyStateStamp>,
}

impl View for RealitySnapshot {
    type V = Seq<AnomalyStateStamp>;

    closed spec fn view(&self) -> Seq<AnomalyStateStamp> {
        self.stamps@
    }
}

impl RealitySnapshot {
    pub open spec fn wf(&self) -> bool {
        rising(self@)
    }

    pub fn empty() -> (snapshot: Self)
        ensures
            snapshot.wf(),
            snapshot@ == Seq::<AnomalyStateStamp>::empty(),
    {
        RealitySnapshot { stamps: Vec::new() }
    }

    /// Keeps, of the stamps of each instance, the one that supersedes the rest.
    pub fn new(stamps: Vec<AnomalyStateStamp>) -> (snapshot: Self)
        ensures
            snapshot.wf(),
            snapshot@ == ledger(stamps@, stamps@.len()),
    {
        RealitySnapshot { stamps: build_ledger(&stamps) }
    }

    pub fn stamps(&self) -> (stamps: &[AnomalyStateStamp])
        ensures
            stamps@ == self@,
    {
        self.stamps.as_slice()
    }

    pub fn lookup(&self, id: AnomalyId) -> (found: Option<&AnomalyStateStamp>)
        requires
            self.wf(),
        ensures
            match (found, stamp_of(self@, id)) {
                (Some(s), Some(t)) => *s == t,
                (None, None) => true,
                _ => false,
            },
    {
        match find_stamp(&self.stamps, id) {
            Some(i) => Some(&self.stamps[i]),
            None => None,
        }
    }

    fn next_epoch(&self) -> (epoch: u32)
        ensures
            epoch == next_revision(self@),
    {
        let mut top: u32 = 0;
        let mut i: usize = 0;
        while i < self.stamps.len()
            invariant
                i <= self.stamps@.len(),
                top == highest_epoch(self.stamps@, i as nat),
            decreases self.stamps@.len() - i,
        {
            if self.stamps[i].epoch > top {
                top = self.stamps[i].epoch;
            }
            i = i + 1;
        }
        top.saturating_add(1)
    }

    fn copied(&self) -> (copy: Self)
        ensures
            copy@ == self@,
    {
        let mut stamps: Vec<AnomalyStateStamp> = Vec::with_capacity(self.stamps.len());
        let mut i: usize = 0;
        while i < self.stamps.len()
            invariant
                i <= self.stamps@.len(),
                stamps@ == self.stamps@.take(i as int),
            decreases self.stamps@.len() - i,
        {
            stamps.push(self.stamps[i]);
            assert(self.stamps@.take(i + 1) =~= self.stamps@.take(i as int).push(
                self.stamps@[i as int],
            ));
            i = i + 1;
        }
        assert(self.stamps@.take(self.stamps@.len() as int) =~= self.stamps@);
        RealitySnapshot { stamps }
    }

    /// The snapshot after a gate was crossed, its plane given in thousandths.
    ///
    /// Streaming can report the same crossing more than once, so an identical
    /// gate and direction is idempotent. The opposite direction is a real
    /// traversal: a loop advances by walking back and forth through its one
    /// authored checkpoint. The epoch is the snapshot-wide revision, not a
    /// per-instance counter.
    pub fn with_advanced_gate(
        &self,
        gate: &TraversalGate,
        plane_milli: i32,
        direction: AxisDirection,
    ) -> (next: Self)
        requires
            self.wf(),
        ensures
            next.wf(),
            next@ == advanced(self@, *gate, plane_milli, direction),
    {
        let existing = self.lookup(gate.instance_id);
        let repeated: bool = match existing {
            Some(s) => s.last_gate_id == gate.id && s.travel_direction == direction,
            None => false,
        };
        if repeated {
            return self.copied();
        }
        let next_epoch: u32 = self.next_epoch();
        let next = transition_for(gate, direction, existing, next_epoch);
        let stamp = AnomalyStateStamp::new(
            gate.instance_id,
            next.epoch,
            plane_milli,
            gate.axis,
            direction,
            next.phase,
            next.loop_count,
            gate.id,
        );
        RealitySnapshot { stamps: replace_stamp(&self.stamps, stamp) }
    }

    pub fn fingerprint(&self) -> (hash: u64)
        ensures
            hash == words_hash(ledger_body(self@)),
    {
        ledger_fingerprint(&self.stamps)
    }

    pub fn to_words(&self) -> (words: Vec<u32>)
        ensures
            words@ == ledger_words(self@),
    {
        write_ledger(&self.stamps)
    }

    pub fn from_words(words: &[u32]) -> (result: Result<Self, RealitySnapshotDecodeError>)
        ensures
            match (result, received::<AnomalyStateStamp>(words@)) {
                (Ok(snapshot), Ok(expected)) => snapshot@ == expected && snapshot.wf(),
                (Err(a), Err(b)) => a == b,
                _ => false,
            },
    {
        match read_ledger::<AnomalyStateStamp>(words) {
            Ok(stamps) => Ok(RealitySnapshot { stamps }),
            Err(e) => Err(e),
        }
    }
}

/// A snapshot does not depend on the order in which its stamps were given.
pub proof fn law_snapshot_ignores_order(a: Seq<AnomalyStateStamp>, b: Seq<AnomalyStateStamp>)
    requires
        forall|s: AnomalyStateStamp| a.contains(s) <==> b.contains(s),
    ensures
        ledger(a, a.len()) == ledger(b, b.len()),
{
    lemma_ledger_order_free(a, b);
}

/// Transport is lossless: what a snapshot writes is read back as the snapshot.
pub proof fn law_transport_is_lossless(stamps: Seq<AnomalyStateStamp>)
    requires
        rising(stamps),
        stamps.len() <= u32::MAX,
    ensures
        received::<AnomalyStateStamp>(ledger_words(stamps)) == Ok::<
            Seq<AnomalyStateStamp>,
            RealitySnapshotDecodeError,
        >(stamps),
{
    lemma_round_trip(stamps);
}

/// Transport is canonical: words that are accepted are the words that the
/// snapshot they stand for writes.
pub proof fn law_transport_is_canonical(words: Seq<u32>)
    requires
        received::<AnomalyStateStamp>(words) is Ok,
    ensures
        ledger_words(received::<AnomalyStateStamp>(words)->Ok_0) == words,
{
    lemma_canonical::<AnomalyStateStamp>(words);
}

/// A single corrupted word is always detected: of what a snapshot writes, a changed
/// first word is a foreign header, a changed second word a wrong length, and any
/// other changed word a wrong fingerprint.
pub proof fn law_corrupted_word_is_detected(stamps: Seq<AnomalyStateStamp>, at: int, word: u32)
    requires
        stamps.len() <= u32::MAX,
        0 <= at < ledger_words(stamps).len(),
        word != ledger_words(stamps)[at],
    ensures
        received::<AnomalyStateStamp>(ledger_words(stamps).update(at, word)) == Err::<
            Seq<AnomalyStateStamp>,
            RealitySnapshotDecodeError,
        >(wrong_word_error(at)),
{
    law_one_wrong_word_shows(stamps, at, word);
}

/// After a crossing its instance has the crossing's stamp, unless the
/// event was a repeat.
pub proof fn law_crossing_is_recorded(
    stamps: Seq<AnomalyStateStamp>,
    gate: TraversalGate,
    plane_milli: i32,
    direction: AxisDirection,
)
    requires
        rising(stamps),
    ensures
        rising(advanced(stamps, gate, plane_milli, direction)),
        !is_repeat(stamps, gate, direction) ==> stamp_of(
            advanced(stamps, gate, plane_milli, direction),
            gate.instance_id,
        ) == Some(crossing_stamp(stamps, gate, plane_milli, direction)),
        stamp_of(advanced(stamps, gate, plane_milli, direction), gate.instance_id) matches Some(s)
            && s.last_gate_id == gate.id && s.travel_direction == direction,
{
    let s = crossing_stamp(stamps, gate, plane_milli, direction);
    lemma_replaced(stamps, s);
    let after = replaced(stamps, s);
    lemma_stamp_of(after, gate.instance_id);
    let k = after.index_of(s);
    assert(after[k].key() == gate.instance_id);
}

/// A crossing leaves every other instance's stamp as it was.
pub proof fn law_crossing_is_local(
    stamps: Seq<AnomalyStateStamp>,
    gate: TraversalGate,
    plane_milli: i32,
    direction: AxisDirection,
    id: AnomalyId,
)
    requires
        rising(stamps),
        id != gate.instance_id,
    ensures
        stamp_of(advanced(stamps, gate, plane_milli, direction), id) == stamp_of(stamps, id),
{
    let s = crossing_stamp(stamps, gate, plane_milli, direction);
    lemma_replaced(stamps, s);
    let after = replaced(stamps, s);
    lemma_stamp_of(after, id);
    lemma_stamp_of(stamps, id);
    if let Some(t) = stamp_of(stamps, id) {
        assert(t.key() != s.key());
        assert(after.contains(t));
        let k = after.index_of(t);
        assert(after[k].key() == id);
    } else if let Some(t) = stamp_of(after, id) {
        assert(t.key() != s.key());
        assert(stamps.contains(t));
        let k = stamps.index_of(t);
        assert(stamps[k].key() == id);
    }
}

/// Reporting the same crossing again changes nothing.
pub proof fn law_repeated_crossing_is_idempotent(
    stamps: Seq<AnomalyStateStamp>,
    gate: TraversalGate,
    plane_milli: i32,
    again_milli: i32,
    direction: AxisDirection,
)
    requires
        rising(stamps),
    ensures
        ({
            let once = advanced(stamps, gate, plane_milli, direction);
            advanced(once, gate, again_milli, direction) == once
        }),
{
    law_crossing_is_recorded(stamps, gate, plane_milli, direction);
}

/// No stamp has a later epoch than the highest.
proof fn lemma_highest_epoch(stamps: Seq<AnomalyStateStamp>, n: nat, i: int)
    requires
        0 <= i < n <= stamps.len(),
    ensures
        stamps[i].epoch <= highest_epoch(stamps, n),
    decreases n,
{
    if i < n - 1 {
        lemma_highest_epoch(stamps, (n - 1) as nat, i);
    }
}

/// The highest epoch is zero or that of a stamp.
proof fn lemma_highest_epoch_stands(stamps: Seq<AnomalyStateStamp>, n: nat)
    requires
        n <= stamps.len(),
    ensures
        highest_epoch(stamps, n) == 0 || exists|i: int|
            0 <= i < n && (#[trigger] stamps[i]).epoch == highest_epoch(stamps, n),
    decreases n,
{
    if n > 0 {
        lemma_highest_epoch_stands(stamps, (n - 1) as nat);
    }
}

/// An accepted crossing that commits new geometry (a remap, a forward
/// threshold, a loop of a sealed room) is stamped with an epoch above every
/// earlier one, as long as revisions last.
pub proof fn law_epochs_order_encounters(
    stamps: Seq<AnomalyStateStamp>,
    gate: TraversalGate,
    plane_milli: i32,
    direction: AxisDirection,
    i: int,
)
    requires
        rising(stamps),
        0 <= i < stamps.len(),
        highest_epoch(stamps, stamps.len()) < u32::MAX,
        !is_repeat(stamps, gate, direction),
        match gate.kind {
            TraversalGateKind::Remap => true,
            TraversalGateKind::RedThreshold => direction == gate.forward,
            TraversalGateKind::RedLoop => stamp_of(stamps, gate.instance_id) matches Some(s)
                && s.phase == RedRoomPhase::Sealed,
            TraversalGateKind::RedEscape => false,
        },
    ensures
        stamps[i].epoch < crossing_stamp(stamps, gate, plane_milli, direction).epoch,
{
    lemma_highest_epoch(stamps, stamps.len(), i);
}

/// Three loop crossings, each in the direction opposite to the one before,
/// open the escape of a room sealed through another gate.
pub proof fn law_three_loops_open_the_escape(
    stamps: Seq<AnomalyStateStamp>,
    gate: TraversalGate,
    milli: i32,
    first: AxisDirection,
    second: AxisDirection,
)
    requires
        rising(stamps),
        gate.kind == TraversalGateKind::RedLoop,
        first != second,
        stamp_of(stamps, gate.instance_id) matches Some(s) && s.phase == RedRoomPhase::Sealed
            && s.loop_count == 0 && s.last_gate_id != gate.id,
    ensures
        ({
            let one = advanced(stamps, gate, milli, first);
            let two = advanced(one, gate, milli, second);
            let three = advanced(two, gate, milli, first);
            &&& stamp_of(one, gate.instance_id) matches Some(s) && s.phase == RedRoomPhase::Sealed
                && s.loop_count == 1
            &&& stamp_of(two, gate.instance_id) matches Some(s) && s.phase == RedRoomPhase::Sealed
                && s.loop_count == 2
            &&& stamp_of(three, gate.instance_id) matches Some(s) && s.phase
                == RedRoomPhase::EscapeOpen && s.loop_count == 3
        }),
{
    let one = advanced(stamps, gate, milli, first);
    let two = advanced(one, gate, milli, second);
    law_crossing_is_recorded(stamps, gate, milli, first);
    law_crossing_is_recorded(one, gate, milli, second);
    law_crossing_is_recorded(two, gate, milli, first);
}

/// A remap never loses red-room progress, and an escape crossing changes
/// neither phase, nor loops, nor the epoch.
pub proof fn law_remap_and_escape_keep_red_state(
    stamps: Seq<AnomalyStateStamp>,
    gate: TraversalGate,
    plane_milli: i32,
    direction: AxisDirection,
)
    requires
        rising(stamps),
        gate.kind == TraversalGateKind::Remap || gate.kind == TraversalGateKind::RedEscape,
        stamp_of(stamps, gate.instance_id) is Some,
    ensures
        ({
            let before = stamp_of(stamps, gate.instance_id)->0;
            let after = crossing_stamp(stamps, gate, plane_milli, direction);
            &&& after.phase == before.phase
            &&& after.loop_count == before.loop_count
            &&& gate.kind == TraversalGateKind::RedEscape ==> after.epoch == before.epoch
        }),
{
}

/// Turning back through a threshold undoes nothing: a crossing of a red
/// threshold against its forward direction leaves the phase, the loops and the
/// epoch of an instance that has a stamp, and gives one that has none a stamp
/// outside the room.
pub proof fn law_turning_back_keeps_red_state(
    stamps: Seq<AnomalyStateStamp>,
    gate: TraversalGate,
    plane_milli: i32,
    direction: AxisDirection,
)
    requires
        rising(stamps),
        gate.kind == TraversalGateKind::RedThreshold,
        direction != gate.forward,
    ensures
        match (
            stamp_of(stamps, gate.instance_id),
            stamp_of(advanced(stamps, gate, plane_milli, direction), gate.instance_id),
        ) {
            (Some(before), Some(after)) => after.phase == before.phase && after.loop_count
                == before.loop_count && after.epoch == before.epoch,
            (None, Some(after)) => after.phase == RedRoomPhase::Outside && after.loop_count == 0,
            _ => false,
        },
{
    law_crossing_is_recorded(stamps, gate, plane_milli, direction);
}

/// No crossing, of whatever gate in whatever direction, leads an instance that is
/// sealed or may be escaped back to the outside, takes back a loop or an epoch,
/// or brings one out that was not sealed to the escape.
pub proof fn law_commitment_is_kept(
    stamps: Seq<AnomalyStateStamp>,
    gate: TraversalGate,
    plane_milli: i32,
    direction: AxisDirection,
    id: AnomalyId,
)
    requires
        rising(stamps),
        stamp_of(stamps, id) is Some,
    ensures
        ({
            let before = stamp_of(stamps, id)->0;
            let after = stamp_of(advanced(stamps, gate, plane_milli, direction), id)->0;
            &&& stamp_of(advanced(stamps, gate, plane_milli, direction), id) is Some
            &&& before.phase != RedRoomPhase::Outside ==> after.phase != RedRoomPhase::Outside
            &&& before.phase == RedRoomPhase::Outside ==> after.phase != RedRoomPhase::EscapeOpen
            &&& after.loop_count >= before.loop_count
            &&& after.epoch >= before.epoch
        }),
{
    law_crossing_is_recorded(stamps, gate, plane_milli, direction);
    if id != gate.instance_id {
        law_crossing_is_local(stamps, gate, plane_milli, direction, id);
    }
    lemma_stamp_of(stamps, id);
    let before = stamp_of(stamps, id)->0;
    let i = stamps.index_of(before);
    assert(stamps[i] == before);
    lemma_highest_epoch(stamps, stamps.len(), i);
}

/// Only a forward crossing of a threshold brings an instance in from the outside,
/// and it does so unless it is the last event reported again. It keeps the loops.
pub proof fn law_only_thresholds_seal(
    stamps: Seq<AnomalyStateStamp>,
    gate: TraversalGate,
    plane_milli: i32,
    direction: AxisDirection,
)
    requires
        rising(stamps),
        stamp_of(stamps, gate.instance_id) matches Some(s) ==> s.last_gate_id != gate.id
            || s.travel_direction != direction,
    ensures
        ({
            let before = stamp_of(stamps, gate.instance_id);
            let after = stamp_of(
                advanced(stamps, gate, plane_milli, direction),
                gate.instance_id,
            )->0;
            let inward = gate.kind == TraversalGateKind::RedThreshold && direction == gate.forward;
            &&& inward ==> after.phase == RedRoomPhase::Sealed
            &&& !inward && (before matches Some(b) ==> b.phase == RedRoomPhase::Outside)
                ==> after.phase == RedRoomPhase::Outside
            &&& gate.kind != TraversalGateKind::RedLoop ==> after.loop_count == (match before {
                Some(b) => b.loop_count,
                None => 0,
            })
        }),
{
    law_crossing_is_recorded(stamps, gate, plane_milli, direction);
}

/// A loop crossing counts only in a sealed room. There it adds one loop, and the
/// third and every later one opens the escape; elsewhere phase, loops and epoch
/// stay.
pub proof fn law_loops_count_once_sealed(
    stamps: Seq<AnomalyStateStamp>,
    gate: TraversalGate,
    plane_milli: i32,
    direction: AxisDirection,
)
    requires
        rising(stamps),
        gate.kind == TraversalGateKind::RedLoop,
        stamp_of(stamps, gate.instance_id) matches Some(s) && (s.last_gate_id != gate.id
            || s.travel_direction != direction),
    ensures
        ({
            let before = stamp_of(stamps, gate.instance_id)->0;
            let after = stamp_of(
                advanced(stamps, gate, plane_milli, direction),
                gate.instance_id,
            )->0;
            if before.phase == RedRoomPhase::Sealed {
                &&& before.loop_count < u8::MAX ==> after.loop_count == before.loop_count + 1
                &&& before.loop_count == u8::MAX ==> after.loop_count == u8::MAX
                &&& after.phase == RedRoomPhase::EscapeOpen <==> after.loop_count >= 3
                &&& after.phase == RedRoomPhase::Sealed <==> after.loop_count < 3
            } else {
                after.phase == before.phase && after.loop_count == before.loop_count && after.epoch
                    == before.epoch
            }
        }),
{
    law_crossing_is_recorded(stamps, gate, plane_milli, direction);
}

/// The stamp of a crossing names the plane and the axis that were crossed, and its
/// epoch is the one that the instance had or one above all in the snapshot. An
/// instance that is stamped for the first time is one above all.
pub proof fn law_crossing_names_its_plane(
    stamps: Seq<AnomalyStateStamp>,
    gate: TraversalGate,
    plane_milli: i32,
    direction: AxisDirection,
)
    requires
        rising(stamps),
        stamp_of(stamps, gate.instance_id) matches Some(s) ==> s.last_gate_id != gate.id
            || s.travel_direction != direction,
        forall|i: int| 0 <= i < stamps.len() ==> (#[trigger] stamps[i]).epoch < u32::MAX,
    ensures
        ({
            let before = stamp_of(stamps, gate.instance_id);
            let after = stamp_of(
                advanced(stamps, gate, plane_milli, direction),
                gate.instance_id,
            )->0;
            let above = forall|i: int|
                0 <= i < stamps.len() ==> (#[trigger] stamps[i]).epoch < after.epoch;
            let next = after.epoch == 1 || exists|i: int|
                0 <= i < stamps.len() && (#[trigger] stamps[i]).epoch + 1 == after.epoch;
            &&& after.instance_id == gate.instance_id
            &&& after.gate_plane_milli == plane_milli
            &&& after.gate_axis == gate.axis
            &&& before is None ==> above && next
            &&& before matches Some(b) ==> after.epoch == b.epoch || above && next
        }),
{
    law_crossing_is_recorded(stamps, gate, plane_milli, direction);
    lemma_highest_epoch_stands(stamps, stamps.len());
    assert forall|i: int| 0 <= i < stamps.len() implies (#[trigger] stamps[i]).epoch
        <= highest_epoch(stamps, stamps.len()) by {
        lemma_highest_epoch(stamps, stamps.len(), i);
    }
}

/// A snapshot keeps the latest: of the stamps that it is made of, every instance has
/// one, and none of its other stamps has a later epoch. Nothing else is in it.
pub proof fn law_snapshot_keeps_the_latest(stamps: Seq<AnomalyStateStamp>, i: int, k: int)
    ensures
        ({
            let kept = ledger(stamps, stamps.len());
            &&& 0 <= i < stamps.len() ==> (stamp_of(kept, stamps[i].instance_id) matches Some(s)
                && s.epoch >= stamps[i].epoch)
            &&& 0 <= k < kept.len() ==> stamps.contains(kept[k])
        }),
{
    let kept = ledger(stamps, stamps.len());
    lemma_ledger_summarizes(stamps, stamps.len());
    assert(stamps.take(stamps.len() as int) =~= stamps);
    if 0 <= i < stamps.len() {
        let s = stamps[i];
        assert(covered(kept, s));
        reveal(covered);
        let j = choose|j: int|
            0 <= j < kept.len() && (#[trigger] kept[j]).key() == s.key() && !s.over(kept[j]);
        lemma_stamp_of(kept, s.instance_id);
        assert(stamp_of(kept, s.instance_id) == Some(kept[j]));
    }
}

} // verus!
