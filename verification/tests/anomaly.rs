use vackrooms::domain::entities::anomaly::reality;
use vackrooms::domain::entities::anomaly::reality::RedRoomPhase;
use vackrooms::domain::entities::anomaly::traversal;
use vackrooms::domain::entities::anomaly::{
    AnomalyInstance, AnomalyKind, AnomalyStateStamp, Axis2, AxisDirection, MacroCell, OrientedFootprint,
    OrthoBasis, PillarLattice, PitCandidate, PitHazard, PitLattice, Position, QuarterTurn,
    RealitySnapshot, RealitySnapshotDecodeError, SegmentMeasures, TraversalGate, TraversalGateKind,
    WorldBounds,
};

fn b(x: f32) -> u32 {
    x.to_bits()
}

fn milli(x: f32) -> i32 {
    (x * 1000.0).round() as i32
}

#[test]
fn anomaly_reality_transport_is_canonical_and_lossless() {
    let a = AnomalyStateStamp::new(9, 2, milli(-12.4), Axis2::Z, AxisDirection::Negative);
    let c = AnomalyStateStamp::new(3, 7, milli(8.0), Axis2::X, AxisDirection::Positive);
    let one = RealitySnapshot::new(vec![a, c]);
    let two = RealitySnapshot::new(vec![c, a]);
    assert_eq!(one, two);
    assert_eq!(one.fingerprint(), two.fingerprint());
    assert_eq!(RealitySnapshot::from_words(&one.to_words()), Ok(one));
}

#[test]
fn pillar_sizes_vary_but_stay_snapped() {
    let lattice = PillarLattice {
        bay_x: b(4.4),
        bay_z: b(4.0),
        phase_x: b(0.0),
        phase_z: b(0.0),
        min_side: b(1.2),
        max_side: b(1.6),
        variation_seed: 42,
    };
    let (min_side, max_side) = (1.2f32, 1.6f32);
    let steps = ((max_side - min_side) / 0.4).round() as u64;
    let mut seen = Vec::new();
    for z in 0..12 {
        for x in 0..12 {
            let step = lattice.pillar_size(x, z, steps) as f32;
            let s = (min_side + 0.4 * step).clamp(min_side, max_side);
            assert!((1.2..=1.6).contains(&s));
            assert!(((s / 0.4).round() - s / 0.4).abs() < 1e-4);
            if !seen.contains(&s.to_bits()) {
                seen.push(s.to_bits());
            }
        }
    }
    assert!(seen.len() >= 2);
}

/// Measures a movement segment and asks about it.
fn crossing(g: &TraversalGate, old: [f32; 2], new: [f32; 2]) -> Option<AxisDirection> {
    let (a0, a1, b0, b1) = match g.axis {
        Axis2::X => (old[0], new[0], old[1], new[1]),
        Axis2::Z => (old[1], new[1], old[0], new[0]),
    };
    let delta = a1 - a0;
    let t = (f32::from_bits(g.plane) - a0) / delta;
    let across = b0 + (b1 - b0) * t;
    g.crossing(&SegmentMeasures { delta: b(delta), end: b(a1), t: b(t), across: b(across) })
}

fn threshold() -> TraversalGate {
    TraversalGate {
        id: 1,
        instance_id: 2,
        anomaly_kind: AnomalyKind::RedRoom,
        kind: TraversalGateKind::RedThreshold,
        axis: Axis2::X,
        plane: b(5.0),
        span_min: b(-1.0),
        span_max: b(1.0),
        forward: AxisDirection::Positive,
        affected_bounds: WorldBounds::new(b(0.0), b(-5.0), b(10.0), b(5.0)),
    }
}

#[test]
fn gate_crossing_is_directional_and_span_bounded() {
    let gate = threshold();
    assert_eq!(crossing(&gate, [4.0, 0.0], [6.0, 0.0]), Some(AxisDirection::Positive));
    assert_eq!(crossing(&gate, [4.0, 2.0], [6.0, 2.0]), None);
    assert_eq!(crossing(&gate, [5.0, 0.0], [6.0, 0.0]), None);
}

#[test]
fn gate_crossing_back_is_negative_and_parallel_moves_do_not_fire() {
    let gate = threshold();
    assert_eq!(crossing(&gate, [6.0, 0.5], [4.0, 0.5]), Some(AxisDirection::Negative));
    assert_eq!(crossing(&gate, [5.0, -1.0], [5.0, 1.0]), None);
    assert_eq!(crossing(&gate, [0.0, 0.0], [4.0, 0.0]), None);
}

#[test]
fn merely_touching_a_gate_does_not_fire() {
    let gate = threshold();
    assert_eq!(crossing(&gate, [4.0, 0.0], [5.0, 0.0]), None);
    assert_eq!(crossing(&gate, [6.0, 0.0], [5.0, 0.0]), None);
    assert_eq!(crossing(&gate, [5.0, 0.0], [4.0, 0.0]), None);
    // The slightest step beyond is a crossing, even where the fraction rounds to one.
    let beyond = f32::from_bits(5.0f32.to_bits() + 1);
    assert_eq!(crossing(&gate, [-1000.0, 0.0], [beyond, 0.0]), Some(AxisDirection::Positive));
}

#[test]
fn gate_words_round_trip() {
    let gate = threshold();
    let words = gate.to_words();
    assert_eq!(TraversalGate::from_words(&words), Some(gate));
    assert_eq!(TraversalGate::from_words(&words[..14]), None);
    let mut broken = words;
    broken[4] = 9;
    assert_eq!(TraversalGate::from_words(&broken), None);
}

#[test]
fn hazard_words_round_trip() {
    let hazard = PitHazard {
        id: 0x1_0000_0002,
        instance_id: 3,
        center: Position { x: b(1.5), z: b(-2.5) },
        half_side: b(0.4),
        depth: b(2.4),
        recovery: Position { x: b(2.5), z: b(-1.5) },
    };
    let mut words = vec![];
    hazard.write_words(&mut words);
    assert_eq!(words.len(), 10);
    assert_eq!(PitHazard::from_transport_words(&words), Some(hazard));
    assert_eq!(PitHazard::from_transport_words(&words[1..]), None);
    assert!(hazard.contains(b(0.3), b(-0.3)));
    assert!(!hazard.contains(b(0.4), b(0.0)));
}

#[test]
fn bounds_are_ordered_and_meet_at_their_edges() {
    let a = WorldBounds::new(b(10.0), b(5.0), b(0.0), b(-5.0));
    assert_eq!((a.min_x, a.max_x, a.min_z, a.max_z), (b(0.0), b(10.0), b(-5.0), b(5.0)));
    assert!(a.contains(b(10.0), b(0.0)));
    assert!(!a.contains(b(10.1), b(0.0)));
    let c = WorldBounds::new(b(10.0), b(5.0), b(12.0), b(9.0));
    assert!(a.intersects(c) && c.intersects(a));
    assert!(!a.intersects(WorldBounds::new(b(11.0), b(0.0), b(12.0), b(1.0))));
}

#[test]
fn quarter_turns_undo_themselves() {
    for turn in [QuarterTurn::Zero, QuarterTurn::Clockwise] {
        let basis = OrthoBasis { turn };
        let local = basis.to_local(b(3.0), b(-4.0));
        assert_eq!(basis.to_world(local.0, local.1), (b(3.0), b(-4.0)));
    }
    let turned = OrthoBasis { turn: QuarterTurn::Clockwise };
    assert_eq!(turned.local_axis_in_world(Axis2::X), Axis2::Z);
    assert_eq!(AxisDirection::Negative.sign(), -1);
    assert_eq!(AxisDirection::Positive.sign(), 1);
}

fn pit_instance() -> AnomalyInstance {
    let basis = OrthoBasis { turn: QuarterTurn::Zero };
    AnomalyInstance {
        id: 77,
        kind: AnomalyKind::PitLattice,
        footprint: OrientedFootprint {
            center: Position { x: b(0.0), z: b(0.0) },
            half_x: b(20.0),
            half_z: b(20.0),
            basis,
        },
        basis,
        macro_anchor: MacroCell { x: 0, z: 0 },
        pillar_lattice: None,
        pit_lattice: Some(PitLattice {
            spacing_x: b(2.0),
            spacing_z: b(2.0),
            phase_x: b(0.0),
            phase_z: b(0.0),
            side: b(0.8),
            depth: b(2.4),
        }),
        gates: Vec::new(),
        skeleton_half_width: b(1.8),
        entry_band: b(6.0),
    }
}

fn pit(ix: i64, iz: i64) -> PitCandidate {
    let (x, z) = (ix as f32 * 2.0, iz as f32 * 2.0);
    PitCandidate {
        ix,
        iz,
        center: Position { x: b(x), z: b(z) },
        local: Position { x: b(x), z: b(z) },
        boundary_distance: b((20.0 - x.abs()).min(20.0 - z.abs())),
        lane_offset: b(z.abs()),
        recovery: Position { x: b(x + 1.0), z: b(z + 1.0) },
    }
}

#[test]
fn pits_spare_the_center_lane_and_the_boundary() {
    let instance = pit_instance();
    let candidates = vec![pit(0, 0), pit(1, 1), pit(2, 3), pit(-3, 4), pit(10, 3), pit(2, 3)];
    let near = WorldBounds::new(b(-30.0), b(-30.0), b(30.0), b(30.0));
    let hazards = instance.pit_hazards_for_bounds(&candidates, near, b(1.8 + 0.8), b(0.4));
    assert_eq!(hazards.len(), 2);
    assert!(hazards[0].id < hazards[1].id);
    for h in &hazards {
        assert_eq!(h.instance_id, 77);
        assert_eq!(h.depth, b(2.4));
    }
    let far = WorldBounds::new(b(100.0), b(100.0), b(110.0), b(110.0));
    assert!(instance.pit_hazards_for_bounds(&candidates, far, b(2.6), b(0.4)).is_empty());
    assert!(instance.pillar_size(1, 2, 1).is_none());
    assert!(instance.contains(b(20.0), b(-20.0)));
    assert!(!instance.contains(b(20.5), b(0.0)));
}

#[test]
fn snapshot_words_reject_what_they_did_not_write() {
    let stamp = AnomalyStateStamp::new(3, 7, 8000, Axis2::X, AxisDirection::Positive);
    let snapshot = RealitySnapshot::new(vec![stamp]);
    let words = snapshot.to_words();
    assert_eq!(
        RealitySnapshot::from_words(&words[..3]),
        Err(RealitySnapshotDecodeError::Header)
    );
    let mut longer = words.clone();
    longer.push(0);
    assert_eq!(RealitySnapshot::from_words(&longer), Err(RealitySnapshotDecodeError::Length));
    let mut flipped = words.clone();
    flipped[4] ^= 1;
    assert_eq!(
        RealitySnapshot::from_words(&flipped),
        Err(RealitySnapshotDecodeError::Fingerprint)
    );
    assert_eq!(snapshot.lookup(3), Some(&stamp));
    assert_eq!(snapshot.lookup(4), None);
    assert_eq!(snapshot.stamps().len(), 1);
    assert!(RealitySnapshot::empty().stamps().is_empty());
}

#[test]
fn snapshot_words_reject_unknown_values() {
    let stamp = AnomalyStateStamp::new(3, 7, 8000, Axis2::X, AxisDirection::Positive);
    let mut words = RealitySnapshot::new(vec![stamp]).to_words();
    let body = words.len() - 2;
    for position in 2..body {
        for value in [9u32, 0xFFFF_FFFF] {
            let kept = words[position];
            words[position] = value;
            let hash = vackrooms::domain::hashing::hash_words(&words, body);
            words[body] = hash as u32;
            words[body + 1] = (hash >> 32) as u32;
            match RealitySnapshot::from_words(&words) {
                Ok(again) => assert_eq!(again.to_words(), words),
                Err(e) => assert_eq!(e, RealitySnapshotDecodeError::Value),
            }
            words[position] = kept;
        }
    }
}

#[test]
fn later_stamps_replace_earlier_ones() {
    let early = AnomalyStateStamp::new(3, 1, 0, Axis2::X, AxisDirection::Positive);
    let late = AnomalyStateStamp::new(3, 2, 0, Axis2::X, AxisDirection::Positive);
    let snapshot = RealitySnapshot::new(vec![late, early]);
    assert_eq!(snapshot.lookup(3).unwrap().epoch, 2);
    let crossed = snapshot.with_advanced_gate(
        &TraversalGate { instance_id: 3, ..threshold() },
        5000,
        AxisDirection::Negative,
    );
    assert_eq!(crossed.lookup(3).unwrap().epoch, 3);
    assert_eq!(crossed.lookup(3).unwrap().gate_plane_milli, 5000);
}

#[test]
fn wake_lies_behind_the_traveller() {
    let stamp = AnomalyStateStamp::new(1, 1, 5000, Axis2::X, AxisDirection::Positive);
    assert!(stamp.point_is_in_wake(b(3.0), b(0.0), b(4.0), b(6.0)));
    assert!(!stamp.point_is_in_wake(b(4.5), b(0.0), b(4.0), b(6.0)));
    let back = AnomalyStateStamp::new(1, 1, 5000, Axis2::Z, AxisDirection::Negative);
    assert!(back.point_is_in_wake(b(0.0), b(7.0), b(4.0), b(6.0)));
    assert!(!back.point_is_in_wake(b(7.0), b(5.5), b(4.0), b(6.0)));
}

fn gate(id: u64, kind: traversal::TraversalGateKind) -> traversal::TraversalGate {
    traversal::TraversalGate {
        id,
        instance_id: 77,
        anomaly_kind: AnomalyKind::RedRoom,
        kind,
        axis: Axis2::X,
        plane: b(5.0),
        span_min: b(-1.0),
        span_max: b(1.0),
        forward: AxisDirection::Positive,
        affected_bounds: WorldBounds::new(b(0.0), b(-5.0), b(10.0), b(5.0)),
    }
}

fn advance(
    before: &reality::RealitySnapshot,
    g: &traversal::TraversalGate,
    direction: AxisDirection,
) -> reality::RealitySnapshot {
    before.with_advanced_gate(g, milli(f32::from_bits(g.plane)), direction)
}

fn sealed() -> reality::RealitySnapshot {
    advance(
        &reality::RealitySnapshot::empty(),
        &gate(1, traversal::TraversalGateKind::RedThreshold),
        AxisDirection::Positive,
    )
}

#[test]
fn forward_red_threshold_seals_the_room() {
    let next = sealed();
    let stamp = next.lookup(77).unwrap();
    assert_eq!(stamp.epoch, 1);
    assert_eq!(stamp.phase, RedRoomPhase::Sealed);
    assert_eq!(stamp.loop_count, 0);
    assert_eq!(stamp.last_gate_id, 1);
}

#[test]
fn reverse_red_threshold_preserves_outside_phase() {
    let next = advance(
        &reality::RealitySnapshot::empty(),
        &gate(1, traversal::TraversalGateKind::RedThreshold),
        AxisDirection::Negative,
    );
    let stamp = next.lookup(77).unwrap();
    assert_eq!(stamp.epoch, 1);
    assert_eq!(stamp.phase, RedRoomPhase::Outside);
}

#[test]
fn three_accepted_loop_events_open_the_escape() {
    let mut snapshot = sealed();
    let loop_gate = gate(2, traversal::TraversalGateKind::RedLoop);
    for direction in [AxisDirection::Positive, AxisDirection::Negative, AxisDirection::Positive] {
        snapshot = advance(&snapshot, &loop_gate, direction);
    }
    let stamp = snapshot.lookup(77).unwrap();
    assert_eq!(stamp.epoch, 4);
    assert_eq!(stamp.loop_count, 3);
    assert_eq!(stamp.phase, RedRoomPhase::EscapeOpen);
}

#[test]
fn duplicate_gate_event_is_idempotent() {
    let loop_gate = gate(2, traversal::TraversalGateKind::RedLoop);
    let once = advance(&sealed(), &loop_gate, AxisDirection::Positive);
    let twice = advance(&once, &loop_gate, AxisDirection::Positive);
    assert_eq!(twice, once);
}

#[test]
fn remap_advances_epoch_without_losing_red_state() {
    let remapped = advance(
        &sealed(),
        &gate(2, traversal::TraversalGateKind::Remap),
        AxisDirection::Negative,
    );
    let stamp = remapped.lookup(77).unwrap();
    assert_eq!(stamp.epoch, 2);
    assert_eq!(stamp.phase, RedRoomPhase::Sealed);
    assert_eq!(stamp.loop_count, 0);
}

#[test]
fn epoch_orders_encounters_across_different_instances() {
    let first_gate = gate(1, traversal::TraversalGateKind::RedThreshold);
    let mut second_gate = gate(2, traversal::TraversalGateKind::RedThreshold);
    second_gate.instance_id = 88;
    let first = advance(&reality::RealitySnapshot::empty(), &first_gate, AxisDirection::Positive);
    let second = advance(&first, &second_gate, AxisDirection::Positive);

    assert_eq!(second.lookup(77).unwrap().epoch, 1);
    assert_eq!(second.lookup(88).unwrap().epoch, 2);
}

#[test]
fn red_escape_records_crossing_without_changing_state() {
    let before_escape = sealed();
    let escaped = advance(
        &before_escape,
        &gate(2, traversal::TraversalGateKind::RedEscape),
        AxisDirection::Positive,
    );
    let before = before_escape.lookup(77).unwrap();
    let after = escaped.lookup(77).unwrap();
    assert_eq!(after.epoch, before.epoch);
    assert_eq!(after.phase, before.phase);
    assert_eq!(after.loop_count, before.loop_count);
    assert_eq!(after.last_gate_id, 2);
}

#[test]
fn reality_reality_transport_is_canonical_and_lossless() {
    let a = reality::AnomalyStateStamp::new(
        9,
        2,
        milli(-12.4),
        Axis2::Z,
        AxisDirection::Negative,
        RedRoomPhase::Outside,
        0,
        0,
    );
    let c = reality::AnomalyStateStamp::new(
        3,
        7,
        milli(8.0),
        Axis2::X,
        AxisDirection::Positive,
        RedRoomPhase::Sealed,
        4,
        12345,
    );
    let one = reality::RealitySnapshot::new(vec![a, c]);
    let two = reality::RealitySnapshot::new(vec![c, a]);
    assert_eq!(one, two);
    assert_eq!(one.fingerprint(), two.fingerprint());
    assert_eq!(reality::RealitySnapshot::from_words(&one.to_words()), Ok(one));
}

#[test]
fn a_corrupted_word_is_always_detected() {
    let words = sealed().to_words();
    for (k, word) in words.iter().enumerate() {
        for flip in [1u32, 0x8000_0000, 0xFFFF_FFFF] {
            let mut wrong = words.clone();
            wrong[k] = word ^ flip;
            let expected = match k {
                0 => RealitySnapshotDecodeError::Header,
                1 => RealitySnapshotDecodeError::Length,
                _ => RealitySnapshotDecodeError::Fingerprint,
            };
            assert_eq!(reality::RealitySnapshot::from_words(&wrong), Err(expected));
        }
    }
}
