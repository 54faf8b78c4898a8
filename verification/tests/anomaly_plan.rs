use vackrooms::domain::entities::anchor::ArchLayout;
use vackrooms::domain::entities::anomaly::reality;
use vackrooms::domain::entities::anomaly::traversal::TraversalGateKind;
use vackrooms::domain::entities::anomaly::{
    AnomalyInstance, AnomalyKind, Axis2, AxisDirection, MacroCell, OrthoBasis, Position, QuarterTurn,
    WorldBounds,
};
use vackrooms::domain::entities::architecture::Opening;
use vackrooms::domain::hashing::mix64;
use vackrooms::domain::unit_interval::unit;
use vackrooms::use_cases::anchor_rooms::{anchor_room, AnchorMeasures};
use vackrooms::use_cases::anomaly_plan::{
    gates_for, hash, macro_instance, plan_anomalies_for_region, red_room_instance, scan_candidates,
    stable_id, weighted_family, CellRange, FamilyWeight, ForcedPlan, GateSite, MacroMeasures, PillarMeasures,
    PitMeasures, PlanCandidate, PlanPick, PlanQuery, PlanStream, RedRoomMeasures,
};

fn b(x: f32) -> u32 {
    x.to_bits()
}

fn f(bits: u32) -> f32 {
    f32::from_bits(bits)
}

fn snap(v: f32) -> f32 {
    (v / 0.4).round() * 0.4
}

const MACRO_CELL: f32 = 160.0;

fn expanded(w: WorldBounds, margin: f32) -> WorldBounds {
    WorldBounds::new(
        b(f(w.min_x) - margin),
        b(f(w.min_z) - margin),
        b(f(w.max_x) + margin),
        b(f(w.max_z) + margin),
    )
}

fn footprint_bounds(center: Position, half_x: f32, half_z: f32, turn: QuarterTurn) -> WorldBounds {
    let (hx, hz) = match turn {
        QuarterTurn::Zero => (half_x, half_z),
        QuarterTurn::Clockwise => (half_z, half_x),
    };
    WorldBounds::new(
        b(f(center.x) - hx),
        b(f(center.z) - hz),
        b(f(center.x) + hx),
        b(f(center.z) + hz),
    )
}

/// Measures and builds the instance of a kind that is anchored to a cell.
fn measured(seed: u32, cell: MacroCell, kind: AnomalyKind) -> (AnomalyInstance, WorldBounds) {
    let u = |salt: u64| f(unit(hash(seed, salt, cell.x, cell.z)));
    let center = Position {
        x: b(snap((cell.x as f32 + 0.5) * MACRO_CELL + (u(0xC1) - 0.5) * 48.0)),
        z: b(snap((cell.z as f32 + 0.5) * MACRO_CELL + (u(0xC2) - 0.5) * 48.0)),
    };
    let turn = if hash(seed, 0xC3, cell.x, cell.z) & 1 == 0 {
        QuarterTurn::Zero
    } else {
        QuarterTurn::Clockwise
    };
    let (half_x, half_z, entry) = match kind {
        AnomalyKind::PillarExpanse => (snap(75.0 + 85.0 * u(0xD1)), snap(55.0 + 65.0 * u(0xD2)), 16.0f32),
        AnomalyKind::BlackoutExpanse => (snap(65.0 + 70.0 * u(0xD3)), snap(50.0 + 55.0 * u(0xD4)), 12.0),
        _ => (snap(32.0 + 30.0 * u(0xD5)), snap(28.0 + 25.0 * u(0xD6)), 6.0),
    };
    let bounds = footprint_bounds(center, half_x, half_z, turn);
    let pillars = PillarMeasures {
        bay_x: b(snap(3.6 + 1.2 * u(0xE1))),
        bay_z: b(snap(3.6 + 1.2 * u(0xE2))),
        phase_x: b(snap((u(0xE3) - 0.5) * 3.2)),
        phase_z: b(snap((u(0xE4) - 0.5) * 3.2)),
    };
    let pits = PitMeasures {
        spacing_x: b(snap(2.0 + 0.4 * u(0xF1))),
        spacing_z: b(snap(2.0 + 0.4 * u(0xF2))),
        phase_x: b(snap(u(0xF3) * 1.2)),
        phase_z: b(snap(u(0xF4) * 1.2)),
        side: b(snap(0.8 + 0.2 * u(0xF5))),
    };
    let step = match kind {
        AnomalyKind::PillarExpanse => Some(f(pillars.bay_x) * 4.0),
        AnomalyKind::BlackoutExpanse => Some(22.0),
        _ => None,
    };
    let mut sites = Vec::new();
    if let Some(step) = step {
        let (first, last) = (-half_x + entry, half_x - entry);
        let mut lx = snap((first / step).ceil() * step);
        while lx <= last {
            let (wx, wz) = OrthoBasis { turn }.to_world(b(lx), b(0.0));
            sites.push(GateSite {
                index: (lx / step).round() as i64,
                at: Position { x: b(f(center.x) + f(wx)), z: b(f(center.z) + f(wz)) },
            });
            lx += step;
        }
    }
    let m = MacroMeasures {
        center,
        half_x: b(half_x),
        half_z: b(half_z),
        bounds,
        pillars,
        pits,
        sites,
    };
    (macro_instance(seed, cell, kind, &m), bounds)
}

fn family(h: f32) -> Option<AnomalyKind> {
    let weights = [1.0f32, 1.0, 1.0];
    let total: f32 = weights.iter().sum();
    let mut cursor = h * total;
    let mut slots = Vec::new();
    for w in weights {
        slots.push(FamilyWeight { weight: b(w), cursor: b(cursor) });
        cursor -= w;
    }
    weighted_family(b(total), &slots[0], &slots[1], &slots[2])
}

fn plan(seed: u32, ox: f32, oz: f32, size: f32, px: f32, pz: f32, frequency: f32) -> Vec<AnomalyInstance> {
    forced_plan(seed, ox, oz, size, px, pz, frequency, None)
}

fn plan_candidate(id: u64, bounds: WorldBounds) -> PlanCandidate {
    PlanCandidate { id, bounds, guarded: expanded(bounds, 48.0), fenced: expanded(bounds, 3.2) }
}

fn forced_plan(
    seed: u32,
    ox: f32,
    oz: f32,
    size: f32,
    px: f32,
    pz: f32,
    frequency: f32,
    kind: Option<AnomalyKind>,
) -> Vec<AnomalyInstance> {
    let bounds = WorldBounds::new(b(ox), b(oz), b(ox + size), b(oz + size));
    let wide = expanded(bounds, 400.0);
    let cells = CellRange {
        x0: (f(wide.min_x) / MACRO_CELL).floor() as i64,
        x1: (f(wide.max_x) / MACRO_CELL).floor() as i64,
        z0: (f(wide.min_z) / MACRO_CELL).floor() as i64,
        z1: (f(wide.max_z) / MACRO_CELL).floor() as i64,
    };
    let chance = (0.20 * frequency.clamp(0.0, 4.0)).min(0.75);
    let mut instances = Vec::new();
    let mut candidates = Vec::new();
    for cell in scan_candidates(seed, 0xCAAD_1DA7, b(chance), &cells) {
        let candidate = hash(seed, 0xCAAD_1DA7, cell.x, cell.z);
        if let Some(kind) = family(f(unit(candidate.rotate_left(21)))) {
            let (instance, bounds) = measured(seed, cell, kind);
            candidates.push(plan_candidate(instance.id, bounds));
            instances.push(instance);
        }
    }
    let home = MacroCell { x: (px / MACRO_CELL).floor() as i64, z: (pz / MACRO_CELL).floor() as i64 };
    let forced = kind.map(|kind| measured(seed, home, kind));
    let query = PlanQuery {
        bounds,
        protected: Position { x: b(px), z: b(pz) },
        frequency: b(frequency),
        archways: b(0.0),
        red_rooms: b(1.0),
        forced: forced
            .as_ref()
            .map(|(a, bounds)| ForcedPlan::Hostile { candidate: plan_candidate(a.id, *bounds) }),
    };
    plan_anomalies_for_region(&candidates, &vec![], &vec![], &query)
        .iter()
        .map(|pick| match pick.stream {
            PlanStream::Forced => forced.as_ref().unwrap().0.clone(),
            _ => instances[pick.index].clone(),
        })
        .collect()
}

fn same(one: &AnomalyInstance, two: &AnomalyInstance) -> bool {
    one.id == two.id
        && one.kind == two.kind
        && one.footprint == two.footprint
        && one.macro_anchor == two.macro_anchor
        && one.pillar_lattice == two.pillar_lattice
        && one.pit_lattice == two.pit_lattice
        && one.gates == two.gates
}

#[test]
fn anomaly_plan_disabled_anomalies_produce_no_instances() {
    assert!(plan(42, 800.0, 800.0, 80.0, 0.0, 0.0, 0.0).is_empty());
}

#[test]
fn mod_disabled_anomalies_produce_no_instances() {
    let query = PlanQuery {
        bounds: WorldBounds::new(b(800.0), b(800.0), b(880.0), b(880.0)),
        protected: Position { x: b(0.0), z: b(0.0) },
        frequency: b(0.0),
        archways: b(1.0),
        red_rooms: b(1.0),
        forced: None,
    };
    let inside = query.bounds;
    let candidate = PlanCandidate { id: 4, bounds: inside, guarded: inside, fenced: inside };
    assert!(plan_anomalies_for_region(&vec![candidate], &vec![candidate], &vec![9], &query).is_empty());
}

fn shared_across_neighbours() -> bool {
    for rz in 4..20 {
        for rx in 4..20 {
            let a = plan(42, rx as f32 * 80.0, rz as f32 * 80.0, 80.0, 0.0, 0.0, 4.0);
            let c = plan(42, (rx + 1) as f32 * 80.0, rz as f32 * 80.0, 80.0, 0.0, 0.0, 4.0);
            if let Some(one) = a.iter().find(|one| c.iter().any(|two| two.id == one.id)) {
                let two = c.iter().find(|two| two.id == one.id).unwrap();
                assert!(same(one, two));
                return true;
            }
        }
    }
    false
}

#[test]
fn region_partition_keeps_instance_identity() {
    assert!(
        shared_across_neighbours(),
        "forced-density scan found no cross-region instance"
    );
}

#[test]
fn region_partition_keeps_macro_instance_identity() {
    assert!(shared_across_neighbours(), "density scan found no cross-region instance");
}

#[test]
fn hashes_are_exact() {
    let expected = mix64(42u64 ^ 0xC1 ^ 3u64.wrapping_mul(0x9E37_79B9_7F4A_7C15) ^ ((-5i64) as u64).rotate_left(31));
    assert_eq!(hash(42, 0xC1, 3, -5), expected);
    assert_eq!(
        stable_id(42, AnomalyKind::PitLattice, 3, -5),
        hash(42, 0xA110_4A1E_0000_0002, 3, -5)
    );
    assert_ne!(
        stable_id(42, AnomalyKind::PitLattice, 3, -5),
        stable_id(42, AnomalyKind::RedRoom, 3, -5)
    );
}

#[test]
fn scans_keep_cells_below_the_chance() {
    let cells = CellRange { x0: -3, x1: 3, z0: -2, z1: 2 };
    let all = scan_candidates(7, 1, b(1.0), &cells);
    assert_eq!(all.len(), 35);
    assert_eq!(all[0], MacroCell { x: -3, z: -2 });
    assert_eq!(all[34], MacroCell { x: 3, z: 2 });
    assert!(scan_candidates(7, 1, b(0.0), &cells).is_empty());
    let half = scan_candidates(7, 1, b(0.5), &cells);
    for cell in &all {
        let roll = f(unit(hash(7, 1, cell.x, cell.z)));
        assert_eq!(half.contains(cell), roll < 0.5);
    }
    assert!(scan_candidates(7, 1, b(1.0), &CellRange { x0: 2, x1: 1, z0: 0, z1: 0 }).is_empty());
}

#[test]
fn families_are_drawn_by_weight() {
    assert_eq!(family(0.0), Some(AnomalyKind::PillarExpanse));
    assert_eq!(family(0.4), Some(AnomalyKind::BlackoutExpanse));
    assert_eq!(family(0.9), Some(AnomalyKind::PitLattice));
    let none = FamilyWeight { weight: b(0.0), cursor: b(0.0) };
    assert_eq!(weighted_family(b(0.0), &none, &none, &none), None);
    assert_eq!(weighted_family(b(1.0), &none, &none, &none), Some(AnomalyKind::PillarExpanse));
}

#[test]
fn gates_stand_across_the_long_axis() {
    let bounds = WorldBounds::new(b(-10.0), b(-20.0), b(10.0), b(20.0));
    let sites = vec![
        GateSite { index: -1, at: Position { x: b(-4.0), z: b(0.0) } },
        GateSite { index: 1, at: Position { x: b(4.0), z: b(0.0) } },
    ];
    let straight = OrthoBasis { turn: QuarterTurn::Zero };
    let gates = gates_for(5, AnomalyKind::PillarExpanse, straight, bounds, &sites);
    assert_eq!(gates.len(), 2);
    assert_eq!(gates[0].axis, Axis2::X);
    assert_eq!(gates[0].plane, b(-4.0));
    assert_eq!((gates[0].span_min, gates[0].span_max), (b(-20.0), b(20.0)));
    assert_eq!(gates[1].id, mix64(5 ^ 1u64.rotate_left(23) ^ 0x6A7E));
    assert_eq!(gates[1].kind, TraversalGateKind::Remap);
    let turned = OrthoBasis { turn: QuarterTurn::Clockwise };
    let across = gates_for(5, AnomalyKind::BlackoutExpanse, turned, bounds, &sites);
    assert_eq!(across[0].axis, Axis2::Z);
    assert_eq!((across[0].span_min, across[0].span_max), (b(-10.0), b(10.0)));
    assert!(gates_for(5, AnomalyKind::PitLattice, straight, bounds, &sites).is_empty());
}

fn red_measures(entrances: Vec<Opening>) -> RedRoomMeasures {
    RedRoomMeasures {
        assembly: 7,
        entrances,
        center: Position { x: b(6.0), z: b(4.0) },
        half_x: b(6.0),
        half_z: b(4.0),
        bounds: WorldBounds::new(b(0.0), b(0.0), b(12.0), b(8.0)),
        plane_above: b(2.8),
        plane_below: b(-2.8),
        span_min: b(5.4),
        span_max: b(6.6),
    }
}

#[test]
fn red_rooms_come_from_assemblies_with_entrances() {
    let door = Opening {
        center: Position { x: b(6.0), z: b(0.0) },
        width: b(1.2),
        through_x_wall: true,
        lintel_units: Some(b(2.2)),
    };
    let region = MacroCell { x: 0, z: 0 };
    let room = red_room_instance(42, region, &red_measures(vec![door])).unwrap();
    assert_eq!(room.kind, AnomalyKind::RedRoom);
    assert_eq!(room.gates.len(), 2);
    assert_eq!(room.gates[0].axis, Axis2::Z);
    assert_eq!(room.gates[0].forward, AxisDirection::Positive);
    assert_eq!(room.gates[0].plane, b(2.8));
    assert_eq!(room.gates[0].kind, TraversalGateKind::RedThreshold);
    assert_eq!(
        room.id,
        mix64(stable_id(42, AnomalyKind::RedRoom, 0, 0) ^ 7u64.wrapping_mul(0x9E37_79B9))
    );
    let back = Opening { center: Position { x: b(6.0), z: b(8.0) }, ..door };
    let other = red_room_instance(42, region, &red_measures(vec![back])).unwrap();
    assert_eq!(other.gates[0].forward, AxisDirection::Negative);
    assert_eq!(other.gates[0].plane, b(-2.8));
    let checkpoint = room.gates[1];
    assert_eq!(checkpoint.kind, TraversalGateKind::RedLoop);
    assert_eq!((checkpoint.axis, checkpoint.plane), (Axis2::Z, b(4.0)));
    assert_eq!((checkpoint.span_min, checkpoint.span_max), (b(0.0), b(12.0)));
    assert_eq!(checkpoint.instance_id, room.id);
    assert_ne!(checkpoint.id, room.gates[0].id);
    let side = Opening { center: Position { x: b(0.0), z: b(4.0) }, through_x_wall: false, ..door };
    let turned = red_room_instance(42, region, &red_measures(vec![side])).unwrap();
    assert_eq!((turned.gates[1].axis, turned.gates[1].plane), (Axis2::X, b(6.0)));
    assert_eq!((turned.gates[1].span_min, turned.gates[1].span_max), (b(0.0), b(8.0)));
    assert!(red_room_instance(42, region, &red_measures(vec![])).is_none());
}

fn candidate(id: u64, x: f32) -> PlanCandidate {
    let bounds = WorldBounds::new(b(x), b(0.0), b(x + 10.0), b(10.0));
    plan_candidate(id, bounds)
}

#[test]
fn plans_order_ids_and_keep_anchors_apart() {
    let query = PlanQuery {
        bounds: WorldBounds::new(b(0.0), b(0.0), b(80.0), b(80.0)),
        protected: Position { x: b(-500.0), z: b(0.0) },
        frequency: b(1.0),
        archways: b(1.0),
        red_rooms: b(1.0),
        forced: None,
    };
    let hostile = vec![candidate(9, 0.0), candidate(4, 200.0), candidate(2, 60.0)];
    let anchors = vec![candidate(7, 12.0), candidate(5, 30.0)];
    let picks = plan_anomalies_for_region(&hostile, &anchors, &vec![2, 1], &query);
    let expected = vec![
        PlanPick { stream: PlanStream::RedRoom, index: 1, id: 1 },
        PlanPick { stream: PlanStream::Hostile, index: 2, id: 2 },
        PlanPick { stream: PlanStream::Anchor, index: 1, id: 5 },
        PlanPick { stream: PlanStream::Hostile, index: 0, id: 9 },
    ];
    assert_eq!(picks, expected);
    let guarded = PlanQuery { protected: Position { x: b(-40.0), z: b(5.0) }, ..query };
    let spared = plan_anomalies_for_region(&hostile, &vec![], &vec![], &guarded);
    assert_eq!(spared.len(), 1);
    assert_eq!(spared[0].id, 2);
}

#[test]
fn archway_rooms_are_landmarks() {
    let m = AnchorMeasures {
        center: Position { x: b(80.0), z: b(80.0) },
        half_x: b(4.8),
        half_z: b(6.0),
        bay: b(2.4),
        opening: b(1.6),
    };
    let mut layouts = [0, 0];
    let mut blinds = [0, 0];
    for x in -8..8 {
        let cell = MacroCell { x, z: 3 };
        let room = anchor_room(42, cell, 4, &m);
        assert_eq!(room.id, hash(42, 0xA110_4A1E_0000_0004, x, 3));
        assert_eq!(room.macro_anchor, cell);
        assert_eq!((room.arch.bay, room.arch.opening), (m.bay, m.opening));
        let through = hash(42, 0xA0, x, 3) & 1 == 0;
        assert_eq!(room.arch.layout == ArchLayout::Transition, through);
        assert_eq!(room.arch.blind_every as u64, 3 + hash(42, 0xA3, x, 3) % 2);
        let turned = hash(42, 0xC3, x, 3) & 1 == 1;
        assert_eq!(room.footprint.basis.turn == QuarterTurn::Clockwise, turned);
        layouts[through as usize] += 1;
        blinds[room.arch.blind_every as usize - 3] += 1;
        let wider = AnchorMeasures { half_x: b(6.0), ..m };
        assert_eq!(anchor_room(42, cell, 4, &wider).id, room.id);
    }
    assert!(layouts[0] > 0 && layouts[1] > 0 && blinds[0] > 0 && blinds[1] > 0);
}

#[test]
fn forced_macro_kind_survives_zero_frequency() {
    let plans = forced_plan(42, 0.0, 0.0, 80.0, 6.0, 40.0, 0.0, Some(AnomalyKind::PillarExpanse));
    assert_eq!(plans.len(), 1);
    assert_eq!(plans[0].kind, AnomalyKind::PillarExpanse);
}

#[test]
fn compatibility_api_returns_forced_red_room_at_zero_frequency() {
    let door = Opening {
        center: Position { x: b(6.0), z: b(0.0) },
        width: b(1.2),
        through_x_wall: true,
        lintel_units: Some(b(2.2)),
    };
    let rooms = vec![red_room_instance(42, MacroCell { x: 0, z: 0 }, &red_measures(vec![door])).unwrap()];
    let query = PlanQuery {
        bounds: WorldBounds::new(b(0.0), b(0.0), b(80.0), b(80.0)),
        protected: Position { x: b(6.0), z: b(0.0) },
        frequency: b(0.0),
        archways: b(0.0),
        red_rooms: b(0.0),
        forced: Some(ForcedPlan::RedRooms),
    };
    let picks = plan_anomalies_for_region(&vec![], &vec![], &vec![rooms[0].id], &query);
    let plans: Vec<AnomalyInstance> = picks.iter().map(|p| rooms[p.index].clone()).collect();
    assert_eq!(plans.len(), 1);
    assert_eq!(plans[0].kind, AnomalyKind::RedRoom);
    assert_eq!(plans[0].gates.len(), 2);
}

#[test]
fn forced_anomalies_come_despite_the_keep_out() {
    let query = PlanQuery {
        bounds: WorldBounds::new(b(0.0), b(0.0), b(80.0), b(80.0)),
        protected: Position { x: b(5.0), z: b(5.0) },
        frequency: b(0.0),
        archways: b(1.0),
        red_rooms: b(1.0),
        forced: Some(ForcedPlan::Hostile { candidate: candidate(8, 0.0) }),
    };
    let hostile = vec![candidate(3, 0.0), candidate(6, 60.0)];
    let alone = plan_anomalies_for_region(&hostile, &vec![candidate(7, 30.0)], &vec![1], &query);
    assert_eq!(alone, vec![PlanPick { stream: PlanStream::Forced, index: 0, id: 8 }]);

    // A forced anomaly fences anchors off as any other does.
    let often = PlanQuery { frequency: b(1.0), ..query };
    let ids = |picks: Vec<PlanPick>| picks.iter().map(|p| p.id).collect::<Vec<u64>>();
    let anchors = vec![candidate(7, 12.0), candidate(9, 30.0)];
    assert_eq!(ids(plan_anomalies_for_region(&hostile, &anchors, &vec![1], &often)), vec![1, 6, 8, 9]);

    // Where it does not reach there is nothing.
    let far = PlanQuery {
        forced: Some(ForcedPlan::Anchor { candidate: candidate(8, 200.0) }),
        frequency: b(0.0),
        ..often
    };
    assert!(plan_anomalies_for_region(&hostile, &vec![], &vec![], &far).is_empty());
    let near = PlanQuery { forced: Some(ForcedPlan::Anchor { candidate: candidate(8, 20.0) }), ..far };
    assert_eq!(ids(plan_anomalies_for_region(&vec![], &vec![], &vec![], &near)), vec![8]);
}

#[test]
fn a_planned_red_room_loops_until_its_escape_opens() {
    let door = Opening {
        center: Position { x: b(6.0), z: b(0.0) },
        width: b(1.2),
        through_x_wall: true,
        lintel_units: None,
    };
    let room = red_room_instance(42, MacroCell { x: 0, z: 0 }, &red_measures(vec![door])).unwrap();
    let milli = |plane: u32| (f(plane) * 1000.0).round() as i32;
    let advance = |r: &reality::RealitySnapshot, k: usize, d: AxisDirection| {
        r.with_advanced_gate(&room.gates[k], milli(room.gates[k].plane), d)
    };
    let mut state = advance(&reality::RealitySnapshot::empty(), 0, AxisDirection::Positive);
    for d in [AxisDirection::Positive, AxisDirection::Negative, AxisDirection::Positive] {
        state = advance(&state, 1, d);
    }
    let stamp = state.lookup(room.id).unwrap();
    assert_eq!(stamp.phase, reality::RedRoomPhase::EscapeOpen);
    assert_eq!(stamp.loop_count, 3);
}
