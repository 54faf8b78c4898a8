use vackrooms::domain::entities::anomaly::traversal::{TraversalGate, TraversalGateKind};
use vackrooms::domain::entities::anomaly::{
    AnomalyKind, Axis2, AxisDirection, PitHazard, Position, WorldBounds,
};
use vackrooms::domain::entities::architecture::{LightKind, SpaceProgram, StructuralSystem};
use vackrooms::domain::entities::voxel_grid::{
    VoxelGrid, VOXEL_AIR, VOXEL_CEILING, VOXEL_FLOOR, VOXEL_GLIMMER, VOXEL_LIGHT, VOXEL_RED_LIGHT,
    VOXEL_WALL,
};
use vackrooms::use_cases::bake_voxel_lighting::exposed_emissive_faces::{
    emission_rgb, exposed_air_cells, VoxelCoord,
};
use vackrooms::use_cases::level_zero::assembly::{
    assembly_column, on_column, stair_shapes, AssemblySample, BaySample, EntranceSample, FixtureSample,
    PartitionSample, Systems,
};
use vackrooms::use_cases::level_zero::circulation::{
    corridor_ceiling, corridor_edge_opens, sample_circulation, SpineSample,
};
use vackrooms::use_cases::level_zero::column::{ColumnField, ColumnPlan, VoxelColumn};
use vackrooms::use_cases::level_zero::compose_column::{
    claim_column, place_is_owned, AnomalyFamily, AnomalySample, AssemblyReach, ColumnClaim, ColumnScene,
};
use vackrooms::use_cases::level_zero::fabric::{
    column_plan, cut_wall, drift_salt, fabric_ceiling_band, fabric_ceiling_height, fabric_place,
    in_expanse, wall_salts, FabricCeilingBand, FabricPlace, FabricSample, WallCut, WallRolls,
};
use vackrooms::use_cases::level_zero::interactions::{
    export_checkpoints, export_interactions, gate_crosses_bounds, light_candidates, pendant_drop,
    runtime_light, AnomalyInteractions, ExportBounds, FixtureReport, FixtureShape,
};
use vackrooms::use_cases::level_zero::voxelize::voxelize_columns;

fn b(x: f32) -> u32 {
    x.to_bits()
}

fn quantize(plan: &ColumnPlan, scale: f32) -> VoxelColumn {
    let cells = |bits: u32| (f32::from_bits(bits) / scale) as usize;
    let raised = (f32::from_bits(plan.floor_units) / scale).round() as usize;
    VoxelColumn::measured(
        plan,
        raised,
        cells(plan.ceiling_units),
        plan.lintel_from_units.map_or(0, cells),
    )
}

#[test]
fn solid_columns_cannot_voxelize_fake_emitters() {
    let mut column = ColumnPlan::open(b(4.0));
    column.solid = true;
    column.light = true;
    column.red_light = true;
    column.light_material = VOXEL_RED_LIGHT;

    let field = ColumnField::sample(1, 1, |_, _| quantize(&column, 1.0));
    let mut grid = VoxelGrid::new(1, 6, 1);
    voxelize_columns(&mut grid, &field);

    assert_eq!(grid.get(0, 0, 0), VOXEL_FLOOR);
    for y in 0..grid.height() {
        let material = grid.get(0, y, 0);
        assert!(
            emission_rgb(material).is_none(),
            "solid column contains buried emitter {material} at y={y}"
        );
    }
    for y in 1..=4 {
        let material = grid.get(0, y, 0);
        assert_eq!(material, VOXEL_WALL);
    }
}

#[test]
fn lower_ceilings_grow_a_skirt() {
    let field = ColumnField::sample(2, 1, |x, _| {
        let mut plan = ColumnPlan::open(b(if x == 0 { 3.0 } else { 5.0 }));
        plan.light = x == 1;
        quantize(&plan, 1.0)
    });
    assert_eq!((field.width(), field.depth()), (2, 1));
    assert_eq!(field.get(-1, 0).ceiling, 5);
    let mut grid = VoxelGrid::new(2, 8, 1);
    voxelize_columns(&mut grid, &field);
    let column = |x: usize| (0..8).map(|y| grid.get(x, y, 0)).collect::<Vec<u8>>();
    let (f, a, c) = (VOXEL_FLOOR, VOXEL_AIR, VOXEL_CEILING);
    assert_eq!(column(0), vec![f, a, a, c, c, c, a, a]);
    assert_eq!(column(1), vec![f, a, a, a, a, VOXEL_LIGHT, a, a]);
}

#[test]
fn lintels_and_treads_are_wall() {
    let mut door = ColumnPlan::open(b(5.0));
    door.lintel_from_units = Some(b(3.0));
    let mut tread = ColumnPlan::open(b(5.0));
    tread.floor_units = b(1.6);
    tread.red_light = true;
    tread.light = true;
    let field = ColumnField::sample(1, 2, |_, z| quantize(if z <= 0 { &door } else { &tread }, 1.0));
    let mut grid = VoxelGrid::new(1, 6, 2);
    voxelize_columns(&mut grid, &field);
    let column = |z: usize| (0..6).map(|y| grid.get(0, y, z)).collect::<Vec<u8>>();
    let (f, a, c, w) = (VOXEL_FLOOR, VOXEL_AIR, VOXEL_CEILING, VOXEL_WALL);
    assert_eq!(column(0), vec![f, a, a, w, w, c]);
    assert_eq!(column(1), vec![f, w, w, a, a, VOXEL_RED_LIGHT]);
}

#[test]
fn ceiling_bands_are_tiers() {
    assert_eq!(fabric_ceiling_band(b(-0.7)), FabricCeilingBand::Compression);
    assert_eq!(fabric_ceiling_band(b(-0.6)), FabricCeilingBand::Regular);
    assert_eq!(fabric_ceiling_band(b(0.52)), FabricCeilingBand::Expanse);
    assert_eq!(fabric_ceiling_band(b(0.9)), FabricCeilingBand::Vault);
    assert!(in_expanse(FabricCeilingBand::Vault) && !in_expanse(FabricCeilingBand::Regular));
    assert_eq!(fabric_ceiling_height(FabricCeilingBand::Regular, b(3.4)), b(3.4));
    assert_eq!(fabric_ceiling_height(FabricCeilingBand::Compression, b(3.4)), b(2.8));
    assert_eq!(fabric_ceiling_height(FabricCeilingBand::Expanse, b(3.0)), b(3.8));
    assert_eq!(fabric_ceiling_height(FabricCeilingBand::Vault, b(9.0)), b(5.4));
}

#[test]
fn fabric_walls_have_places_and_salts() {
    assert_eq!(fabric_place(b(0.1), b(0.1)), FabricPlace::Post);
    assert_eq!(fabric_place(b(0.1), b(3.0)), FabricPlace::West);
    assert_eq!(fabric_place(b(3.0), b(0.1)), FabricPlace::North);
    assert_eq!(fabric_place(b(0.4), b(0.4)), FabricPlace::Room);
    assert_eq!(drift_salt(0x9300, 0), 0x9300);
    assert_eq!(drift_salt(0x9300, 2), 0x9300 ^ 2u32.wrapping_mul(0x9E37_79B9));
    let west = wall_salts(FabricPlace::West, 0);
    assert_eq!((west.opens, west.wall, west.door), (0x9200, 0x9300, 0x9500));
    assert_eq!((west.extra, west.lintel), (0x9500 ^ 0x1F, 0x9500 ^ 0x2E));
    assert_eq!(wall_salts(FabricPlace::North, 0).wall, 0x9400);
}

fn rolls() -> WallRolls {
    WallRolls {
        opens: b(0.3),
        wall: b(0.2),
        survive: b(0.8),
        extra: b(0.9),
        extra_limit: b(0.3),
        along: b(3.0),
        door_start: b(2.5),
        door_end: b(3.9),
        door_width: b(1.4),
        lintel: b(0.2),
    }
}

fn fabric() -> FabricSample {
    FabricSample {
        band: FabricCeilingBand::Regular,
        ceiling_units: b(3.4),
        site_x: b(1.0),
        site_z: b(1.0),
        pillar: b(0.1),
        pillar_limit: b(0.7),
        place: FabricPlace::West,
        walls_on: true,
        rolls: rolls(),
        panel_x: b(0.1),
        panel_z: b(0.1),
        light: b(0.5),
        light_limit: b(0.78),
    }
}

#[test]
fn fabric_cells_open_one_of_two_walls() {
    for k in 0..100 {
        let opens = b(k as f32 / 100.0);
        let r = WallRolls { opens, ..rolls() };
        let west = cut_wall(FabricPlace::West, &r);
        let north = cut_wall(FabricPlace::North, &r);
        assert!((west == WallCut::Solid) != (north == WallCut::Solid));
    }
}

#[test]
fn fabric_walls_are_cut() {
    assert_eq!(cut_wall(FabricPlace::West, &rolls()), WallCut::Framed);
    assert_eq!(
        cut_wall(FabricPlace::West, &WallRolls { lintel: b(0.4), ..rolls() }),
        WallCut::Open
    );
    assert_eq!(
        cut_wall(FabricPlace::West, &WallRolls { along: b(3.9), ..rolls() }),
        WallCut::Solid
    );
    assert_eq!(
        cut_wall(FabricPlace::West, &WallRolls { wall: b(0.9), along: b(3.9), ..rolls() }),
        WallCut::Open
    );
    assert_eq!(
        cut_wall(FabricPlace::North, &WallRolls { extra: b(0.1), ..rolls() }),
        WallCut::Framed
    );
}

#[test]
fn fabric_columns_follow_their_samples() {
    let framed = column_plan(&fabric());
    assert!(!framed.solid && framed.light && !framed.red_light);
    assert_eq!(framed.lintel_from_units, Some(b(2.2)));
    assert_eq!(framed.ceiling_units, b(3.4));
    let post = column_plan(&FabricSample { place: FabricPlace::Post, ..fabric() });
    assert!(post.solid && !post.light);
    let open = column_plan(&FabricSample {
        place: FabricPlace::Post,
        walls_on: false,
        light: b(0.9),
        ..fabric()
    });
    assert!(!open.solid && !open.light);
    let pillar = column_plan(&FabricSample {
        band: FabricCeilingBand::Vault,
        site_x: b(0.4),
        site_z: b(0.0),
        ..fabric()
    });
    assert!(pillar.solid);
    let hall = column_plan(&FabricSample { band: FabricCeilingBand::Expanse, ..fabric() });
    assert!(!hall.solid && hall.lintel_from_units.is_none());
}

#[test]
fn corridor_ceilings_keep_their_range() {
    assert_eq!(corridor_ceiling(SpaceProgram::MainCorridor, b(5.0)), b(4.2));
    assert_eq!(corridor_ceiling(SpaceProgram::SecondaryHall, b(2.0)), b(3.0));
    assert_eq!(corridor_ceiling(SpaceProgram::Stair, b(9.0)), b(3.4));
    assert_eq!(corridor_ceiling(SpaceProgram::MainCorridor, b(3.8)), b(3.8));
}

#[test]
fn corridor_edges_open_away_from_spawn() {
    assert!(!corridor_edge_opens(b(600.0), true, b(8.0), b(7.0), b(16.0)));
    assert!(corridor_edge_opens(b(676.0), true, b(0.0), b(7.0), b(16.0)));
    assert!(corridor_edge_opens(b(900.0), false, b(7.0), b(7.0), b(16.0)));
    assert!(!corridor_edge_opens(b(900.0), false, b(16.0), b(7.0), b(16.0)));
}

fn spine(distance: f32, ceiling: f32, opens: bool) -> SpineSample {
    SpineSample {
        distance: b(distance),
        half: b(2.4),
        outer: b(2.8),
        phase: b(0.5),
        ceiling: b(ceiling),
        opens,
    }
}

#[test]
fn circulation_folds_all_spines() {
    let c = sample_circulation(&vec![spine(0.2, 3.6, false), spine(2.6, 4.0, true), spine(9.0, 5.0, true)]);
    assert!(c.in_corridor && c.light && c.wall && c.gap);
    assert_eq!(c.ceiling, b(4.0));
    let away = sample_circulation(&vec![spine(9.0, 5.0, true)]);
    assert!(!away.in_corridor && !away.wall && !away.gap && !away.light);
    assert_eq!(away.ceiling, 0);
}

fn area(x0: f32, z0: f32, x1: f32, z1: f32) -> WorldBounds {
    WorldBounds::new(b(x0), b(z0), b(x1), b(z1))
}

fn anomaly(family: AnomalyFamily, contains: bool, depth: f32, near: bool) -> AnomalySample {
    AnomalySample {
        family,
        contains,
        margin: if near { area(-1.0, -1.0, 1.0, 1.0) } else { area(50.0, 50.0, 60.0, 60.0) },
        depth: b(depth),
    }
}

fn scene(spines: Vec<SpineSample>, anomalies: Vec<AnomalySample>, reds: &[bool]) -> ColumnScene {
    ColumnScene {
        at: Position { x: b(0.0), z: b(0.0) },
        spines,
        anomalies,
        assemblies: reds
            .iter()
            .map(|red| AssemblyReach { bounds: area(-5.0, -5.0, 5.0, 5.0), red_room: *red })
            .collect(),
        walls_on: true,
        lights_on: true,
    }
}

#[test]
fn columns_have_one_owner_by_priority() {
    let hostile = anomaly(AnomalyFamily::Hostile, true, 0.4, false);
    let deeper = anomaly(AnomalyFamily::Hostile, true, 0.6, false);
    let anchor = anomaly(AnomalyFamily::Anchor, true, 0.1, true);
    let beside = anomaly(AnomalyFamily::Anchor, false, 0.1, true);
    let red = anomaly(AnomalyFamily::Red, true, 0.9, true);
    match claim_column(&scene(vec![spine(0.1, 3.8, false)], vec![anchor], &[false])) {
        ColumnClaim::Corridor { plan } => assert!(plan.light && !plan.solid && plan.ceiling_units == b(3.8)),
        other => panic!("{other:?}"),
    }
    assert_eq!(
        claim_column(&scene(vec![], vec![hostile, anchor], &[false])),
        ColumnClaim::Anchor { index: 1 }
    );
    assert_eq!(
        claim_column(&scene(vec![], vec![hostile, deeper, deeper, hostile], &[false])),
        ColumnClaim::Hostile { index: 2, frozen: false }
    );
    assert_eq!(
        claim_column(&scene(vec![], vec![hostile, beside], &[false])),
        ColumnClaim::Hostile { index: 0, frozen: true }
    );
    assert_eq!(
        claim_column(&scene(vec![spine(2.6, 3.0, false)], vec![red], &[false, true])),
        ColumnClaim::Assembly { index: 0, red: None }
    );
    assert_eq!(
        claim_column(&scene(vec![], vec![red], &[true])),
        ColumnClaim::Assembly { index: 0, red: Some(0) }
    );
    match claim_column(&scene(vec![spine(2.6, 3.0, false)], vec![], &[])) {
        ColumnClaim::CorridorWall { plan } => assert!(plan.solid && plan.ceiling_units == b(3.2)),
        other => panic!("{other:?}"),
    }
    assert_eq!(
        claim_column(&scene(vec![spine(2.6, 3.0, true)], vec![], &[])),
        ColumnClaim::Fabric
    );
}

fn bay(system: StructuralSystem, row: i64) -> BaySample {
    BaySample {
        system,
        in_bay_x: b(3.0),
        shifted_x: b(0.1),
        in_bay_z: b(0.1),
        row,
        column_side: b(0.4),
    }
}

#[test]
fn offset_grids_shift_odd_rows() {
    assert!(!on_column(&bay(StructuralSystem::OffsetGrid, 0)));
    assert!(on_column(&bay(StructuralSystem::OffsetGrid, 1)));
    assert!(on_column(&bay(StructuralSystem::OffsetGrid, -1)));
    assert!(!on_column(&bay(StructuralSystem::RegularGrid, 1)));
    assert!(!on_column(&BaySample { in_bay_x: b(0.1), ..bay(StructuralSystem::CoreAndShell, 0) }));
}

fn assembly(inside: bool) -> AssemblySample {
    AssemblySample {
        ceiling_units: b(3.6),
        inside,
        entrances: vec![],
        partitions: vec![],
        structure: bay(StructuralSystem::RegularGrid, 0),
        overlay: None,
        fixtures: vec![FixtureSample {
            lit: true,
            off_x: b(0.2),
            off_z: b(0.4),
            half_x: b(0.4),
            half_z: b(0.4),
        }],
        red_room: false,
    }
}

const ON: Systems = Systems { walls: true, pillars: true, lights: true };

#[test]
fn assembly_columns_follow_their_samples() {
    let lit = assembly_column(&assembly(true), &ON);
    assert!(lit.light && !lit.red_light && !lit.solid);
    assert!(assembly_column(&assembly(false), &ON).solid);
    assert!(!assembly_column(&assembly(false), &Systems { walls: false, ..ON }).solid);

    let mut door = assembly(false);
    door.entrances.push(EntranceSample {
        along: b(0.5),
        half_width: b(0.6),
        through: b(0.4),
        lintel_units: Some(b(2.2)),
    });
    let through = assembly_column(&door, &ON);
    assert!(!through.solid);
    assert_eq!(through.lintel_from_units, Some(b(2.2)));
    assert_eq!(
        assembly_column(&door, &Systems { walls: false, ..ON }).lintel_from_units,
        None
    );

    let mut red = assembly(true);
    red.red_room = true;
    let burning = assembly_column(&red, &ON);
    assert!(burning.light && burning.red_light && burning.wall_material == VOXEL_WALL);
    assert!(!assembly_column(&red, &Systems { lights: false, ..ON }).light);

    let mut overlaid = assembly(true);
    overlaid.overlay = Some(BaySample { in_bay_x: b(0.1), ..bay(StructuralSystem::RegularGrid, 0) });
    assert!(assembly_column(&overlaid, &ON).solid);
    assert!(!assembly_column(&overlaid, &Systems { pillars: false, ..ON }).solid);
}

#[test]
fn partitions_have_centered_doors() {
    let wall = PartitionSample {
        at: b(4.0),
        low: b(0.0),
        high: b(8.0),
        from_low_edge: b(6.0),
        from_high_edge: b(6.0),
        off_plane: b(0.1),
        off_middle: b(2.0),
    };
    let mut a = assembly(true);
    a.partitions.push(wall);
    assert!(assembly_column(&a, &ON).solid);
    a.partitions[0].off_middle = b(0.5);
    let door = assembly_column(&a, &ON);
    assert!(!door.solid);
    assert_eq!(door.lintel_from_units, Some(b(2.2)));
    a.partitions[0] = PartitionSample { from_low_edge: b(0.05), ..wall };
    assert!(!assembly_column(&a, &ON).solid);
}

fn gate(id: u64, kind: TraversalGateKind, axis: Axis2, plane: f32) -> TraversalGate {
    TraversalGate {
        id,
        instance_id: 5,
        anomaly_kind: AnomalyKind::PillarExpanse,
        kind,
        axis,
        plane: b(plane),
        span_min: b(0.0),
        span_max: b(10.0),
        forward: AxisDirection::Positive,
        affected_bounds: area(0.0, 0.0, 10.0, 10.0),
    }
}

fn hazard(id: u64) -> PitHazard {
    let at = Position { x: b(1.0), z: b(1.0) };
    PitHazard { id, instance_id: 5, center: at, half_side: b(0.4), depth: b(2.4), recovery: at }
}

fn chunk() -> ExportBounds {
    ExportBounds {
        bounds: area(0.0, 0.0, 20.0, 20.0),
        planes: area(-0.01, -0.01, 20.01, 20.01),
        margin: area(-1.0, -1.0, 21.0, 21.0),
    }
}

fn interactions(id: u64, x: f32, gates: Vec<TraversalGate>, hazards: Vec<PitHazard>) -> AnomalyInteractions {
    AnomalyInteractions { id, bounds: area(x, 0.0, x + 5.0, 5.0), gates, hazards }
}

#[test]
fn interactions_are_exported_once() {
    let remap = TraversalGateKind::Remap;
    let anomalies = vec![
        interactions(
            1,
            0.0,
            vec![gate(10, remap, Axis2::X, 5.0), gate(11, remap, Axis2::X, 30.0), gate(12, remap, Axis2::Z, 20.01)],
            vec![hazard(7), hazard(7), hazard(8)],
        ),
        interactions(1, 0.0, vec![gate(13, remap, Axis2::X, 5.0)], vec![hazard(9)]),
        interactions(2, 100.0, vec![gate(14, remap, Axis2::X, 5.0)], vec![]),
        interactions(3, 4.0, vec![gate(10, remap, Axis2::X, 6.0), gate(15, remap, Axis2::X, 6.0)], vec![hazard(8)]),
    ];
    let out = export_interactions(&anomalies, &chunk());
    assert_eq!(out.gates.iter().map(|g| g.id).collect::<Vec<u64>>(), vec![10, 12, 15]);
    assert_eq!(out.hazards.iter().map(|h| h.id).collect::<Vec<u64>>(), vec![7, 8]);
    assert!(!gate_crosses_bounds(&anomalies[0].gates[1], &chunk()));
}

#[test]
fn loop_checkpoints_are_added_once() {
    let red_loop = TraversalGateKind::RedLoop;
    let exported = vec![gate(10, red_loop, Axis2::X, 5.0)];
    let anomalies = vec![
        interactions(
            5,
            0.0,
            vec![
                gate(10, red_loop, Axis2::X, 5.0),
                gate(20, TraversalGateKind::Remap, Axis2::X, 5.0),
                gate(21, red_loop, Axis2::X, 5.0),
                gate(22, red_loop, Axis2::X, 50.0),
            ],
            vec![],
        ),
        interactions(6, 0.0, vec![gate(23, red_loop, Axis2::X, 5.0)], vec![]),
    ];
    let out = export_checkpoints(&exported, &anomalies, 5, &chunk());
    assert_eq!(out.iter().map(|g| g.id).collect::<Vec<u64>>(), vec![10, 21]);
}

#[test]
fn lights_are_exported_once() {
    let report = |x: f32| FixtureReport {
        abandoned: false,
        lit: true,
        at: Position { x: b(x), z: b(0.0) },
        owned: false,
        from_corner: Position { x: b(x), z: b(0.0) },
    };
    let fixtures = vec![
        FixtureReport { abandoned: true, ..report(1.0) },
        FixtureReport { lit: false, ..report(1.0) },
        report(1.0),
        report(1.0),
        FixtureReport { owned: true, ..report(2.0) },
        report(2.0),
        report(-15.0),
        report(-15.5),
        report(36.0),
    ];
    assert_eq!(light_candidates(&fixtures, b(35.0)), vec![2, 6]);
}

#[test]
fn lights_take_their_room() {
    assert_eq!((pendant_drop(false), pendant_drop(true)), (b(1.1), b(1.6)));
    let shape = FixtureShape {
        at: Position { x: b(1.0), z: b(2.0) },
        hung: b(2.0),
        half_x: b(1.0),
        half_z: b(0.25),
        double_x: b(2.0),
        double_z: b(0.5),
        program: SpaceProgram::OpenOffice,
        red: true,
    };
    let light = runtime_light(&shape);
    assert_eq!(light.kind, LightKind::Strip);
    assert_eq!(light.height, b(2.4));
    assert_eq!((light.red, light.green, light.blue), (b(1.0), b(0.22), b(0.16)));
    assert_eq!((light.range, light.intensity), (b(16.0), b(1.0)));
    let atrium = runtime_light(&FixtureShape {
        program: SpaceProgram::Atrium,
        hung: b(3.5),
        half_x: b(0.4),
        half_z: b(0.4),
        double_x: b(0.8),
        double_z: b(0.8),
        red: false,
        ..shape
    });
    assert_eq!(atrium.kind, LightKind::CeilingPanel);
    assert_eq!((atrium.height, atrium.range, atrium.intensity), (b(3.5), b(24.0), b(4.0)));
    assert_eq!((atrium.green, atrium.blue), (b(0.95), b(0.8)));
}

#[test]
fn buried_emitters_expose_nothing() {
    let mut grid = VoxelGrid::new(3, 3, 3);
    for x in 0..3 {
        for y in 0..3 {
            for z in 0..3 {
                grid.set(x, y, z, VOXEL_WALL);
            }
        }
    }
    grid.set(1, 1, 1, VOXEL_LIGHT);
    assert!(exposed_air_cells(&grid, VOXEL_LIGHT).is_empty());
    grid.set(1, 2, 1, VOXEL_AIR);
    grid.set(2, 1, 1, VOXEL_AIR);
    let cells = exposed_air_cells(&grid, VOXEL_LIGHT);
    assert_eq!(cells.len(), 2);
    assert!(cells.contains(&VoxelCoord { x: 1, y: 2, z: 1 }));
    assert!(cells.contains(&VoxelCoord { x: 2, y: 1, z: 1 }));
    assert!(exposed_air_cells(&grid, VOXEL_RED_LIGHT).is_empty());
}

#[test]
fn emission_profiles_are_fixed() {
    let rgb = |t: u8| emission_rgb(t).map(|p| (p.red, p.green, p.blue));
    assert_eq!(rgb(VOXEL_LIGHT), Some((15, 14, 11)));
    assert_eq!(rgb(VOXEL_RED_LIGHT), Some((15, 3, 2)));
    assert_eq!(rgb(VOXEL_GLIMMER), Some((3, 5, 7)));
    assert_eq!(rgb(VOXEL_WALL), None);
}

#[test]
fn neighbouring_chunks_agree_on_shared_columns() {
    let world = |x: i64, z: i64| {
        let mut plan = ColumnPlan::open(b(if (x + 2 * z).rem_euclid(3) == 0 { 4.0 } else { 3.0 }));
        plan.solid = x.rem_euclid(4) == 1;
        plan.light = z.rem_euclid(5) == 2;
        quantize(&plan, 0.5)
    };
    let mut whole = VoxelGrid::new(8, 11, 4);
    voxelize_columns(&mut whole, &ColumnField::sample(8, 4, |x: i64, z: i64| world(x, z)));
    let mut east = VoxelGrid::new(4, 11, 4);
    voxelize_columns(&mut east, &ColumnField::sample(4, 4, |x: i64, z: i64| world(x + 4, z)));
    for z in 0..4 {
        for y in 0..11 {
            for x in 0..4 {
                assert_eq!(east.get(x, y, z), whole.get(x + 4, y, z));
            }
        }
    }
    assert_eq!(whole.get(1, 3, 0), VOXEL_WALL);
    assert_eq!(whole.get(4, 6, 2), VOXEL_LIGHT);
}

#[test]
fn stairs_shape_their_open_inside_while_walls_stand() {
    assert!(stair_shapes(SpaceProgram::Stair, true, false, true));
    assert!(!stair_shapes(SpaceProgram::Storage, true, false, true));
    assert!(!stair_shapes(SpaceProgram::Stair, false, false, true));
    assert!(!stair_shapes(SpaceProgram::Stair, true, true, true));
    assert!(!stair_shapes(SpaceProgram::Stair, true, false, false));
}

#[test]
fn anomalies_own_the_places_they_take_over() {
    let red = anomaly(AnomalyFamily::Red, true, 0.5, true);
    let apart = anomaly(AnomalyFamily::Hostile, false, 0.5, true);
    assert!(!place_is_owned(&vec![red, apart]));
    assert!(place_is_owned(&vec![red, anomaly(AnomalyFamily::Anchor, true, 0.5, true)]));
    assert!(place_is_owned(&vec![anomaly(AnomalyFamily::Hostile, true, 0.1, false), red]));
    assert!(!place_is_owned(&vec![]));
}

#[test]
fn output_is_independent_of_its_partition() {
    let world = |x: i64, z: i64| {
        let mut plan = ColumnPlan::open(b(if (x * z).rem_euclid(4) == 1 { 4.5 } else { 3.0 }));
        plan.solid = (x - z).rem_euclid(5) == 0;
        quantize(&plan, 0.5)
    };
    let mut whole = VoxelGrid::new(8, 11, 8);
    voxelize_columns(&mut whole, &ColumnField::sample(8, 8, |x: i64, z: i64| world(x, z)));
    for tile in 0..4i64 {
        let (tx, tz) = (4 * (tile % 2), 4 * (tile / 2));
        let mut grid = VoxelGrid::new(4, 11, 4);
        voxelize_columns(&mut grid, &ColumnField::sample(4, 4, |x: i64, z: i64| world(tx + x, tz + z)));
        for z in 0..4 {
            for y in 0..11 {
                for x in 0..4 {
                    assert_eq!(grid.get(x, y, z), whole.get(tx as usize + x, y, tz as usize + z));
                }
            }
        }
    }
}
