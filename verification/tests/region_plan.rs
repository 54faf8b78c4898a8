use vackrooms::domain::entities::anomaly::{Position, WorldBounds};
use vackrooms::domain::entities::architecture::{
    ArchitectGenome, AssemblyInstance, CeilingLanguage, CirculationStyle, LightingLanguage, Polygon2,
    ProportionRules, RenovationStyle, Space, SpaceProgram, StructuralSystem, ThresholdLanguage,
};
use vackrooms::use_cases::region_plan::corridors::{
    branch_count, build_corridors, long_legs, main_legs, main_path, region_portals,
    spawn_point, spine_z_at, BranchCourse,
    SpineCourse, SpineLeg,
};
use vackrooms::use_cases::region_plan::corrupt::{
    corrupt, CorruptionRolls, RedOrders, ScaledRoll, SPARE_SUITE_ID,
};
use vackrooms::use_cases::region_plan::corruption::{
    abandon, force_red_room, overlay_renovation, realize_red_event, repeat_suite, strikes, CopySite,
    DoorReach,
};
use vackrooms::use_cases::region_plan::debug_view::{debug_region_ascii, glyph, AnomalyMark, PlanSpot};
use vackrooms::use_cases::region_plan::genome::{derive_genome, intruder_joins, pick_index, GenomeRolls};
use vackrooms::use_cases::region_plan::suites::{
    aabb_overlap, ceiling_height_for, fixtures_for, place_suite, spaces_for, structure_for,
    suite_program, threshold_for, Clearance, FixtureSites, Reserved, SuiteMeasures, SuiteWalk,
};

fn b(x: f32) -> u32 {
    x.to_bits()
}

fn at(x: f32, z: f32) -> Position {
    Position { x: b(x), z: b(z) }
}

fn area(x0: f32, z0: f32, x1: f32, z1: f32) -> WorldBounds {
    WorldBounds::new(b(x0), b(z0), b(x1), b(z1))
}

fn rolls() -> GenomeRolls {
    GenomeRolls {
        culture: 1,
        structure: 1,
        ceiling: 9,
        lighting: 2,
        renovation: 0,
        threshold: b(0.3),
        proportions: ProportionRules { min_side: b(12.0), max_side: b(20.0), elongation: b(0.5) },
        furnishing_density: b(0.5),
        tolerance_for_symmetry: b(0.2),
    }
}

fn genome() -> ArchitectGenome {
    derive_genome(&rolls())
}

#[test]
fn genomes_follow_their_rolls() {
    let g = genome();
    assert_eq!(g.circulation, CirculationStyle::MeanderingSpine);
    assert_eq!(g.structural_system, StructuralSystem::DeepSpansWithBeams);
    assert_eq!(g.threshold_language, ThresholdLanguage::OpenPortal);
    assert_eq!(g.ceiling_language, CeilingLanguage::ExposedSoffit);
    assert_eq!(g.lighting_language, LightingLanguage::StripsAlongCirculation);
    assert_eq!(g.renovation_history, RenovationStyle::Untouched);
    let door = derive_genome(&GenomeRolls { threshold: b(0.05), culture: 7, ..rolls() });
    assert_eq!(door.threshold_language, ThresholdLanguage::DoorWithLintel);
    assert_eq!(door.circulation, CirculationStyle::TreeWithCulDeSacs);
    assert_eq!((pick_index(3, 4), pick_index(4, 4)), (3, 3));
}

fn course() -> SpineCourse {
    SpineCourse {
        x0: b(0.0),
        x1: b(80.0),
        west_z: b(40.0),
        east_z: b(24.0),
        bend_x: b(32.0),
        mid_z: b(48.0),
        bend2_x: b(60.0),
    }
}

#[test]
fn spines_join_their_portals() {
    let straight = main_path(CirculationStyle::StraightSpine, &course());
    assert_eq!(straight, vec![at(0.0, 40.0), at(32.0, 40.0), at(32.0, 24.0), at(80.0, 24.0)]);
    let meander = main_path(CirculationStyle::MeanderingSpine, &course());
    assert_eq!(meander.len(), 6);
    assert_eq!(meander[2], at(32.0, 48.0));
    assert_eq!(spine_z_at(&straight, b(10.0)), b(40.0));
    assert_eq!(spine_z_at(&straight, b(50.0)), b(24.0));
    assert_eq!(spine_z_at(&straight, b(99.0)), b(40.0));
    assert_eq!(spawn_point(b(40.0)), at(6.0, 40.0));
}

#[test]
fn neighbours_meet_at_their_portal() {
    let west = main_path(CirculationStyle::PairedBranches, &course());
    let next = SpineCourse { x0: b(80.0), x1: b(160.0), west_z: b(24.0), ..course() };
    let east = main_path(CirculationStyle::MeanderingSpine, &next);
    assert_eq!(west.last(), east.first());
}

#[test]
fn branches_are_sparse() {
    assert_eq!(branch_count(CirculationStyle::StraightSpine, b(0.4)), 0);
    assert_eq!(branch_count(CirculationStyle::PairedBranches, b(0.4)), 1);
    assert_eq!(branch_count(CirculationStyle::MeanderingSpine, b(0.19)), 0);
    assert_eq!(branch_count(CirculationStyle::MeanderingSpine, b(0.25)), 0);
    assert_eq!(branch_count(CirculationStyle::TreeWithCulDeSacs, b(0.9)), 2);
    let branches = vec![
        BranchCourse { start: at(20.0, 40.0), end: at(20.0, 44.0), length: b(4.0) },
        BranchCourse { start: at(24.0, 40.0), end: at(24.0, 56.0), length: b(16.0) },
    ];
    let spines = build_corridors(CirculationStyle::StraightSpine, &course(), b(5.6), b(4.0), &branches);
    assert_eq!(spines.len(), 2);
    assert_eq!((spines[0].id, spines[0].spine_kind), (0, SpaceProgram::MainCorridor));
    assert_eq!((spines[1].id, spines[1].spine_kind), (1, SpaceProgram::SecondaryHall));
    assert_eq!(spines[1].path, vec![at(24.0, 40.0), at(24.0, 56.0)]);
    let legs = main_legs(&spines);
    assert_eq!(
        legs,
        vec![
            SpineLeg { x0: b(0.0), x1: b(32.0), z: b(40.0), width: b(5.6) },
            SpineLeg { x0: b(32.0), x1: b(80.0), z: b(24.0), width: b(5.6) },
        ]
    );
}

#[test]
fn palettes_and_tables_are_fixed() {
    assert_eq!(suite_program(0), SpaceProgram::OpenOffice);
    assert_eq!(suite_program(4), SpaceProgram::OpenOffice);
    assert_eq!(suite_program(6), SpaceProgram::ConferenceRoom);
    assert_eq!(suite_program(9), SpaceProgram::ServerRoom);
    assert_eq!(suite_program(99), SpaceProgram::PrivateOffice);
    let terms = ceiling_height_for(SpaceProgram::OpenOffice);
    assert_eq!((terms.base, terms.growth), (b(3.5), b(0.7)));
    assert_eq!(ceiling_height_for(SpaceProgram::Mechanical).base, b(2.6));
    assert_eq!(ceiling_height_for(SpaceProgram::Arrival).growth, b(0.5));
    let deep = structure_for(StructuralSystem::DeepSpansWithBeams, b(4.8), b(7.2), at(0.4, 0.8));
    assert_eq!((deep.bay_x, deep.bay_z, deep.column_side), (b(7.2), b(4.8), b(0.4)));
}

#[test]
fn thresholds_favour_open_fronts() {
    assert_eq!(threshold_for(ThresholdLanguage::DoorWithLintel, b(0.13)), ThresholdLanguage::DoorWithLintel);
    assert_eq!(threshold_for(ThresholdLanguage::OpenPortal, b(0.13)), ThresholdLanguage::OpenPortal);
    assert_eq!(threshold_for(ThresholdLanguage::OpenPortal, b(0.07)), ThresholdLanguage::DoorWithLintel);
    assert_eq!(threshold_for(ThresholdLanguage::WidePortal, b(0.09)), ThresholdLanguage::DoorWithLintel);
    assert_eq!(threshold_for(ThresholdLanguage::OpenPortal, b(0.62)), ThresholdLanguage::WidePortal);
    assert_eq!(threshold_for(ThresholdLanguage::WidePortal, b(0.3)), ThresholdLanguage::OpenPortal);
    assert_eq!(threshold_for(ThresholdLanguage::DoorWithLintel, b(0.7)), ThresholdLanguage::WidePortal);
}

fn sites() -> FixtureSites {
    FixtureSites {
        xs: vec![b(1.2), b(3.6)],
        zs: vec![b(1.2), b(3.6), b(6.0)],
        long_x: true,
        along: vec![b(1.6), b(4.8)],
        middle: b(4.0),
        pendants: vec![at(2.0, 2.0)],
    }
}

#[test]
fn fixtures_speak_their_language() {
    let panels = fixtures_for(LightingLanguage::GridPanels, &sites(), true);
    assert_eq!(panels.len(), 6);
    assert_eq!(panels[1].at, at(3.6, 1.2));
    assert_eq!(panels[2].at, at(1.2, 3.6));
    let strips = fixtures_for(LightingLanguage::StripsAlongCirculation, &sites(), false);
    assert_eq!(strips.len(), 2);
    assert_eq!(strips[1].at, at(4.8, 4.0));
    assert_eq!((strips[1].half_x, strips[1].half_z, strips[1].lit), (b(1.0), b(0.25), false));
    let upright = fixtures_for(
        LightingLanguage::StripsAlongCirculation,
        &FixtureSites { long_x: false, ..sites() },
        true,
    );
    assert_eq!(upright[0].at, at(4.0, 1.6));
    let pendants = fixtures_for(LightingLanguage::SparsePendants, &sites(), true);
    assert_eq!((pendants.len(), pendants[0].half_x), (1, b(0.3)));
}

#[test]
fn only_private_offices_split() {
    let (low, high) = (area(0.0, 0.0, 8.0, 8.0), area(8.0, 0.0, 16.0, 8.0));
    assert_eq!(spaces_for(SpaceProgram::PrivateOffice, 2, b(0.7), &low, &high).len(), 2);
    assert!(spaces_for(SpaceProgram::PrivateOffice, 1, b(0.7), &low, &high).is_empty());
    assert!(spaces_for(SpaceProgram::PrivateOffice, 2, b(0.5), &low, &high).is_empty());
    assert!(spaces_for(SpaceProgram::Storage, 2, b(0.7), &low, &high).is_empty());
}

fn suite() -> SuiteMeasures {
    SuiteMeasures {
        footprint: area(10.0, 20.0, 26.0, 30.0),
        far_x: b(26.8),
        far_z: b(30.8),
        limits: area(3.2, 3.2, 76.8, 76.8),
        clearances: vec![Clearance { distance: b(9.0), needed: b(5.0) }],
        above: true,
        door_x: b(14.0),
        portal_x: b(15.0),
        wide_x: b(16.0),
        threshold_roll: b(0.3),
        ceiling: b(3.8),
        bay: b(4.8),
        wide_bay: b(7.2),
        phase: at(0.4, 0.8),
        sites: sites(),
        rooms: 1,
        size_roll: b(0.3),
        low_half: area(10.0, 20.0, 18.0, 30.0),
        high_half: area(18.0, 20.0, 26.0, 30.0),
    }
}

fn placed() -> AssemblyInstance {
    place_suite(3, SpaceProgram::OpenOffice, &genome(), &suite(), &vec![]).unwrap()
}

#[test]
fn suites_open_onto_their_corridor() {
    let a = placed();
    assert_eq!((a.id, a.program), (3, SpaceProgram::OpenOffice));
    assert_eq!(a.entrances.len(), 1);
    assert_eq!(a.entrances[0].center, at(15.0, 20.0));
    assert_eq!((a.entrances[0].width, a.entrances[0].lintel_units), (b(4.8), None));
    assert_eq!(a.ceiling_zones[0].height_units, b(3.8));
    assert_eq!(a.fixtures.len(), 2);
    assert!(!a.corruption.abandoned && !a.corruption.red_room);
    let below = place_suite(
        4,
        SpaceProgram::Storage,
        &genome(),
        &SuiteMeasures { above: false, threshold_roll: b(0.01), ..suite() },
        &vec![],
    )
    .unwrap();
    assert_eq!(below.entrances[0].center, at(14.0, 30.0));
    assert_eq!((below.entrances[0].width, below.entrances[0].lintel_units), (b(1.2), Some(b(2.2))));
}

#[test]
fn suites_stay_inside_and_apart() {
    let none = |m: SuiteMeasures, taken: Vec<Reserved>| {
        place_suite(1, SpaceProgram::Storage, &genome(), &m, &taken).is_none()
    };
    assert!(none(SuiteMeasures { limits: area(12.0, 3.2, 76.8, 76.8), ..suite() }, vec![]));
    assert!(none(
        SuiteMeasures { clearances: vec![Clearance { distance: b(4.0), needed: b(5.0) }], ..suite() },
        vec![]
    ));
    let neighbour = Reserved { bounds: area(26.4, 20.0, 40.0, 30.0), far_x: b(40.8), far_z: b(30.8) };
    assert!(none(suite(), vec![neighbour]));
    let apart = Reserved { bounds: area(26.8, 20.0, 40.0, 30.0), far_x: b(40.8), far_z: b(30.8) };
    assert!(!none(suite(), vec![apart]));
    assert!(!aabb_overlap(&apart, &Reserved { bounds: area(10.0, 20.0, 26.0, 30.0), far_x: b(26.8), far_z: b(30.8) }));
}

#[test]
fn walks_alternate_sides() {
    let mut walk = SuiteWalk { id: 0, above: false };
    walk.start(b(0.2));
    assert!(walk.above && walk.wants_suite(b(0.61)) && !walk.wants_suite(b(0.63)));
    walk.advance();
    assert_eq!(walk, SuiteWalk { id: 1, above: false });
}

fn copy_site() -> CopySite {
    CopySite {
        limits: area(3.2, 3.2, 76.8, 76.8),
        far_x: b(26.4),
        far_z: b(30.4),
        doors: vec![DoorReach { distance: b(3.0), allowed: b(3.2) }],
        shift: at(14.0, 0.0),
    }
}

#[test]
fn repeated_suites_are_no_sealed_pockets() {
    let mut list = vec![placed()];
    assert!(repeat_suite(&mut list, placed(), &copy_site(), &vec![]));
    assert_eq!(list.len(), 2);
    assert_eq!(list[1].id, 1001);
    assert_eq!(list[1].corruption.misalignment, at(14.0, 0.0));
    let sealed = CopySite { doors: vec![DoorReach { distance: b(4.0), allowed: b(3.2) }], ..copy_site() };
    assert!(!repeat_suite(&mut list, placed(), &sealed, &vec![]));
    let ground = Reserved { bounds: area(0.0, 0.0, 80.0, 80.0), far_x: b(80.4), far_z: b(80.4) };
    assert!(!repeat_suite(&mut list, placed(), &copy_site(), &vec![ground]));
    let edge = CopySite { limits: area(10.0, 3.2, 76.8, 76.8), ..copy_site() };
    assert!(!repeat_suite(&mut list, placed(), &edge, &vec![]));
    assert_eq!(list.len(), 2);
    assert!(strikes(b(0.59)) && !strikes(b(0.6)));
}

#[test]
fn abandoned_suites_are_dark_shells() {
    let mut list = vec![placed(), placed()];
    list[1].spaces.push(Space {
        program: SpaceProgram::PrivateOffice,
        footprint: Polygon2::rect(b(10.0), b(20.0), b(18.0), b(30.0)),
    });
    abandon(&mut list, 1);
    assert_eq!(list[1].program, SpaceProgram::AbandonedExpansion);
    assert!(list[1].corruption.abandoned && list[1].spaces.is_empty());
    assert_eq!(list[1].fixtures.len(), 2);
    assert!(list[1].fixtures.iter().all(|f| !f.lit));
    assert!(list[0].fixtures.iter().all(|f| f.lit));
    overlay_renovation(&mut list, RenovationStyle::Untouched, 0);
    assert!(!list[0].corruption.renovation_overlay);
    overlay_renovation(&mut list, RenovationStyle::LayeredRefits, 0);
    assert!(list[0].corruption.renovation_overlay && !list[1].corruption.renovation_overlay);
}

#[test]
fn red_rooms_need_an_occupied_reachable_suite() {
    let mut list = vec![placed(), placed(), placed()];
    abandon(&mut list, 0);
    list[1].entrances.clear();
    assert_eq!(force_red_room(&mut list), Some(2));
    assert!(list[2].corruption.red_room && !list[0].corruption.red_room);

    let mut round = vec![placed(), placed(), placed(), placed()];
    abandon(&mut round, 2);
    assert_eq!(realize_red_event(&mut round, 10), Some(3));
    assert_eq!(realize_red_event(&mut round, 7), Some(3));
    abandon(&mut round, 3);
    assert_eq!(realize_red_event(&mut round, 11), Some(0));
    let mut none: Vec<AssemblyInstance> = vec![];
    assert_eq!(realize_red_event(&mut none, 3), None);
    let mut shells = vec![placed()];
    abandon(&mut shells, 0);
    assert_eq!(realize_red_event(&mut shells, 3), None);
    assert_eq!(force_red_room(&mut shells), None);
}

#[test]
fn plans_are_drawn_by_priority() {
    let empty = PlanSpot { program: None, anomaly: None, corridor: false, entrance: false };
    assert_eq!(glyph(&empty), '.');
    let office = PlanSpot { program: Some(SpaceProgram::OpenOffice), ..empty };
    assert_eq!(glyph(&office), 'o');
    assert_eq!(glyph(&PlanSpot { program: Some(SpaceProgram::Arrival), ..empty }), 'r');
    let pits = PlanSpot { anomaly: Some(AnomalyMark::Pits), ..office };
    assert_eq!(glyph(&pits), 'H');
    let corridor = PlanSpot { corridor: true, ..pits };
    assert_eq!(glyph(&corridor), '=');
    let door = PlanSpot { entrance: true, ..corridor };
    assert_eq!(glyph(&door), '+');
    let text: String = debug_region_ascii(&vec![empty, office, corridor, door], 2).into_iter().collect();
    assert_eq!(text, ".o\n=+\n");
}

fn corruption(repeat: f32, abandoned: f32, red: RedOrders) -> CorruptionRolls {
    CorruptionRolls {
        repeat: b(repeat),
        site: copy_site(),
        ground: Reserved { bounds: area(10.0, 20.0, 26.0, 30.0), far_x: b(26.8), far_z: b(30.8) },
        abandon: b(abandoned),
        abandoned: ScaledRoll { plain: 0, grown: 1 },
        overlaid: ScaledRoll { plain: 1, grown: 9 },
        red,
    }
}

fn orders(forced: bool, spare: Option<SuiteMeasures>, event: Option<u64>) -> RedOrders {
    RedOrders { forced, spare, event }
}

#[test]
fn corruption_runs_its_passes_in_order() {
    let refit = derive_genome(&GenomeRolls { renovation: 1, ..rolls() });
    let mut list = vec![placed(), placed()];
    let c = corruption(0.1, 0.1, orders(false, None, Some(4)));
    // The copy makes three; the second is abandoned, so the event moves on to the third.
    assert_eq!(corrupt(&mut list, &refit, placed(), &c, &vec![], &mut vec![]), Some(2));
    assert_eq!(list.len(), 3);
    assert_eq!(list[2].id, 1002);
    assert!(list[1].corruption.abandoned && !list[1].corruption.red_room);
    assert!(list[2].corruption.renovation_overlay && list[2].corruption.red_room);
    assert!(!list[0].corruption.abandoned && !list[0].corruption.renovation_overlay);
    assert_eq!(list[0].id, 3);

    let mut calm = vec![placed(), placed()];
    let quiet = corruption(0.7, 0.7, orders(false, None, None));
    assert_eq!(corrupt(&mut calm, &genome(), placed(), &quiet, &vec![], &mut vec![]), None);
    assert_eq!(calm.len(), 2);
    assert!(calm.iter().all(|a| !a.corruption.abandoned && !a.corruption.renovation_overlay));

    let mut none: Vec<AssemblyInstance> = vec![];
    let all = corruption(0.1, 0.1, orders(true, Some(suite()), Some(1)));
    assert_eq!(corrupt(&mut none, &refit, placed(), &all, &vec![], &mut vec![]), None);
    assert!(none.is_empty());
}

#[test]
fn forced_red_rooms_are_built_where_none_is_found() {
    let mut shell = vec![placed()];
    let c = corruption(0.7, 0.1, orders(true, Some(suite()), Some(0)));
    let mut taken = vec![];
    assert_eq!(corrupt(&mut shell, &genome(), placed(), &c, &vec![], &mut taken), Some(1));
    let built = Reserved { bounds: area(10.0, 20.0, 26.0, 30.0), far_x: b(26.8), far_z: b(30.8) };
    assert_eq!(taken, vec![built]);
    assert_eq!((shell[1].id, shell[1].program), (SPARE_SUITE_ID, SpaceProgram::PrivateOffice));
    assert!(shell[1].corruption.red_room && !shell[0].corruption.red_room);

    // Without ground for it there is nothing to burn.
    let ground = Reserved { bounds: area(0.0, 0.0, 80.0, 80.0), far_x: b(80.8), far_z: b(80.8) };
    let mut blocked = vec![placed()];
    assert_eq!(corrupt(&mut blocked, &genome(), placed(), &c, &vec![], &mut vec![ground]), None);
    assert_eq!(blocked.len(), 1);

    // A copy takes its ground from the suite.
    let mut copied = vec![placed()];
    copied[0].entrances.clear();
    let mut sealed = placed();
    sealed.entrances.clear();
    let c = corruption(0.1, 0.7, orders(true, Some(suite()), None));
    let mut taken = vec![];
    assert_eq!(corrupt(&mut copied, &genome(), sealed, &c, &vec![], &mut taken), None);
    assert_eq!(taken, vec![c.ground]);
    assert_eq!(copied.len(), 2);
}

#[test]
fn spawn_lies_on_the_main_spine() {
    for style in [CirculationStyle::StraightSpine, CirculationStyle::MeanderingSpine] {
        let spines = build_corridors(style, &course(), b(4.8), b(3.6), &vec![]);
        let spawn = spawn_point(course().west_z);
        assert_eq!(spawn, at(6.0, 40.0));
        assert_eq!(spines[0].spine_kind, SpaceProgram::MainCorridor);
        assert_eq!(spine_z_at(&spines[0].path, spawn.x), spawn.z);
    }
}

#[test]
fn masses_stand_beside_long_stretches_only() {
    let leg = |x1: f32| SpineLeg { x0: b(0.0), x1: b(x1), z: b(4.0), width: b(4.8) };
    let legs = vec![leg(14.0), leg(13.9), leg(30.0)];
    let lengths = vec![b(14.0), b(13.9), b(30.0)];
    assert_eq!(long_legs(&legs, &lengths), vec![leg(14.0), leg(30.0)]);
    assert!(long_legs(&vec![], &vec![]).is_empty());
    assert!(intruder_joins(b(0.1), b(0.2)) && !intruder_joins(b(0.2), b(0.2)));
}

#[test]
fn corridors_meet_at_shared_portals() {
    let lattice = |x: i64, z: i64| b((x * 8 + z) as f32);
    let (west, east) = (region_portals(2, 5, lattice), region_portals(3, 5, lattice));
    assert_eq!((west.west, west.east, east.west), (b(21.0), b(29.0), b(29.0)));
    let a = SpineCourse { west_z: west.west, east_z: west.east, ..course() };
    let c = SpineCourse { x0: a.x1, x1: b(160.0), west_z: east.west, east_z: east.east, ..course() };
    let left = build_corridors(CirculationStyle::MeanderingSpine, &a, b(4.8), b(3.6), &vec![]);
    let right = build_corridors(CirculationStyle::StraightSpine, &c, b(5.6), b(3.6), &vec![]);
    assert_eq!(left[0].path.last(), right[0].path.first());
    assert_eq!(left[0].path.last(), Some(&at(80.0, 29.0)));
}
