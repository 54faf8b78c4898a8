use rand::distr::Bernoulli;
use vackrooms::domain::entities::anomaly::Position;
use vackrooms::domain::entities::blueprint::{Blueprint, MicrobiomeZone};
use vackrooms::domain::entities::voxel_grid::{
    VoxelGrid, VOXEL_AIR, VOXEL_CEILING, VOXEL_FLOOR, VOXEL_LIGHT, VOXEL_WALL,
};
use vackrooms::use_cases::chunk::draws::{
    detail_rng, draw_room_attempts, shuffle_cells, structure_rng, structure_state,
};
use vackrooms::use_cases::chunk::metrics::ChunkMetrics;
use vackrooms::use_cases::chunk::stamps::{validate_stamp_placement, place_stamp, Room, RoomStamp};
use vackrooms::use_cases::chunk::zones::{assign_zones, chunk_height, classify_zone};
use vackrooms::use_cases::generate_chunk::{build_hub, finish_chunk, plan_rooms};
use vackrooms::use_cases::generator_config::{GeneratorConfig, LevelTuning};
use vackrooms::use_cases::level_generator::{route_chunk, ChunkRoute, LEVEL_GRASSLAND};
use vackrooms::use_cases::ports::{elapsed_micros, NullTelemetry, TelemetryPort};

fn b(x: f32) -> u32 {
    x.to_bits()
}

fn side(config: &GeneratorConfig) -> (f32, f32) {
    (f32::from_bits(config.chunk_size), f32::from_bits(config.voxel_scale))
}

fn voxels(config: &GeneratorConfig) -> u32 {
    let (size, scale) = side(config);
    (size / scale).round().max(1.0) as u32
}

/// A closed plan of a chunk whose noise is the same everywhere.
fn zoned_plan(config: &GeneratorConfig, noise: f32) -> Blueprint {
    let (size, _) = side(config);
    let cells = ((size / 5.0).round() as usize).max(1);
    let mut plan = Blueprint::new(cells, cells);
    let atria = f32::from_bits(config.tuning.atria);
    assign_zones(&mut plan, &vec![b(noise); cells * cells], b(0.85 - atria * 0.1));
    plan
}

fn metrics(config: &GeneratorConfig, plan: &Blueprint) -> ChunkMetrics {
    let (size, scale) = side(config);
    let cells = plan.width();
    let rows = |units: f32| (units / scale).ceil() as usize;
    let m = ChunkMetrics {
        width: (size / scale) as usize,
        height: chunk_height(plan, rows(12.0), rows(3.2), rows(4.0)),
        cells,
        borders: (0..=cells).map(|c| (c as f32 * 5.0 / scale).round() as usize).collect(),
        tall_top: rows(12.0),
        low_top: rows(3.2),
        standard_top: rows(4.0),
        door_top: rows(2.5),
        narrow_hole: (1.2 / scale) as usize,
        medium_hole: (2.0 / scale) as usize,
        wide_hole: (3.5 / scale) as usize,
        offsets: (0..500).map(|cm| (cm as f32 / 100.0 / scale) as usize).collect(),
        spacing: (6.0 * (scale / 0.1)) as usize,
    };
    assert!(m.check());
    m
}

fn generate(x: f32, z: f32, seed: u32, config: &GeneratorConfig, noise: f32) -> VoxelGrid {
    let mut plan = zoned_plan(config, noise);
    let m = metrics(config, &plan);
    match route_chunk(config.level, &Position { x: b(x), z: b(z) }) {
        ChunkRoute::Hub => return build_hub(&m),
        ChunkRoute::Grassland => panic!("no grassland here"),
        ChunkRoute::Offices => {}
    }
    let mut rng = structure_rng(seed, b(x), b(z));
    let mut detail = detail_rng(seed, b(x), b(z));
    let placed = plan_rooms(&mut plan, &m, &mut rng);
    let target = (placed.order.len() as f32 * 0.20) as usize;
    let density = f32::from_bits(config.tuning.stairs_density);
    let stairs = Bernoulli::new(0.15 * density as f64).unwrap();
    finish_chunk(&mut plan, &placed, target, &m, &mut rng, &mut detail, &stairs)
}

#[test]
fn svo_depth_matches_legacy_values_for_both_specs() {
    let low = GeneratorConfig::low_spec();
    let high = GeneratorConfig::high_spec();
    assert_eq!(low.svo_depth(voxels(&low)), 6);
    assert_eq!(high.svo_depth(voxels(&high)), 8);
}

#[test]
fn at_lod_halves_resolution_but_keeps_world_size() {
    for base in [GeneratorConfig::low_spec(), GeneratorConfig::high_spec()] {
        let coarse = base.at_lod(1);
        assert_eq!(coarse.svo_depth(voxels(&coarse)), base.svo_depth(voxels(&base)) - 1);
        assert_eq!(
            coarse.svo_world_size(voxels(&coarse)),
            base.svo_world_size(voxels(&base)),
            "payloads of any LOD must be interchangeable to the renderer"
        );
        let same = base.at_lod(0);
        assert_eq!(same.svo_depth(voxels(&same)), base.svo_depth(voxels(&base)));
    }
}

#[test]
fn world_sizes_are_products() {
    for base in [GeneratorConfig::low_spec(), GeneratorConfig::high_spec()] {
        for lod in 0..7u8 {
            let config = base.at_lod(lod);
            let expected = f32::from_bits(base.voxel_scale) * (1u32 << lod.min(4)) as f32;
            assert_eq!(f32::from_bits(config.voxel_scale), expected);
            let size = (1 << config.svo_depth(voxels(&config))) as f32 * expected;
            assert_eq!(config.svo_world_size(voxels(&config)), b(size));
        }
    }
    let tiny = GeneratorConfig { voxel_scale: b(1.0e-42), ..GeneratorConfig::low_spec() };
    assert_eq!(tiny.at_lod(4).voxel_scale, b(1.0e-42 * 16.0));
    let huge = GeneratorConfig { voxel_scale: b(3.0e38), ..GeneratorConfig::low_spec() };
    assert_eq!(huge.at_lod(1).voxel_scale, b(f32::INFINITY));
    let below = GeneratorConfig { voxel_scale: b(-0.75), ..GeneratorConfig::low_spec() };
    assert_eq!(below.at_lod(2).voxel_scale, b(-3.0));
}

#[test]
fn configs_are_built_field_by_field() {
    let tuning = LevelTuning { walls: b(0.0), ..LevelTuning::default() };
    let config = GeneratorConfig::high_spec().with_level(34).with_tuning(tuning);
    assert_eq!(config.level, 34);
    assert_eq!(config.tuning.walls, b(0.0));
    assert_eq!(config.tuning.lights, b(1.0));
    assert_eq!((config.chunk_size, config.voxel_scale), (b(20.0), b(0.1)));
}

#[test]
fn coarse_chunk_generates_the_same_layout_smaller() {
    let fine = generate(10.0, 10.0, 42, &GeneratorConfig::low_spec().with_level(0), 0.0);
    let coarse = generate(10.0, 10.0, 42, &GeneratorConfig::low_spec().with_level(0).at_lod(1), 0.0);
    assert_eq!(coarse.width() * 2, fine.width());
    assert_eq!(coarse.depth() * 2, fine.depth());
    let wall = VOXEL_WALL;
    let mut wall_match = 0usize;
    let mut wall_total = 0usize;
    for z in 0..coarse.depth() {
        for x in 0..coarse.width() {
            if coarse.get(x, 1, z) != wall {
                continue;
            }
            wall_total += 1;
            let (fx, fz) = (x * 2, z * 2);
            let mut near = false;
            for dz in -1i32..=2 {
                for dx in -1i32..=2 {
                    let (sx, sz) = (fx as i32 + dx, fz as i32 + dz);
                    if sx >= 0
                        && sz >= 0
                        && (sx as usize) < fine.width()
                        && (sz as usize) < fine.depth()
                        && fine.get(sx as usize, 1, sz as usize) == wall
                    {
                        near = true;
                    }
                }
            }
            if near {
                wall_match += 1;
            }
        }
    }
    assert!(wall_total > 0, "coarse chunk must still contain walls");
    assert!(
        wall_match * 10 >= wall_total * 9,
        "coarse walls should lie within one fine voxel of fine walls: {wall_match}/{wall_total}"
    );
}

#[test]
fn test_voxel_native_blueprint_walkable() {
    let config = GeneratorConfig::high_spec().with_level(1);
    let grid = generate(0.0, 0.0, 42, &config, 0.0);

    assert_eq!(grid.width(), 200);
    assert_eq!(grid.height(), 42);
    assert_eq!(grid.depth(), 200);
}

#[test]
fn hub_is_an_open_plaza() {
    let grid = generate(0.5, -0.5, 7, &GeneratorConfig::low_spec(), 0.0);
    let top = grid.height() - 1;
    for z in 0..grid.depth() {
        for x in 0..grid.width() {
            let lamp = x > 0 && z > 0 && x % 20 == 0 && z % 20 == 0;
            assert_eq!(grid.get(x, 0, z), if lamp { VOXEL_LIGHT } else { VOXEL_FLOOR });
            assert_eq!(grid.get(x, top, z), if lamp { VOXEL_LIGHT } else { VOXEL_CEILING });
            assert_eq!(grid.get(x, 1, z), VOXEL_AIR);
        }
    }
    assert_eq!(grid.get_light(20, 1, 20), 15);
}

#[test]
fn test_chunk_seeding_varies_output() {
    let config = GeneratorConfig::high_spec().with_level(0);
    let grid1 = generate(10.0, 10.0, 42, &config, 0.0);
    let grid2 = generate(10.0, 10.0, 43, &config, 0.0);

    let mut diff_count = 0;
    for z in 0..grid1.depth() {
        for x in 0..grid1.width() {
            if grid1.get(x, 1, z) != grid2.get(x, 1, z) {
                diff_count += 1;
            }
        }
    }

    assert!(diff_count > 100, "Expected significant voxel differences between seeds");
}

#[test]
fn same_seed_makes_the_same_chunk() {
    let config = GeneratorConfig::low_spec();
    let grid1 = generate(10.0, 30.0, 7, &config, -0.5);
    let grid2 = generate(10.0, 30.0, 7, &config, -0.5);
    for y in 0..grid1.height() {
        for z in 0..grid1.depth() {
            for x in 0..grid1.width() {
                assert_eq!(grid1.get(x, y, z), grid2.get(x, y, z));
                assert_eq!(grid1.get_light(x, y, z), grid2.get_light(x, y, z));
            }
        }
    }
}

fn count_stairs(grid: &VoxelGrid) -> usize {
    let mut count = 0;
    for z in 0..grid.depth() {
        for x in 0..grid.width() {
            if grid.get(x, 1, z) == VOXEL_FLOOR && grid.get(x, 2, z) == VOXEL_FLOOR {
                count += 1;
            }
        }
    }
    count
}

#[test]
fn test_stairs_density_scaling() {
    let mut config_zero = GeneratorConfig::high_spec().with_level(0);
    config_zero.tuning.stairs_density = b(0.0);
    let mut config_high = GeneratorConfig::high_spec().with_level(0);
    config_high.tuning.stairs_density = b(3.0);

    let mut stairs_zero_count = 0;
    let mut stairs_high_count = 0;
    for i in 0..5 {
        stairs_zero_count += count_stairs(&generate(i as f32, 0.0, 42, &config_zero, 0.0));
        stairs_high_count += count_stairs(&generate(i as f32, 0.0, 42, &config_high, 0.0));
    }

    assert_eq!(stairs_zero_count, 0, "Expected zero stairs with density 0.0");
    assert!(stairs_high_count > 0, "Expected stairs to generate with density 3.0");
}

#[test]
fn test_atrium_zone_ceiling_height() {
    let grid = generate(1.0, 1.0, 42, &GeneratorConfig::high_spec(), 0.9);
    assert!(
        grid.height() >= 122,
        "Atrium chunk should allocate grid height for 12.0 units (120 voxels)"
    );

    let grid_std = generate(1.0, 1.0, 42, &GeneratorConfig::high_spec(), 0.0);
    assert_eq!(
        grid_std.height(),
        42,
        "Standard chunk should allocate grid height for 4.0 units (40 voxels)"
    );
}

#[test]
fn test_atria_tuning_knob() {
    let n = 0.8f32;

    let mut config_zero = GeneratorConfig::high_spec();
    config_zero.tuning.atria = b(0.0);
    let threshold_zero = 0.85 - (f32::from_bits(config_zero.tuning.atria) * 0.1);
    let is_atrium_zero = classify_zone(b(n), b(threshold_zero)) == MicrobiomeZone::Atrium;

    let mut config_high = GeneratorConfig::high_spec();
    config_high.tuning.atria = b(3.0);
    let threshold_high = 0.85 - (f32::from_bits(config_high.tuning.atria) * 0.1);
    let is_atrium_high = classify_zone(b(n), b(threshold_high)) == MicrobiomeZone::Atrium;

    assert!(
        !is_atrium_zero,
        "Expected zero Atrium zones with atria tuning = 0.0 at noise 0.8"
    );
    assert!(is_atrium_high, "Expected Atrium zones with atria tuning = 3.0 at noise 0.8");
}

#[test]
fn zones_follow_the_noise() {
    let zone = |n: f32| classify_zone(b(n), b(0.75));
    assert_eq!(zone(-0.8), MicrobiomeZone::Blackout);
    assert_eq!(zone(-0.5), MicrobiomeZone::Holes);
    assert_eq!(zone(0.8), MicrobiomeZone::Atrium);
    assert_eq!(zone(0.7), MicrobiomeZone::PillarField);
    assert_eq!(zone(0.5), MicrobiomeZone::Arch);
    assert_eq!(zone(0.22), MicrobiomeZone::RedRoom);
    assert_eq!(zone(0.25), MicrobiomeZone::Standard);
    assert_eq!(zone(0.0), MicrobiomeZone::Standard);
}

#[test]
fn generators_are_seeded_by_place() {
    assert_eq!(structure_state(1, 2, 4), 7);
    let attempts = |seed: u32| draw_room_attempts(&mut structure_rng(seed, 0, 0), 20);
    assert_eq!(attempts(42), attempts(42));
    assert_ne!(attempts(42), attempts(43));
    let mut detail = detail_rng(42, 0, 0);
    assert_ne!(attempts(42), draw_room_attempts(&mut detail, 20));
    for d in attempts(42) {
        assert!(d.cx < 20 && d.cz < 20);
        assert!((1..=3).contains(&d.rw) && (1..=3).contains(&d.rd));
    }
}

#[test]
fn shuffling_keeps_every_cell() {
    let mut cells: Vec<usize> = (0..50).collect();
    shuffle_cells(&mut structure_rng(3, 1, 2), &mut cells);
    assert_ne!(cells, (0..50).collect::<Vec<usize>>());
    cells.sort();
    assert_eq!(cells, (0..50).collect::<Vec<usize>>());
}

#[test]
fn stamps_need_clear_ground() {
    let mut grid = VoxelGrid::new(40, 5, 40);
    let room = Room { x0: 0, x1: 39, z0: 0, z1: 39 };
    let stamp = RoomStamp::waiting();
    for x in 0..40 {
        for z in 0..40 {
            grid.set(x, 0, z, VOXEL_FLOOR);
        }
    }
    assert!(validate_stamp_placement(&grid, &room, &stamp, 5, 5));
    assert!(!validate_stamp_placement(&grid, &room, &stamp, 25, 5));
    place_stamp(&mut grid, &stamp, 5, 5);
    assert_ne!(grid.get(5 + 4, 1, 5 + 6), VOXEL_AIR);
    assert_eq!(grid.get(5, 1, 5), VOXEL_AIR);
}

#[test]
fn chunks_are_routed_by_level_and_place() {
    let origin = Position { x: b(0.9), z: b(-0.9) };
    let away = Position { x: b(1.0), z: b(0.0) };
    assert_eq!(route_chunk(LEVEL_GRASSLAND, &origin), ChunkRoute::Grassland);
    assert_eq!(route_chunk(0, &origin), ChunkRoute::Hub);
    assert_eq!(route_chunk(1, &away), ChunkRoute::Offices);
}

#[test]
fn null_telemetry_is_silent() {
    let telemetry = NullTelemetry;
    telemetry.log("nothing");
    assert_eq!(telemetry.now_micros(), 0);
    assert_eq!(elapsed_micros(5, 9), 4);
    assert_eq!(elapsed_micros(9, 5), 0);
}

#[test]
fn octree_depths_reach_the_last_power_of_two() {
    let config = GeneratorConfig::low_spec();
    assert_eq!(config.svo_depth(1), 0);
    assert_eq!(config.svo_depth(0x4000_0000), 30);
    assert_eq!(config.svo_depth(0x4000_0001), 31);
    assert_eq!(config.svo_depth(0x8000_0000), 31);
}

#[test]
fn hubs_need_only_a_grid_that_fits() {
    let config = GeneratorConfig::low_spec();
    let mut m = metrics(&config, &zoned_plan(&config, 0.0));
    m.width = 41;
    m.height = 2;
    m.borders.clear();
    let grid = build_hub(&m);
    assert_eq!((grid.width(), grid.height(), grid.depth()), (41, 2, 41));
    assert_eq!(grid.get(20, 1, 40), VOXEL_LIGHT);
    assert_eq!(grid.get(0, 0, 20), VOXEL_FLOOR);
}
