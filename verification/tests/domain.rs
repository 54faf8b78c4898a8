use vackrooms::domain::entities::anomaly::Position;
use vackrooms::domain::entities::architecture::{CirculationSpine, Polygon2, SegmentSample, SpaceProgram};
use vackrooms::domain::entities::cell::Cell;
use vackrooms::domain::entities::voxel_grid::{
    VoxelGrid, VOXEL_AIR, VOXEL_LIGHT, VOXEL_RED_LIGHT, VOXEL_WALL,
};
use vackrooms::domain::float_bits::{
    bits_absolute, bits_at_most, bits_clamped, bits_equal, bits_is_nan, bits_less, bits_max, bits_min,
    bits_negated, bits_rank_at_most,
};
use vackrooms::domain::hashing::{hash_words, high_half, join_halves, low_half, mix64};
use vackrooms::domain::ordering::first_by_id;
use vackrooms::domain::plane::Plane;
use vackrooms::domain::unit_interval::unit;
use vackrooms::domain::use_cases::calculate_lighting::calculate_voxel_lighting;

fn b(x: f32) -> u32 {
    x.to_bits()
}

#[test]
fn test_new_cell_has_all_walls_and_unvisited() {
    let cell = Cell::new();
    assert_eq!(cell.visited, false);
    assert_eq!(cell.walls, [true, true, true, true]);
}

#[test]
fn test_light_propagation() {
    let mut grid = VoxelGrid::new(3, 3, 3);
    grid.set(1, 1, 1, VOXEL_LIGHT);
    grid.set(2, 1, 1, VOXEL_WALL);

    calculate_voxel_lighting(&mut grid);

    assert_eq!(grid.get_light(1, 1, 1), 15);
    assert_eq!(grid.get_light(1, 2, 1), 14);
    assert_eq!(grid.get_light(2, 1, 1), 14);
    assert_eq!(grid.get_light(3, 1, 1), 0);
}

#[test]
fn light_fades_one_level_per_voxel() {
    let mut grid = VoxelGrid::new(20, 1, 1);
    grid.set(0, 0, 0, VOXEL_LIGHT);
    calculate_voxel_lighting(&mut grid);
    for x in 0..20 {
        let expected: u8 = if x < 15 { 15 - x as u8 } else { 0 };
        assert_eq!(grid.get_light(x, 0, 0), expected, "at {x}");
    }
}

#[test]
fn light_does_not_pass_through_walls() {
    let mut grid = VoxelGrid::new(5, 1, 1);
    grid.set(0, 0, 0, VOXEL_LIGHT);
    grid.set(2, 0, 0, VOXEL_WALL);
    calculate_voxel_lighting(&mut grid);
    assert_eq!(grid.get_light(2, 0, 0), 13);
    assert_eq!(grid.get_light(3, 0, 0), 0);
}

#[test]
fn light_takes_the_best_of_two_sources() {
    let mut grid = VoxelGrid::new(9, 1, 1);
    grid.set(0, 0, 0, VOXEL_LIGHT);
    grid.set(8, 0, 0, VOXEL_LIGHT);
    calculate_voxel_lighting(&mut grid);
    for x in 0..9usize {
        let near = x.min(8 - x) as u8;
        assert_eq!(grid.get_light(x, 0, 0), 15 - near);
    }
}

#[test]
fn red_sources_shine_red() {
    let mut grid = VoxelGrid::new(3, 1, 1);
    grid.set(0, 0, 0, VOXEL_RED_LIGHT);
    calculate_voxel_lighting(&mut grid);
    assert_eq!(grid.get_light(0, 0, 0), 15);
    assert_eq!(grid.get_light(2, 0, 0), 13);
    for x in 0..3 {
        assert_eq!(grid.get_face_occlusion(x, 0, 0), 0b0100_0000);
    }
    assert_eq!(grid.get(0, 0, 0), VOXEL_RED_LIGHT);
}

#[test]
fn light_falls_without_fading() {
    let mut grid = VoxelGrid::new(2, 6, 1);
    grid.set(0, 5, 0, VOXEL_LIGHT);
    calculate_voxel_lighting(&mut grid);
    for y in 0..6 {
        assert_eq!(grid.get_light(0, y, 0), 15);
        assert_eq!(grid.get_light(1, y, 0), 14);
    }
}

#[test]
fn voxel_grid_ignores_coordinates_outside() {
    let mut grid = VoxelGrid::new(2, 3, 4);
    assert_eq!((grid.width(), grid.height(), grid.depth()), (2, 3, 4));
    grid.set(2, 0, 0, VOXEL_WALL);
    grid.set(0, 3, 0, VOXEL_WALL);
    grid.set(0, 0, 4, VOXEL_WALL);
    for y in 0..3 {
        for z in 0..4 {
            for x in 0..2 {
                assert_eq!(grid.get(x, y, z), VOXEL_AIR);
            }
        }
    }
    assert_eq!(grid.get(9, 9, 9), VOXEL_AIR);
    grid.set(1, 2, 3, VOXEL_WALL);
    assert_eq!(grid.get(1, 2, 3), VOXEL_WALL);
    assert_eq!(grid.get(0, 2, 3), VOXEL_AIR);
}

#[test]
fn voxel_grid_keeps_light_and_occlusion_apart() {
    let mut grid = VoxelGrid::new(2, 2, 2);
    grid.set(1, 1, 1, VOXEL_WALL);
    grid.set_light(1, 1, 1, 9);
    assert_eq!(grid.get_light(1, 1, 1), 9);
    assert_eq!(grid.get_light_rgb(1, 1, 1), [9, 9, 9]);
    grid.set_light_rgb(1, 1, 1, [3, 12, 7]);
    assert_eq!(grid.get_light(1, 1, 1), 12);
    assert_eq!(grid.get_light_rgb(1, 1, 1), [3, 12, 7]);
    grid.set_face_occlusion(1, 1, 1, 0b10_1010);
    assert_eq!(grid.get_face_occlusion(1, 1, 1), 0b10_1010);
    assert_eq!(grid.get(1, 1, 1), VOXEL_WALL);
    assert_eq!(grid.get_face_occlusion(5, 5, 5), 0);
}

#[test]
fn float_bits_compare_as_floats() {
    let samples = [
        0.0f32,
        -0.0,
        1.0,
        -1.0,
        0.5,
        -2.5,
        1.0e30,
        -1.0e30,
        1.0e-42,
        f32::INFINITY,
        f32::NEG_INFINITY,
        f32::NAN,
    ];
    for x in samples {
        for y in samples {
            assert_eq!(bits_less(b(x), b(y)), x < y, "{x} < {y}");
            assert_eq!(bits_at_most(b(x), b(y)), x <= y, "{x} <= {y}");
            assert_eq!(bits_equal(b(x), b(y)), x == y, "{x} == {y}");
            assert_eq!(
                bits_rank_at_most(b(x), b(y)),
                x.total_cmp(&y) != std::cmp::Ordering::Greater,
                "{x} and {y} in the total order"
            );
            if x == x || y == y {
                assert_eq!(f32::from_bits(bits_min(b(x), b(y))), x.min(y));
                assert_eq!(f32::from_bits(bits_max(b(x), b(y))), x.max(y));
            }
        }
        assert_eq!(bits_negated(b(x)), b(-x));
        assert_eq!(bits_absolute(b(x)), b(x.abs()));
        assert_eq!(bits_is_nan(b(x)), x.is_nan());
        if !x.is_nan() {
            assert_eq!(f32::from_bits(bits_clamped(b(x), b(-1.5), b(2.0))), x.clamp(-1.5, 2.0));
        }
    }
}

#[test]
fn unit_interval_holds_every_tick() {
    for ticks in [0u64, 1, 2, 3, 1000, 0x7F_FFFF, 0x80_0000, 0x80_0001, 0xFF_FFFF] {
        let expected = ticks as f32 / (1u64 << 24) as f32;
        assert_eq!(unit((ticks << 40) | 0xFFFF), expected.to_bits(), "{ticks}");
    }
}

#[test]
fn mixing_spreads_bits() {
    assert_eq!(mix64(0), 0);
    assert_eq!(mix64(1), 0x5692_161D_100B_05E5);
    assert_ne!(mix64(2), mix64(3));
}

#[test]
fn word_hash_depends_on_order_and_count() {
    assert_ne!(hash_words(&[1, 2], 2), hash_words(&[2, 1], 2));
    assert_ne!(hash_words(&[1, 2], 1), hash_words(&[1, 2], 2));
    assert_eq!(hash_words(&[1, 2, 9], 2), hash_words(&[1, 2], 2));
}

#[test]
fn halves_join_again() {
    let x = 0x0123_4567_89AB_CDEFu64;
    assert_eq!(low_half(x), 0x89AB_CDEF);
    assert_eq!(high_half(x), 0x0123_4567);
    assert_eq!(join_halves(low_half(x), high_half(x)), x);
}

#[test]
fn first_of_every_id_in_order() {
    assert_eq!(first_by_id(&vec![5, 3, 5, 1, 3]), vec![3, 1, 0]);
    assert_eq!(first_by_id(&vec![]), Vec::<usize>::new());
}

#[test]
fn plane_holds_its_cells() {
    let mut plane = Plane::new(3, 2, 7u8);
    plane.set(2, 1, 9);
    assert_eq!(plane.get(2, 1), 9);
    assert_eq!(plane.get(1, 1), 7);
    assert_eq!((plane.width(), plane.height()), (3, 2));
}

/// Where the line of the edge that ends in each vertex meets the height of a ray.
fn crossings(p: &Polygon2, z: f32) -> Vec<u32> {
    let v: Vec<(f32, f32)> = p
        .vertices
        .iter()
        .map(|q| (f32::from_bits(q.x), f32::from_bits(q.z)))
        .collect();
    (0..v.len())
        .map(|i| {
            let (xi, zi) = v[i];
            let (xj, zj) = v[(i + v.len() - 1) % v.len()];
            b((xj - xi) * (z - zi) / (zj - zi) + xi)
        })
        .collect()
}

#[test]
fn rect_polygon_contains_interior_not_exterior() {
    let p = Polygon2::rect(b(10.0), b(20.0), b(10.0 + 5.0), b(20.0 + 8.0));
    assert!(p.contains(b(12.0), b(24.0), &crossings(&p, 24.0)));
    assert!(!p.contains(b(9.9), b(24.0), &crossings(&p, 24.0)));
    assert!(!p.contains(b(12.0), b(28.5), &crossings(&p, 28.5)));
    let bounds = p.bounds();
    assert_eq!(
        (bounds.min_x, bounds.min_z, bounds.max_x, bounds.max_z),
        (b(10.0), b(20.0), b(15.0), b(28.0))
    );
}

#[test]
fn rectangles_are_half_open() {
    let p = Polygon2::rect(b(0.0), b(0.0), b(4.0), b(4.0));
    assert!(p.contains(b(0.0), b(0.0), &crossings(&p, 0.0)));
    assert!(!p.contains(b(4.0), b(2.0), &crossings(&p, 2.0)));
    assert!(!p.contains(b(2.0), b(4.0), &crossings(&p, 4.0)));
}

/// How each segment of a path lies to a point.
fn segments(path: &[(f32, f32)], x: f32, z: f32) -> Vec<SegmentSample> {
    path.windows(2)
        .map(|seg| {
            let (ax, az) = seg[0];
            let (bx, bz) = seg[1];
            let (dx, dz) = (bx - ax, bz - az);
            let len2 = dx * dx + dz * dz;
            let t = if len2 > 0.0 {
                (((x - ax) * dx + (z - az) * dz) / len2).clamp(0.0, 1.0)
            } else {
                0.0
            };
            let (px, pz) = (ax + t * dx, az + t * dz);
            SegmentSample {
                distance2: b((x - px) * (x - px) + (z - pz) * (z - pz)),
                foot: Position { x: b(px), z: b(pz) },
                run_x: b(dx.abs()),
                run_z: b(dz.abs()),
            }
        })
        .collect()
}

#[test]
fn spine_distance_measures_to_nearest_segment() {
    let path = [(0.0f32, 0.0f32), (10.0, 0.0), (10.0, 10.0)];
    let spine = CirculationSpine {
        id: 0,
        spine_kind: SpaceProgram::MainCorridor,
        path: path.iter().map(|p| Position { x: b(p.0), z: b(p.1) }).collect(),
        width: b(2.0),
    };
    let distance = |x: f32, z: f32| f32::from_bits(spine.nearest(&segments(&path, x, z)).distance2).sqrt();
    assert!((distance(5.0, 3.0) - 3.0).abs() < 1e-5);
    assert!((distance(13.0, 10.0) - 3.0).abs() < 1e-5);
    assert!((distance(10.0, 5.0) - 0.0).abs() < 1e-5);
    let nearest = spine.nearest(&segments(&path, 5.0, 3.0));
    assert!(nearest.horizontal);
    assert_eq!(nearest.along, b(5.0));
    let upright = spine.nearest(&segments(&path, 12.0, 5.0));
    assert!(!upright.horizontal);
    assert_eq!(upright.along, b(5.0));
}

#[test]
fn lighting_a_lit_grid_again_changes_nothing() {
    let mut grid = VoxelGrid::new(9, 5, 7);
    grid.set(1, 4, 1, VOXEL_LIGHT);
    grid.set(7, 3, 5, VOXEL_RED_LIGHT);
    grid.set(4, 2, 3, VOXEL_WALL);
    calculate_voxel_lighting(&mut grid);
    let seen = |g: &VoxelGrid| {
        let mut all = Vec::new();
        for z in 0..7 {
            for y in 0..5 {
                for x in 0..9 {
                    all.push((
                        g.get(x, y, z),
                        g.get_light(x, y, z),
                        g.get_light_rgb(x, y, z),
                        g.get_face_occlusion(x, y, z),
                    ));
                }
            }
        }
        all
    };
    let once = seen(&grid);
    calculate_voxel_lighting(&mut grid);
    assert_eq!(seen(&grid), once);
}
