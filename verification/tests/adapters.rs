use vackrooms::adapters::greedy_mesh::{greedy_mesh_2d, Face, VoxelType};
use vackrooms::adapters::octree_gpu_serializer::OctreeGpuSerializer;
use vackrooms::adapters::voxel_mapper::{FaceDirection, LightRamp, MergedQuad, VoxelMapper, RAMP_SIZE};
use vackrooms::domain::entities::sparse_voxel_octree::{SparseVoxelOctree, SvoNode};
use vackrooms::domain::entities::voxel_grid::{VoxelGrid, VOXEL_FLOOR, VOXEL_WALL};
use vackrooms::domain::plane::Plane;
use vackrooms::domain::use_cases::build_octree::BuildOctreeUseCase;

fn ramp() -> LightRamp {
    LightRamp { values: (0..RAMP_SIZE).map(|i| (i % 256) as u32).collect() }
}

#[test]
fn test_gpu_serialization_padding() {
    let mut octree = SparseVoxelOctree::new(2, 4.0f32.to_bits());
    octree.set(0, 0, 0, 1, 0xFF00FF, [15; 3], 0);

    let gpu_data = OctreeGpuSerializer::serialize_to_gpu_data(&octree);

    assert_eq!(gpu_data.texture_width, 1024);
    assert_eq!(
        gpu_data.texel_data.len(),
        (gpu_data.texture_width * gpu_data.texture_height * 4) as usize
    );

    let index = 0;
    let tx = index % 1024;
    let ty = index / 1024;
    assert_eq!(tx, 0);
    assert_eq!(ty, 0);

    for node in &octree.nodes {
        if let SvoNode::Internal { child_base_index, .. } = *node {
            let max_index = child_base_index + 7;
            assert!(max_index < (gpu_data.texture_width * gpu_data.texture_height));
        }
    }
}

#[test]
fn padding_texels_are_air_leaves() {
    let octree = SparseVoxelOctree::new(1, 0);
    let data = OctreeGpuSerializer::serialize_to_gpu_data(&octree);
    assert_eq!(data.texture_height, 1);
    assert_eq!(&data.texel_data[4 * 500..4 * 500 + 4], &[1, 0, 0, 0]);
}

#[test]
fn leaf_texels_pack_light_and_faces() {
    let mut octree = SparseVoxelOctree::new(0, 0);
    octree.set(0, 0, 0, 3, 0x123456, [4, 9, 2], 0x2A);
    let data = OctreeGpuSerializer::serialize_to_gpu_data(&octree);
    assert_eq!(data.texel_data[0], 1);
    assert_eq!(data.texel_data[1], 3);
    assert_eq!(data.texel_data[2], 0x123456);
    assert_eq!(data.texel_data[3] & 0xFF, 9);
    assert_eq!((data.texel_data[3] >> 8) & 0xFF, 0x2A);
    assert_eq!((data.texel_data[3] >> 16) & 0xF, 4);
    assert_eq!((data.texel_data[3] >> 20) & 0xF, 9);
    assert_eq!((data.texel_data[3] >> 24) & 0xF, 2);
}

#[test]
fn test_voxel_mapping() {
    let mut grid = VoxelGrid::new(2, 2, 2);
    grid.set(0, 0, 0, VOXEL_WALL);

    let mapper = VoxelMapper::new(1.0f32.to_bits());
    let quads = mapper.map_voxel_grid(&grid, &ramp());

    assert_eq!(quads.len(), 6);
    let scale = f32::from_bits(mapper.voxel_scale);
    for q in quads {
        assert_eq!(q.w as f32 * scale, 1.0);
        assert_eq!(q.h as f32 * scale, 1.0);
    }
}

#[test]
fn test_greedy_merging() {
    let mut grid = VoxelGrid::new(4, 1, 1);
    grid.set(0, 0, 0, VOXEL_WALL);
    grid.set(1, 0, 0, VOXEL_WALL);
    grid.set(2, 0, 0, VOXEL_WALL);
    grid.set(3, 0, 0, VOXEL_WALL);

    let mapper = VoxelMapper::new(1.0f32.to_bits());
    let quads = mapper.map_voxel_grid(&grid, &ramp());

    let up_quads: Vec<&MergedQuad> = quads.iter().filter(|q| q.dir == FaceDirection::Up).collect();
    assert_eq!(up_quads.len(), 1);
    let scale = f32::from_bits(mapper.voxel_scale);
    assert_eq!(up_quads[0].w as f32 * scale, 4.0);
    assert_eq!(up_quads[0].h as f32 * scale, 1.0);
}

#[test]
fn different_materials_do_not_merge() {
    let mut grid = VoxelGrid::new(2, 1, 1);
    grid.set(0, 0, 0, VOXEL_WALL);
    grid.set(1, 0, 0, VOXEL_FLOOR);
    let quads = VoxelMapper::new(0).map_voxel_grid(&grid, &ramp());
    let up: Vec<&MergedQuad> = quads.iter().filter(|q| q.dir == FaceDirection::Up).collect();
    assert_eq!(up.len(), 2);
    assert!(up.iter().any(|q| q.v_type == VoxelType::Wall));
    assert!(up.iter().any(|q| q.v_type == VoxelType::Floor));
}

#[test]
fn slices_are_covered_once() {
    let face = Face { v_type: VoxelType::Wall, color: 7 };
    let other = Face { v_type: VoxelType::Wall, color: 8 };
    let mut plane: Plane<Option<Face>> = Plane::new(4, 3, None);
    for (u, v) in [(0, 0), (1, 0), (0, 1), (1, 1), (3, 2)] {
        plane.set(u, v, Some(face));
    }
    plane.set(2, 1, Some(other));
    let quads = greedy_mesh_2d(&plane);
    for u in 0..4 {
        for v in 0..3 {
            let covering: Vec<_> = quads
                .iter()
                .filter(|q| q.u <= u && u < q.u + q.w && q.v <= v && v < q.v + q.h)
                .collect();
            match plane.get(u, v) {
                Some(f) => {
                    assert_eq!(covering.len(), 1);
                    assert_eq!(covering[0].face, f);
                }
                None => assert!(covering.is_empty()),
            }
        }
    }
}

#[test]
fn test_empty_grid_collapses_to_single_root_leaf() {
    let grid = VoxelGrid::new(4, 4, 4);
    let builder = BuildOctreeUseCase::new();
    let svo = builder.execute(&grid, 2, 4.0f32.to_bits());

    assert_eq!(svo.nodes.len(), 1);
    match svo.nodes[svo.root] {
        SvoNode::Leaf { voxel_type, .. } => assert_eq!(voxel_type, 0),
        _ => panic!("Expected root to be a collapsed leaf node"),
    }
}

#[test]
fn test_single_voxel_splits_octree() {
    let mut grid = VoxelGrid::new(4, 4, 4);
    grid.set(0, 0, 0, VOXEL_WALL);

    let builder = BuildOctreeUseCase::new();
    let svo = builder.execute(&grid, 2, 4.0f32.to_bits());

    assert!(svo.nodes.len() > 1);
    match svo.nodes[svo.root] {
        SvoNode::Internal { child_mask, .. } => {
            assert!(child_mask > 0);
        }
        _ => panic!("Expected root to be an internal parent node"),
    }

    let val = svo.get(0, 0, 0);
    assert!(val.is_some());
    let (v_type, color, _, _) = val.unwrap();
    assert_eq!(v_type, VOXEL_WALL);
    assert_eq!(color, 0xddcc66);
}

#[test]
fn octree_agrees_with_its_grid() {
    let mut grid = VoxelGrid::new(8, 8, 8);
    for i in 0..40usize {
        grid.set((i * 5) % 8, (i * 3) % 8, (i * 7 + i / 8) % 8, 1 + (i % 3) as u8);
    }
    let svo = BuildOctreeUseCase::new().execute(&grid, 3, 0);
    for x in 0..8u32 {
        for y in 0..8u32 {
            for z in 0..8u32 {
                let stored = svo.get(x, y, z).unwrap();
                assert_eq!(stored.0, grid.get(x as usize, y as usize, z as usize));
            }
        }
    }
    assert!(svo.get(8, 0, 0).is_none());
}

#[test]
fn uniform_cubes_stay_one_leaf() {
    let mut grid = VoxelGrid::new(4, 4, 4);
    for x in 0..4 {
        for y in 0..4 {
            for z in 0..4 {
                grid.set(x, y, z, VOXEL_WALL);
            }
        }
    }
    let svo = BuildOctreeUseCase::new().execute(&grid, 2, 0);
    assert_eq!(svo.nodes.len(), 1);
    assert_eq!(svo.get(3, 3, 3).unwrap().0, VOXEL_WALL);
}

#[test]
fn edits_change_one_voxel_only() {
    let mut octree = SparseVoxelOctree::new(3, 0);
    octree.set(5, 2, 7, 4, 0xAABBCC, [1, 2, 3], 9);
    for x in 0..8u32 {
        for y in 0..8u32 {
            for z in 0..8u32 {
                let found = octree.get(x, y, z).unwrap();
                if (x, y, z) == (5, 2, 7) {
                    assert_eq!(found, (4, 0xAABBCC, [1, 2, 3], 9));
                } else {
                    assert_eq!(found.0, 0);
                }
            }
        }
    }
}

#[test]
fn empty_slices_have_no_quads() {
    let flat: Plane<Option<Face>> = Plane::new(0, 3, None);
    assert!(greedy_mesh_2d(&flat).is_empty());
    let thin: Plane<Option<Face>> = Plane::new(3, 0, None);
    assert!(greedy_mesh_2d(&thin).is_empty());
}
