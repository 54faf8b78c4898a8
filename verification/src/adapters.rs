pub mod greedy_mesh;
pub mod octree_gpu_serializer;
pub mod quad_laws;
pub mod voxel_mapper;
