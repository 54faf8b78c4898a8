pub mod build_octree;
pub mod calculate_lighting;
pub mod lighting_laws;
pub mod octree_laws;
pub mod tint_laws;
