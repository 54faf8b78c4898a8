pub mod anchor;
pub mod anomaly;
pub mod architecture;
pub mod blueprint;
pub mod cell;
pub mod octree_editing;
pub mod sparse_voxel_octree;
pub mod stamp_ledger;
pub mod stamp_transport;
pub mod voxel_grid;
