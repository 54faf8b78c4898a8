pub mod anchor_rooms;
pub mod anomaly_plan;
pub mod bake_voxel_lighting;
pub mod chunk;
pub mod generate_chunk;
pub mod generator_config;
pub mod level_generator;
pub mod level_zero;
pub mod ports;
pub mod region_plan;
