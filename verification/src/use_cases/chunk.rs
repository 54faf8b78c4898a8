pub mod built_laws;
pub mod cell_laws;
pub mod cells;
pub mod connection_laws;
pub mod corridors;
pub mod decor;
pub mod draws;
pub mod furniture_laws;
pub mod lamps;
pub mod layout;
pub mod metrics;
pub mod paint;
pub mod rooms;
pub mod stamps;
pub mod zones;
