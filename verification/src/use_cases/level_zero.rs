//! Level 0: the endless office, column by column.

pub mod assembly;
pub mod circulation;
pub mod column;
pub mod compose_column;
pub mod fabric;
pub mod interactions;
pub mod voxelize;
