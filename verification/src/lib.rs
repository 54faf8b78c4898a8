//! Voxel core of the Vackrooms engine: dense grids, flood-fill lighting,
//! sparse octrees, meshing, encounter state and level planning rules.
//!
//! Every function states in its contract what it returns or changes. World
//! coordinates that the renderer keeps as floats travel through this crate as
//! raw bit patterns or as voxel counts.

pub mod adapters;
pub mod domain;
pub mod use_cases;
