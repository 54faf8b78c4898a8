//! Finding where baked light enters the air.

pub mod exposed_emissive_faces;
