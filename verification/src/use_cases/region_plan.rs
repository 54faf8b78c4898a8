//! Region-scale architectural planning.
//!
//! The world is tiled by square regions. A region's dominant circulation comes
//! first, then the masses beside it, then the corruption of the finished plan.
//! Lengths, hashes and noise come in as the bits of 32-bit floats, snapped to the
//! plan lattice; what is built of them is decided here.

pub mod corridors;
pub mod corrupt;
pub mod corruption;
pub mod debug_view;
pub mod genome;
pub mod suites;
