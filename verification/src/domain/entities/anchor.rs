//! Archway rooms: stable landmarks that nothing rearranges.

use vstd::prelude::*;

use crate::domain::entities::anomaly::{AnomalyId, MacroCell, OrientedFootprint};
use crate::domain::float_bits::FloatBits;

verus! {

/// Whether an archway room leads through.
#[derive(Clone, Copy, Debug, PartialEq, Eq, Structural)]
pub enum ArchLayout {
    Transition,
    DeadEnd,
}

/// How the arches of a room are set.
#[derive(Clone, Copy, Debug, PartialEq, Eq, Structural)]
pub struct ArchProfile {
    pub layout: ArchLayout,
    /// Distance from arch to arch, and the width of one.
    pub bay: FloatBits,
    pub opening: FloatBits,
    /// Every so many arches one is blind.
    pub blind_every: u8,
}

/// An archway room. It has no gates, no lattices and no state: it never changes.
#[derive(Clone, Copy, Debug, PartialEq, Eq, Structural)]
pub struct AnchorRoom {
    pub id: AnomalyId,
    pub footprint: OrientedFootprint,
    pub macro_anchor: MacroCell,
    pub arch: ArchProfile,
}

} // verus!
