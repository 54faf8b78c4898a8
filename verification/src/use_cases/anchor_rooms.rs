//! Planning archway rooms.
//!
//! They ride a candidate stream of their own on the lattice of the large anomalies.

use vstd::prelude::*;

use crate::domain::entities::anchor::{AnchorRoom, ArchLayout, ArchProfile};
use crate::domain::entities::anomaly::{
    AnomalyId, MacroCell, OrientedFootprint, OrthoBasis, Position, QuarterTurn,
};
use crate::domain::float_bits::FloatBits;
use crate::use_cases::anomaly_plan::{anchored_turn, cell_hash, family_id, hash};

verus! {

/// Salt of the stream of candidates.
pub const ANCHOR_SALT: u64 = 0xAC11_0A7E;

/// What is measured of an archway room.
#[derive(Clone, Copy, Debug, PartialEq, Eq, Structural)]
pub struct AnchorMeasures {
    pub center: Position,
    pub half_x: FloatBits,
    pub half_z: FloatBits,
    pub bay: FloatBits,
    pub opening: FloatBits,
}

/// The arches of the room that is anchored to a cell.
pub open spec fn profile_of(seed: u32, cell: MacroCell, m: AnchorMeasures) -> ArchProfile {
    ArchProfile {
        layout: if cell_hash(seed, 0xA0, cell.x, cell.z) & 1 == 0 {
            ArchLayout::Transition
        } else {
            ArchLayout::DeadEnd
        },
        bay: m.bay,
        opening: m.opening,
        blind_every: (3 + cell_hash(seed, 0xA3, cell.x, cell.z) % 2) as u8,
    }
}

/// The room that is anchored to a cell, in the family with the given code.
pub open spec fn anchor_of(seed: u32, cell: MacroCell, code: u32, m: AnchorMeasures) -> AnchorRoom {
    AnchorRoom {
        id: family_id(seed, code, cell.x, cell.z),
        footprint: OrientedFootprint {
            center: m.center,
            half_x: m.half_x,
            half_z: m.half_z,
            basis: OrthoBasis { turn: anchored_turn(seed, cell.x, cell.z) },
        },
        macro_anchor: cell,
        arch: profile_of(seed, cell, m),
    }
}

/// The archway room that is anchored to a cell. `code` is the number under which
/// its family enters ids.
pub fn anchor_room(seed: u32, cell: MacroCell, code: u32, m: &AnchorMeasures) -> (room: AnchorRoom)
    ensures
        room == anchor_of(seed, cell, code, *m),
{
    let id: AnomalyId = hash(seed, 0xA110_4A1E_0000_0000 | (code as u64), cell.x, cell.z);
    let turn = if hash(seed, 0xC3, cell.x, cell.z) & 1 == 0 {
        QuarterTurn::Zero
    } else {
        QuarterTurn::Clockwise
    };
    let layout = if hash(seed, 0xA0, cell.x, cell.z) & 1 == 0 {
        ArchLayout::Transition
    } else {
        ArchLayout::DeadEnd
    };
    let odd: u64 = hash(seed, 0xA3, cell.x, cell.z) % 2;
    AnchorRoom {
        id,
        footprint: OrientedFootprint {
            center: m.center,
            half_x: m.half_x,
            half_z: m.half_z,
            basis: OrthoBasis { turn },
        },
        macro_anchor: cell,
        arch: ArchProfile {
            layout,
            bay: m.bay,
            opening: m.opening,
            blind_every: (3 + odd) as u8,
        },
    }
}

/// Archway rooms are landmarks: whoever measures one of a cell gets the same id,
/// turn and layout, and every third or fourth arch is blind.
pub proof fn law_anchors_are_landmarks(
    seed: u32,
    cell: MacroCell,
    code: u32,
    a: AnchorMeasures,
    b: AnchorMeasures,
)
    ensures
        anchor_of(seed, cell, code, a).id == anchor_of(seed, cell, code, b).id,
        anchor_of(seed, cell, code, a).footprint.basis == anchor_of(seed, cell, code, b).footprint.basis,
        anchor_of(seed, cell, code, a).arch.layout == anchor_of(seed, cell, code, b).arch.layout,
        3 <= anchor_of(seed, cell, code, a).arch.blind_every <= 4,
{
}

} // verus!
