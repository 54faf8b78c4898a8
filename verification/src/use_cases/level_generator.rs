//! The levels, and which generator fills a chunk.

use vstd::prelude::*;

use crate::domain::entities::anomaly::Position;
use crate::domain::float_bits::{
    absolute, bits_absolute, bits_less, is_nan_bits, law_negation, less, negated, FloatBits,
};

verus! {

/// Well-known level ids.
pub const LEVEL_BACKROOMS: u32 = 0;
pub const LEVEL_LEGACY_OFFICES: u32 = 1;
pub const LEVEL_GRASSLAND: u32 = 34;

/// The endless yellow office.
pub struct BackroomsLevel;

/// Who fills a chunk.
#[derive(Clone, Copy, Debug, PartialEq, Eq, Structural)]
pub enum ChunkRoute {
    /// The grassland generator.
    Grassland,
    /// The open plaza that the world starts in.
    Hub,
    /// The office blueprint.
    Offices,
}

/// Distance from the origin within which a chunk is the hub, 1.0.
pub const HUB_REACH: FloatBits = 0x3F80_0000;

pub open spec fn route_of(level: u32, at: Position) -> ChunkRoute {
    if level == LEVEL_GRASSLAND {
        ChunkRoute::Grassland
    } else if less(absolute(at.x), HUB_REACH) && less(absolute(at.z), HUB_REACH) {
        ChunkRoute::Hub
    } else {
        ChunkRoute::Offices
    }
}

/// Who fills the chunk at a position of a level.
pub fn route_chunk(level: u32, at: &Position) -> (route: ChunkRoute)
    ensures
        route == route_of(level, *at),
{
    if level == LEVEL_GRASSLAND {
        ChunkRoute::Grassland
    } else if bits_less(bits_absolute(at.x), HUB_REACH) && bits_less(bits_absolute(at.z), HUB_REACH) {
        ChunkRoute::Hub
    } else {
        ChunkRoute::Offices
    }
}

/// The grassland fills its own level, whatever the place. In every other level the hub
/// is the square of less than one unit about the origin, the same in all four
/// directions, and offices are everywhere else.
pub proof fn law_the_hub_is_about_the_origin(level: u32, at: Position)
    requires
        !is_nan_bits(at.x),
        !is_nan_bits(at.z),
    ensures
        route_of(level, at) is Grassland <==> level == 34,
        route_of(level, at) is Hub <==> level != 34 && less(0xBF80_0000, at.x) && less(
            at.x,
            0x3F80_0000,
        ) && less(0xBF80_0000, at.z) && less(at.z, 0x3F80_0000),
        route_of(level, Position { x: negated(at.x), z: at.z }) == route_of(level, at),
        route_of(level, Position { x: at.z, z: at.x }) == route_of(level, at),
{
    law_negation(at.x);
}

} // verus!
