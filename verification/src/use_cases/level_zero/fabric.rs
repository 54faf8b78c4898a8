//! The endless unplanned office fabric: an irregular warren of rooms on a hidden
//! lattice, chained through hashed doorways.
//!
//! Noise and the position inside the lattice come in as the bits of 32-bit
//! floats; what a column becomes is decided here.

use vstd::prelude::*;

use crate::domain::entities::voxel_grid::{VOXEL_FLOOR, VOXEL_LIGHT, VOXEL_WALL};
use crate::domain::float_bits::{
    at_most, bits_at_most, bits_clamped, bits_less, clamped, is_nan_bits, law_clamped_is_inside, less,
    FloatBits,
};
use crate::use_cases::level_zero::column::ColumnPlan;

verus! {

/// Plan wall thickness, 0.4 units: one coarse voxel, so walls survive every level
/// of detail.
pub const PLAN_WALL_T: FloatBits = 0x3ECC_CCCD;

/// Underside of a door's lintel, 2.2 units.
pub const DOOR_HEIGHT: FloatBits = 0x400C_CCCD;

/// Side of a light panel and of an expanse column, 0.45 units.
pub const PANEL_SIDE: FloatBits = 0x3EE6_6666;

/// One half.
pub const HALF: FloatBits = 0x3F00_0000;

/// The broad ceiling hierarchy that gives the level scale without turning the
/// whole map into a warehouse.
#[derive(Clone, Copy, Debug, PartialEq, Eq, Structural)]
pub enum FabricCeilingBand {
    Compression,
    Regular,
    Expanse,
    Vault,
}

/// Upper ends of the first three bands of the ceiling field: -0.60, 0.52, 0.76.
pub const COMPRESSION_END: FloatBits = 0xBF19_999A;
pub const REGULAR_END: FloatBits = 0x3F05_1EB8;
pub const EXPANSE_END: FloatBits = 0x3F42_8F5C;

pub open spec fn band_of(field: u32) -> FabricCeilingBand {
    if less(field, COMPRESSION_END) {
        FabricCeilingBand::Compression
    } else if less(field, REGULAR_END) {
        FabricCeilingBand::Regular
    } else if less(field, EXPANSE_END) {
        FabricCeilingBand::Expanse
    } else {
        FabricCeilingBand::Vault
    }
}

/// Ceiling territory of a value of the low-frequency ceiling field.
pub fn fabric_ceiling_band(field: FloatBits) -> (band: FabricCeilingBand)
    ensures
        band == band_of(field),
{
    if bits_less(field, COMPRESSION_END) {
        FabricCeilingBand::Compression
    } else if bits_less(field, REGULAR_END) {
        FabricCeilingBand::Regular
    } else if bits_less(field, EXPANSE_END) {
        FabricCeilingBand::Expanse
    } else {
        FabricCeilingBand::Vault
    }
}

/// The lowest and the highest ceiling of a band.
pub open spec fn band_range(band: FabricCeilingBand) -> (u32, u32) {
    match band {
        // 2.5 to 2.8
        FabricCeilingBand::Compression => (0x4020_0000u32, 0x4033_3333u32),
        // 3.2 to 3.6
        FabricCeilingBand::Regular => (0x404C_CCCDu32, 0x4066_6666u32),
        // 3.8 to 4.4
        FabricCeilingBand::Expanse => (0x4073_3333u32, 0x408C_CCCDu32),
        // 4.5 to 5.4
        FabricCeilingBand::Vault => (0x4090_0000u32, 0x40AC_CCCDu32),
    }
}

/// Ceiling height of a band, from the height snapped to the voxel lattice.
/// Clamping comes last, so that snapping cannot leave the band.
pub fn fabric_ceiling_height(band: FabricCeilingBand, snapped: FloatBits) -> (height: FloatBits)
    ensures
        height == clamped(snapped, band_range(band).0, band_range(band).1),
{
    match band {
        FabricCeilingBand::Compression => bits_clamped(snapped, 0x4020_0000, 0x4033_3333),
        FabricCeilingBand::Regular => bits_clamped(snapped, 0x404C_CCCD, 0x4066_6666),
        FabricCeilingBand::Expanse => bits_clamped(snapped, 0x4073_3333, 0x408C_CCCD),
        FabricCeilingBand::Vault => bits_clamped(snapped, 0x4090_0000, 0x40AC_CCCD),
    }
}

/// Ceilings of a higher band are higher: the bands never overlap.
pub proof fn law_bands_are_tiers(a: u32, b: u32)
    requires
        !is_nan_bits(a),
        !is_nan_bits(b),
    ensures
        ({
            let compression = band_range(FabricCeilingBand::Compression);
            let regular = band_range(FabricCeilingBand::Regular);
            let expanse = band_range(FabricCeilingBand::Expanse);
            let vault = band_range(FabricCeilingBand::Vault);
            &&& less(clamped(a, compression.0, compression.1), clamped(b, regular.0, regular.1))
            &&& less(clamped(a, regular.0, regular.1), clamped(b, expanse.0, expanse.1))
            &&& less(clamped(a, expanse.0, expanse.1), clamped(b, vault.0, vault.1))
        }),
{
    law_clamped_is_inside(a, 0x4020_0000u32, 0x4033_3333u32);
}

pub open spec fn is_open_band(band: FabricCeilingBand) -> bool {
    band is Expanse || band is Vault
}

/// Whether a ceiling band is an open expanse of the fabric.
pub fn in_expanse(band: FabricCeilingBand) -> (open: bool)
    ensures
        open == is_open_band(band),
{
    match band {
        FabricCeilingBand::Expanse => true,
        FabricCeilingBand::Vault => true,
        _ => false,
    }
}

/// Where a column stands in its lattice cell.
#[derive(Clone, Copy, Debug, PartialEq, Eq, Structural)]
pub enum FabricPlace {
    /// Inside the room.
    Room,
    /// On the corner where four walls meet.
    Post,
    /// In the wall on the cell's low-x side.
    West,
    /// In the wall on the cell's low-z side.
    North,
}

pub open spec fn place_of(fx: u32, fz: u32) -> FabricPlace {
    let in_w = less(fx, PLAN_WALL_T);
    let in_n = less(fz, PLAN_WALL_T);
    if in_w && in_n {
        FabricPlace::Post
    } else if in_w {
        FabricPlace::West
    } else if in_n {
        FabricPlace::North
    } else {
        FabricPlace::Room
    }
}

/// Place of a column that lies `fx` and `fz` from its cell's low corner.
pub fn fabric_place(fx: FloatBits, fz: FloatBits) -> (place: FabricPlace)
    ensures
        place == place_of(fx, fz),
{
    let in_w: bool = bits_less(fx, PLAN_WALL_T);
    let in_n: bool = bits_less(fz, PLAN_WALL_T);
    if in_w && in_n {
        FabricPlace::Post
    } else if in_w {
        FabricPlace::West
    } else if in_n {
        FabricPlace::North
    } else {
        FabricPlace::Room
    }
}

/// A salt as territory left unobserved `epoch` times has it.
pub open spec fn drifted(salt: u32, epoch: u32) -> u32 {
    salt ^ epoch.wrapping_mul(0x9E37_79B9)
}

pub fn drift_salt(salt: u32, epoch: u32) -> (drifting: u32)
    ensures
        drifting == drifted(salt, epoch),
{
    salt ^ epoch.wrapping_mul(0x9E37_79B9)
}

/// Territory that was never left unobserved keeps its salts, and two salts that
/// differ keep differing at every epoch.
pub proof fn law_drift_starts_at_rest(salt: u32, other: u32, epoch: u32)
    ensures
        drifted(salt, 0) == salt,
        salt != other ==> drifted(salt, epoch) != drifted(other, epoch),
{
    let turn: u32 = epoch.wrapping_mul(0x9E37_79B9);
    assert(0u32.wrapping_mul(0x9E37_79B9) == 0);
    assert(salt ^ 0u32 == salt) by (bit_vector);
    assert(salt != other ==> salt ^ turn != other ^ turn) by (bit_vector);
}

/// Salts of everything that is rolled for one wall of a cell.
#[derive(Clone, Copy, Debug, PartialEq, Eq, Structural)]
pub struct WallSalts {
    /// Which of the cell's two walls gets the doorway.
    pub opens: u32,
    /// Whether the wall stands at all.
    pub wall: u32,
    /// Where its doorway is.
    pub door: u32,
    /// Whether it gets a doorway that the cell does not owe.
    pub extra: u32,
    /// Whether a narrow doorway keeps its lintel.
    pub lintel: u32,
}

pub open spec fn salts_of(place: FabricPlace, epoch: u32) -> WallSalts {
    let door = drifted(
        if place is West {
            0x9500u32
        } else {
            0x9600u32
        },
        epoch,
    );
    WallSalts {
        opens: drifted(0x9200, epoch),
        wall: drifted(
            if place is West {
                0x9300u32
            } else {
                0x9400u32
            },
            epoch,
        ),
        door,
        extra: door ^ 0x1F,
        lintel: door ^ 0x2E,
    }
}

pub fn wall_salts(place: FabricPlace, epoch: u32) -> (salts: WallSalts)
    ensures
        salts == salts_of(place, epoch),
{
    let west: bool = place == FabricPlace::West;
    let door: u32 = drift_salt(
        if west {
            0x9500u32
        } else {
            0x9600u32
        },
        epoch,
    );
    WallSalts {
        opens: drift_salt(0x9200, epoch),
        wall: drift_salt(
            if west {
                0x9300u32
            } else {
                0x9400u32
            },
            epoch,
        ),
        door,
        extra: door ^ 0x1F,
        lintel: door ^ 0x2E,
    }
}

/// What was rolled and measured for one column of a wall.
#[derive(Clone, Copy, Debug, PartialEq, Eq, Structural)]
pub struct WallRolls {
    /// Decides which wall of the cell opens.
    pub opens: FloatBits,
    /// The wall stands if this is below `survive`.
    pub wall: FloatBits,
    pub survive: FloatBits,
    /// An extra doorway is cut if this is below `extra_limit`.
    pub extra: FloatBits,
    pub extra_limit: FloatBits,
    /// Where the column stands along the wall.
    pub along: FloatBits,
    /// Where the doorway starts and ends, and how wide it is.
    pub door_start: FloatBits,
    pub door_end: FloatBits,
    pub door_width: FloatBits,
    /// A narrow doorway keeps its lintel if this is below 0.35.
    pub lintel: FloatBits,
}

/// What becomes of one column of a wall.
#[derive(Clone, Copy, Debug, PartialEq, Eq, Structural)]
pub enum WallCut {
    Open,
    Framed,
    Solid,
}

/// Doorways narrower than this, 2.0, may keep a lintel.
pub const NARROW_DOOR: FloatBits = 0x4000_0000;

/// Share of narrow doorways that keep their lintel, 0.35.
pub const FRAMED_SHARE: FloatBits = 0x3EB3_3333;

/// Whether the binary-tree rule opens this wall: a cell opens its west wall or
/// its north wall.
pub open spec fn opens_here(place: FabricPlace, opens: u32) -> bool {
    if place is West {
        less(opens, HALF)
    } else {
        !less(opens, HALF)
    }
}

pub open spec fn in_doorway(r: WallRolls) -> bool {
    at_most(r.door_start, r.along) && less(r.along, r.door_end)
}

pub open spec fn cut_of(place: FabricPlace, r: WallRolls) -> WallCut {
    if !less(r.wall, r.survive) {
        WallCut::Open
    } else if (opens_here(place, r.opens) || less(r.extra, r.extra_limit)) && in_doorway(r) {
        if less(r.door_width, NARROW_DOOR) && less(r.lintel, FRAMED_SHARE) {
            WallCut::Framed
        } else {
            WallCut::Open
        }
    } else {
        WallCut::Solid
    }
}

/// What becomes of a column in a west or north wall.
pub fn cut_wall(place: FabricPlace, r: &WallRolls) -> (cut: WallCut)
    ensures
        cut == cut_of(place, *r),
{
    if !bits_less(r.wall, r.survive) {
        return WallCut::Open;
    }
    let opens_west: bool = bits_less(r.opens, HALF);
    let owed: bool = if place == FabricPlace::West {
        opens_west
    } else {
        !opens_west
    };
    if (owed || bits_less(r.extra, r.extra_limit)) && bits_at_most(r.door_start, r.along)
        && bits_less(r.along, r.door_end) {
        if bits_less(r.door_width, NARROW_DOOR) && bits_less(r.lintel, FRAMED_SHARE) {
            WallCut::Framed
        } else {
            WallCut::Open
        }
    } else {
        WallCut::Solid
    }
}

/// Everything rolled and measured for one column of the fabric.
#[derive(Clone, Copy, Debug, PartialEq, Eq, Structural)]
pub struct FabricSample {
    pub band: FabricCeilingBand,
    pub ceiling_units: FloatBits,
    /// Offsets from the low corner of the expanse column site.
    pub site_x: FloatBits,
    pub site_z: FloatBits,
    /// An expanse column stands if `pillar` is below `pillar_limit`.
    pub pillar: FloatBits,
    pub pillar_limit: FloatBits,
    pub place: FabricPlace,
    pub walls_on: bool,
    pub rolls: WallRolls,
    /// Offsets from the low corner of the light panel.
    pub panel_x: FloatBits,
    pub panel_z: FloatBits,
    /// The panel burns if `light` is below `light_limit`.
    pub light: FloatBits,
    pub light_limit: FloatBits,
}

pub open spec fn on_pillar(s: FabricSample) -> bool {
    less(s.site_x, PANEL_SIDE) && less(s.site_z, PANEL_SIDE) && less(s.pillar, s.pillar_limit)
}

pub open spec fn fabric_cut(s: FabricSample) -> WallCut {
    if is_open_band(s.band) {
        if on_pillar(s) {
            WallCut::Solid
        } else {
            WallCut::Open
        }
    } else if s.place is Post {
        if s.walls_on {
            WallCut::Solid
        } else {
            WallCut::Open
        }
    } else if s.place is Room {
        WallCut::Open
    } else {
        cut_of(s.place, s.rolls)
    }
}

pub open spec fn fabric_plan(s: FabricSample) -> ColumnPlan {
    ColumnPlan {
        floor: true,
        floor_units: 0,
        solid: fabric_cut(s) is Solid,
        ceiling_units: s.ceiling_units,
        light: !(fabric_cut(s) is Solid) && less(s.panel_x, PANEL_SIDE) && less(
            s.panel_z,
            PANEL_SIDE,
        ) && less(s.light, s.light_limit),
        red_light: false,
        lintel_from_units: if fabric_cut(s) is Framed {
            Some(DOOR_HEIGHT)
        } else {
            None
        },
        wall_material: VOXEL_WALL,
        floor_material: VOXEL_FLOOR,
        light_material: VOXEL_LIGHT,
    }
}

/// The fabric plan of one column. Partitions dissolve in open bands, where only
/// sparse columns remain.
pub fn column_plan(s: &FabricSample) -> (plan: ColumnPlan)
    ensures
        plan == fabric_plan(*s),
{
    let cut = if in_expanse(s.band) {
        if bits_less(s.site_x, PANEL_SIDE) && bits_less(s.site_z, PANEL_SIDE) && bits_less(
            s.pillar,
            s.pillar_limit,
        ) {
            WallCut::Solid
        } else {
            WallCut::Open
        }
    } else {
        match s.place {
            FabricPlace::Post => if s.walls_on {
                WallCut::Solid
            } else {
                WallCut::Open
            },
            FabricPlace::Room => WallCut::Open,
            _ => cut_wall(s.place, &s.rolls),
        }
    };
    let solid: bool = cut == WallCut::Solid;
    ColumnPlan {
        floor: true,
        floor_units: 0,
        solid,
        ceiling_units: s.ceiling_units,
        light: !solid && bits_less(s.panel_x, PANEL_SIDE) && bits_less(s.panel_z, PANEL_SIDE)
            && bits_less(s.light, s.light_limit),
        red_light: false,
        lintel_from_units: match cut {
            WallCut::Framed => Some(DOOR_HEIGHT),
            _ => None,
        },
        wall_material: VOXEL_WALL,
        floor_material: VOXEL_FLOOR,
        light_material: VOXEL_LIGHT,
    }
}

/// Every cell opens west or north: of its two walls exactly one is owed a
/// doorway, and no column in the doorway of that wall is solid. The two walls'
/// other rolls, and the epochs they come from, do not matter.
pub proof fn law_every_cell_opens_west_or_north(west: FabricSample, north: FabricSample)
    requires
        west.place is West,
        north.place is North,
        west.rolls.opens == north.rolls.opens,
        !is_open_band(west.band),
        !is_open_band(north.band),
        in_doorway(west.rolls),
        in_doorway(north.rolls),
    ensures
        opens_here(west.place, west.rolls.opens) != opens_here(north.place, north.rolls.opens),
        !fabric_plan(west).solid || !fabric_plan(north).solid,
{
}

/// Taking all walls away empties the fabric of its labyrinth: nothing but the
/// columns of the expanses is left standing.
pub proof fn law_no_walls_no_labyrinth(s: FabricSample)
    requires
        !is_open_band(s.band),
        !s.walls_on,
        !less(s.rolls.wall, s.rolls.survive),
    ensures
        !fabric_plan(s).solid,
        fabric_plan(s).lintel_from_units is None,
{
}

/// The fabric hangs lights in open columns only, and never red ones.
pub proof fn law_fabric_lights_are_plain(s: FabricSample)
    ensures
        fabric_plan(s).light ==> !fabric_plan(s).solid,
        !fabric_plan(s).red_light,
{
}

/// The wall of a closed band stands unless its roll takes it away. A standing wall
/// is solid beside its doorway, and in it too where the cell neither owes the
/// doorway nor got an extra one: a cell owes it to the west on rolls below one half,
/// else to the north. Only a narrow doorway may keep a lintel.
pub proof fn law_fabric_walls_have_doorways(s: FabricSample)
    requires
        s.band is Compression || s.band is Regular,
        s.place is West || s.place is North,
    ensures
        ({
            let r = s.rolls;
            let stands = less(r.wall, r.survive);
            let west = less(r.opens, 0x3F00_0000);
            let door = at_most(r.door_start, r.along) && less(r.along, r.door_end) && (less(
                r.extra,
                r.extra_limit,
            ) || (west <==> s.place is West));
            let plan = fabric_plan(s);
            &&& plan.solid <==> stands && !door
            &&& plan.lintel_from_units is Some <==> stands && door && less(r.door_width, 0x4000_0000)
                && less(r.lintel, 0x3EB3_3333)
            &&& plan.lintel_from_units matches Some(u) ==> u == 0x400C_CCCD
        }),
{
}

/// Rooms of the fabric are open, their posts stand while there are walls, and of an
/// open band nothing stands but the columns that chance has left on their sites.
pub proof fn law_fabric_rooms_are_open(s: FabricSample)
    ensures
        ({
            let plan = fabric_plan(s);
            let open = s.band is Expanse || s.band is Vault;
            &&& open ==> (plan.solid <==> less(s.site_x, 0x3EE6_6666) && less(s.site_z, 0x3EE6_6666)
                && less(s.pillar, s.pillar_limit))
            &&& !open && s.place is Room ==> !plan.solid
            &&& !open && s.place is Post ==> (plan.solid <==> s.walls_on)
            &&& open || s.place is Room || s.place is Post ==> plan.lintel_from_units is None
            &&& plan.floor && plan.ceiling_units == s.ceiling_units
            &&& plan.light <==> !plan.solid && less(s.panel_x, 0x3EE6_6666) && less(
                s.panel_z,
                0x3EE6_6666,
            ) && less(s.light, s.light_limit)
        }),
{
}

/// How high a band lies among the four.
pub open spec fn tier(band: FabricCeilingBand) -> int {
    match band {
        FabricCeilingBand::Compression => 0,
        FabricCeilingBand::Regular => 1,
        FabricCeilingBand::Expanse => 2,
        FabricCeilingBand::Vault => 3,
    }
}

/// A higher value of the ceiling field never gives a lower band, and each band begins
/// where the one below it ends: at -0.60, 0.52 and 0.76.
pub proof fn law_bands_follow_the_field(a: u32, b: u32)
    requires
        !is_nan_bits(a),
        !is_nan_bits(b),
    ensures
        !less(b, a) ==> tier(band_of(a)) <= tier(band_of(b)),
        less(a, 0xBF19_999A) <==> tier(band_of(a)) == 0,
        less(a, 0x3F05_1EB8) <==> tier(band_of(a)) <= 1,
        less(a, 0x3F42_8F5C) <==> tier(band_of(a)) <= 2,
{
}

/// A column within a wall's thickness of one low side of its cell stands in that
/// side's wall, within both in a post, and elsewhere in the room.
pub proof fn law_places_divide_a_cell(fx: u32, fz: u32)
    ensures
        place_of(fx, fz) is Room <==> !less(fx, 0x3ECC_CCCD) && !less(fz, 0x3ECC_CCCD),
        place_of(fx, fz) is West <==> less(fx, 0x3ECC_CCCD) && !less(fz, 0x3ECC_CCCD),
        place_of(fx, fz) is North <==> !less(fx, 0x3ECC_CCCD) && less(fz, 0x3ECC_CCCD),
        place_of(fx, fz) is Post <==> less(fx, 0x3ECC_CCCD) && less(fz, 0x3ECC_CCCD),
{
}

/// Every roll for the walls of a cell has a salt of its own, whatever the epoch: the
/// two walls of a cell share only the roll that picks the one that opens.
pub proof fn law_wall_salts_differ(epoch: u32)
    ensures
        ({
            let west = salts_of(FabricPlace::West, epoch);
            let north = salts_of(FabricPlace::North, epoch);
            &&& west.opens == north.opens
            &&& west.wall != north.wall && west.door != north.door && west.extra != north.extra
                && west.lintel != north.lintel
            &&& west.opens != west.wall && west.opens != west.door && west.opens != west.extra
                && west.opens != west.lintel
            &&& west.wall != west.door && west.wall != west.extra && west.wall != west.lintel
            &&& west.door != west.extra && west.door != west.lintel && west.extra != west.lintel
            &&& north.opens != north.wall && north.opens != north.door && north.opens != north.extra
                && north.opens != north.lintel
            &&& north.wall != north.door && north.wall != north.extra && north.wall != north.lintel
            &&& north.door != north.extra && north.door != north.lintel && north.extra
                != north.lintel
        }),
{
    let t: u32 = epoch.wrapping_mul(0x9E37_79B9);
    assert({
        &&& 0x9300u32 ^ t != 0x9400u32 ^ t
        &&& 0x9500u32 ^ t != 0x9600u32 ^ t
        &&& (0x9500u32 ^ t) ^ 0x1Fu32 != (0x9600u32 ^ t) ^ 0x1Fu32
        &&& (0x9500u32 ^ t) ^ 0x2Eu32 != (0x9600u32 ^ t) ^ 0x2Eu32
        &&& 0x9200u32 ^ t != 0x9300u32 ^ t
        &&& 0x9200u32 ^ t != 0x9500u32 ^ t
        &&& 0x9200u32 ^ t != (0x9500u32 ^ t) ^ 0x1Fu32
        &&& 0x9200u32 ^ t != (0x9500u32 ^ t) ^ 0x2Eu32
        &&& 0x9300u32 ^ t != 0x9500u32 ^ t
        &&& 0x9300u32 ^ t != (0x9500u32 ^ t) ^ 0x1Fu32
        &&& 0x9300u32 ^ t != (0x9500u32 ^ t) ^ 0x2Eu32
        &&& 0x9500u32 ^ t != (0x9500u32 ^ t) ^ 0x1Fu32
        &&& 0x9500u32 ^ t != (0x9500u32 ^ t) ^ 0x2Eu32
        &&& (0x9500u32 ^ t) ^ 0x1Fu32 != (0x9500u32 ^ t) ^ 0x2Eu32
        &&& 0x9200u32 ^ t != 0x9400u32 ^ t
        &&& 0x9200u32 ^ t != 0x9600u32 ^ t
        &&& 0x9200u32 ^ t != (0x9600u32 ^ t) ^ 0x1Fu32
        &&& 0x9200u32 ^ t != (0x9600u32 ^ t) ^ 0x2Eu32
        &&& 0x9400u32 ^ t != 0x9600u32 ^ t
        &&& 0x9400u32 ^ t != (0x9600u32 ^ t) ^ 0x1Fu32
        &&& 0x9400u32 ^ t != (0x9600u32 ^ t) ^ 0x2Eu32
        &&& 0x9600u32 ^ t != (0x9600u32 ^ t) ^ 0x1Fu32
        &&& 0x9600u32 ^ t != (0x9600u32 ^ t) ^ 0x2Eu32
        &&& (0x9600u32 ^ t) ^ 0x1Fu32 != (0x9600u32 ^ t) ^ 0x2Eu32
    }) by (bit_vector);
}

} // verus!
