//! What furniture and lamps promise: where they stand, what they leave alone, and
//! what the stamps look like.

use vstd::prelude::*;

use crate::domain::entities::voxel_grid::{
    GridModel, VOXEL_AIR, VOXEL_CEILING, VOXEL_FLOOR, VOXEL_LIGHT, VOXEL_WALL,
};
use crate::use_cases::chunk::decor::{
    chosen_pattern, fits_room, fitting, standard_patterns, RoomRoll,
};
use crate::use_cases::chunk::lamps::{corridor_lamp_brush, hub_brush, room_lamp_brush};
use crate::use_cases::chunk::stamps::{
    cafeteria_pattern, cubicles_pattern, free_at, furnished, furnished_from, furnished_line, gap,
    lounge_pattern, maintenance_pattern, placement_valid, server_room_pattern, showroom_pattern,
    stairway_pattern, stamp_brush, storage_pattern, waiting_pattern, Room, StampModel,
};

verus! {

/// A floor column that furniture may stand on.
pub open spec fn in_reach(room: Room, spacing: int, x: int, z: int) -> bool {
    room.x0 + spacing <= x < room.x1 - spacing && room.z0 + spacing <= z < room.z1 - spacing
}

/// What furniture does to a voxel, if anything.
pub open spec fn touched_well(
    before: GridModel,
    after: GridModel,
    room: Room,
    spacing: int,
    x: int,
    y: int,
    z: int,
) -> bool {
    &&& after.same_extents(before)
    &&& !free_at(before, x, z) ==> !free_at(after, x, z)
    &&& after.material(x, y, z) != before.material(x, y, z) ==> {
        &&& y >= 1
        &&& in_reach(room, spacing, x, z)
        &&& free_at(before, x, z)
        &&& after.material(x, y, z) == VOXEL_WALL || after.material(x, y, z) == VOXEL_FLOOR
    }
}

proof fn lemma_line(
    g: GridModel,
    room: Room,
    stamp: StampModel,
    spacing: int,
    sx: int,
    sz: int,
    x: int,
    y: int,
    z: int,
)
    requires
        room.x0 + spacing <= sx,
        room.z0 + spacing <= sz,
        sx + stamp.width <= room.x1 - spacing,
    ensures
        touched_well(g, furnished_line(g, room, stamp, spacing, sx, sz), room, spacing, x, y, z),
        !(sx <= x < sx + stamp.width && sz <= z) ==> furnished_line(
            g,
            room,
            stamp,
            spacing,
            sx,
            sz,
        ).material(x, y, z) == g.material(x, y, z),
    decreases gap(room.z1 - sz),
{
    if 0 <= spacing && 0 < stamp.depth && sz + stamp.depth <= room.z1 - spacing {
        let next = if placement_valid(g, room, stamp, sx, sz) {
            g.painted(stamp_brush(stamp, sx, sz, g.height - 2))
        } else {
            g
        };
        if stamp.holds(x - sx, z - sz) {
            if placement_valid(g, room, stamp, sx, sz) && stamp.at(x - sx, z - sz) > 0 {
                assert(free_at(g, sx + (x - sx), sz + (z - sz)));
            }
        }
        assert(touched_well(g, next, room, spacing, x, y, z));
        lemma_line(next, room, stamp, spacing, sx, sz + stamp.depth + spacing, x, y, z);
    }
}

pub proof fn lemma_from(
    g: GridModel,
    room: Room,
    stamp: StampModel,
    spacing: int,
    sx: int,
    x: int,
    y: int,
    z: int,
)
    requires
        room.x0 + spacing <= sx,
    ensures
        touched_well(g, furnished_from(g, room, stamp, spacing, sx), room, spacing, x, y, z),
        x < sx ==> furnished_from(g, room, stamp, spacing, sx).material(x, y, z) == g.material(
            x,
            y,
            z,
        ),
    decreases gap(room.x1 - sx),
{
    if 0 <= spacing && 0 < stamp.width && sx + stamp.width <= room.x1 - spacing {
        let next = furnished_line(g, room, stamp, spacing, sx, room.z0 + spacing);
        lemma_line(g, room, stamp, spacing, sx, room.z0 + spacing, x, y, z);
        lemma_from(next, room, stamp, spacing, sx + stamp.width + spacing, x, y, z);
    }
}

/// Furniture keeps to its room: it stands off the sides by its spacing, never in the
/// lowest row, only where the floor was free, and is made of wall or of floor.
pub proof fn law_furniture_keeps_to_its_room(
    g: GridModel,
    room: Room,
    stamp: StampModel,
    spacing: int,
    x: int,
    y: int,
    z: int,
)
    ensures
        ({
            let after = furnished(g, room, stamp, spacing);
            &&& after.same_extents(g)
            &&& after.material(x, y, z) != g.material(x, y, z) ==> y >= 1 && in_reach(
                room,
                spacing,
                x,
                z,
            ) && free_at(g, x, z) && (after.material(x, y, z) == VOXEL_WALL || after.material(
                x,
                y,
                z,
            ) == VOXEL_FLOOR)
        }),
{
    lemma_from(g, room, stamp, spacing, room.x0 + spacing, x, y, z);
}

/// What one value of a pattern looks like from the side: a low wall of three rows, a
/// wall up to below the ceiling row, a bench, a raised floor of two rows, or a step.
pub open spec fn profile(value: u8, y: int, height: int) -> Option<u8> {
    if y < 1 {
        None
    } else if (value == 1 && y < 4) || (value == 2 && y < height - 1) || (value == 3 && y < 2) {
        Some(VOXEL_WALL)
    } else if (value == 4 && y < 3) || (value == 5 && y < 2) {
        Some(VOXEL_FLOOR)
    } else {
        None
    }
}

proof fn lemma_fitting(room: Room, n: nat)
    requires
        n <= 8,
    ensures
        fitting(room, n).len() <= n,
        forall|i: int|
            0 <= i < fitting(room, n).len() ==> (#[trigger] fitting(room, n)[i]) < n && fits_room(
                standard_patterns()[fitting(room, n)[i] as int],
                room,
            ),
        forall|t: int|
            0 <= t < n && fits_room(#[trigger] standard_patterns()[t], room) ==> fitting(
                room,
                n,
            ).len() > 0,
    decreases n,
{
    if n > 0 {
        lemma_fitting(room, (n - 1) as nat);
        let before = fitting(room, (n - 1) as nat);
        assert forall|i: int| 0 <= i < fitting(room, n).len() implies (#[trigger] fitting(room, n)[i])
            < n && fits_room(standard_patterns()[fitting(room, n)[i] as int], room) by {
            if i < before.len() {
                assert(fitting(room, n)[i] == before[i]);
            }
        }
    }
}

/// A room is furnished exactly if one of the standard stamps spans no more than the
/// room does. What it gets then fits it, unless it is stairs, which it gets exactly if
/// the roll says so.
pub proof fn law_rooms_get_a_stamp_that_fits(room: Room, roll: RoomRoll)
    ensures
        chosen_pattern(room, roll) is Some <==> exists|t: int|
            0 <= t < 8 && fits_room(#[trigger] standard_patterns()[t], room),
        chosen_pattern(room, roll) is Some && roll.stairs ==> chosen_pattern(room, roll)->0
            == stairway_pattern(),
        chosen_pattern(room, roll) is Some && !roll.stairs ==> exists|t: int|
            0 <= t < 8 && fits_room(#[trigger] standard_patterns()[t], room) && chosen_pattern(
                room,
                roll,
            )->0 == standard_patterns()[t],
{
    lemma_fitting(room, 8);
    let list = fitting(room, 8);
    if list.len() > 0 {
        let k = roll.stamp as int % list.len() as int;
        assert(0 <= k < list.len());
        assert(list[k] < 8 && fits_room(standard_patterns()[list[k] as int], room));
        assert(list[0] < 8 && fits_room(standard_patterns()[list[0] as int], room));
    }
}

/// What the stamps are made of, and how they repeat themselves. Cubicles, shelves and
/// tables are low walls, displays and racks reach up, waiting rooms and lounges have
/// benches. Displays, lounges and workshops look the same from either side, cubicles
/// and tables the same along either axis.
pub proof fn law_stamps_look_as_they_should(x: int, z: int)
    ensures
        cubicles_pattern().at(x, z) <= 1 && storage_pattern().at(x, z) <= 1 && cafeteria_pattern().at(
            x,
            z,
        ) <= 1,
        showroom_pattern().at(x, z) == 0 || showroom_pattern().at(x, z) == 2,
        server_room_pattern().at(x, z) == 0 || server_room_pattern().at(x, z) == 2,
        waiting_pattern().at(x, z) == 0 || waiting_pattern().at(x, z) == 3,
        lounge_pattern().at(x, z) == 0 || lounge_pattern().at(x, z) == 3,
        showroom_pattern().at(x, z) == showroom_pattern().at(15 - x, z),
        showroom_pattern().at(x, z) == showroom_pattern().at(x, 15 - z),
        lounge_pattern().at(x, z) == lounge_pattern().at(17 - x, z),
        lounge_pattern().at(x, z) == lounge_pattern().at(x, 17 - z),
        maintenance_pattern().at(x, z) == maintenance_pattern().at(9 - x, z),
        maintenance_pattern().at(x, z) == maintenance_pattern().at(x, 9 - z),
        cubicles_pattern().at(x, z) == cubicles_pattern().at(z, x),
        cafeteria_pattern().at(x, z) == cafeteria_pattern().at(z, x),
        waiting_pattern().at(x, z) == waiting_pattern().at(19 - x, z),
        0 <= x < 10 && 0 <= z < 10 ==> cubicles_pattern().at(x, z) == cubicles_pattern().at(
            x + 10,
            z + 10,
        ),
        stairway_pattern().at(x, z) >= 4 <==> 8 <= x < 16 && 0 <= z < 16,
        8 <= x < 15 && 0 <= z < 16 ==> stairway_pattern().at(x, z) >= stairway_pattern().at(
            x + 1,
            z,
        ) && stairway_pattern().at(x, z) <= 6,
        8 == x && 0 <= z < 16 ==> stairway_pattern().at(x, z) == 6 && stairway_pattern().at(x + 1, z)
            == 5 && stairway_pattern().at(x + 2, z) == 4,
        0 <= z < 20 && z % 4 == 0 ==> server_room_pattern().at(x, z) == 0,
        2 <= z < 18 && z % 4 != 0 ==> server_room_pattern().at(3, z) == 2 && server_room_pattern().at(
            7,
            z,
        ) == 2 && server_room_pattern().at(10, z) == 2,
        2 <= z < 14 ==> storage_pattern().at(2, z) == 1 && storage_pattern().at(9, z) == 1,
        4 <= x < 16 ==> waiting_pattern().at(x, 6) == 3 && waiting_pattern().at(x, 14) == 3,
        2 <= z < 8 ==> cubicles_pattern().at(5, z) == 1,
        2 <= x < 6 && 2 <= z < 6 ==> showroom_pattern().at(x, z) == 2,
        6 <= x < 12 ==> lounge_pattern().at(x, 6) == 3 && lounge_pattern().at(6, x) == 3,
{
}

/// The lamps of a room hang in one row down its middle. The first hangs eight voxels
/// from the north side, wherever eight are left to the south; after each another
/// follows twelve voxels on, as long as eight are left. A strip is four voxels long, any
/// other lamp one, and between them nothing hangs.
pub proof fn law_room_lamps_hang_down_the_middle(
    g: GridModel,
    room: Room,
    is_strip: bool,
    row: int,
    x: int,
    y: int,
    n: int,
    within: int,
)
    requires
        0 <= n,
        0 <= within < 12,
        g.inside(x, y, room.z0 + 8 + 12 * n + within),
    ensures
        ({
            let start = room.z0 + 8 + 12 * n;
            let z = start + within;
            let length = if is_strip {
                4int
            } else {
                1
            };
            g.painted(room_lamp_brush(room, is_strip, row)).material(x, y, z) == if y == row && x == (
            room.x0 + room.x1) / 2 && start + 8 <= room.z1 && within < length {
                VOXEL_LIGHT
            } else {
                g.material(x, y, z)
            }
        }),
{
    let z = room.z0 + 8 + 12 * n + within;
    assert((12 * n + within) % 12 == within) by (nonlinear_arith)
        requires
            0 <= within < 12,
            0 <= n,
    ;
    assert((z - (room.z0 + 8)) % 12 == within);
}

/// North of its first lamp a room has none.
pub proof fn law_rooms_are_dark_before_their_first_lamp(
    g: GridModel,
    room: Room,
    is_strip: bool,
    row: int,
    x: int,
    y: int,
    z: int,
)
    requires
        z < room.z0 + 8,
    ensures
        g.painted(room_lamp_brush(room, is_strip, row)).material(x, y, z) == g.material(x, y, z),
{
}

/// Corridor lamps hang in the top row on every sixteenth column both ways, starting
/// from the eighth, wherever there was plain ceiling over air; nothing else changes.
pub proof fn law_corridor_lamps_hang_over_air(g: GridModel, x: int, y: int, z: int)
    requires
        g.inside(x, y, z),
    ensures
        g.painted(corridor_lamp_brush(g)).material(x, y, z) == if y + 1 == g.height && x % 16 == 8
            && z % 16 == 8 && g.material(x, y, z) == VOXEL_CEILING && g.material(x, 1, z)
            == VOXEL_AIR {
            VOXEL_LIGHT
        } else {
            g.material(x, y, z)
        },
{
}

/// The hub is open between its floor and its ceiling, and both have a lamp on every
/// twentieth column both ways but along the two low sides.
pub proof fn law_the_hub_is_open(g: GridModel, x: int, y: int, z: int)
    requires
        2 <= g.height,
        g.inside(x, y, z),
    ensures
        ({
            let lamp = 0 < x && 0 < z && x % 20 == 0 && z % 20 == 0;
            let after = g.painted(hub_brush(g.height)).material(x, y, z);
            &&& 0 < y < g.height - 1 ==> after == g.material(x, y, z)
            &&& (y == 0 || y + 1 == g.height) && lamp ==> after == VOXEL_LIGHT
            &&& y == 0 && !lamp ==> after == VOXEL_FLOOR
            &&& y + 1 == g.height && !lamp ==> after == VOXEL_CEILING
        }),
{
}

proof fn lemma_line_gap(
    g: GridModel,
    room: Room,
    stamp: StampModel,
    spacing: int,
    sx: int,
    sz: int,
    n: int,
    r: int,
    x: int,
    y: int,
)
    requires
        room.x0 + spacing <= sx,
        room.z0 + spacing <= sz,
        sx + stamp.width <= room.x1 - spacing,
        0 <= n,
        0 <= r < spacing,
        stamp.depth > 0,
    ensures
        ({
            let z = sz + n * (stamp.depth + spacing) + stamp.depth + r;
            furnished_line(g, room, stamp, spacing, sx, sz).material(x, y, z) == g.material(x, y, z)
        }),
    decreases n,
{
    let step = stamp.depth + spacing;
    let z = sz + n * step + stamp.depth + r;
    assert(n * step >= 0) by (nonlinear_arith)
        requires
            n >= 0,
            step > 0,
    ;
    if sz + stamp.depth <= room.z1 - spacing {
        let next = if placement_valid(g, room, stamp, sx, sz) {
            g.painted(stamp_brush(stamp, sx, sz, g.height - 2))
        } else {
            g
        };
        if n == 0 {
            assert(n * step == 0) by (nonlinear_arith)
                requires
                    n == 0,
            ;
            lemma_line(next, room, stamp, spacing, sx, sz + step, x, y, z);
        } else {
            assert((n - 1) * step + step == n * step) by (nonlinear_arith);
            assert((n - 1) * step >= 0) by (nonlinear_arith)
                requires
                    n >= 1,
                    step > 0,
            ;
            lemma_line_gap(next, room, stamp, spacing, sx, sz + step, n - 1, r, x, y);
        }
    }
}

proof fn lemma_from_gap_z(
    g: GridModel,
    room: Room,
    stamp: StampModel,
    spacing: int,
    sx: int,
    n: int,
    r: int,
    x: int,
    y: int,
)
    requires
        room.x0 + spacing <= sx,
        0 <= n,
        0 <= r < spacing,
        stamp.depth > 0,
    ensures
        ({
            let z = room.z0 + spacing + n * (stamp.depth + spacing) + stamp.depth + r;
            furnished_from(g, room, stamp, spacing, sx).material(x, y, z) == g.material(x, y, z)
        }),
    decreases gap(room.x1 - sx),
{
    if 0 < stamp.width && sx + stamp.width <= room.x1 - spacing {
        let next = furnished_line(g, room, stamp, spacing, sx, room.z0 + spacing);
        lemma_line_gap(g, room, stamp, spacing, sx, room.z0 + spacing, n, r, x, y);
        lemma_from_gap_z(next, room, stamp, spacing, sx + stamp.width + spacing, n, r, x, y);
    }
}

proof fn lemma_from_gap_x(
    g: GridModel,
    room: Room,
    stamp: StampModel,
    spacing: int,
    sx: int,
    n: int,
    r: int,
    y: int,
    z: int,
)
    requires
        room.x0 + spacing <= sx,
        0 <= n,
        0 <= r < spacing,
        stamp.width > 0,
    ensures
        ({
            let x = sx + n * (stamp.width + spacing) + stamp.width + r;
            furnished_from(g, room, stamp, spacing, sx).material(x, y, z) == g.material(x, y, z)
        }),
    decreases n,
{
    let step = stamp.width + spacing;
    let x = sx + n * step + stamp.width + r;
    assert(n * step >= 0) by (nonlinear_arith)
        requires
            n >= 0,
            step > 0,
    ;
    if sx + stamp.width <= room.x1 - spacing {
        let next = furnished_line(g, room, stamp, spacing, sx, room.z0 + spacing);
        lemma_line(g, room, stamp, spacing, sx, room.z0 + spacing, x, y, z);
        if n == 0 {
            assert(n * step == 0) by (nonlinear_arith)
                requires
                    n == 0,
            ;
            lemma_from(next, room, stamp, spacing, sx + step, x, y, z);
        } else {
            assert((n - 1) * step + step == n * step) by (nonlinear_arith);
            assert((n - 1) * step >= 0) by (nonlinear_arith)
                requires
                    n >= 1,
                    step > 0,
            ;
            lemma_from_gap_x(next, room, stamp, spacing, sx + step, n - 1, r, y, z);
        }
    }
}

/// Copies of a stamp stand apart: after every copy, along either axis, as many columns
/// as the spacing stay as they were.
pub proof fn law_copies_stand_apart(
    g: GridModel,
    room: Room,
    stamp: StampModel,
    spacing: int,
    n: int,
    r: int,
    other: int,
    y: int,
)
    requires
        0 <= n,
        0 <= r < spacing,
        stamp.width > 0,
        stamp.depth > 0,
    ensures
        ({
            let after = furnished(g, room, stamp, spacing);
            let x = room.x0 + spacing + n * (stamp.width + spacing) + stamp.width + r;
            let z = room.z0 + spacing + n * (stamp.depth + spacing) + stamp.depth + r;
            &&& after.material(x, y, other) == g.material(x, y, other)
            &&& after.material(other, y, z) == g.material(other, y, z)
        }),
{
    lemma_from_gap_z(g, room, stamp, spacing, room.x0 + spacing, n, r, other, y);
    lemma_from_gap_x(g, room, stamp, spacing, room.x0 + spacing, n, r, y, other);
}

/// The columns of the stamp at a place hold the same in both grids.
spec fn same_under(a: GridModel, b: GridModel, stamp: StampModel, sx: int, sz: int) -> bool {
    a.same_extents(b) && forall|i: int, k: int, y: int|
        stamp.holds(i, k) ==> #[trigger] a.material(sx + i, y, sz + k) == b.material(
            sx + i,
            y,
            sz + k,
        )
}

proof fn lemma_still_valid(
    a: GridModel,
    b: GridModel,
    room: Room,
    stamp: StampModel,
    sx: int,
    sz: int,
)
    requires
        placement_valid(a, room, stamp, sx, sz),
        same_under(a, b, stamp, sx, sz),
    ensures
        placement_valid(b, room, stamp, sx, sz),
{
    assert forall|x: int, z: int| stamp.holds(x, z) && #[trigger] stamp.at(x, z) > 0 implies free_at(
        b,
        sx + x,
        sz + z,
    ) by {
        assert(free_at(a, sx + x, sz + z));
        assert(a.material(sx + x, 1, sz + z) == b.material(sx + x, 1, sz + z));
    }
}

/// The copy `b` steps down a line stands, if its place was free when the line began.
proof fn lemma_line_stands(
    g: GridModel,
    room: Room,
    stamp: StampModel,
    spacing: int,
    sx: int,
    sz: int,
    b: int,
    i: int,
    k: int,
    y: int,
)
    requires
        0 <= spacing,
        0 <= b,
        stamp.holds(i, k),
        room.x0 + spacing <= sx,
        room.z0 + spacing <= sz,
        sx + stamp.width <= room.x1 - spacing,
        sz + b * (stamp.depth + spacing) + stamp.depth <= room.z1 - spacing,
        placement_valid(g, room, stamp, sx, sz + b * (stamp.depth + spacing)),
        g.inside(sx + i, y, sz + b * (stamp.depth + spacing) + k),
    ensures
        ({
            let z = sz + b * (stamp.depth + spacing) + k;
            furnished_line(g, room, stamp, spacing, sx, sz).material(sx + i, y, z) == match profile(
                stamp.at(i, k),
                y,
                g.height,
            ) {
                Some(m) => m,
                None => g.material(sx + i, y, z),
            }
        }),
    decreases b,
{
    let step = stamp.depth + spacing;
    let z = sz + b * step + k;
    assert(b * step >= 0) by (nonlinear_arith)
        requires
            b >= 0,
            step >= 0,
    ;
    assert(sz + stamp.depth <= room.z1 - spacing);
    let next = if placement_valid(g, room, stamp, sx, sz) {
        g.painted(stamp_brush(stamp, sx, sz, g.height - 2))
    } else {
        g
    };
    if b == 0 {
        assert(b * step == 0) by (nonlinear_arith)
            requires
                b == 0,
        ;
        lemma_line(next, room, stamp, spacing, sx, sz + step, sx + i, y, z);
    } else {
        assert((b - 1) * step + step == b * step) by (nonlinear_arith);
        assert(b * step >= step) by (nonlinear_arith)
            requires
                b >= 1,
                step >= 0,
        ;
        assert(same_under(g, next, stamp, sx, sz + b * step));
        lemma_still_valid(g, next, room, stamp, sx, sz + b * step);
        assert(sz + step + (b - 1) * step == sz + b * step);
        lemma_line_stands(next, room, stamp, spacing, sx, sz + step, b - 1, i, k, y);
        assert(next.material(sx + i, y, z) == g.material(sx + i, y, z));
    }
}

proof fn lemma_copy_stands(
    g: GridModel,
    room: Room,
    stamp: StampModel,
    spacing: int,
    sx: int,
    a: int,
    b: int,
    i: int,
    k: int,
    y: int,
)
    requires
        0 <= spacing,
        0 <= a,
        0 <= b,
        stamp.holds(i, k),
        room.x0 + spacing <= sx,
        sx + a * (stamp.width + spacing) + stamp.width <= room.x1 - spacing,
        room.z0 + spacing + b * (stamp.depth + spacing) + stamp.depth <= room.z1 - spacing,
        placement_valid(
            g,
            room,
            stamp,
            sx + a * (stamp.width + spacing),
            room.z0 + spacing + b * (stamp.depth + spacing),
        ),
        g.inside(
            sx + a * (stamp.width + spacing) + i,
            y,
            room.z0 + spacing + b * (stamp.depth + spacing) + k,
        ),
    ensures
        ({
            let x = sx + a * (stamp.width + spacing) + i;
            let z = room.z0 + spacing + b * (stamp.depth + spacing) + k;
            furnished_from(g, room, stamp, spacing, sx).material(x, y, z) == match profile(
                stamp.at(i, k),
                y,
                g.height,
            ) {
                Some(m) => m,
                None => g.material(x, y, z),
            }
        }),
    decreases a,
{
    let step = stamp.width + spacing;
    let x = sx + a * step + i;
    let sz = room.z0 + spacing;
    let cz = sz + b * (stamp.depth + spacing);
    let z = cz + k;
    assert(a * step >= 0) by (nonlinear_arith)
        requires
            a >= 0,
            step >= 0,
    ;
    let next = furnished_line(g, room, stamp, spacing, sx, sz);
    if a == 0 {
        assert(a * step == 0) by (nonlinear_arith)
            requires
                a == 0,
        ;
        lemma_line_stands(g, room, stamp, spacing, sx, sz, b, i, k, y);
        lemma_from(next, room, stamp, spacing, sx + step, x, y, z);
    } else {
        assert((a - 1) * step + step == a * step) by (nonlinear_arith);
        assert(a * step >= step) by (nonlinear_arith)
            requires
                a >= 1,
                step >= 0,
        ;
        assert(same_under(g, next, stamp, sx + a * step, cz)) by {
            lemma_line(g, room, stamp, spacing, sx, sz, x, y, z);
            assert forall|p: int, q: int, j: int| stamp.holds(p, q) implies #[trigger] g.material(
                sx + a * step + p,
                j,
                cz + q,
            ) == next.material(sx + a * step + p, j, cz + q) by {
                lemma_line(g, room, stamp, spacing, sx, sz, sx + a * step + p, j, cz + q);
            }
        }
        lemma_still_valid(g, next, room, stamp, sx + a * step, cz);
        assert(sx + step + (a - 1) * step == sx + a * step);
        lemma_copy_stands(next, room, stamp, spacing, sx + step, a - 1, b, i, k, y);
        assert(next.material(x, y, z) == g.material(x, y, z));
    }
}

/// A room is filled: on the whole lattice of places, a stamp and a spacing apart, a copy
/// stands wherever it fits in and its ground was free, and every value of its pattern
/// shows.
pub proof fn law_every_free_place_is_furnished(
    g: GridModel,
    room: Room,
    stamp: StampModel,
    spacing: int,
    a: int,
    b: int,
    i: int,
    k: int,
    y: int,
)
    requires
        0 <= spacing,
        0 <= a,
        0 <= b,
        stamp.holds(i, k),
        room.x0 + spacing + a * (stamp.width + spacing) + stamp.width <= room.x1 - spacing,
        room.z0 + spacing + b * (stamp.depth + spacing) + stamp.depth <= room.z1 - spacing,
        placement_valid(
            g,
            room,
            stamp,
            room.x0 + spacing + a * (stamp.width + spacing),
            room.z0 + spacing + b * (stamp.depth + spacing),
        ),
        g.inside(
            room.x0 + spacing + a * (stamp.width + spacing) + i,
            y,
            room.z0 + spacing + b * (stamp.depth + spacing) + k,
        ),
    ensures
        ({
            let x = room.x0 + spacing + a * (stamp.width + spacing) + i;
            let z = room.z0 + spacing + b * (stamp.depth + spacing) + k;
            furnished(g, room, stamp, spacing).material(x, y, z) == match profile(
                stamp.at(i, k),
                y,
                g.height,
            ) {
                Some(m) => m,
                None => g.material(x, y, z),
            }
        }),
{
    lemma_copy_stands(g, room, stamp, spacing, room.x0 + spacing, a, b, i, k, y);
}

} // verus!
