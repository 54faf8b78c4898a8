//! Furnishing and lighting the rooms of a chunk.

use vstd::prelude::*;

use crate::domain::entities::voxel_grid::{GridModel, VoxelGrid};
use crate::use_cases::chunk::lamps::{light_room, room_lamp_brush};
use crate::use_cases::chunk::metrics::MAX_SPAN;
use crate::use_cases::chunk::stamps::{
    cafeteria_pattern, cubicles_pattern, furnish, furnished, lounge_pattern, maintenance_pattern,
    room_ok, server_room_pattern, showroom_pattern, stairway_pattern, storage_pattern, waiting_pattern,
    Room, RoomStamp, StampModel,
};

verus! {

/// What chance decides about one room.
#[derive(Debug, Clone, Copy, PartialEq, Eq, Structural)]
pub struct RoomRoll {
    /// Picks among the stamps that fit.
    pub stamp: usize,
    /// The room gets stairs in place of the picked stamp.
    pub stairs: bool,
    /// The room has strip lamps.
    pub strip: bool,
}

/// The stamps a room may get, in the order in which they are picked from.
pub open spec fn standard_patterns() -> Seq<StampModel> {
    seq![
        cubicles_pattern(),
        showroom_pattern(),
        waiting_pattern(),
        storage_pattern(),
        lounge_pattern(),
        server_room_pattern(),
        cafeteria_pattern(),
        maintenance_pattern(),
    ]
}

/// At least one copy of the stamp spans no more than the room does.
pub open spec fn fits_room(p: StampModel, room: Room) -> bool {
    p.width <= room.x1 - room.x0 && p.depth <= room.z1 - room.z0
}

/// Positions, among the first `n` patterns, of those that fit the room.
pub open spec fn fitting(room: Room, n: nat) -> Seq<usize>
    decreases n,
{
    if n == 0 {
        Seq::empty()
    } else {
        let before = fitting(room, (n - 1) as nat);
        if fits_room(standard_patterns()[n - 1], room) {
            before.push((n - 1) as usize)
        } else {
            before
        }
    }
}

/// The stamp that a room gets: none where none fits, else the one picked from
/// those that fit, or stairs.
pub open spec fn chosen_pattern(room: Room, roll: RoomRoll) -> Option<StampModel> {
    let list = fitting(room, 8);
    if list.len() == 0 {
        None
    } else if roll.stairs {
        Some(stairway_pattern())
    } else {
        Some(standard_patterns()[list[roll.stamp as int % list.len() as int] as int])
    }
}

/// The grid with one room furnished and lit.
pub open spec fn decorated(g: GridModel, room: Room, roll: RoomRoll, spacing: int) -> GridModel {
    let filled = match chosen_pattern(room, roll) {
        Some(p) => furnished(g, room, p, spacing),
        None => g,
    };
    filled.painted(room_lamp_brush(room, roll.strip, filled.height - 1))
}

/// The grid with the first `n` rooms furnished and lit, in order.
pub open spec fn decorated_rooms(
    g: GridModel,
    rooms: Seq<Room>,
    rolls: Seq<RoomRoll>,
    spacing: int,
    n: nat,
) -> GridModel
    decreases n,
{
    if n == 0 {
        g
    } else {
        let before = decorated_rooms(g, rooms, rolls, spacing, (n - 1) as nat);
        decorated(before, rooms[n - 1], rolls[n - 1], spacing)
    }
}

/// All stamps that rooms are furnished with.
pub fn standard_stamps() -> (stamps: Vec<RoomStamp>)
    ensures
        stamps@.len() == 8,
        forall|i: int|
            0 <= i < 8 ==> (#[trigger] stamps@[i]).wf() && stamps@[i]@ == standard_patterns()[i],
{
    let mut stamps: Vec<RoomStamp> = Vec::new();
    stamps.push(RoomStamp::cubicles());
    stamps.push(RoomStamp::showroom());
    stamps.push(RoomStamp::waiting());
    stamps.push(RoomStamp::storage());
    stamps.push(RoomStamp::lounge());
    stamps.push(RoomStamp::server_room());
    stamps.push(RoomStamp::cafeteria());
    stamps.push(RoomStamp::maintenance());
    stamps
}

proof fn lemma_fitting_bounds(room: Room, n: nat)
    requires
        n <= 8,
    ensures
        fitting(room, n).len() <= n,
        forall|i: int| 0 <= i < fitting(room, n).len() ==> #[trigger] fitting(room, n)[i] < n,
    decreases n,
{
    if n > 0 {
        lemma_fitting_bounds(room, (n - 1) as nat);
    }
}

/// Positions of the stamps that fit a room.
pub fn fitting_stamps(stamps: &Vec<RoomStamp>, room: &Room) -> (list: Vec<usize>)
    requires
        stamps@.len() == 8,
        forall|i: int|
            0 <= i < 8 ==> (#[trigger] stamps@[i]).wf() && stamps@[i]@ == standard_patterns()[i],
        room_ok(*room),
    ensures
        list@ == fitting(*room, 8),
{
    let mut list: Vec<usize> = Vec::new();
    let mut i: usize = 0;
    while i < 8
        invariant
            i <= 8,
            stamps@.len() == 8,
            forall|k: int|
                0 <= k < 8 ==> (#[trigger] stamps@[k]).wf() && stamps@[k]@
                    == standard_patterns()[k],
            room_ok(*room),
            list@ == fitting(*room, i as nat),
        decreases 8 - i,
    {
        let s = &stamps[i];
        assert(s@ == standard_patterns()[i as int]);
        if s.width <= room.x1 - room.x0 && s.depth <= room.z1 - room.z0 {
            list.push(i);
        }
        i = i + 1;
    }
    list
}

/// Furnishes and lights every room.
pub fn decorate_rooms(
    grid: &mut VoxelGrid,
    rooms: &Vec<Room>,
    rolls: &Vec<RoomRoll>,
    spacing: usize,
)
    requires
        old(grid).wf(),
        old(grid)@.height >= 2,
        spacing <= MAX_SPAN,
        rolls@.len() == rooms@.len(),
        forall|i: int| 0 <= i < rooms@.len() ==> room_ok(#[trigger] rooms@[i]),
    ensures
        final(grid).wf(),
        final(grid)@.same_extents(old(grid)@),
        final(grid)@ == decorated_rooms(
            old(grid)@,
            rooms@,
            rolls@,
            spacing as int,
            rooms@.len(),
        ),
{
    let stamps = standard_stamps();
    let stairway = RoomStamp::stairway();
    let ghost start = grid@;
    let mut i: usize = 0;
    while i < rooms.len()
        invariant
            i <= rooms@.len(),
            grid.wf(),
            grid@.same_extents(start),
            start.height >= 2,
            spacing <= MAX_SPAN,
            rolls@.len() == rooms@.len(),
            forall|k: int| 0 <= k < rooms@.len() ==> room_ok(#[trigger] rooms@[k]),
            stamps@.len() == 8,
            forall|k: int|
                0 <= k < 8 ==> (#[trigger] stamps@[k]).wf() && stamps@[k]@
                    == standard_patterns()[k],
            stairway.wf(),
            stairway@ == stairway_pattern(),
            grid@ == decorated_rooms(start, rooms@, rolls@, spacing as int, i as nat),
        decreases rooms@.len() - i,
    {
        let room = rooms[i];
        let roll = rolls[i];
        assert(room_ok(rooms@[i as int]));
        let list = fitting_stamps(&stamps, &room);
        if list.len() > 0 {
            proof {
                lemma_fitting_bounds(room, 8);
            }
            if roll.stairs {
                furnish(grid, &room, &stairway, spacing);
            } else {
                let pick: usize = list[roll.stamp % list.len()];
                furnish(grid, &room, &stamps[pick], spacing);
            }
        }
        light_room(grid, &room, roll.strip);
        i = i + 1;
    }
}

} // verus!
