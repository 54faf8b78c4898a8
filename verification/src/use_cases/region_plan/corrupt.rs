//! The corruption pass as a whole: what it decides, and in which order.

use vstd::prelude::*;

use crate::domain::entities::architecture::{
    bounds_of, ArchitectGenome, AssemblyInstance, CorruptionProfile, Fixture, RenovationStyle, SpaceProgram,
};
use crate::domain::float_bits::{at_most, less, FloatBits};
use crate::use_cases::region_plan::corruption::{
    abandon, burning_red, can_burn_red, copy_stands, dark, first_in_round, force_red_room,
    law_events_find_a_room, noted_copy, overlay_renovation, realize_red_event, repeat_suite,
    round_index, strictly_within, strikes, CopySite, CORRUPTION_SHARE,
};
use crate::use_cases::region_plan::genome::{pick_index, picked_index};
use crate::use_cases::region_plan::suites::{
    is_free, is_suite, place_suite, suite_fits, suite_ground, Reserved, SuiteMeasures,
};

verus! {

/// Id of the suite that is built where a red room has to be.
pub const SPARE_SUITE_ID: u32 = 9999;

/// A roll scaled to the number of assemblies, without the copy and with it.
#[derive(Clone, Copy, Debug, PartialEq, Eq, Structural)]
pub struct ScaledRoll {
    pub plain: usize,
    pub grown: usize,
}

/// What is owed of red rooms.
pub struct RedOrders {
    /// The region has to have one.
    pub forced: bool,
    /// Where a suite for it could be built.
    pub spare: Option<SuiteMeasures>,
    /// The event that targets the region.
    pub event: Option<u64>,
}

/// Everything rolled and measured for the pass.
pub struct CorruptionRolls {
    pub repeat: FloatBits,
    /// Where the copy of a suite would stand, and its ground with the gap that
    /// suites keep.
    pub site: CopySite,
    pub ground: Reserved,
    pub abandon: FloatBits,
    pub abandoned: ScaledRoll,
    pub overlaid: ScaledRoll,
    pub red: RedOrders,
}

/// The copy is built.
pub open spec fn repeats(copy: AssemblyInstance, c: CorruptionRolls, near: Seq<Reserved>) -> bool {
    less(c.repeat, CORRUPTION_SHARE) && copy_stands(copy, c.site, near)
}

/// The assemblies once the copy is built or not.
pub open spec fn with_copy(
    before: Seq<AssemblyInstance>,
    copy: AssemblyInstance,
    c: CorruptionRolls,
    near: Seq<Reserved>,
) -> Seq<AssemblyInstance> {
    if repeats(copy, c, near) {
        before.push(
            noted_copy(copy, c.site, (before.len() + 1000) as u32),
        )
    } else {
        before
    }
}

/// The ground that a suite has to keep off.
pub open spec fn ground_with_copy(
    taken: Seq<Reserved>,
    copy: AssemblyInstance,
    c: CorruptionRolls,
    near: Seq<Reserved>,
) -> Seq<Reserved> {
    if repeats(copy, c, near) {
        taken.push(c.ground)
    } else {
        taken
    }
}

/// The ground once a suite was built for a red room or not: one was where the room
/// comes after all assemblies.
pub open spec fn ground_with_spare(
    ground: Seq<Reserved>,
    room: Option<usize>,
    assemblies: nat,
    red: RedOrders,
) -> Seq<Reserved> {
    if room is Some && room->0 == assemblies && red.spare is Some {
        ground.push(suite_ground(red.spare->0))
    } else {
        ground
    }
}

pub open spec fn chosen(roll: ScaledRoll, grown: bool, len: nat) -> int {
    picked_index(
        if grown {
            roll.grown
        } else {
            roll.plain
        },
        len as usize,
    ) as int
}

/// `after` is `before`, perhaps never occupied and perhaps renovated.
pub open spec fn is_worn(
    after: AssemblyInstance,
    before: AssemblyInstance,
    abandoned: bool,
    overlaid: bool,
) -> bool {
    &&& after.id == before.id
    &&& after.program == if abandoned {
        SpaceProgram::AbandonedExpansion
    } else {
        before.program
    }
    &&& after.footprint == before.footprint
    &&& after.entrances == before.entrances
    &&& after.structure == before.structure
    &&& after.ceiling_zones == before.ceiling_zones
    &&& after.service_voids == before.service_voids
    &&& if abandoned {
        after.spaces@.len() == 0
    } else {
        after.spaces == before.spaces
    }
    &&& after.fixtures@ == if abandoned {
        before.fixtures@.map_values(|f: Fixture| dark(f))
    } else {
        before.fixtures@
    }
    &&& after.corruption == (CorruptionProfile {
        abandoned: before.corruption.abandoned || abandoned,
        renovation_overlay: before.corruption.renovation_overlay || overlaid,
        ..before.corruption
    })
}

/// The assembly that is abandoned, if the roll says so.
pub open spec fn abandoned_at(c: CorruptionRolls, grown: bool, len: nat) -> Option<int> {
    if less(c.abandon, CORRUPTION_SHARE) {
        Some(chosen(c.abandoned, grown, len))
    } else {
        None
    }
}

/// The assembly that is renovated, if the building ever was.
pub open spec fn overlaid_at(
    c: CorruptionRolls,
    grown: bool,
    len: nat,
    history: RenovationStyle,
) -> Option<int> {
    if history is Untouched {
        None
    } else {
        Some(chosen(c.overlaid, grown, len))
    }
}

/// `worn` is `list` after one assembly was abandoned and one renovated.
pub open spec fn are_worn(
    worn: Seq<AssemblyInstance>,
    list: Seq<AssemblyInstance>,
    abandoned: Option<int>,
    overlaid: Option<int>,
) -> bool {
    &&& worn.len() == list.len()
    &&& forall|i: int|
        #![trigger worn[i]]
        0 <= i < list.len() ==> is_worn(worn[i], list[i], abandoned == Some(i), overlaid == Some(i))
}

/// The first assembly that can burn red.
pub open spec fn is_first_red(worn: Seq<AssemblyInstance>, k: int) -> bool {
    &&& 0 <= k < worn.len()
    &&& can_burn_red(worn[k])
    &&& forall|j: int| 0 <= j < k ==> !can_burn_red(#[trigger] worn[j])
}

/// One assembly burns red, and the rest stays.
pub open spec fn reddened(worn: Seq<AssemblyInstance>, k: int) -> Seq<AssemblyInstance> {
    worn.update(k, burning_red(worn[k]))
}

/// A forced red room is found among the assemblies, or else built.
pub open spec fn forced_is_met(
    after: Seq<AssemblyInstance>,
    worn: Seq<AssemblyInstance>,
    room: Option<usize>,
    genome: ArchitectGenome,
    red: RedOrders,
    taken: Seq<Reserved>,
) -> bool {
    &&& red.forced
    &&& room is Some
    &&& if exists|k: int| is_first_red(worn, k) {
        is_first_red(worn, room->0 as int) && after == reddened(worn, room->0 as int)
    } else {
        &&& red.spare is Some
        &&& suite_fits(red.spare->0, taken)
        &&& room->0 == worn.len()
        &&& exists|suite: AssemblyInstance| #[trigger]
            is_suite(suite, SPARE_SUITE_ID, SpaceProgram::PrivateOffice, genome, red.spare->0)
                && after == worn.push(burning_red(suite))
    }
}

/// Whether a forced red room can be had at all.
pub open spec fn forced_can_be_met(
    worn: Seq<AssemblyInstance>,
    red: RedOrders,
    taken: Seq<Reserved>,
) -> bool {
    red.forced && ((exists|k: int| is_first_red(worn, k)) || (red.spare is Some && suite_fits(
        red.spare->0,
        taken,
    )))
}

/// The region's event is realized where it can be.
pub open spec fn event_is_met(
    after: Seq<AssemblyInstance>,
    worn: Seq<AssemblyInstance>,
    room: Option<usize>,
    event: Option<u64>,
) -> bool {
    match room {
        Some(k) => {
            &&& event is Some
            &&& exists|o: int|
                #![trigger round_index(event->0, o, worn.len() as int)]
                first_in_round(worn, event->0, o) && k == round_index(
                    event->0,
                    o,
                    worn.len() as int,
                )
            &&& after == reddened(worn, k as int)
        },
        None => {
            &&& event is Some ==> forall|o: int| !#[trigger] first_in_round(worn, event->0, o)
            &&& after == worn
        },
    }
}

/// What the pass makes of the assemblies of a region; `room` is the one that it
/// made burn red.
pub open spec fn is_corrupted(
    after: Seq<AssemblyInstance>,
    before: Seq<AssemblyInstance>,
    room: Option<usize>,
    genome: ArchitectGenome,
    copy: AssemblyInstance,
    c: CorruptionRolls,
    near: Seq<Reserved>,
    taken: Seq<Reserved>,
) -> bool {
    let list = with_copy(before, copy, c, near);
    let ground = ground_with_copy(taken, copy, c, near);
    exists|worn: Seq<AssemblyInstance>| #[trigger]
        are_worn(
            worn,
            list,
            abandoned_at(c, repeats(copy, c, near), list.len()),
            overlaid_at(c, repeats(copy, c, near), list.len(), genome.renovation_history),
        ) && if forced_can_be_met(
            worn,
            c.red,
            ground,
        ) {
            forced_is_met(after, worn, room, genome, c.red, ground)
        } else {
            event_is_met(after, worn, room, c.red.event)
        }
}

/// Makes one assembly burn red, where one has to or an event says so. Comes last,
/// so that an abandoned shell stays dark.
fn burn_red(
    assemblies: &mut Vec<AssemblyInstance>,
    genome: &ArchitectGenome,
    red: &RedOrders,
    taken: &mut Vec<Reserved>,
) -> (room: Option<usize>)
    requires
        old(assemblies)@.len() < usize::MAX,
    ensures
        if forced_can_be_met(old(assemblies)@, *red, old(taken)@) {
            forced_is_met(final(assemblies)@, old(assemblies)@, room, *genome, *red, old(taken)@)
        } else {
            event_is_met(final(assemblies)@, old(assemblies)@, room, red.event)
        },
        final(taken)@ == ground_with_spare(old(taken)@, room, old(assemblies)@.len(), *red),
{
    let ghost worn = assemblies@;
    if red.forced {
        let found = force_red_room(assemblies);
        if let Some(k) = found {
            assert(is_first_red(worn, k as int));
            return Some(k);
        }
        assert(forall|k: int| !is_first_red(worn, k));
        if let Some(measures) = &red.spare {
            let suite = place_suite(
                SPARE_SUITE_ID,
                SpaceProgram::PrivateOffice,
                genome,
                measures,
                taken,
            );
            if let Some(built) = suite {
                let ghost plain = built;
                let mut room = built;
                room.corruption.red_room = true;
                let k: usize = assemblies.len();
                taken.push(
                    Reserved {
                        bounds: room.footprint.bounds(),
                        far_x: measures.far_x,
                        far_z: measures.far_z,
                    },
                );
                assemblies.push(room);
                assert(room == burning_red(plain));
                assert(is_suite(
                    plain,
                    SPARE_SUITE_ID,
                    SpaceProgram::PrivateOffice,
                    *genome,
                    red.spare->0,
                ));
                return Some(k);
            }
        }
    }
    match red.event {
        Some(event) => {
            let room = realize_red_event(assemblies, event);
            proof {
                if let Some(k) = room {
                    lemma_round_stays_inside(worn, event, k as int);
                }
            }
            room
        },
        None => None,
    }
}

/// A room that an event is realized on is one of the assemblies.
proof fn lemma_round_stays_inside(worn: Seq<AssemblyInstance>, event: u64, k: int)
    requires
        exists|o: int|
            #![trigger round_index(event, o, worn.len() as int)]
            first_in_round(worn, event, o) && k == round_index(event, o, worn.len() as int),
    ensures
        0 <= k < worn.len(),
{
    let (e, n) = (event as int, worn.len() as int);
    let o = choose|o: int|
        #![trigger round_index(event, o, worn.len() as int)]
        first_in_round(worn, event, o) && k == round_index(event, o, worn.len() as int);
    assert(0 <= ((e % n) + o) % n < n) by (nonlinear_arith)
        requires
            0 < n,
    ;
}

/// Abandons one assembly and renovates one.
fn wear(
    assemblies: &mut Vec<AssemblyInstance>,
    c: &CorruptionRolls,
    grown: bool,
    history: RenovationStyle,
)
    requires
        old(assemblies)@.len() > 0,
    ensures
        are_worn(
            final(assemblies)@,
            old(assemblies)@,
            abandoned_at(*c, grown, old(assemblies)@.len()),
            overlaid_at(*c, grown, old(assemblies)@.len(), history),
        ),
{
    if strikes(c.abandon) {
        let scaled: usize = if grown {
            c.abandoned.grown
        } else {
            c.abandoned.plain
        };
        let k: usize = pick_index(scaled, assemblies.len());
        abandon(assemblies, k);
    }
    let scaled: usize = if grown {
        c.overlaid.grown
    } else {
        c.overlaid.plain
    };
    let k: usize = pick_index(scaled, assemblies.len());
    overlay_renovation(assemblies, history, k);
}

/// The corruption pass over the assemblies of a region. `copy` is the suite that
/// may repeat itself, at its new place. `near` is the ground of the assemblies with
/// the gap that a copy keeps, `taken` with the gap that suites keep; whatever is
/// built takes its ground.
pub fn corrupt(
    assemblies: &mut Vec<AssemblyInstance>,
    genome: &ArchitectGenome,
    copy: AssemblyInstance,
    c: &CorruptionRolls,
    near: &Vec<Reserved>,
    taken: &mut Vec<Reserved>,
) -> (room: Option<usize>)
    requires
        old(assemblies)@.len() + 1000 <= u32::MAX,
    ensures
        old(assemblies)@.len() == 0 ==> room is None && final(assemblies)@ == old(assemblies)@
            && final(taken)@ == old(taken)@,
        old(assemblies)@.len() > 0 ==> is_corrupted(
            final(assemblies)@,
            old(assemblies)@,
            room,
            *genome,
            copy,
            *c,
            near@,
            old(taken)@,
        ),
        old(assemblies)@.len() > 0 ==> final(taken)@ == ground_with_spare(
            ground_with_copy(old(taken)@, copy, *c, near@),
            room,
            with_copy(old(assemblies)@, copy, *c, near@).len(),
            c.red,
        ),
{
    if assemblies.len() == 0 {
        return None;
    }
    let mut grown: bool = false;
    if strikes(c.repeat) {
        grown = repeat_suite(assemblies, copy, &c.site, near);
        if grown {
            taken.push(c.ground);
        }
    }
    wear(assemblies, c, grown, genome.renovation_history);
    burn_red(assemblies, genome, &c.red, taken)
}

/// The pass loses no assembly, moves none and closes none: whatever it decides,
/// every assembly keeps its id, its footprint, its entrances and its structure.
pub proof fn law_corruption_keeps_the_plan(
    after: Seq<AssemblyInstance>,
    before: Seq<AssemblyInstance>,
    room: Option<usize>,
    genome: ArchitectGenome,
    copy: AssemblyInstance,
    c: CorruptionRolls,
    near: Seq<Reserved>,
    taken: Seq<Reserved>,
    i: int,
)
    requires
        is_corrupted(after, before, room, genome, copy, c, near, taken),
        0 <= i < before.len(),
    ensures
        before.len() <= after.len() <= before.len() + 2,
        after[i].id == before[i].id,
        after[i].footprint == before[i].footprint,
        after[i].entrances == before[i].entrances,
        after[i].structure == before[i].structure,
{
    let list = with_copy(before, copy, c, near);
    let ground = ground_with_copy(taken, copy, c, near);
    let worn = choose|worn: Seq<AssemblyInstance>| #[trigger]
        are_worn(
            worn,
            list,
            abandoned_at(c, repeats(copy, c, near), list.len()),
            overlaid_at(c, repeats(copy, c, near), list.len(), genome.renovation_history),
        ) && if forced_can_be_met(
            worn,
            c.red,
            ground,
        ) {
            forced_is_met(after, worn, room, genome, c.red, ground)
        } else {
            event_is_met(after, worn, room, c.red.event)
        };
    assert(list[i] == before[i]);
    assert(worn[i].id == list[i].id);
}

/// Red rooms are made last: the assembly that the pass makes burn red is occupied
/// and reachable, even though the same pass may have abandoned another.
pub proof fn law_red_rooms_are_occupied(
    after: Seq<AssemblyInstance>,
    before: Seq<AssemblyInstance>,
    room: usize,
    genome: ArchitectGenome,
    copy: AssemblyInstance,
    c: CorruptionRolls,
    near: Seq<Reserved>,
    taken: Seq<Reserved>,
)
    requires
        is_corrupted(after, before, Some(room), genome, copy, c, near, taken),
    ensures
        room < after.len(),
        after[room as int].corruption.red_room,
        !after[room as int].corruption.abandoned,
        after[room as int].entrances@.len() > 0,
{
    let list = with_copy(before, copy, c, near);
    let ground = ground_with_copy(taken, copy, c, near);
    let worn = choose|worn: Seq<AssemblyInstance>| #[trigger]
        are_worn(
            worn,
            list,
            abandoned_at(c, repeats(copy, c, near), list.len()),
            overlaid_at(c, repeats(copy, c, near), list.len(), genome.renovation_history),
        ) && if forced_can_be_met(
            worn,
            c.red,
            ground,
        ) {
            forced_is_met(after, worn, Some(room), genome, c.red, ground)
        } else {
            event_is_met(after, worn, Some(room), c.red.event)
        };
    if forced_can_be_met(worn, c.red, ground) {
        if exists|k: int| is_first_red(worn, k) {
            assert(is_first_red(worn, room as int));
        } else {
            let suite = choose|suite: AssemblyInstance| #[trigger]
                is_suite(suite, SPARE_SUITE_ID, SpaceProgram::PrivateOffice, genome, c.red.spare->0)
                    && after == worn.push(burning_red(suite));
            assert(after[room as int] == burning_red(suite));
        }
    } else {
        lemma_round_stays_inside(worn, c.red.event->0, room as int);
    }
}

/// The assemblies as they were before one of them was made to burn red.
proof fn lemma_worn(
    after: Seq<AssemblyInstance>,
    before: Seq<AssemblyInstance>,
    room: Option<usize>,
    genome: ArchitectGenome,
    copy: AssemblyInstance,
    c: CorruptionRolls,
    near: Seq<Reserved>,
    taken: Seq<Reserved>,
) -> (worn: Seq<AssemblyInstance>)
    requires
        is_corrupted(after, before, room, genome, copy, c, near, taken),
    ensures
        ({
            let list = with_copy(before, copy, c, near);
            let ground = ground_with_copy(taken, copy, c, near);
            &&& are_worn(
                worn,
                list,
                abandoned_at(c, repeats(copy, c, near), list.len()),
                overlaid_at(c, repeats(copy, c, near), list.len(), genome.renovation_history),
            )
            &&& if forced_can_be_met(worn, c.red, ground) {
                forced_is_met(after, worn, room, genome, c.red, ground)
            } else {
                event_is_met(after, worn, room, c.red.event)
            }
            &&& room matches Some(k) ==> k < after.len()
            &&& after.len() == worn.len() || after.len() == worn.len() + 1
            &&& forall|i: int|
                #![trigger after[i]]
                0 <= i < worn.len() ==> after[i] == if room is Some && room->0 == i {
                    burning_red(worn[i])
                } else {
                    worn[i]
                }
        }),
{
    let list = with_copy(before, copy, c, near);
    let ground = ground_with_copy(taken, copy, c, near);
    let worn = choose|worn: Seq<AssemblyInstance>| #[trigger]
        are_worn(
            worn,
            list,
            abandoned_at(c, repeats(copy, c, near), list.len()),
            overlaid_at(c, repeats(copy, c, near), list.len(), genome.renovation_history),
        ) && if forced_can_be_met(
            worn,
            c.red,
            ground,
        ) {
            forced_is_met(after, worn, room, genome, c.red, ground)
        } else {
            event_is_met(after, worn, room, c.red.event)
        };
    if forced_can_be_met(worn, c.red, ground) {
        if exists|k: int| is_first_red(worn, k) {
            assert(is_first_red(worn, room->0 as int));
        }
    } else if room is Some {
        lemma_round_stays_inside(worn, c.red.event->0, room->0 as int);
    }
    worn
}

/// Red light is the only thing that makes a red room, and it strikes one assembly at
/// most: every other one has the red mark that it had. Where nothing is owed, none is
/// made; where a red room has to be, it is made if any assembly stays occupied and can
/// be reached.
pub proof fn law_one_assembly_turns_red(
    after: Seq<AssemblyInstance>,
    before: Seq<AssemblyInstance>,
    room: Option<usize>,
    genome: ArchitectGenome,
    copy: AssemblyInstance,
    c: CorruptionRolls,
    near: Seq<Reserved>,
    taken: Seq<Reserved>,
    i: int,
)
    requires
        is_corrupted(after, before, room, genome, copy, c, near, taken),
        0 <= i < before.len(),
    ensures
        !(room is Some && room->0 == i) ==> after[i].corruption.red_room == before[i].corruption.red_room,
        !c.red.forced && c.red.event is None ==> room is None,
        (c.red.forced || c.red.event is Some) && after[i].entrances@.len() > 0
            && !after[i].corruption.abandoned ==> room is Some,
        after[i].corruption.misalignment == before[i].corruption.misalignment,
{
    let worn = lemma_worn(after, before, room, genome, copy, c, near, taken);
    let list = with_copy(before, copy, c, near);
    let ground = ground_with_copy(taken, copy, c, near);
    assert(list[i] == before[i]);
    assert(after[i].entrances == worn[i].entrances);
    if after[i].entrances@.len() > 0 && !after[i].corruption.abandoned {
        assert(can_burn_red(worn[i]));
        if c.red.forced {
            lemma_some_first_red(worn, i);
        } else if c.red.event is Some {
            law_events_find_a_room(worn, c.red.event->0, i);
        }
    }
}

proof fn lemma_some_first_red(worn: Seq<AssemblyInstance>, i: int)
    requires
        0 <= i < worn.len(),
        can_burn_red(worn[i]),
    ensures
        exists|k: int| is_first_red(worn, k),
    decreases i,
{
    if is_first_red(worn, i) {
    } else {
        let j = choose|j: int| 0 <= j < i && can_burn_red(#[trigger] worn[j]);
        lemma_some_first_red(worn, j);
    }
}

/// One assembly at most is abandoned, and only on a roll below 0.6. It becomes an
/// abandoned expansion with no spaces and no light; of any other assembly program,
/// spaces and fixtures stay as they were. A building that was never renovated gets no
/// overlay, and otherwise one assembly does.
pub proof fn law_one_assembly_is_abandoned(
    after: Seq<AssemblyInstance>,
    before: Seq<AssemblyInstance>,
    room: Option<usize>,
    genome: ArchitectGenome,
    copy: AssemblyInstance,
    c: CorruptionRolls,
    near: Seq<Reserved>,
    taken: Seq<Reserved>,
    i: int,
    j: int,
    f: int,
)
    requires
        is_corrupted(after, before, room, genome, copy, c, near, taken),
        0 <= i < before.len(),
        0 <= j < before.len(),
        0 <= f < before[i].fixtures@.len(),
        !before[i].corruption.abandoned && !before[j].corruption.abandoned,
    ensures
        after[i].corruption.abandoned ==> less(c.abandon, 0x3F19_999A),
        after[i].corruption.abandoned && after[j].corruption.abandoned ==> i == j,
        after[i].fixtures@.len() == before[i].fixtures@.len(),
        after[i].fixtures@[f].at == before[i].fixtures@[f].at,
        if after[i].corruption.abandoned {
            after[i].program is AbandonedExpansion && after[i].spaces@.len() == 0
                && !after[i].fixtures@[f].lit
        } else {
            after[i].program == before[i].program && after[i].spaces == before[i].spaces
                && after[i].fixtures@ == before[i].fixtures@
        },
        genome.renovation_history is Untouched ==> after[i].corruption.renovation_overlay
            == before[i].corruption.renovation_overlay,
        after[i].corruption.renovation_overlay && !before[i].corruption.renovation_overlay
            && after[j].corruption.renovation_overlay && !before[j].corruption.renovation_overlay
            ==> i == j,
{
    let worn = lemma_worn(after, before, room, genome, copy, c, near, taken);
    let list = with_copy(before, copy, c, near);
    assert(list[i] == before[i] && list[j] == before[j]);
    assert(after[i].fixtures == worn[i].fixtures && after[j].program == worn[j].program);
}

/// A copy of a suite is built only on a roll below 0.6, and only where it stays
/// strictly inside its region, one of its doors reaches a corridor, and nothing that
/// was built before is near. It stands after all others, notes how far it was moved,
/// and its id tells it from every suite.
pub proof fn law_copies_are_reachable(
    after: Seq<AssemblyInstance>,
    before: Seq<AssemblyInstance>,
    room: Option<usize>,
    genome: ArchitectGenome,
    copy: AssemblyInstance,
    c: CorruptionRolls,
    near: Seq<Reserved>,
    taken: Seq<Reserved>,
)
    requires
        is_corrupted(after, before, room, genome, copy, c, near, taken),
        before.len() + 1000 <= u32::MAX,
        room is None || room->0 < before.len(),
    ensures
        ({
            let b = bounds_of(copy.footprint.vertices@, copy.footprint.vertices@.len());
            let stands = less(c.repeat, 0x3F19_999A) && strictly_within(b, c.site.limits) && (
            exists|d: int|
                0 <= d < c.site.doors@.len() && at_most(
                    (#[trigger] c.site.doors@[d]).distance,
                    c.site.doors@[d].allowed,
                )) && is_free(
                Reserved { bounds: b, far_x: c.site.far_x, far_z: c.site.far_z },
                near,
            );
            &&& after.len() == before.len() + (if stands {
                1int
            } else {
                0
            })
            &&& stands ==> {
                let built = after[before.len() as int];
                &&& built.id == before.len() + 1000
                &&& built.corruption.misalignment == c.site.shift
                &&& built.footprint == copy.footprint && built.entrances == copy.entrances
            }
        }),
{
    let worn = lemma_worn(after, before, room, genome, copy, c, near, taken);
    let list = with_copy(before, copy, c, near);
    let n = before.len() as int;
    if repeats(copy, c, near) {
        assert(list[n] == noted_copy(copy, c.site, (n + 1000) as u32));
        assert(after[n] == worn[n]);
    }
    if forced_can_be_met(worn, c.red, ground_with_copy(taken, copy, c, near)) {
        if exists|k: int| is_first_red(worn, k) {
        } else {
            assert(room->0 == worn.len());
        }
    }
}

/// The rolls pick whom the pass strikes: the assembly at the scaled roll, or the last
/// one where the roll goes past it, counted with the copy once there is one.
pub proof fn law_rolls_pick_the_struck_assembly(
    after: Seq<AssemblyInstance>,
    before: Seq<AssemblyInstance>,
    room: Option<usize>,
    genome: ArchitectGenome,
    copy: AssemblyInstance,
    c: CorruptionRolls,
    near: Seq<Reserved>,
    taken: Seq<Reserved>,
    i: int,
)
    requires
        is_corrupted(after, before, room, genome, copy, c, near, taken),
        0 <= i < before.len() < usize::MAX,
        !before[i].corruption.abandoned,
        !before[i].corruption.renovation_overlay,
    ensures
        ({
            let grown = repeats(copy, c, near);
            let len = before.len() + if grown {
                1int
            } else {
                0
            };
            let (a, b) = if grown {
                (c.abandoned.grown as int, c.overlaid.grown as int)
            } else {
                (c.abandoned.plain as int, c.overlaid.plain as int)
            };
            &&& after[i].corruption.abandoned <==> less(c.abandon, 0x3F19_999A) && (i == a || i + 1
                == len && a >= len)
            &&& after[i].corruption.renovation_overlay <==> !(genome.renovation_history is Untouched)
                && (i == b || i + 1 == len && b >= len)
        }),
{
    let worn = lemma_worn(after, before, room, genome, copy, c, near, taken);
    let list = with_copy(before, copy, c, near);
    assert(list[i] == before[i]);
    assert(after[i].fixtures == worn[i].fixtures);
}

} // verus!
