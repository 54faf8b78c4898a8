//! The corruption pass: the plan was sane; the building is not.
//!
//! A suite repeats itself, a suite was never occupied, a renovation contradicts
//! the structure, and rarely one occupied room's fixtures all burn red.

use vstd::prelude::*;

use crate::domain::entities::anomaly::{Position, WorldBounds};
use crate::domain::entities::architecture::{
    bounds_of, AssemblyInstance, CorruptionProfile, Fixture, RenovationStyle, SpaceProgram,
};
use crate::domain::float_bits::{at_most, bits_at_most, bits_less, less, FloatBits};
use crate::use_cases::region_plan::suites::{ground_is_free, is_free, Reserved};

verus! {

/// Rolls below this, 0.6, repeat a suite; other rolls below it abandon one.
pub const CORRUPTION_SHARE: FloatBits = 0x3F19_999A;

/// Whether a roll triggers one of the passes.
pub fn strikes(roll: FloatBits) -> (hit: bool)
    ensures
        hit == less(roll, CORRUPTION_SHARE),
{
    bits_less(roll, CORRUPTION_SHARE)
}

/// How far an entrance of the copy is from a corridor, and how far it may be.
#[derive(Clone, Copy, Debug, PartialEq, Eq, Structural)]
pub struct DoorReach {
    pub distance: FloatBits,
    pub allowed: FloatBits,
}

/// Where the copy of a suite would stand.
pub struct CopySite {
    /// The region without its edge margin.
    pub limits: WorldBounds,
    /// Far ends of the copy with the gap to other suites.
    pub far_x: FloatBits,
    pub far_z: FloatBits,
    /// Every pair of an entrance and a corridor.
    pub doors: Vec<DoorReach>,
    /// How far the copy was moved.
    pub shift: Position,
}

pub open spec fn reaches_corridor(doors: Seq<DoorReach>) -> bool {
    exists|i: int|
        0 <= i < doors.len() && at_most((#[trigger] doors[i]).distance, doors[i].allowed)
}

/// Strictly inside the limits.
pub open spec fn strictly_within(b: WorldBounds, limits: WorldBounds) -> bool {
    less(limits.min_x, b.min_x) && less(b.max_x, limits.max_x) && less(limits.min_z, b.min_z) && less(
        b.max_z,
        limits.max_z,
    )
}

pub open spec fn copy_ground(copy: AssemblyInstance, site: CopySite) -> Reserved {
    Reserved {
        bounds: bounds_of(copy.footprint.vertices@, copy.footprint.vertices@.len()),
        far_x: site.far_x,
        far_z: site.far_z,
    }
}

/// The copy stays in its region, reaches a corridor and overlaps nothing.
pub open spec fn copy_stands(copy: AssemblyInstance, site: CopySite, taken: Seq<Reserved>) -> bool {
    strictly_within(copy_ground(copy, site).bounds, site.limits) && reaches_corridor(site.doors@)
        && is_free(copy_ground(copy, site), taken)
}

/// The copy under its own id, with its error noted.
pub open spec fn noted_copy(copy: AssemblyInstance, site: CopySite, id: u32) -> AssemblyInstance {
    AssemblyInstance {
        id,
        corruption: CorruptionProfile { misalignment: site.shift, ..copy.corruption },
        ..copy
    }
}

fn some_door_reaches(doors: &Vec<DoorReach>) -> (reaches: bool)
    ensures
        reaches == reaches_corridor(doors@),
{
    let mut i: usize = 0;
    while i < doors.len()
        invariant
            i <= doors@.len(),
            forall|k: int|
                0 <= k < i ==> !at_most((#[trigger] doors@[k]).distance, doors@[k].allowed),
        decreases doors@.len() - i,
    {
        if bits_at_most(doors[i].distance, doors[i].allowed) {
            return true;
        }
        i = i + 1;
    }
    false
}

/// A suite repeats itself further down the corridor. `copy` is the suite at its
/// new place; it is added only where it is no sealed pocket and overlaps nothing.
pub fn repeat_suite(
    assemblies: &mut Vec<AssemblyInstance>,
    copy: AssemblyInstance,
    site: &CopySite,
    taken: &Vec<Reserved>,
) -> (added: bool)
    requires
        old(assemblies)@.len() + 1000 <= u32::MAX,
    ensures
        added == copy_stands(copy, *site, taken@),
        final(assemblies)@ == if added {
            old(assemblies)@.push(
                noted_copy(copy, *site, (old(assemblies)@.len() + 1000) as u32),
            )
        } else {
            old(assemblies)@
        },
{
    let b = copy.footprint.bounds();
    let inside: bool = bits_less(site.limits.min_x, b.min_x) && bits_less(b.max_x, site.limits.max_x)
        && bits_less(site.limits.min_z, b.min_z) && bits_less(b.max_z, site.limits.max_z);
    let ground = Reserved { bounds: b, far_x: site.far_x, far_z: site.far_z };
    if inside && some_door_reaches(&site.doors) && ground_is_free(&ground, taken) {
        let mut noted = copy;
        noted.id = assemblies.len() as u32 + 1000;
        noted.corruption.misalignment = site.shift;
        assemblies.push(noted);
        true
    } else {
        false
    }
}

/// The fixture, burnt out.
pub open spec fn dark(f: Fixture) -> Fixture {
    Fixture { lit: false, ..f }
}

/// `after` is `before`, built and never occupied: an empty shell without light.
pub open spec fn is_abandoned_form(after: AssemblyInstance, before: AssemblyInstance) -> bool {
    &&& after.id == before.id
    &&& after.program is AbandonedExpansion
    &&& after.footprint == before.footprint
    &&& after.entrances == before.entrances
    &&& after.spaces@.len() == 0
    &&& after.structure == before.structure
    &&& after.ceiling_zones == before.ceiling_zones
    &&& after.fixtures@ == before.fixtures@.map_values(|f: Fixture| dark(f))
    &&& after.service_voids == before.service_voids
    &&& after.corruption == (CorruptionProfile { abandoned: true, ..before.corruption })
}

fn darken(fixtures: &mut Vec<Fixture>)
    ensures
        final(fixtures)@ == old(fixtures)@.map_values(|f: Fixture| dark(f)),
{
    let ghost before = fixtures@;
    let mut i: usize = 0;
    while i < fixtures.len()
        invariant
            i <= fixtures@.len(),
            fixtures@.len() == before.len(),
            forall|k: int| 0 <= k < i ==> #[trigger] fixtures@[k] == dark(before[k]),
            forall|k: int| i <= k < before.len() ==> #[trigger] fixtures@[k] == before[k],
        decreases fixtures@.len() - i,
    {
        let mut f = fixtures[i];
        f.lit = false;
        fixtures.set(i, f);
        i = i + 1;
    }
    assert(fixtures@ =~= before.map_values(|f: Fixture| dark(f)));
}

/// One assembly was built and then never occupied.
pub fn abandon(assemblies: &mut Vec<AssemblyInstance>, k: usize)
    requires
        k < old(assemblies)@.len(),
    ensures
        final(assemblies)@.len() == old(assemblies)@.len(),
        is_abandoned_form(final(assemblies)@[k as int], old(assemblies)@[k as int]),
        forall|i: int|
            0 <= i < old(assemblies)@.len() && i != k ==> #[trigger] final(assemblies)@[i] == old(
                assemblies,
            )@[i],
{
    let a = &mut assemblies[k];
    a.program = SpaceProgram::AbandonedExpansion;
    a.corruption.abandoned = true;
    a.spaces.clear();
    darken(&mut a.fixtures);
}

/// A renovation overlays the structural grid of one assembly, where the designer's
/// building was renovated at all.
pub fn overlay_renovation(assemblies: &mut Vec<AssemblyInstance>, history: RenovationStyle, k: usize)
    requires
        k < old(assemblies)@.len(),
    ensures
        final(assemblies)@ == if history is Untouched {
            old(assemblies)@
        } else {
            let a = old(assemblies)@[k as int];
            old(assemblies)@.update(
                k as int,
                AssemblyInstance {
                    corruption: CorruptionProfile { renovation_overlay: true, ..a.corruption },
                    ..a
                },
            )
        },
{
    if history != RenovationStyle::Untouched {
        let a = &mut assemblies[k];
        a.corruption.renovation_overlay = true;
    }
}

/// An assembly that a red room can be: occupied and reachable.
pub open spec fn can_burn_red(a: AssemblyInstance) -> bool {
    !a.corruption.abandoned && a.entrances@.len() > 0
}

pub open spec fn burning_red(a: AssemblyInstance) -> AssemblyInstance {
    AssemblyInstance { corruption: CorruptionProfile { red_room: true, ..a.corruption }, ..a }
}

/// The first assembly that can burn red does.
pub fn force_red_room(assemblies: &mut Vec<AssemblyInstance>) -> (room: Option<usize>)
    ensures
        match room {
            Some(k) => {
                &&& k < old(assemblies)@.len()
                &&& can_burn_red(old(assemblies)@[k as int])
                &&& forall|j: int| 0 <= j < k ==> !can_burn_red(#[trigger] old(assemblies)@[j])
                &&& final(assemblies)@ == old(assemblies)@.update(
                    k as int,
                    burning_red(old(assemblies)@[k as int]),
                )
            },
            None => {
                &&& forall|j: int|
                    0 <= j < old(assemblies)@.len() ==> !can_burn_red(#[trigger] old(assemblies)@[j])
                &&& final(assemblies)@ == old(assemblies)@
            },
        },
{
    let mut i: usize = 0;
    while i < assemblies.len()
        invariant
            i <= assemblies@.len(),
            assemblies@ == old(assemblies)@,
            forall|j: int| 0 <= j < i ==> !can_burn_red(#[trigger] assemblies@[j]),
        decreases assemblies@.len() - i,
    {
        if !assemblies[i].corruption.abandoned && assemblies[i].entrances.len() > 0 {
            let a = &mut assemblies[i];
            a.corruption.red_room = true;
            return Some(i);
        }
        i = i + 1;
    }
    None
}

/// The assembly that comes `offset` after the start of an event's round.
pub open spec fn round_index(event: u64, offset: int, count: int) -> int {
    ((event as int % count) + offset) % count
}

/// The rounds start where the event's id says.
pub open spec fn first_in_round(assemblies: Seq<AssemblyInstance>, event: u64, offset: int) -> bool {
    let count = assemblies.len() as int;
    &&& 0 <= offset < count
    &&& can_burn_red(assemblies[round_index(event, offset, count)])
    &&& forall|o: int|
        #![trigger round_index(event, o, count)]
        0 <= o < offset ==> !can_burn_red(assemblies[round_index(event, o, count)])
}

proof fn lemma_round_index(event: u64, offset: int, count: int)
    requires
        0 < count,
        0 <= offset < count,
    ensures
        0 <= round_index(event, offset, count) < count,
        0 <= event as int % count < count,
{
    assert(0 <= event as int % count < count) by (nonlinear_arith)
        requires
            0 < count,
    ;
    assert(0 <= ((event as int % count) + offset) % count < count) by (nonlinear_arith)
        requires
            0 < count,
    ;
}

/// Realizes a red-room event on one occupied, reachable assembly, rotating from a
/// stable start. Where none qualifies the event stays unrealized: a planned
/// encounter never overwrites navigable circulation.
pub fn realize_red_event(assemblies: &mut Vec<AssemblyInstance>, event: u64) -> (room: Option<usize>)
    ensures
        match room {
            Some(k) => {
                &&& exists|o: int|
                    #![trigger round_index(event, o, old(assemblies)@.len() as int)]
                    first_in_round(old(assemblies)@, event, o) && k == round_index(
                        event,
                        o,
                        old(assemblies)@.len() as int,
                    )
                &&& final(assemblies)@ == old(assemblies)@.update(
                    k as int,
                    burning_red(old(assemblies)@[k as int]),
                )
            },
            None => {
                &&& forall|o: int| !#[trigger] first_in_round(old(assemblies)@, event, o)
                &&& final(assemblies)@ == old(assemblies)@
            },
        },
{
    let count: usize = assemblies.len();
    if count == 0 {
        return None;
    }
    let start: usize = (event % count as u64) as usize;
    proof {
        lemma_round_index(event, 0, count as int);
    }
    let mut offset: usize = 0;
    while offset < count
        invariant
            0 < count,
            count == assemblies@.len(),
            start == event as int % count as int,
            start < count,
            offset <= count,
            assemblies@ == old(assemblies)@,
            forall|o: int|
                #![trigger round_index(event, o, count as int)]
                0 <= o < offset ==> !can_burn_red(assemblies@[round_index(event, o, count as int)]),
        decreases count - offset,
    {
        let k: usize = if offset < count - start {
            start + offset
        } else {
            offset - (count - start)
        };
        proof {
            lemma_round_index(event, offset as int, count as int);
            let (s, o, c) = (start as int, offset as int, count as int);
            assert(k == (s + o) % c) by (nonlinear_arith)
                requires
                    0 <= s < c,
                    0 <= o < c,
                    k == if o < c - s {
                        s + o
                    } else {
                        o - (c - s)
                    },
            ;
        }
        if !assemblies[k].corruption.abandoned && assemblies[k].entrances.len() > 0 {
            let a = &mut assemblies[k];
            a.corruption.red_room = true;
            assert(first_in_round(old(assemblies)@, event, offset as int));
            return Some(k);
        }
        offset = offset + 1;
    }
    None
}

/// An event is realized whenever some assembly qualifies.
pub proof fn law_events_find_a_room(assemblies: Seq<AssemblyInstance>, event: u64, k: int)
    requires
        0 <= k < assemblies.len(),
        can_burn_red(assemblies[k]),
    ensures
        exists|o: int| first_in_round(assemblies, event, o),
{
    let count = assemblies.len() as int;
    let start = event as int % count;
    lemma_round_index(event, 0, count);
    let o = if k >= start {
        k - start
    } else {
        k - start + count
    };
    assert((start + o) % count == k) by (nonlinear_arith)
        requires
            0 <= start < count,
            0 <= k < count,
            o == if k >= start {
                k - start
            } else {
                k - start + count
            },
    ;
    lemma_some_first_round(assemblies, event, o);
}

proof fn lemma_some_first_round(assemblies: Seq<AssemblyInstance>, event: u64, o: int)
    requires
        0 <= o < assemblies.len(),
        can_burn_red(assemblies[round_index(event, o, assemblies.len() as int)]),
    ensures
        exists|p: int| first_in_round(assemblies, event, p),
    decreases o,
{
    let count = assemblies.len() as int;
    if first_in_round(assemblies, event, o) {
    } else {
        let p = choose|p: int|
            #![trigger round_index(event, p, count)]
            0 <= p < o && can_burn_red(assemblies[round_index(event, p, count)]);
        lemma_some_first_round(assemblies, event, p);
    }
}

/// Abandoned shells stay dark and empty: none of their fixtures is lit, and no
/// red room is ever made of one.
pub proof fn law_abandoned_shells_stay_dark(after: AssemblyInstance, before: AssemblyInstance, i: int)
    requires
        is_abandoned_form(after, before),
        0 <= i < after.fixtures@.len(),
    ensures
        !after.fixtures@[i].lit,
        !can_burn_red(after),
{
}

/// Rounds start where the event's id says and go on in order: the assembly that the id
/// picks burns if it can, and otherwise the next one that can, past the last one the
/// first.
pub proof fn law_events_pick_by_their_id(assemblies: Seq<AssemblyInstance>, event: u64, o: int)
    requires
        first_in_round(assemblies, event, o),
    ensures
        ({
            let count = assemblies.len() as int;
            let start = event as int % count;
            let room = round_index(event, o, count);
            &&& 0 <= room < count
            &&& room == if start + o < count {
                start + o
            } else {
                start + o - count
            }
            &&& can_burn_red(assemblies[room])
            &&& can_burn_red(assemblies[start]) ==> room == start
            &&& start < count - 1 && !can_burn_red(assemblies[start]) && can_burn_red(
                assemblies[start + 1],
            ) ==> room == start + 1
        }),
{
    let count = assemblies.len() as int;
    let start = event as int % count;
    lemma_round_index(event, o, count);
    lemma_round_index(event, 0, count);
    assert((start + o) % count == if start + o < count {
        start + o
    } else {
        start + o - count
    }) by (nonlinear_arith)
        requires
            0 <= start < count,
            0 <= o < count,
    ;
    assert((start + 0) % count == start) by (nonlinear_arith)
        requires
            0 <= start < count,
    ;
    assert(round_index(event, 0, count) == start);
    if start < count - 1 {
        assert((start + 1) % count == start + 1) by (nonlinear_arith)
            requires
                0 <= start < count - 1,
        ;
        assert(round_index(event, 1, count) == start + 1);
    }
}

/// A copy stands exactly if it lies strictly inside its limits on all four sides, one of
/// its doors is no farther from a corridor than allowed, and nothing taken is too close.
pub proof fn law_copies_stand_strictly_inside(
    copy: AssemblyInstance,
    site: CopySite,
    taken: Seq<Reserved>,
)
    ensures
        ({
            let b = bounds_of(copy.footprint.vertices@, copy.footprint.vertices@.len());
            copy_stands(copy, site, taken) <==> {
                &&& less(site.limits.min_x, b.min_x) && less(b.max_x, site.limits.max_x)
                &&& less(site.limits.min_z, b.min_z) && less(b.max_z, site.limits.max_z)
                &&& exists|i: int|
                    0 <= i < site.doors@.len() && at_most(
                        (#[trigger] site.doors@[i]).distance,
                        site.doors@[i].allowed,
                    )
                &&& is_free(Reserved { bounds: b, far_x: site.far_x, far_z: site.far_z }, taken)
            }
        }),
{
}

} // verus!
