//! Everything chance decides about a chunk, drawn from seeded generators.
//!
//! Drawing is kept apart from drawing conclusions: the functions here only
//! collect draws, and the painter takes them as plain values. Structural draws
//! and per-voxel cosmetic draws come from two generators, because the number of
//! cosmetic draws depends on voxel resolution and must not shift the walls.

use rand::distr::{Bernoulli, Distribution};
use rand::rngs::StdRng;
use rand::seq::SliceRandom;
use rand::{RngExt, SeedableRng};
use vstd::prelude::*;

use crate::domain::entities::blueprint::{Blueprint, MicrobiomeZone, PlanModel};
use crate::use_cases::chunk::cells::{
    cell_footprint, detail_count, draws_fit, footprint, hole_count, hole_span, in_same_room, records,
    same_room, CellDraws, CellRecord, DoorDraw, HOLE_MARGIN,
};
use crate::use_cases::chunk::decor::RoomRoll;
use crate::use_cases::chunk::layout::all_draws_fit;
use crate::use_cases::chunk::metrics::ChunkMetrics;
use crate::use_cases::chunk::rooms::RoomDraw;

verus! {

/// How often a room is attempted per chunk.
pub const ROOM_ATTEMPTS: usize = 15;

/// Longest side of a room, in cells.
pub const MAX_ROOM_SIDE: usize = 3;

/// Wall left beside a doorway, in centimetres.
pub const DOOR_MARGIN_CM: u32 = 50;

/// Mixed into the seed of the cosmetic generator.
pub const DETAIL_SALT: u64 = 0xD57A_11ED;

/// `rand::rngs::StdRng`, carried through as an opaque generator.
#[verifier::external_type_specification]
#[verifier::external_body]
pub struct ExStdRng(StdRng);

/// `rand::distr::Bernoulli`, carried through as an opaque chance.
#[verifier::external_type_specification]
#[verifier::external_body]
pub struct ExBernoulli(Bernoulli);

/// The generator that `StdRng::seed_from_u64` makes of a state.
pub uninterp spec fn seeded_generator(state: u64) -> StdRng;

/// What `RngExt::random_range` gives on a half-open range of `usize`, and the
/// generator after it.
pub uninterp spec fn usize_draw(rng: StdRng, low: usize, high: usize) -> (usize, StdRng);

/// What `RngExt::random_range` gives on a half-open range of `i32`, and the
/// generator after it.
pub uninterp spec fn i32_draw(rng: StdRng, low: i32, high: i32) -> (i32, StdRng);

/// What `RngExt::random_range` gives on a half-open range of `u32`, and the
/// generator after it.
pub uninterp spec fn u32_draw(rng: StdRng, low: u32, high: u32) -> (u32, StdRng);

/// What `RngExt::random_ratio` gives, and the generator after it.
pub uninterp spec fn ratio_draw(rng: StdRng, numerator: u32, denominator: u32) -> (bool, StdRng);

/// What `Distribution::sample` of a `Bernoulli` chance gives, and the generator
/// after it.
pub uninterp spec fn chance_draw(rng: StdRng, chance: Bernoulli) -> (bool, StdRng);

/// The order that `SliceRandom::shuffle` leaves values in, and the generator after
/// it.
pub uninterp spec fn shuffle_draw(rng: StdRng, values: Seq<usize>) -> (Seq<usize>, StdRng);

/// `SeedableRng::seed_from_u64` of `StdRng`: a generator settled by the state.
#[verifier::external_body]
fn seeded(state: u64) -> (rng: StdRng)
    ensures
        rng == seeded_generator(state),
{
    StdRng::seed_from_u64(state)
}

/// `RngExt::random_range` on a half-open range of `usize`: a value of the range,
/// which must not be empty, settled by the generator and the range.
#[verifier::external_body]
fn random_usize(rng: &mut StdRng, low: usize, high: usize) -> (value: usize)
    requires
        low < high,
    ensures
        low <= value < high,
        (value, *final(rng)) == usize_draw(*old(rng), low, high),
{
    rng.random_range(low..high)
}

/// `RngExt::random_range` on a half-open range of `i32`: a value of the range,
/// which must not be empty, settled by the generator and the range.
#[verifier::external_body]
fn random_i32(rng: &mut StdRng, low: i32, high: i32) -> (value: i32)
    requires
        low < high,
    ensures
        low <= value < high,
        (value, *final(rng)) == i32_draw(*old(rng), low, high),
{
    rng.random_range(low..high)
}

/// `RngExt::random_range` on a half-open range of `u32`: a value of the range,
/// which must not be empty, settled by the generator and the range.
#[verifier::external_body]
fn random_u32(rng: &mut StdRng, low: u32, high: u32) -> (value: u32)
    requires
        low < high,
    ensures
        low <= value < high,
        (value, *final(rng)) == u32_draw(*old(rng), low, high),
{
    rng.random_range(low..high)
}

/// `RngExt::random_ratio`: true with a chance of `numerator` in `denominator`,
/// never for a zero numerator and always for equal numbers; settled by the
/// generator and the numbers.
#[verifier::external_body]
fn random_ratio(rng: &mut StdRng, numerator: u32, denominator: u32) -> (hit: bool)
    requires
        0 < denominator,
        numerator <= denominator,
    ensures
        numerator == 0 ==> !hit,
        numerator == denominator ==> hit,
        (hit, *final(rng)) == ratio_draw(*old(rng), numerator, denominator),
{
    rng.random_ratio(numerator, denominator)
}

/// `Distribution::sample` of a `Bernoulli` chance: settled by the generator and
/// the chance.
#[verifier::external_body]
fn random_chance(rng: &mut StdRng, chance: &Bernoulli) -> (hit: bool)
    ensures
        (hit, *final(rng)) == chance_draw(*old(rng), *chance),
{
    chance.sample(rng)
}

/// `SliceRandom::shuffle`: the same values in an order settled by the generator
/// and the values.
#[verifier::external_body]
fn shuffle(rng: &mut StdRng, values: &mut Vec<usize>)
    ensures
        final(values)@.to_multiset() == old(values)@.to_multiset(),
        (final(values)@, *final(rng)) == shuffle_draw(*old(rng), old(values)@),
{
    values.shuffle(rng)
}

/// Seed of the structural generator: the world seed and the bits of both chunk
/// coordinates.
pub open spec fn structure_seed(seed: u32, x_bits: u32, z_bits: u32) -> u64 {
    (seed as u64) ^ (x_bits as u64) ^ (z_bits as u64)
}

/// The structural generator of a chunk.
pub fn structure_rng(seed: u32, x_bits: u32, z_bits: u32) -> (rng: StdRng)
    ensures
        rng == seeded_generator(structure_seed(seed, x_bits, z_bits)),
{
    seeded(structure_state(seed, x_bits, z_bits))
}

/// The cosmetic generator of a chunk.
pub fn detail_rng(seed: u32, x_bits: u32, z_bits: u32) -> (rng: StdRng)
    ensures
        rng == seeded_generator(structure_seed(seed, x_bits, z_bits) ^ DETAIL_SALT),
{
    seeded(structure_state(seed, x_bits, z_bits) ^ DETAIL_SALT)
}

/// The state that the structural generator starts from.
pub fn structure_state(seed: u32, x_bits: u32, z_bits: u32) -> (state: u64)
    ensures
        state == structure_seed(seed, x_bits, z_bits),
{
    (seed as u64) ^ (x_bits as u64) ^ (z_bits as u64)
}

/// The two generators of a chunk never start from the same state.
pub proof fn law_generators_start_apart(seed: u32, x_bits: u32, z_bits: u32)
    ensures
        structure_seed(seed, x_bits, z_bits) != structure_seed(seed, x_bits, z_bits) ^ DETAIL_SALT,
{
    let s = structure_seed(seed, x_bits, z_bits);
    assert(s != s ^ 0xD57A_11EDu64) by (bit_vector);
}

pub open spec fn attempt_ok(d: RoomDraw, cells: int) -> bool {
    d.cx < cells && d.cz < cells && 1 <= d.rw <= MAX_ROOM_SIDE && 1 <= d.rd <= MAX_ROOM_SIDE
}

/// One room attempt, and the generator after it: a first cell and a size.
pub open spec fn attempt_draw(rng: StdRng, cells: usize) -> (RoomDraw, StdRng) {
    let cx = usize_draw(rng, 0, cells);
    let cz = usize_draw(cx.1, 0, cells);
    let rw = usize_draw(cz.1, 1, 4);
    let rd = usize_draw(rw.1, 1, 4);
    (RoomDraw { cx: cx.0, cz: cz.0, rw: rw.0, rd: rd.0 }, rd.1)
}

/// The first `n` room attempts, and the generator after them.
pub open spec fn attempt_draws(rng: StdRng, cells: usize, n: nat) -> (Seq<RoomDraw>, StdRng)
    decreases n,
{
    if n == 0 {
        (Seq::empty(), rng)
    } else {
        let before = attempt_draws(rng, cells, (n - 1) as nat);
        let next = attempt_draw(before.1, cells);
        (before.0.push(next.0), next.1)
    }
}

/// Draws the room attempts of a chunk.
pub fn draw_room_attempts(rng: &mut StdRng, cells: usize) -> (draws: Vec<RoomDraw>)
    requires
        cells > 0,
    ensures
        (draws@, *final(rng)) == attempt_draws(*old(rng), cells, ROOM_ATTEMPTS as nat),
        draws@.len() == ROOM_ATTEMPTS,
        forall|i: int| 0 <= i < draws@.len() ==> attempt_ok(#[trigger] draws@[i], cells as int),
{
    let mut draws: Vec<RoomDraw> = Vec::with_capacity(ROOM_ATTEMPTS);
    while draws.len() < ROOM_ATTEMPTS
        invariant
            cells > 0,
            draws@.len() <= ROOM_ATTEMPTS,
            (draws@, *rng) == attempt_draws(*old(rng), cells, draws@.len()),
            forall|i: int| 0 <= i < draws@.len() ==> attempt_ok(#[trigger] draws@[i], cells as int),
        decreases ROOM_ATTEMPTS - draws@.len(),
    {
        let cx: usize = random_usize(rng, 0, cells);
        let cz: usize = random_usize(rng, 0, cells);
        let rw: usize = random_usize(rng, 1, MAX_ROOM_SIDE + 1);
        let rd: usize = random_usize(rng, 1, MAX_ROOM_SIDE + 1);
        draws.push(RoomDraw { cx, cz, rw, rd });
    }
    draws
}

/// Puts cells in the order that the generator gives.
pub fn shuffle_cells(rng: &mut StdRng, cells: &mut Vec<usize>)
    ensures
        final(cells)@.to_multiset() == old(cells)@.to_multiset(),
        (final(cells)@, *final(rng)) == shuffle_draw(*old(rng), old(cells)@),
{
    shuffle(rng, cells);
}

/// End of the range of offsets for a width class: the cell's span less the
/// opening and the wall beside it.
pub open spec fn offset_limit_cm(width_choice: i32) -> u32 {
    if width_choice < 15 {
        330
    } else if width_choice < 85 {
        250
    } else {
        100
    }
}

pub open spec fn door_ok(d: DoorDraw) -> bool {
    &&& 0 <= d.width_choice < 100
    &&& DOOR_MARGIN_CM <= d.offset_cm < offset_limit_cm(d.width_choice)
}

/// A wall between two cells that no draw is spent on.
pub open spec fn undrawn_door() -> DoorDraw {
    DoorDraw { width_choice: 0, offset_cm: 0 }
}

/// One doorway, and the generator after it: a width class, then an offset.
pub open spec fn door_draw(rng: StdRng) -> (DoorDraw, StdRng) {
    let choice = i32_draw(rng, 0, 100);
    let offset = u32_draw(choice.1, DOOR_MARGIN_CM, offset_limit_cm(choice.0));
    (DoorDraw { width_choice: choice.0, offset_cm: offset.0 }, offset.1)
}

fn draw_door(rng: &mut StdRng) -> (d: DoorDraw)
    ensures
        door_ok(d),
        (d, *final(rng)) == door_draw(*old(rng)),
{
    let width_choice: i32 = random_i32(rng, 0, 100);
    let limit: u32 = if width_choice < 15 {
        330
    } else if width_choice < 85 {
        250
    } else {
        100
    };
    let offset_cm: u32 = random_u32(rng, DOOR_MARGIN_CM, limit);
    DoorDraw { width_choice, offset_cm }
}

/// A doorway is drawn south of the cell: it has walls, is not on the edge, and
/// the next cell is not of the same room.
pub open spec fn draws_south(plan: PlanModel, x: int, z: int) -> bool {
    plan.at(x, z).zone != MicrobiomeZone::PillarField && z < plan.depth - 1 && !same_room(
        plan.at(x, z),
        plan.at(x, z + 1),
    )
}

pub open spec fn draws_east(plan: PlanModel, x: int, z: int) -> bool {
    plan.at(x, z).zone != MicrobiomeZone::PillarField && x < plan.width - 1 && !same_room(
        plan.at(x, z),
        plan.at(x + 1, z),
    )
}

/// The draws of a cell are in range, and spent only where they decide.
pub open spec fn cell_draws_ok(plan: PlanModel, x: int, z: int, d: CellRecord) -> bool {
    &&& if draws_south(plan, x, z) {
        door_ok(d.south)
    } else {
        d.south == undrawn_door()
    }
    &&& if draws_east(plan, x, z) {
        door_ok(d.east)
    } else {
        d.east == undrawn_door()
    }
}

/// A doorway where one is wanted, and the generator after it.
pub open spec fn wanted_door(rng: StdRng, wanted: bool) -> (DoorDraw, StdRng) {
    if wanted {
        door_draw(rng)
    } else {
        (undrawn_door(), rng)
    }
}

/// The first `n` hits of a chance, and the generator after them.
pub open spec fn hit_draws(rng: StdRng, numerator: u32, denominator: u32, n: nat) -> (
    Seq<bool>,
    StdRng,
)
    decreases n,
{
    if n == 0 {
        (Seq::empty(), rng)
    } else {
        let before = hit_draws(rng, numerator, denominator, (n - 1) as nat);
        let next = ratio_draw(before.1, numerator, denominator);
        (before.0.push(next.0), next.1)
    }
}

fn draw_hits(rng: &mut StdRng, count: usize, numerator: u32, denominator: u32) -> (hits: Vec<bool>)
    requires
        0 < denominator,
        numerator <= denominator,
    ensures
        hits@.len() == count,
        (hits@, *final(rng)) == hit_draws(*old(rng), numerator, denominator, count as nat),
{
    let mut hits: Vec<bool> = Vec::new();
    while hits.len() < count
        invariant
            hits@.len() <= count,
            0 < denominator,
            numerator <= denominator,
            (hits@, *rng) == hit_draws(*old(rng), numerator, denominator, hits@.len()),
        decreases count - hits@.len(),
    {
        hits.push(random_ratio(rng, numerator, denominator));
    }
    hits
}

fn axis_span(a: usize, b: usize) -> (n: usize)
    requires
        a <= b < usize::MAX,
    ensures
        n == hole_span(a as int, b as int),
{
    if b - a + 1 > 2 * HOLE_MARGIN {
        b - a + 1 - 2 * HOLE_MARGIN
    } else {
        0
    }
}

/// The cosmetic details of a cell, and the generator after them: floor holes come
/// up once in twenty, pillar rows three times in ten.
pub open spec fn detail_draws(rng: StdRng, m: ChunkMetrics, zone: MicrobiomeZone, x: int, z: int) -> (
    Seq<bool>,
    StdRng,
) {
    let count = detail_count(footprint(m, x, z), zone, m.top_of(zone)) as nat;
    if zone == MicrobiomeZone::Holes {
        hit_draws(rng, 1, 20, count)
    } else if zone == MicrobiomeZone::PillarField {
        hit_draws(rng, 3, 10, count)
    } else {
        (Seq::empty(), rng)
    }
}

fn draw_details(rng: &mut StdRng, m: &ChunkMetrics, zone: MicrobiomeZone, x: usize, z: usize) -> (hits:
    Vec<bool>)
    requires
        m.wf(),
        x < m.cells,
        z < m.cells,
    ensures
        hits@.len() == detail_count(footprint(*m, x as int, z as int), zone, m.top_of(zone)),
        (hits@, *final(rng)) == detail_draws(*old(rng), *m, zone, x as int, z as int),
{
    match zone {
        MicrobiomeZone::Holes => {
            let f = cell_footprint(m, x, z);
            let a: usize = axis_span(f.x0, f.x1);
            let b: usize = axis_span(f.z0, f.z1);
            assert(a * b <= m.width * m.height * m.width) by (nonlinear_arith)
                requires
                    a <= m.width,
                    b <= m.width,
                    m.height >= 2,
            ;
            draw_hits(rng, a * b, 1, 20)
        },
        MicrobiomeZone::PillarField => draw_hits(rng, m.wall_top(zone), 3, 10),
        _ => Vec::new(),
    }
}

/// What was drawn for a number of cells, and both generators after it.
#[verifier::ext_equal]
pub struct CellStream {
    pub records: Seq<CellRecord>,
    pub rng: StdRng,
    pub detail: StdRng,
}

/// The draws of the first `n` cells, row by row: a doorway south, a doorway east,
/// then the details.
pub open spec fn cell_stream(
    rng: StdRng,
    detail: StdRng,
    plan: PlanModel,
    m: ChunkMetrics,
    n: nat,
) -> CellStream
    decreases n,
{
    if n == 0 {
        CellStream { records: Seq::empty(), rng, detail }
    } else {
        let before = cell_stream(rng, detail, plan, m, (n - 1) as nat);
        let (x, z) = ((n - 1) % plan.width, (n - 1) / plan.width);
        let south = wanted_door(before.rng, draws_south(plan, x, z));
        let east = wanted_door(south.1, draws_east(plan, x, z));
        let details = detail_draws(before.detail, m, plan.at(x, z).zone, x, z);
        CellStream {
            records: before.records.push(
                CellRecord { south: south.0, east: east.0, details: details.0 },
            ),
            rng: east.1,
            detail: details.1,
        }
    }
}

/// Draws doorways and cosmetic details for every cell, row by row.
pub fn draw_cells_draws(
    rng: &mut StdRng,
    detail: &mut StdRng,
    plan: &Blueprint,
    m: &ChunkMetrics,
) -> (draws: Vec<CellDraws>)
    requires
        plan.wf(),
        m.wf(),
        plan@.width == m.cells,
        plan@.depth == m.cells,
    ensures
        cell_stream(*old(rng), *old(detail), plan@, *m, (m.cells * m.cells) as nat) == (CellStream {
            records: records(draws@),
            rng: *final(rng),
            detail: *final(detail),
        }),
        all_draws_fit(plan@, *m, records(draws@)),
        forall|i: int|
            0 <= i < draws@.len() ==> cell_draws_ok(
                plan@,
                i % plan@.width,
                i / plan@.width,
                #[trigger] records(draws@)[i],
            ),
{
    let mut draws: Vec<CellDraws> = Vec::new();
    let w: usize = m.cells;
    let count: usize = w * w;
    assert(records(draws@) =~= Seq::<CellRecord>::empty());
    while draws.len() < count
        invariant
            draws@.len() <= count,
            count == w * w,
            w == m.cells,
            plan.wf(),
            m.wf(),
            plan@.width == m.cells,
            plan@.depth == m.cells,
            cell_stream(*old(rng), *old(detail), plan@, *m, draws@.len()) == (CellStream {
                records: records(draws@),
                rng: *rng,
                detail: *detail,
            }),
            forall|i: int|
                0 <= i < draws@.len() ==> draws_fit(
                    plan@,
                    *m,
                    i % plan@.width,
                    i / plan@.width,
                    #[trigger] records(draws@)[i],
                ),
            forall|i: int|
                0 <= i < draws@.len() ==> cell_draws_ok(
                    plan@,
                    i % plan@.width,
                    i / plan@.width,
                    #[trigger] records(draws@)[i],
                ),
        decreases count - draws@.len(),
    {
        let ghost before = draws@;
        let i: usize = draws.len();
        let x: usize = i % w;
        let z: usize = i / w;
        assert(z < w) by (nonlinear_arith)
            requires
                i < w * w,
                z == i / w,
                w >= 1,
        ;
        let cell = plan.get(x, z);
        let walled: bool = cell.zone != MicrobiomeZone::PillarField;
        let south = if walled && z < w - 1 && !in_same_room(cell, plan.get(x, z + 1)) {
            draw_door(rng)
        } else {
            DoorDraw { width_choice: 0, offset_cm: 0 }
        };
        let east = if walled && x < w - 1 && !in_same_room(cell, plan.get(x + 1, z)) {
            draw_door(rng)
        } else {
            DoorDraw { width_choice: 0, offset_cm: 0 }
        };
        let details = draw_details(detail, m, cell.zone, x, z);
        let ghost record = CellRecord { south, east, details: details@ };
        draws.push(CellDraws { south, east, details });
        proof {
            assert(records(draws@) =~= records(before).push(record));
            assert forall|k: int| 0 <= k < draws@.len() implies draws_fit(
                plan@,
                *m,
                k % plan@.width,
                k / plan@.width,
                #[trigger] records(draws@)[k],
            ) && cell_draws_ok(plan@, k % plan@.width, k / plan@.width, records(draws@)[k]) by {
                if k < i {
                    assert(records(draws@)[k] == records(before)[k]);
                }
            }
        }
    }
    draws
}

/// The rolls of the first `n` rooms, and the generator after them: a stamp, stairs
/// and a lamp style each.
pub open spec fn roll_draws(rng: StdRng, stairs: Bernoulli, n: nat) -> (Seq<RoomRoll>, StdRng)
    decreases n,
{
    if n == 0 {
        (Seq::empty(), rng)
    } else {
        let before = roll_draws(rng, stairs, (n - 1) as nat);
        let stamp = usize_draw(before.1, 0, usize::MAX);
        let flight = chance_draw(stamp.1, stairs);
        let strip = ratio_draw(flight.1, 3, 10);
        (
            before.0.push(RoomRoll { stamp: stamp.0, stairs: flight.0, strip: strip.0 }),
            strip.1,
        )
    }
}

/// Draws a stamp roll, a stairs roll and a lamp style per room. Every roll is
/// made whether or not it decides anything, so that rooms too small for a stamp
/// at one resolution do not shift the draws of the next room.
pub fn draw_room_rolls(rng: &mut StdRng, count: usize, stairs: &Bernoulli) -> (rolls: Vec<RoomRoll>)
    ensures
        rolls@.len() == count,
        (rolls@, *final(rng)) == roll_draws(*old(rng), *stairs, count as nat),
{
    let mut rolls: Vec<RoomRoll> = Vec::new();
    while rolls.len() < count
        invariant
            rolls@.len() <= count,
            (rolls@, *rng) == roll_draws(*old(rng), *stairs, rolls@.len()),
        decreases count - rolls@.len(),
    {
        let stamp: usize = random_usize(rng, 0, usize::MAX);
        let with_stairs: bool = random_chance(rng, stairs);
        let strip: bool = random_ratio(rng, 3, 10);
        rolls.push(RoomRoll { stamp, stairs: with_stairs, strip });
    }
    rolls
}

/// Voxel resolution does not move the doorways: whatever the metrics and the
/// cosmetic generator, the same structural generator draws the same doorways and
/// is left in the same state.
pub proof fn law_details_do_not_move_doorways(
    rng: StdRng,
    plan: PlanModel,
    fine_detail: StdRng,
    fine: ChunkMetrics,
    coarse_detail: StdRng,
    coarse: ChunkMetrics,
    n: nat,
)
    ensures
        ({
            let a = cell_stream(rng, fine_detail, plan, fine, n);
            let b = cell_stream(rng, coarse_detail, plan, coarse, n);
            &&& a.rng == b.rng
            &&& a.records.len() == n && b.records.len() == n
            &&& forall|i: int|
                #![trigger a.records[i]]
                #![trigger b.records[i]]
                0 <= i < n ==> a.records[i].south == b.records[i].south && a.records[i].east
                    == b.records[i].east
        }),
    decreases n,
{
    if n > 0 {
        law_details_do_not_move_doorways(
            rng,
            plan,
            fine_detail,
            fine,
            coarse_detail,
            coarse,
            (n - 1) as nat,
        );
    }
}

/// Drawn doorways fit their wall: at least half a metre of wall is left on either side
/// of an opening of 1.2, 2.0 or 3.5 metres in a cell of five.
pub proof fn law_doorways_fit_their_wall(d: DoorDraw)
    requires
        door_ok(d),
    ensures
        d.offset_cm >= 50,
        d.width_choice < 15 ==> d.offset_cm + 120 + 50 <= 500,
        15 <= d.width_choice < 85 ==> d.offset_cm + 200 + 50 <= 500,
        85 <= d.width_choice ==> d.offset_cm + 350 + 50 <= 500,
{
}

/// Rooms are attempted with one to three cells a side, and start inside the plan.
pub proof fn law_rooms_are_small(d: RoomDraw, cells: int)
    requires
        attempt_ok(d, cells),
    ensures
        1 <= d.rw <= 3,
        1 <= d.rd <= 3,
        d.cx < cells,
        d.cz < cells,
{
}

/// A doorway is drawn for a wall between two cells of the plan exactly if the first
/// has walls and the two are not of one room; pillar fields and the edges of the plan
/// spend no draw.
pub proof fn law_doorways_are_drawn_between_cells(plan: PlanModel, x: int, z: int)
    ensures
        draws_south(plan, x, z) <==> plan.at(x, z).zone != MicrobiomeZone::PillarField && z + 1
            < plan.depth && (plan.at(x, z).room is None || plan.at(x, z).room != plan.at(
            x,
            z + 1,
        ).room),
        draws_east(plan, x, z) <==> plan.at(x, z).zone != MicrobiomeZone::PillarField && x + 1
            < plan.width && (plan.at(x, z).room is None || plan.at(x, z).room != plan.at(
            x + 1,
            z,
        ).room),
{
}

/// Every chunk has a generator of its own as far as one difference goes: another world
/// seed, another column of chunks or another row alone starts from another state, and
/// the two coordinates count alike.
pub proof fn law_chunks_are_seeded_apart(seed: u32, x_bits: u32, z_bits: u32, other: u32)
    ensures
        other != seed ==> structure_seed(other, x_bits, z_bits) != structure_seed(
            seed,
            x_bits,
            z_bits,
        ),
        other != x_bits ==> structure_seed(seed, other, z_bits) != structure_seed(
            seed,
            x_bits,
            z_bits,
        ),
        other != z_bits ==> structure_seed(seed, x_bits, other) != structure_seed(
            seed,
            x_bits,
            z_bits,
        ),
        structure_seed(seed, 0, 0) == seed as u64,
        structure_seed(seed, x_bits, z_bits) == structure_seed(seed, z_bits, x_bits),
{
    let (s, x, z, o) = (seed as u64, x_bits as u64, z_bits as u64, other as u64);
    assert((o != s ==> (o ^ x) ^ z != (s ^ x) ^ z) && (o != x ==> (s ^ o) ^ z != (s ^ x) ^ z) && (o
        != z ==> (s ^ x) ^ o != (s ^ x) ^ z) && (s ^ 0) ^ 0 == s && (s ^ x) ^ z == (s ^ z) ^ x)
        by (bit_vector);
}

/// What is drawn first and what next: a room's first cell before its size, x before z; a
/// doorway's width before its place; of a room's furniture the stamp, then the stairs,
/// then the lamps, of which three in ten are strips.
pub proof fn law_draws_come_in_order(rng: StdRng, cells: usize, stairs: Bernoulli)
    ensures
        ({
            let (d, end) = attempt_draw(rng, cells);
            let first = usize_draw(rng, 0, cells);
            let second = usize_draw(first.1, 0, cells);
            let third = usize_draw(second.1, 1, 4);
            let fourth = usize_draw(third.1, 1, 4);
            d.cx == first.0 && d.cz == second.0 && d.rw == third.0 && d.rd == fourth.0 && end
                == fourth.1
        }),
        ({
            let (d, end) = door_draw(rng);
            let width = i32_draw(rng, 0, 100);
            d.width_choice == width.0 && (width.0 < 15 ==> (d.offset_cm, end) == u32_draw(
                width.1,
                50,
                330,
            )) && (15 <= width.0 < 85 ==> (d.offset_cm, end) == u32_draw(width.1, 50, 250)) && (85
                <= width.0 ==> (d.offset_cm, end) == u32_draw(width.1, 50, 100))
        }),
        ({
            let (rolls, end) = roll_draws(rng, stairs, 1);
            let stamp = usize_draw(rng, 0, usize::MAX);
            let flight = chance_draw(stamp.1, stairs);
            let strip = ratio_draw(flight.1, 3, 10);
            rolls.len() == 1 && rolls[0].stamp == stamp.0 && rolls[0].stairs == flight.0
                && rolls[0].strip == strip.0 && end == strip.1
        }),
{
    reveal_with_fuel(roll_draws, 2);
}

/// Floor holes come up once in twenty, one draw for each column where a hole may be;
/// rows of a middle pillar three times in ten, one draw for each row up to the ceiling.
/// Other zones spend no draw on details.
pub proof fn law_details_are_drawn_by_zone(
    rng: StdRng,
    m: ChunkMetrics,
    zone: MicrobiomeZone,
    x: int,
    z: int,
)
    ensures
        zone is Holes ==> detail_draws(rng, m, zone, x, z) == hit_draws(
            rng,
            1,
            20,
            hole_count(footprint(m, x, z)) as nat,
        ),
        zone is PillarField ==> detail_draws(rng, m, zone, x, z) == hit_draws(
            rng,
            3,
            10,
            m.standard_top as nat,
        ),
        !(zone is Holes) && !(zone is PillarField) ==> detail_draws(rng, m, zone, x, z) == (
            Seq::<bool>::empty(),
            rng,
        ),
{
}

/// Every hit is a draw of its own from where the one before left the generator.
pub proof fn law_hits_are_drawn_one_by_one(
    rng: StdRng,
    numerator: u32,
    denominator: u32,
    n: nat,
)
    ensures
        hit_draws(rng, numerator, denominator, 0) == (Seq::<bool>::empty(), rng),
        ({
            let before = hit_draws(rng, numerator, denominator, n);
            let next = ratio_draw(before.1, numerator, denominator);
            hit_draws(rng, numerator, denominator, n + 1) == (before.0.push(next.0), next.1)
        }),
{
}

} // verus!
