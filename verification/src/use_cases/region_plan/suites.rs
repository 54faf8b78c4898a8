//! Program masses beside the dominant route: where they may stand, what they are
//! for, and their structure, ceilings, fixtures and sparse partitions.

use vstd::prelude::*;

use crate::domain::entities::anomaly::{Position, WorldBounds};
use crate::domain::entities::architecture::{
    bounds_of, rectangle, ArchitectGenome, AssemblyInstance, CeilingZone, CorruptionProfile, Fixture,
    LightingLanguage, Opening, Polygon2, ServiceVoid, Space, SpaceProgram, StructuralSystem,
    StructuralSystemInstance, ThresholdLanguage,
};
use crate::domain::float_bits::{at_most, bits_less, is_nan_bits, less, FloatBits};
use crate::use_cases::region_plan::genome::{pick_index, picked_index};

verus! {

/// The suite palette. Large, unfinished open-office masses dominate.
pub open spec fn palette(i: usize) -> SpaceProgram {
    if i <= 4 {
        SpaceProgram::OpenOffice
    } else if i <= 6 {
        SpaceProgram::ConferenceRoom
    } else if i == 7 {
        SpaceProgram::BreakRoom
    } else if i == 8 {
        SpaceProgram::Storage
    } else if i == 9 {
        SpaceProgram::ServerRoom
    } else if i == 10 {
        SpaceProgram::WaitingArea
    } else {
        SpaceProgram::PrivateOffice
    }
}

/// Number of entries of the palette.
pub const PALETTE_SIZE: usize = 12;

/// Program of a suite, from a roll scaled to the palette.
pub fn suite_program(scaled: usize) -> (program: SpaceProgram)
    ensures
        program == palette(picked_index(scaled, PALETTE_SIZE)),
{
    let i: usize = pick_index(scaled, PALETTE_SIZE);
    if i <= 4 {
        SpaceProgram::OpenOffice
    } else if i <= 6 {
        SpaceProgram::ConferenceRoom
    } else if i == 7 {
        SpaceProgram::BreakRoom
    } else if i == 8 {
        SpaceProgram::Storage
    } else if i == 9 {
        SpaceProgram::ServerRoom
    } else if i == 10 {
        SpaceProgram::WaitingArea
    } else {
        SpaceProgram::PrivateOffice
    }
}

/// A ceiling height that grows with a roll.
#[derive(Clone, Copy, Debug, PartialEq, Eq, Structural)]
pub struct CeilingTerms {
    pub base: FloatBits,
    pub growth: FloatBits,
}

pub open spec fn ceiling_terms(program: SpaceProgram) -> CeilingTerms {
    match program {
        // 4.8 + 0.6
        SpaceProgram::Atrium => CeilingTerms { base: 0x4099_999A, growth: 0x3F19_999A },
        // 2.6 + 0.2
        SpaceProgram::ServerRoom => CeilingTerms { base: 0x4026_6666, growth: 0x3E4C_CCCD },
        SpaceProgram::Mechanical => CeilingTerms { base: 0x4026_6666, growth: 0x3E4C_CCCD },
        // 3.0 + 0.3
        SpaceProgram::Storage => CeilingTerms { base: 0x4040_0000, growth: 0x3E99_999A },
        SpaceProgram::RestroomCore => CeilingTerms { base: 0x4040_0000, growth: 0x3E99_999A },
        // 3.5 + 0.7
        SpaceProgram::OpenOffice => CeilingTerms { base: 0x4060_0000, growth: 0x3F33_3333 },
        SpaceProgram::ConferenceRoom => CeilingTerms { base: 0x4060_0000, growth: 0x3F33_3333 },
        // 3.2 + 0.5
        _ => CeilingTerms { base: 0x404C_CCCD, growth: 0x3F00_0000 },
    }
}

/// Ceiling of a program. Compression is a deliberate contrast, never the default.
pub fn ceiling_height_for(program: SpaceProgram) -> (terms: CeilingTerms)
    ensures
        terms == ceiling_terms(program),
{
    match program {
        SpaceProgram::Atrium => CeilingTerms { base: 0x4099_999A, growth: 0x3F19_999A },
        SpaceProgram::ServerRoom => CeilingTerms { base: 0x4026_6666, growth: 0x3E4C_CCCD },
        SpaceProgram::Mechanical => CeilingTerms { base: 0x4026_6666, growth: 0x3E4C_CCCD },
        SpaceProgram::Storage => CeilingTerms { base: 0x4040_0000, growth: 0x3E99_999A },
        SpaceProgram::RestroomCore => CeilingTerms { base: 0x4040_0000, growth: 0x3E99_999A },
        SpaceProgram::OpenOffice => CeilingTerms { base: 0x4060_0000, growth: 0x3F33_3333 },
        SpaceProgram::ConferenceRoom => CeilingTerms { base: 0x4060_0000, growth: 0x3F33_3333 },
        _ => CeilingTerms { base: 0x404C_CCCD, growth: 0x3F00_0000 },
    }
}

pub open spec fn structure_of(
    system: StructuralSystem,
    bay: u32,
    wide_bay: u32,
    phase: Position,
) -> StructuralSystemInstance {
    StructuralSystemInstance {
        system,
        bay_x: if system is DeepSpansWithBeams {
            wide_bay
        } else {
            bay
        },
        bay_z: bay,
        phase,
        // 0.4
        column_side: 0x3ECC_CCCD,
    }
}

/// Structure of a suite: square bays, but for deep spans, which are half as wide
/// again along x.
pub fn structure_for(system: StructuralSystem, bay: FloatBits, wide_bay: FloatBits, phase: Position) -> (
    structure: StructuralSystemInstance)
    ensures
        structure == structure_of(system, bay, wide_bay, phase),
{
    StructuralSystemInstance {
        system,
        bay_x: if system == StructuralSystem::DeepSpansWithBeams {
            wide_bay
        } else {
            bay
        },
        bay_z: bay,
        phase,
        column_side: 0x3ECC_CCCD,
    }
}

/// Where the fixtures of a footprint may hang.
pub struct FixtureSites {
    /// Columns and rows of the panel grid.
    pub xs: Vec<FloatBits>,
    pub zs: Vec<FloatBits>,
    /// The room is at least as long along x as along z.
    pub long_x: bool,
    /// Positions along the long axis, and the middle of the short one.
    pub along: Vec<FloatBits>,
    pub middle: FloatBits,
    /// Places of single pendants.
    pub pendants: Vec<Position>,
}

/// A panel, 0.4 to each side.
pub open spec fn panel(x: u32, z: u32, lit: bool) -> Fixture {
    Fixture { at: Position { x, z }, half_x: 0x3ECC_CCCD, half_z: 0x3ECC_CCCD, lit }
}

/// A strip, 1.0 along the long axis and 0.25 across.
pub open spec fn strip(s: FixtureSites, i: int, lit: bool) -> Fixture {
    if s.long_x {
        Fixture {
            at: Position { x: s.along@[i], z: s.middle },
            half_x: 0x3F80_0000,
            half_z: 0x3E80_0000,
            lit,
        }
    } else {
        Fixture {
            at: Position { x: s.middle, z: s.along@[i] },
            half_x: 0x3E80_0000,
            half_z: 0x3F80_0000,
            lit,
        }
    }
}

/// A pendant, 0.3 to each side.
pub open spec fn pendant(at: Position, lit: bool) -> Fixture {
    Fixture { at, half_x: 0x3E99_999A, half_z: 0x3E99_999A, lit }
}

/// One row of panels, up to column `n`.
pub open spec fn panel_row(xs: Seq<u32>, z: u32, lit: bool, n: nat) -> Seq<Fixture> {
    Seq::new(n, |i: int| panel(xs[i], z, lit))
}

/// The first `n` rows of panels.
pub open spec fn panel_rows(xs: Seq<u32>, zs: Seq<u32>, lit: bool, n: nat) -> Seq<Fixture>
    decreases n,
{
    if n == 0 {
        Seq::empty()
    } else {
        panel_rows(xs, zs, lit, (n - 1) as nat) + panel_row(xs, zs[n - 1], lit, xs.len())
    }
}

pub open spec fn fixtures_of(language: LightingLanguage, s: FixtureSites, lit: bool) -> Seq<Fixture> {
    match language {
        LightingLanguage::GridPanels => panel_rows(s.xs@, s.zs@, lit, s.zs@.len()),
        LightingLanguage::StripsAlongCirculation => Seq::new(
            s.along@.len(),
            |i: int| strip(s, i, lit),
        ),
        LightingLanguage::SparsePendants => Seq::new(
            s.pendants@.len(),
            |i: int| pendant(s.pendants@[i], lit),
        ),
    }
}

fn hang_panels(xs: &Vec<FloatBits>, zs: &Vec<FloatBits>, lit: bool) -> (fixtures: Vec<Fixture>)
    ensures
        fixtures@ == panel_rows(xs@, zs@, lit, zs@.len()),
{
    let mut fixtures: Vec<Fixture> = Vec::new();
    let mut r: usize = 0;
    while r < zs.len()
        invariant
            r <= zs@.len(),
            fixtures@ == panel_rows(xs@, zs@, lit, r as nat),
        decreases zs@.len() - r,
    {
        let ghost rows = fixtures@;
        let z: FloatBits = zs[r];
        let mut i: usize = 0;
        assert(fixtures@ =~= rows + panel_row(xs@, z, lit, 0));
        while i < xs.len()
            invariant
                i <= xs@.len(),
                fixtures@ == rows + panel_row(xs@, z, lit, i as nat),
            decreases xs@.len() - i,
        {
            fixtures.push(
                Fixture {
                    at: Position { x: xs[i], z },
                    half_x: 0x3ECC_CCCD,
                    half_z: 0x3ECC_CCCD,
                    lit,
                },
            );
            i = i + 1;
            assert(fixtures@ =~= rows + panel_row(xs@, z, lit, i as nat));
        }
        r = r + 1;
    }
    fixtures
}

/// Fixtures of a footprint in a designer's lighting language.
pub fn fixtures_for(language: LightingLanguage, s: &FixtureSites, lit: bool) -> (fixtures: Vec<Fixture>)
    ensures
        fixtures@ == fixtures_of(language, *s, lit),
{
    let mut fixtures: Vec<Fixture> = Vec::new();
    match language {
        LightingLanguage::GridPanels => {
            fixtures = hang_panels(&s.xs, &s.zs, lit);
        },
        LightingLanguage::StripsAlongCirculation => {
            let mut i: usize = 0;
            while i < s.along.len()
                invariant
                    i <= s.along@.len(),
                    fixtures@.len() == i,
                    forall|k: int| 0 <= k < i ==> #[trigger] fixtures@[k] == strip(*s, k, lit),
                decreases s.along@.len() - i,
            {
                if s.long_x {
                    fixtures.push(
                        Fixture {
                            at: Position { x: s.along[i], z: s.middle },
                            half_x: 0x3F80_0000,
                            half_z: 0x3E80_0000,
                            lit,
                        },
                    );
                } else {
                    fixtures.push(
                        Fixture {
                            at: Position { x: s.middle, z: s.along[i] },
                            half_x: 0x3E80_0000,
                            half_z: 0x3F80_0000,
                            lit,
                        },
                    );
                }
                i = i + 1;
            }
        },
        LightingLanguage::SparsePendants => {
            let mut i: usize = 0;
            while i < s.pendants.len()
                invariant
                    i <= s.pendants@.len(),
                    fixtures@.len() == i,
                    forall|k: int|
                        0 <= k < i ==> #[trigger] fixtures@[k] == pendant(s.pendants@[k], lit),
                decreases s.pendants@.len() - i,
            {
                fixtures.push(
                    Fixture { at: s.pendants[i], half_x: 0x3E99_999A, half_z: 0x3E99_999A, lit },
                );
                i = i + 1;
            }
        },
    }
    assert(fixtures@ =~= fixtures_of(language, *s, lit));
    fixtures
}

/// Rolls above this, 0.62, let a private office split.
pub const SPLIT_ROLL: FloatBits = 0x3F1E_B852;

/// Whether a suite is split in two: private offices that have room for it, on a
/// high enough roll. `rooms` is how many rooms would fit.
pub open spec fn splits(program: SpaceProgram, rooms: usize, roll: u32) -> bool {
    program is PrivateOffice && rooms >= 2 && less(SPLIT_ROLL, roll)
}

/// The corners of a rectangle with the given bounds.
pub open spec fn corners(b: WorldBounds) -> Seq<Position> {
    rectangle(b.min_x, b.min_z, b.max_x, b.max_z)
}

/// What it takes to be a suite's partition: nothing, or its two halves.
pub open spec fn is_partition(
    spaces: Seq<Space>,
    program: SpaceProgram,
    rooms: usize,
    roll: u32,
    low: WorldBounds,
    high: WorldBounds,
) -> bool {
    if splits(program, rooms, roll) {
        &&& spaces.len() == 2
        &&& spaces[0].program is PrivateOffice && spaces[0].footprint.vertices@ == corners(low)
        &&& spaces[1].program is PrivateOffice && spaces[1].footprint.vertices@ == corners(high)
    } else {
        spaces.len() == 0
    }
}

/// Interior partitioning, deliberately sparse: a private-office suite may split
/// once, into the two given halves.
pub fn spaces_for(
    program: SpaceProgram,
    rooms: usize,
    roll: FloatBits,
    low: &WorldBounds,
    high: &WorldBounds,
) -> (spaces: Vec<Space>)
    ensures
        is_partition(spaces@, program, rooms, roll, *low, *high),
{
    let mut spaces: Vec<Space> = Vec::new();
    if program == SpaceProgram::PrivateOffice && rooms >= 2 && bits_less(SPLIT_ROLL, roll) {
        spaces.push(
            Space {
                program: SpaceProgram::PrivateOffice,
                footprint: Polygon2::rect(low.min_x, low.min_z, low.max_x, low.max_z),
            },
        );
        spaces.push(
            Space {
                program: SpaceProgram::PrivateOffice,
                footprint: Polygon2::rect(high.min_x, high.min_z, high.max_x, high.max_z),
            },
        );
    }
    spaces
}

/// Ground that something takes up, and its far ends with the gap it asks for.
#[derive(Clone, Copy, Debug, PartialEq, Eq, Structural)]
pub struct Reserved {
    pub bounds: WorldBounds,
    pub far_x: FloatBits,
    pub far_z: FloatBits,
}

pub open spec fn too_close(a: Reserved, b: Reserved) -> bool {
    less(a.bounds.min_x, b.far_x) && less(b.bounds.min_x, a.far_x) && less(a.bounds.min_z, b.far_z)
        && less(b.bounds.min_z, a.far_z)
}

/// Whether two grounds come closer than their gap.
pub fn aabb_overlap(a: &Reserved, b: &Reserved) -> (close: bool)
    ensures
        close == too_close(*a, *b),
{
    bits_less(a.bounds.min_x, b.far_x) && bits_less(b.bounds.min_x, a.far_x) && bits_less(
        a.bounds.min_z,
        b.far_z,
    ) && bits_less(b.bounds.min_z, a.far_z)
}

/// Keeping apart is mutual.
pub proof fn law_closeness_is_mutual(a: Reserved, b: Reserved)
    ensures
        too_close(a, b) == too_close(b, a),
{
}

/// How far the middle of a suite is from a corridor, and how far it has to be.
#[derive(Clone, Copy, Debug, PartialEq, Eq, Structural)]
pub struct Clearance {
    pub distance: FloatBits,
    pub needed: FloatBits,
}

pub open spec fn is_free(ground: Reserved, taken: Seq<Reserved>) -> bool {
    forall|i: int| 0 <= i < taken.len() ==> !too_close(#[trigger] taken[i], ground)
}

pub open spec fn is_clear(clearances: Seq<Clearance>) -> bool {
    forall|i: int|
        0 <= i < clearances.len() ==> !less(
            (#[trigger] clearances[i]).distance,
            clearances[i].needed,
        )
}

/// Nothing of the bounds lies outside the limits.
pub open spec fn stays_within(b: WorldBounds, limits: WorldBounds) -> bool {
    !less(b.min_x, limits.min_x) && !less(b.min_z, limits.min_z) && !less(limits.max_x, b.max_x)
        && !less(limits.max_z, b.max_z)
}

/// Whether ground is free of everything taken.
pub fn ground_is_free(ground: &Reserved, taken: &Vec<Reserved>) -> (free: bool)
    ensures
        free == is_free(*ground, taken@),
{
    let mut i: usize = 0;
    while i < taken.len()
        invariant
            i <= taken@.len(),
            forall|k: int| 0 <= k < i ==> !too_close(#[trigger] taken@[k], *ground),
        decreases taken@.len() - i,
    {
        if aabb_overlap(&taken[i], ground) {
            return false;
        }
        i = i + 1;
    }
    true
}

fn corridors_are_clear(clearances: &Vec<Clearance>) -> (clear: bool)
    ensures
        clear == is_clear(clearances@),
{
    let mut i: usize = 0;
    while i < clearances.len()
        invariant
            i <= clearances@.len(),
            forall|k: int|
                0 <= k < i ==> !less((#[trigger] clearances@[k]).distance, clearances@[k].needed),
        decreases clearances@.len() - i,
    {
        if bits_less(clearances[i].distance, clearances[i].needed) {
            return false;
        }
        i = i + 1;
    }
    true
}

/// The threshold of one suite. The designer's language biases it; a narrow framed
/// door stays rare. 0.14, 0.08, 0.10, 0.62 and 0.50 divide the rolls.
pub open spec fn threshold_of(language: ThresholdLanguage, roll: u32) -> ThresholdLanguage {
    match language {
        ThresholdLanguage::DoorWithLintel => if less(roll, 0x3E0F_5C29) {
            ThresholdLanguage::DoorWithLintel
        } else if less(roll, 0x3F00_0000) {
            ThresholdLanguage::OpenPortal
        } else {
            ThresholdLanguage::WidePortal
        },
        ThresholdLanguage::OpenPortal => if less(roll, 0x3DA3_D70A) {
            ThresholdLanguage::DoorWithLintel
        } else if less(roll, 0x3F1E_B852) {
            ThresholdLanguage::OpenPortal
        } else {
            ThresholdLanguage::WidePortal
        },
        ThresholdLanguage::WidePortal => if less(roll, 0x3DCC_CCCD) {
            ThresholdLanguage::DoorWithLintel
        } else if less(roll, 0x3F00_0000) {
            ThresholdLanguage::OpenPortal
        } else {
            ThresholdLanguage::WidePortal
        },
    }
}

pub fn threshold_for(language: ThresholdLanguage, roll: FloatBits) -> (threshold: ThresholdLanguage)
    ensures
        threshold == threshold_of(language, roll),
{
    let (door, portal): (FloatBits, FloatBits) = match language {
        ThresholdLanguage::DoorWithLintel => (0x3E0F_5C29, 0x3F00_0000),
        ThresholdLanguage::OpenPortal => (0x3DA3_D70A, 0x3F1E_B852),
        ThresholdLanguage::WidePortal => (0x3DCC_CCCD, 0x3F00_0000),
    };
    if bits_less(roll, door) {
        ThresholdLanguage::DoorWithLintel
    } else if bits_less(roll, portal) {
        ThresholdLanguage::OpenPortal
    } else {
        ThresholdLanguage::WidePortal
    }
}

/// A framed door takes a roll below 0.14, whatever the designer's language.
pub proof fn law_framed_doors_are_rare(language: ThresholdLanguage, roll: u32)
    requires
        threshold_of(language, roll) is DoorWithLintel,
    ensures
        less(roll, 0x3E0F_5C29),
{
}

/// Clear width of a threshold: 1.2, 4.8 or 3.6.
pub open spec fn threshold_width(t: ThresholdLanguage) -> u32 {
    match t {
        ThresholdLanguage::DoorWithLintel => 0x3F99_999A,
        ThresholdLanguage::OpenPortal => 0x4099_999A,
        ThresholdLanguage::WidePortal => 0x4066_6666,
    }
}

/// Lintel of a threshold: at 2.2, none, or at 3.0.
pub open spec fn threshold_lintel(t: ThresholdLanguage) -> Option<u32> {
    match t {
        ThresholdLanguage::DoorWithLintel => Some(0x400C_CCCDu32),
        ThresholdLanguage::OpenPortal => None,
        ThresholdLanguage::WidePortal => Some(0x4040_0000u32),
    }
}

/// Everything measured for a suite that may be placed.
pub struct SuiteMeasures {
    pub footprint: WorldBounds,
    /// Far ends of the footprint with the gap to other suites.
    pub far_x: FloatBits,
    pub far_z: FloatBits,
    /// The region without its edge margin.
    pub limits: WorldBounds,
    pub clearances: Vec<Clearance>,
    /// The suite lies on its corridor's high-z side.
    pub above: bool,
    /// Where the entrance's middle would be for each threshold.
    pub door_x: FloatBits,
    pub portal_x: FloatBits,
    pub wide_x: FloatBits,
    pub threshold_roll: FloatBits,
    pub ceiling: FloatBits,
    pub bay: FloatBits,
    pub wide_bay: FloatBits,
    pub phase: Position,
    pub sites: FixtureSites,
    /// How many rooms fit along the long axis, and the two halves.
    pub rooms: usize,
    pub size_roll: FloatBits,
    pub low_half: WorldBounds,
    pub high_half: WorldBounds,
}

pub open spec fn suite_ground(m: SuiteMeasures) -> Reserved {
    let b = bounds_of(corners(m.footprint), 4);
    Reserved { bounds: b, far_x: m.far_x, far_z: m.far_z }
}

/// The suite stays in its region, apart from what was placed before, and off
/// every corridor.
pub open spec fn suite_fits(m: SuiteMeasures, taken: Seq<Reserved>) -> bool {
    stays_within(suite_ground(m).bounds, m.limits) && is_free(suite_ground(m), taken) && is_clear(
        m.clearances@,
    )
}

/// The entrance on the wall that faces the corridor.
pub open spec fn suite_entrance(m: SuiteMeasures, language: ThresholdLanguage) -> Opening {
    let t = threshold_of(language, m.threshold_roll);
    let b = suite_ground(m).bounds;
    Opening {
        center: Position {
            x: match t {
                ThresholdLanguage::DoorWithLintel => m.door_x,
                ThresholdLanguage::OpenPortal => m.portal_x,
                ThresholdLanguage::WidePortal => m.wide_x,
            },
            z: if m.above {
                b.min_z
            } else {
                b.max_z
            },
        },
        width: threshold_width(t),
        through_x_wall: true,
        lintel_units: threshold_lintel(t),
    }
}

/// What it takes to be the suite of the given measures.
pub open spec fn is_suite(
    a: AssemblyInstance,
    id: u32,
    program: SpaceProgram,
    genome: ArchitectGenome,
    m: SuiteMeasures,
) -> bool {
    &&& a.id == id
    &&& a.program == program
    &&& a.footprint.vertices@ == corners(m.footprint)
    &&& a.entrances@ == seq![suite_entrance(m, genome.threshold_language)]
    &&& is_partition(a.spaces@, program, m.rooms, m.size_roll, m.low_half, m.high_half)
    &&& a.structure == structure_of(genome.structural_system, m.bay, m.wide_bay, m.phase)
    &&& a.ceiling_zones@.len() == 1
    &&& a.ceiling_zones@[0].area.vertices@ == corners(m.footprint)
    &&& a.ceiling_zones@[0].language == genome.ceiling_language
    &&& a.ceiling_zones@[0].height_units == m.ceiling
    &&& a.fixtures@ == fixtures_of(genome.lighting_language, m.sites, true)
    &&& a.service_voids@.len() == 0
    &&& a.corruption == (CorruptionProfile {
        misalignment: Position { x: 0, z: 0 },
        abandoned: false,
        renovation_overlay: false,
        red_room: false,
    })
}

/// Places one suite beside a corridor, or nothing where it does not fit.
pub fn place_suite(
    id: u32,
    program: SpaceProgram,
    genome: &ArchitectGenome,
    m: &SuiteMeasures,
    taken: &Vec<Reserved>,
) -> (suite: Option<AssemblyInstance>)
    ensures
        suite is Some <==> suite_fits(*m, taken@),
        suite is Some ==> is_suite(suite->0, id, program, *genome, *m),
{
    let f = &m.footprint;
    let footprint = Polygon2::rect(f.min_x, f.min_z, f.max_x, f.max_z);
    let b = footprint.bounds();
    if bits_less(b.min_x, m.limits.min_x) || bits_less(b.min_z, m.limits.min_z) || bits_less(
        m.limits.max_x,
        b.max_x,
    ) || bits_less(m.limits.max_z, b.max_z) {
        return None;
    }
    let ground = Reserved { bounds: b, far_x: m.far_x, far_z: m.far_z };
    if !ground_is_free(&ground, taken) {
        return None;
    }
    if !corridors_are_clear(&m.clearances) {
        return None;
    }
    let threshold = threshold_for(genome.threshold_language, m.threshold_roll);
    let (x, width, lintel): (FloatBits, FloatBits, Option<FloatBits>) = match threshold {
        ThresholdLanguage::DoorWithLintel => (m.door_x, 0x3F99_999A, Some(0x400C_CCCD)),
        ThresholdLanguage::OpenPortal => (m.portal_x, 0x4099_999A, None),
        ThresholdLanguage::WidePortal => (m.wide_x, 0x4066_6666, Some(0x4040_0000)),
    };
    let mut entrances: Vec<Opening> = Vec::new();
    entrances.push(
        Opening {
            center: Position {
                x,
                z: if m.above {
                    b.min_z
                } else {
                    b.max_z
                },
            },
            width,
            through_x_wall: true,
            lintel_units: lintel,
        },
    );
    assert(entrances@ =~= seq![suite_entrance(*m, genome.threshold_language)]);
    let mut ceiling_zones: Vec<CeilingZone> = Vec::new();
    ceiling_zones.push(
        CeilingZone {
            area: Polygon2::rect(f.min_x, f.min_z, f.max_x, f.max_z),
            language: genome.ceiling_language,
            height_units: m.ceiling,
        },
    );
    let service_voids: Vec<ServiceVoid> = Vec::new();
    Some(
        AssemblyInstance {
            id,
            program,
            footprint,
            entrances,
            spaces: spaces_for(program, m.rooms, m.size_roll, &m.low_half, &m.high_half),
            structure: structure_for(genome.structural_system, m.bay, m.wide_bay, m.phase),
            ceiling_zones,
            fixtures: fixtures_for(genome.lighting_language, &m.sites, true),
            service_voids,
            corruption: CorruptionProfile::sound(),
        },
    )
}

/// A placed suite stays in its region, keeps its gap to everything taken, and has
/// its one entrance in the wall that faces its corridor.
pub proof fn law_suites_stay_inside_and_apart(
    a: AssemblyInstance,
    id: u32,
    program: SpaceProgram,
    genome: ArchitectGenome,
    m: SuiteMeasures,
    taken: Seq<Reserved>,
)
    requires
        suite_fits(m, taken),
        is_suite(a, id, program, genome, m),
    ensures
        ({
            let b = bounds_of(a.footprint.vertices@, a.footprint.vertices@.len());
            &&& stays_within(b, m.limits)
            &&& is_free(Reserved { bounds: b, far_x: m.far_x, far_z: m.far_z }, taken)
            &&& a.entrances@.len() == 1
            &&& a.entrances@[0].center.z == if m.above {
                b.min_z
            } else {
                b.max_z
            }
        }),
{
}

/// The walk along a stretch of the main spine: which candidate comes next, and on
/// which side.
#[derive(Clone, Copy, Debug, PartialEq, Eq, Structural)]
pub struct SuiteWalk {
    pub id: u32,
    /// The next suite would lie on the corridor's high-z side.
    pub above: bool,
}

/// Rolls below this, 0.62, place a suite.
pub const SUITE_SHARE: FloatBits = 0x3F1E_B852;

/// The walk one candidate on.
pub open spec fn after_candidate(w: SuiteWalk) -> SuiteWalk {
    SuiteWalk { id: (w.id + 1) as u32, above: !w.above }
}

impl SuiteWalk {
    /// Starts a stretch on the side that its roll says, below one half for the
    /// high-z side.
    pub fn start(&mut self, roll: FloatBits)
        ensures
            *final(self) == (SuiteWalk { id: old(self).id, above: less(roll, 0x3F00_0000) }),
    {
        self.above = bits_less(roll, 0x3F00_0000);
    }

    /// Whether the candidate here is tried at all; much of the route stays exposed.
    pub fn wants_suite(&self, roll: FloatBits) -> (wants: bool)
        ensures
            wants == less(roll, SUITE_SHARE),
    {
        bits_less(roll, SUITE_SHARE)
    }

    /// On to the next candidate, on the other side.
    pub fn advance(&mut self)
        requires
            old(self).id < u32::MAX,
        ensures
            *final(self) == (SuiteWalk { id: (old(self).id + 1) as u32, above: !old(self).above }),
            *final(self) == after_candidate(*old(self)),
    {
        self.id = self.id + 1;
        self.above = !self.above;
    }
}

/// Index of a panel in its grid, row by row.
pub open spec fn panel_index(width: int, row: int, column: int) -> int {
    row * width + column
}

proof fn lemma_panels(xs: Seq<u32>, zs: Seq<u32>, lit: bool, n: nat, row: int, column: int)
    requires
        n <= zs.len(),
        0 <= row < n,
        0 <= column < xs.len(),
    ensures
        panel_rows(xs, zs, lit, n).len() == n * xs.len(),
        0 <= panel_index(xs.len() as int, row, column) < n * xs.len(),
        panel_rows(xs, zs, lit, n)[panel_index(xs.len() as int, row, column)] == panel(
            xs[column],
            zs[row],
            lit,
        ),
    decreases n,
{
    let w = xs.len() as int;
    let before = panel_rows(xs, zs, lit, (n - 1) as nat);
    let last = panel_row(xs, zs[n - 1], lit, xs.len());
    lemma_panel_count(xs, zs, lit, (n - 1) as nat);
    assert((n - 1) * w + w == n * w) by (nonlinear_arith);
    if row < n - 1 {
        lemma_panels(xs, zs, lit, (n - 1) as nat, row, column);
    } else {
        assert(panel_index(w, row, column) == (n - 1) * w + column);
        assert(0 <= (n - 1) * w) by (nonlinear_arith)
            requires
                n >= 1,
                w >= 0,
        ;
        assert(panel_rows(xs, zs, lit, n)[panel_index(w, row, column)] == last[column]);
    }
}

proof fn lemma_panel_count(xs: Seq<u32>, zs: Seq<u32>, lit: bool, n: nat)
    ensures
        panel_rows(xs, zs, lit, n).len() == n * xs.len(),
    decreases n,
{
    if n > 0 {
        lemma_panel_count(xs, zs, lit, (n - 1) as nat);
        let w = xs.len() as int;
        assert((n - 1) * w + w == n * w) by (nonlinear_arith);
    } else {
        assert(0 * xs.len() == 0) by (nonlinear_arith);
    }
}

proof fn lemma_panels_lit(xs: Seq<u32>, zs: Seq<u32>, lit: bool, n: nat)
    ensures
        forall|i: int|
            0 <= i < panel_rows(xs, zs, lit, n).len() ==> (#[trigger] panel_rows(xs, zs, lit, n)[i]).lit
                == lit,
    decreases n,
{
    if n > 0 {
        lemma_panels_lit(xs, zs, lit, (n - 1) as nat);
        let before = panel_rows(xs, zs, lit, (n - 1) as nat);
        let row = panel_row(xs, zs[n - 1], lit, xs.len());
        let all = panel_rows(xs, zs, lit, n);
        assert forall|i: int| 0 <= i < all.len() implies (#[trigger] all[i]).lit == lit by {
            if i < before.len() {
                assert(all[i] == before[i]);
            } else {
                assert(all[i] == row[i - before.len()]);
            }
        }
    }
}

/// Panels hang in a full grid: one where each column meets each row, 0.4 to each
/// side.
pub proof fn law_panels_fill_the_grid(s: FixtureSites, lit: bool, row: int, column: int)
    requires
        0 <= row < s.zs@.len(),
        0 <= column < s.xs@.len(),
    ensures
        ({
            let panels = fixtures_of(LightingLanguage::GridPanels, s, lit);
            let hung = panels[row * s.xs@.len() + column];
            &&& panels.len() == s.zs@.len() * s.xs@.len()
            &&& 0 <= row * s.xs@.len() + column < panels.len()
            &&& hung.at.x == s.xs@[column] && hung.at.z == s.zs@[row]
            &&& hung.half_x == 0x3ECC_CCCD && hung.half_z == 0x3ECC_CCCD
        }),
{
    lemma_panels(s.xs@, s.zs@, lit, s.zs@.len(), row, column);
}

/// Strips run down the long axis of a room, one at each of its positions, and are
/// longer along that axis than across it. Pendants hang where they are asked for.
pub proof fn law_strips_run_along_the_room(s: FixtureSites, lit: bool, i: int)
    ensures
        ({
            let strips = fixtures_of(LightingLanguage::StripsAlongCirculation, s, lit);
            &&& strips.len() == s.along@.len()
            &&& 0 <= i < strips.len() && s.long_x ==> strips[i].at.x == s.along@[i]
                && strips[i].at.z == s.middle && less(strips[i].half_z, strips[i].half_x)
            &&& 0 <= i < strips.len() && !s.long_x ==> strips[i].at.z == s.along@[i]
                && strips[i].at.x == s.middle && less(strips[i].half_x, strips[i].half_z)
        }),
        ({
            let pendants = fixtures_of(LightingLanguage::SparsePendants, s, lit);
            &&& pendants.len() == s.pendants@.len()
            &&& 0 <= i < pendants.len() ==> pendants[i].at == s.pendants@[i] && pendants[i].half_x
                == 0x3E99_999A && pendants[i].half_z == 0x3E99_999A
        }),
{
}

/// Fixtures are all lit or all dark, as they are asked for, in every language.
pub proof fn law_fixtures_share_one_switch(
    language: LightingLanguage,
    s: FixtureSites,
    lit: bool,
    i: int,
)
    requires
        0 <= i < fixtures_of(language, s, lit).len(),
    ensures
        fixtures_of(language, s, lit)[i].lit == lit,
{
    lemma_panels_lit(s.xs@, s.zs@, lit, s.zs@.len());
}

/// A new suite is sound and in use: all its fixtures burn, nothing in it is corrupt,
/// its ceiling spans its footprint, and only a private office is ever partitioned, in
/// two.
pub proof fn law_new_suites_are_sound(
    a: AssemblyInstance,
    id: u32,
    program: SpaceProgram,
    genome: ArchitectGenome,
    m: SuiteMeasures,
    i: int,
)
    requires
        is_suite(a, id, program, genome, m),
    ensures
        a.id == id && a.program == program,
        0 <= i < a.fixtures@.len() ==> a.fixtures@[i].lit,
        !a.corruption.abandoned && !a.corruption.red_room && !a.corruption.renovation_overlay,
        a.corruption.misalignment.x == 0 && a.corruption.misalignment.z == 0,
        a.ceiling_zones@.len() == 1 && a.ceiling_zones@[0].area.vertices@ == a.footprint.vertices@,
        a.spaces@.len() == 0 || a.spaces@.len() == 2 && program is PrivateOffice,
        a.structure.system == genome.structural_system,
{
    if 0 <= i < a.fixtures@.len() {
        law_fixtures_share_one_switch(genome.lighting_language, m.sites, true, i);
    }
}

/// How open a threshold is.
pub open spec fn openness(t: ThresholdLanguage) -> int {
    match t {
        ThresholdLanguage::DoorWithLintel => 0,
        ThresholdLanguage::OpenPortal => 1,
        ThresholdLanguage::WidePortal => 2,
    }
}

/// A higher roll never turns a portal into a door. On a roll below 0.08 every
/// designer frames a door, from 0.14 on none does, and from 0.62 on all thresholds
/// are wide. A designer of doors frames most doors, one of open portals the fewest.
pub proof fn law_thresholds_open_with_the_roll(language: ThresholdLanguage, a: u32, b: u32)
    requires
        at_most(a, b),
    ensures
        openness(threshold_of(language, a)) <= openness(threshold_of(language, b)),
        less(a, 0x3DA3_D70A) ==> threshold_of(language, a) is DoorWithLintel,
        !less(a, 0x3E0F_5C29) ==> !(threshold_of(language, a) is DoorWithLintel),
        !less(a, 0x3F1E_B852) ==> threshold_of(language, a) is WidePortal,
        openness(threshold_of(ThresholdLanguage::DoorWithLintel, a)) <= openness(
            threshold_of(ThresholdLanguage::WidePortal, a),
        ),
        less(a, 0x3DCC_CCCD) <==> threshold_of(ThresholdLanguage::WidePortal, a) is DoorWithLintel,
        less(a, 0x3E0F_5C29) <==> threshold_of(
            ThresholdLanguage::DoorWithLintel,
            a,
        ) is DoorWithLintel,
        less(a, 0x3DA3_D70A) <==> threshold_of(ThresholdLanguage::OpenPortal, a) is DoorWithLintel,
        !less(a, 0x3F00_0000) <==> threshold_of(ThresholdLanguage::WidePortal, a) is WidePortal,
        !less(a, 0x3F00_0000) <==> threshold_of(ThresholdLanguage::DoorWithLintel, a) is WidePortal,
{
}

/// A framed door is the narrowest threshold, and an open portal the widest; only an
/// open portal has no lintel, and that of a wide one hangs higher than a door's.
pub proof fn law_entrances_suit_their_threshold(m: SuiteMeasures, language: ThresholdLanguage)
    ensures
        ({
            let e = suite_entrance(m, language);
            let t = threshold_of(language, m.threshold_roll);
            &&& e.through_x_wall
            &&& t is DoorWithLintel ==> e.center.x == m.door_x && e.width == 0x3F99_999A
                && e.lintel_units == Some(0x400C_CCCDu32)
            &&& t is OpenPortal ==> e.center.x == m.portal_x && e.width == 0x4099_999A
                && e.lintel_units is None
            &&& t is WidePortal ==> e.center.x == m.wide_x && e.width == 0x4066_6666
                && e.lintel_units == Some(0x4040_0000u32)
        }),
{
}

/// Compression is a contrast: only server rooms and plant rooms have ceilings that
/// start below 3.0, the atrium's starts highest, and every ceiling grows with its
/// roll.
pub proof fn law_compression_is_a_contrast(program: SpaceProgram)
    ensures
        less(ceiling_terms(program).base, 0x4040_0000) <==> program is ServerRoom
            || program is Mechanical,
        program is Atrium <==> less(0x4090_0000, ceiling_terms(program).base),
        program is OpenOffice || program is ConferenceRoom <==> ceiling_terms(program).base
            == 0x4060_0000,
        program is Storage || program is RestroomCore <==> ceiling_terms(program).base
            == 0x4040_0000,
        less(0, ceiling_terms(program).growth),
{
}

/// Open offices dominate the palette: of twelve equally likely entries they have
/// five, conference rooms two, and five other programs one each. A roll beyond the
/// palette takes its last entry.
pub proof fn law_open_offices_dominate(scaled: usize)
    ensures
        ({
            let program = palette(picked_index(scaled, 12));
            &&& program is OpenOffice <==> scaled < 5
            &&& program is ConferenceRoom <==> 5 <= scaled < 7
            &&& program is BreakRoom <==> scaled == 7
            &&& program is Storage <==> scaled == 8
            &&& program is ServerRoom <==> scaled == 9
            &&& program is WaitingArea <==> scaled == 10
            &&& program is PrivateOffice <==> scaled >= 11
        }),
{
}

/// Deep spans alone have bays that are wider along x; every other structure has
/// square bays.
pub proof fn law_bays_are_square_but_for_deep_spans(
    system: StructuralSystem,
    bay: u32,
    wide_bay: u32,
    phase: Position,
)
    ensures
        ({
            let s = structure_of(system, bay, wide_bay, phase);
            &&& s.system == system && s.phase == phase && s.bay_z == bay && s.column_side
                == 0x3ECC_CCCD
            &&& system is DeepSpansWithBeams ==> s.bay_x == wide_bay
            &&& !(system is DeepSpansWithBeams) ==> s.bay_x == s.bay_z
        }),
{
}

/// Two grounds that are not too close lie apart along one of the axes: one of them
/// begins where the other ends with its gap, or beyond.
pub proof fn law_free_ground_lies_apart(a: Reserved, b: Reserved)
    requires
        !is_nan_bits(a.bounds.min_x) && !is_nan_bits(a.bounds.min_z) && !is_nan_bits(a.far_x)
            && !is_nan_bits(a.far_z),
        !is_nan_bits(b.bounds.min_x) && !is_nan_bits(b.bounds.min_z) && !is_nan_bits(b.far_x)
            && !is_nan_bits(b.far_z),
    ensures
        !too_close(a, b) <==> {
            ||| at_most(b.far_x, a.bounds.min_x)
            ||| at_most(a.far_x, b.bounds.min_x)
            ||| at_most(b.far_z, a.bounds.min_z)
            ||| at_most(a.far_z, b.bounds.min_z)
        },
{
}

/// A private office is split exactly if two rooms fit in it and its roll is above 0.62,
/// into the two given halves, both private offices.
pub proof fn law_private_offices_split_once(
    a: AssemblyInstance,
    id: u32,
    program: SpaceProgram,
    genome: ArchitectGenome,
    m: SuiteMeasures,
)
    requires
        is_suite(a, id, program, genome, m),
    ensures
        a.spaces@.len() == 2 <==> program is PrivateOffice && m.rooms >= 2 && less(
            0x3F1E_B852,
            m.size_roll,
        ),
        a.spaces@.len() == 2 ==> {
            let (low, high) = (a.spaces@[0], a.spaces@[1]);
            &&& low.program is PrivateOffice && high.program is PrivateOffice
            &&& low.footprint.vertices@[0] == (Position { x: m.low_half.min_x, z: m.low_half.min_z })
            &&& low.footprint.vertices@[2] == (Position { x: m.low_half.max_x, z: m.low_half.max_z })
            &&& high.footprint.vertices@[0] == (Position {
                x: m.high_half.min_x,
                z: m.high_half.min_z,
            })
            &&& high.footprint.vertices@[2] == (Position {
                x: m.high_half.max_x,
                z: m.high_half.max_z,
            })
        },
        a.ceiling_zones@[0].height_units == m.ceiling,
        a.ceiling_zones@[0].language == genome.ceiling_language,
        a.footprint.vertices@[0] == (Position { x: m.footprint.min_x, z: m.footprint.min_z }),
        a.footprint.vertices@[2] == (Position { x: m.footprint.max_x, z: m.footprint.max_z }),
        a.entrances@.len() == 1,
{
}

/// A suite fits exactly if none of its four sides lies past the limits, it is not too
/// close to anything that was placed before, and every corridor has the clearance that
/// it needs.
pub proof fn law_suites_fit_inside_their_limits(m: SuiteMeasures, taken: Seq<Reserved>)
    ensures
        ({
            let b = suite_ground(m).bounds;
            suite_fits(m, taken) <==> {
                &&& !less(b.min_x, m.limits.min_x) && !less(m.limits.max_x, b.max_x)
                &&& !less(b.min_z, m.limits.min_z) && !less(m.limits.max_z, b.max_z)
                &&& forall|i: int|
                    0 <= i < taken.len() ==> !too_close(#[trigger] taken[i], suite_ground(m))
                &&& forall|i: int|
                    0 <= i < m.clearances@.len() ==> !less(
                        (#[trigger] m.clearances@[i]).distance,
                        m.clearances@[i].needed,
                    )
            }
        }),
        suite_ground(m).far_x == m.far_x && suite_ground(m).far_z == m.far_z,
{
}

/// Candidates alternate: each has an id of its own, and lies across the corridor from the
/// one before it and on the side of the one before that.
pub proof fn law_candidates_alternate(w: SuiteWalk)
    requires
        w.id < u32::MAX - 1,
    ensures
        after_candidate(w).above != w.above,
        after_candidate(after_candidate(w)).above == w.above,
        w.id < after_candidate(w).id < after_candidate(after_candidate(w)).id,
        after_candidate(w).id == w.id + 1,
{
}

} // verus!
