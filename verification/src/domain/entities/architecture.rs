//! What a region-scale building plan is made of: who designed it, what each
//! space is for, how circulation feeds spaces, and how spaces are assembled.
//!
//! All lengths and coordinates are world units held as the bits of 32-bit floats.

use vstd::prelude::*;

use crate::domain::entities::anchor::AnchorRoom;
use crate::domain::entities::anomaly::{AnomalyInstance, Position, WorldBounds};
use crate::domain::float_bits::{
    at_most, bits_at_most, bits_less, bits_max, bits_min, is_nan_bits, larger, less, position,
    same_number, smaller, FloatBits,
};

verus! {

/// How a designer routes people through a region.
#[derive(Clone, Copy, Debug, PartialEq, Eq, Structural)]
pub enum CirculationStyle {
    /// One straight main corridor wall-to-wall.
    StraightSpine,
    /// A main corridor that bends at interior waypoints.
    MeanderingSpine,
    /// A primary spine with two short, disconnected-looking branches.
    PairedBranches,
    /// A spine plus stub branches that dead-end (unease by design).
    TreeWithCulDeSacs,
}

/// How a designer holds the ceiling up.
#[derive(Clone, Copy, Debug, PartialEq, Eq, Structural)]
pub enum StructuralSystem {
    /// Columns on a square grid.
    RegularGrid,
    /// Wider bays in one axis, expressed as ceiling beams.
    DeepSpansWithBeams,
    /// Alternate column rows shifted half a bay.
    OffsetGrid,
    /// Columns only around cores and the perimeter.
    CoreAndShell,
}

/// Preferred room shapes.
#[derive(Clone, Copy, Debug, PartialEq, Eq, Structural)]
pub struct ProportionRules {
    /// Smallest room side a designer will draw.
    pub min_side: FloatBits,
    /// Largest room side.
    pub max_side: FloatBits,
    /// Zero for square rooms, one for strongly elongated rooms.
    pub elongation: FloatBits,
}

/// How rooms open onto circulation.
#[derive(Clone, Copy, Debug, PartialEq, Eq, Structural)]
pub enum ThresholdLanguage {
    /// Standard door-width opening under a solid lintel.
    DoorWithLintel,
    /// Full-height opening, no lintel.
    OpenPortal,
    /// Double-width opening under a lintel (suites, conference).
    WidePortal,
}

/// Ceiling articulation.
#[derive(Clone, Copy, Debug, PartialEq, Eq, Structural)]
pub enum CeilingLanguage {
    /// Flat acoustic tile everywhere.
    FlatTiles,
    /// Beam grid with recessed panels.
    Coffered,
    /// Lowered continuous soffit (mechanical-heavy designers).
    ExposedSoffit,
}

/// Where the lights go.
#[derive(Clone, Copy, Debug, PartialEq, Eq, Structural)]
pub enum LightingLanguage {
    /// Fluorescent modules on the ceiling grid.
    GridPanels,
    /// Continuous strips that follow circulation.
    StripsAlongCirculation,
    /// Sparse single fixtures (renovated or neglected areas).
    SparsePendants,
}

/// What later occupants did to the original plan.
#[derive(Clone, Copy, Debug, PartialEq, Eq, Structural)]
pub enum RenovationStyle {
    /// Plan left as designed.
    Untouched,
    /// One assembly re-partitioned in a second designer's language.
    PartialRefit,
    /// Renovation structure overlaid on the original (contradictory columns).
    LayeredRefits,
}

/// A design culture: every plan decision in a region is parameterized by one
/// of these.
#[derive(Clone, Copy, Debug, PartialEq, Eq, Structural)]
pub struct ArchitectGenome {
    pub circulation: CirculationStyle,
    pub structural_system: StructuralSystem,
    pub room_proportions: ProportionRules,
    pub threshold_language: ThresholdLanguage,
    pub ceiling_language: CeilingLanguage,
    pub lighting_language: LightingLanguage,
    /// Zero for bare shells, one for densely partitioned interiors.
    pub furnishing_density: FloatBits,
    pub renovation_history: RenovationStyle,
    /// Zero for happily asymmetric, one for mirroring and centering everything.
    pub tolerance_for_symmetry: FloatBits,
}

/// What a space is for.
#[derive(Clone, Copy, Debug, PartialEq, Eq, Hash, Structural)]
pub enum SpaceProgram {
    Arrival,
    Reception,
    MainCorridor,
    SecondaryHall,
    OpenOffice,
    PrivateOffice,
    ConferenceRoom,
    WaitingArea,
    BreakRoom,
    Storage,
    ServerRoom,
    RestroomCore,
    Stair,
    Mechanical,
    Atrium,
    /// Planned, built, never occupied: lit shell or unlit void.
    AbandonedExpansion,
}

/// The largest finite number.
pub const MAX_FINITE: FloatBits = 0x7F7F_FFFF;

/// The smallest finite number.
pub const MIN_FINITE: FloatBits = 0xFF7F_FFFF;

/// A simple closed polygon on the ground plane. Plans hold convex rectilinear
/// footprints only, so containment is tested with the even-odd rule.
#[derive(Clone, Debug)]
pub struct Polygon2 {
    /// Vertices in world space, wound consistently.
    pub vertices: Vec<Position>,
}

/// Bounds that no point has widened yet.
pub open spec fn no_bounds() -> WorldBounds {
    WorldBounds { min_x: MAX_FINITE, min_z: MAX_FINITE, max_x: MIN_FINITE, max_z: MIN_FINITE }
}

pub open spec fn widened(b: WorldBounds, p: Position) -> WorldBounds {
    WorldBounds {
        min_x: smaller(b.min_x, p.x),
        min_z: smaller(b.min_z, p.z),
        max_x: larger(b.max_x, p.x),
        max_z: larger(b.max_z, p.z),
    }
}

/// The bounds of the first `n` points.
pub open spec fn bounds_of(points: Seq<Position>, n: nat) -> WorldBounds
    decreases n,
{
    if n == 0 {
        no_bounds()
    } else {
        widened(bounds_of(points, (n - 1) as nat), points[n - 1])
    }
}

/// Whether the edge that ends in vertex `i` passes the ray from `(x, z)` towards
/// larger x. `crossing` is where the edge's line meets the ray's line.
pub open spec fn edge_crosses(points: Seq<Position>, i: int, x: u32, z: u32, crossing: u32) -> bool {
    let before = if i == 0 {
        points[points.len() - 1]
    } else {
        points[i - 1]
    };
    less(z, points[i].z) != less(z, before.z) && less(x, crossing)
}

/// Whether an odd number of the first `n` edges pass the ray.
pub open spec fn odd_crossings(points: Seq<Position>, n: nat, x: u32, z: u32, crossings: Seq<u32>) -> bool
    decreases n,
{
    if n == 0 {
        false
    } else {
        odd_crossings(points, (n - 1) as nat, x, z, crossings) != edge_crosses(
            points,
            n - 1,
            x,
            z,
            crossings[n - 1],
        )
    }
}

impl Polygon2 {
    /// Axis-aligned rectangle between its smallest and its largest corner.
    pub fn rect(x: FloatBits, z: FloatBits, far_x: FloatBits, far_z: FloatBits) -> (polygon: Self)
        ensures
            polygon.vertices@ == rectangle(x, z, far_x, far_z),
    {
        let mut vertices: Vec<Position> = Vec::new();
        vertices.push(Position { x, z });
        vertices.push(Position { x: far_x, z });
        vertices.push(Position { x: far_x, z: far_z });
        vertices.push(Position { x, z: far_z });
        assert(vertices@ =~= rectangle(x, z, far_x, far_z));
        Polygon2 { vertices }
    }

    /// Even-odd containment test. For each vertex, `crossings` holds the x at
    /// which the edge ending there reaches `z`; edges that do not reach it may
    /// hold anything.
    pub fn contains(&self, x: FloatBits, z: FloatBits, crossings: &[FloatBits]) -> (inside: bool)
        requires
            self.vertices@.len() > 0,
            crossings@.len() == self.vertices@.len(),
        ensures
            inside == odd_crossings(self.vertices@, self.vertices@.len(), x, z, crossings@),
    {
        let mut inside: bool = false;
        let mut i: usize = 0;
        while i < self.vertices.len()
            invariant
                i <= self.vertices@.len(),
                crossings@.len() == self.vertices@.len(),
                inside == odd_crossings(self.vertices@, i as nat, x, z, crossings@),
            decreases self.vertices@.len() - i,
        {
            let before = if i == 0 {
                self.vertices[self.vertices.len() - 1]
            } else {
                self.vertices[i - 1]
            };
            if bits_less(z, self.vertices[i].z) != bits_less(z, before.z) && bits_less(x, crossings[i]) {
                inside = !inside;
            }
            i = i + 1;
        }
        inside
    }

    /// Axis-aligned bounds.
    pub fn bounds(&self) -> (bounds: WorldBounds)
        ensures
            bounds == bounds_of(self.vertices@, self.vertices@.len()),
    {
        let mut bounds = WorldBounds {
            min_x: MAX_FINITE,
            min_z: MAX_FINITE,
            max_x: MIN_FINITE,
            max_z: MIN_FINITE,
        };
        let mut i: usize = 0;
        while i < self.vertices.len()
            invariant
                i <= self.vertices@.len(),
                bounds == bounds_of(self.vertices@, i as nat),
            decreases self.vertices@.len() - i,
        {
            let p = self.vertices[i];
            bounds = WorldBounds {
                min_x: bits_min(bounds.min_x, p.x),
                min_z: bits_min(bounds.min_z, p.z),
                max_x: bits_max(bounds.max_x, p.x),
                max_z: bits_max(bounds.max_z, p.z),
            };
            i = i + 1;
        }
        bounds
    }
}

/// The corners of a rectangle, in winding order.
pub open spec fn rectangle(x: u32, z: u32, far_x: u32, far_z: u32) -> Seq<Position> {
    seq![
        Position { x, z },
        Position { x: far_x, z },
        Position { x: far_x, z: far_z },
        Position { x, z: far_z },
    ]
}

/// A finite number.
pub open spec fn is_finite_bits(bits: u32) -> bool {
    position(MIN_FINITE) <= position(bits) <= position(MAX_FINITE)
}

/// The even-odd rule takes a rectangle's lower edges in and leaves its upper
/// edges out. Its upright edges meet every ray at their own x.
pub proof fn law_rectangle_is_half_open(
    x: u32,
    z: u32,
    far_x: u32,
    far_z: u32,
    px: u32,
    pz: u32,
    crossings: Seq<u32>,
)
    requires
        is_finite_bits(x),
        is_finite_bits(z),
        is_finite_bits(far_x),
        is_finite_bits(far_z),
        is_finite_bits(px),
        is_finite_bits(pz),
        position(x) <= position(far_x),
        position(z) <= position(far_z),
        crossings.len() == 4,
        position(crossings[2]) == position(far_x),
        position(crossings[0]) == position(x),
    ensures
        odd_crossings(rectangle(x, z, far_x, far_z), 4, px, pz, crossings) == (position(x)
            <= position(px) < position(far_x) && position(z) <= position(pz) < position(far_z)),
{
    let points = rectangle(x, z, far_x, far_z);
    reveal_with_fuel(odd_crossings, 5);
    assert(points[0].z == z && points[1].z == z && points[2].z == far_z && points[3].z == far_z);
}

/// A rectangle of finite corners spans exactly its corners.
pub proof fn law_rectangle_bounds(x: u32, z: u32, far_x: u32, far_z: u32)
    requires
        is_finite_bits(x),
        is_finite_bits(z),
        is_finite_bits(far_x),
        is_finite_bits(far_z),
        position(x) <= position(far_x),
        position(z) <= position(far_z),
    ensures
        ({
            let b = bounds_of(rectangle(x, z, far_x, far_z), 4);
            &&& position(b.min_x) == position(x)
            &&& position(b.min_z) == position(z)
            &&& position(b.max_x) == position(far_x)
            &&& position(b.max_z) == position(far_z)
        }),
{
    reveal_with_fuel(bounds_of, 5);
}

/// A doorway or portal on an assembly boundary, opening onto circulation.
#[derive(Clone, Copy, Debug, PartialEq, Eq, Structural)]
pub struct Opening {
    /// Center of the opening, on the footprint boundary.
    pub center: Position,
    /// Clear width.
    pub width: FloatBits,
    /// True if the opening runs through a wall parallel to the X axis
    /// (you walk through it along Z).
    pub through_x_wall: bool,
    /// Lintel underside height; `None` for a full-height portal.
    pub lintel_units: Option<FloatBits>,
}

/// A named subspace inside an assembly.
#[derive(Clone, Debug)]
pub struct Space {
    pub program: SpaceProgram,
    pub footprint: Polygon2,
}

/// A concrete structural layout for one assembly.
#[derive(Clone, Copy, Debug, PartialEq, Eq, Structural)]
pub struct StructuralSystemInstance {
    pub system: StructuralSystem,
    /// Column spacing along X and Z.
    pub bay_x: FloatBits,
    pub bay_z: FloatBits,
    /// World-space phase of the grid, so that neighbours do not align.
    pub phase: Position,
    /// Column side.
    pub column_side: FloatBits,
}

/// A ceiling treatment over a sub-area of an assembly.
#[derive(Clone, Debug)]
pub struct CeilingZone {
    pub area: Polygon2,
    pub language: CeilingLanguage,
    /// Finished ceiling height.
    pub height_units: FloatBits,
}

/// One light fixture, tied to a ceiling module.
#[derive(Clone, Copy, Debug, PartialEq, Eq, Structural)]
pub struct Fixture {
    pub at: Position,
    /// Half extents along X and Z.
    pub half_x: FloatBits,
    pub half_z: FloatBits,
    pub lit: bool,
}

/// A void reserved for building services (risers, plenums).
#[derive(Clone, Debug)]
pub struct ServiceVoid {
    pub area: Polygon2,
}

/// Distortions applied to one assembly.
#[derive(Clone, Copy, Debug, PartialEq, Eq, Structural)]
pub struct CorruptionProfile {
    /// Duplicated from another assembly with this offset error.
    pub misalignment: Position,
    /// Built but never occupied: no fixtures lit, no furnishing.
    pub abandoned: bool,
    /// A second genome's structural grid overlaid on the original.
    pub renovation_overlay: bool,
    /// Every fixture burns red.
    pub red_room: bool,
}

impl CorruptionProfile {
    /// Nothing is wrong yet.
    pub fn sound() -> (profile: Self)
        ensures
            profile == (CorruptionProfile {
                misalignment: Position { x: 0, z: 0 },
                abandoned: false,
                renovation_overlay: false,
                red_room: false,
            }),
    {
        CorruptionProfile {
            misalignment: Position { x: 0, z: 0 },
            abandoned: false,
            renovation_overlay: false,
            red_room: false,
        }
    }
}

/// A planned, placed space: program, footprint and everything needed to
/// voxelize it believably.
#[derive(Clone, Debug)]
pub struct AssemblyInstance {
    pub id: u32,
    pub program: SpaceProgram,
    pub footprint: Polygon2,
    pub entrances: Vec<Opening>,
    pub spaces: Vec<Space>,
    pub structure: StructuralSystemInstance,
    pub ceiling_zones: Vec<CeilingZone>,
    pub fixtures: Vec<Fixture>,
    pub service_voids: Vec<ServiceVoid>,
    pub corruption: CorruptionProfile,
}

/// A corridor: a wide polyline with priority over everything it crosses.
#[derive(Clone, Debug)]
pub struct CirculationSpine {
    pub id: u32,
    /// Main corridor or secondary hall.
    pub spine_kind: SpaceProgram,
    /// Axis-aligned waypoints.
    pub path: Vec<Position>,
    /// Clear width.
    pub width: FloatBits,
}

/// How one segment of a polyline lies to a point.
#[derive(Clone, Copy, Debug, PartialEq, Eq, Structural)]
pub struct SegmentSample {
    /// Squared distance from the point to the segment.
    pub distance2: FloatBits,
    /// The segment's point nearest to it.
    pub foot: Position,
    /// Extents of the segment along X and Z, without sign.
    pub run_x: FloatBits,
    pub run_z: FloatBits,
}

/// Nearest place on a polyline.
#[derive(Clone, Copy, Debug, PartialEq, Eq, Structural)]
pub struct NearestOnSpine {
    /// Squared distance.
    pub distance2: FloatBits,
    /// World coordinate along the nearest segment's axis, so that modules repeat
    /// in world space and stay continuous across borders.
    pub along: FloatBits,
    pub horizontal: bool,
}

/// The nearest of the first `n` segments; the first one where several are.
pub open spec fn nearest_of(samples: Seq<SegmentSample>, n: nat) -> NearestOnSpine
    decreases n,
{
    if n == 0 {
        NearestOnSpine { distance2: MAX_FINITE, along: 0, horizontal: true }
    } else {
        let best = nearest_of(samples, (n - 1) as nat);
        let s = samples[n - 1];
        if less(s.distance2, best.distance2) {
            let horizontal = at_most(s.run_z, s.run_x);
            NearestOnSpine {
                distance2: s.distance2,
                along: if horizontal {
                    s.foot.x
                } else {
                    s.foot.z
                },
                horizontal,
            }
        } else {
            best
        }
    }
}

impl CirculationSpine {
    /// Nearest place on the centerline, given how each of its segments lies.
    pub fn nearest(&self, samples: &[SegmentSample]) -> (nearest: NearestOnSpine)
        requires
            samples@.len() == if self.path@.len() > 0 {
                self.path@.len() - 1
            } else {
                0
            },
        ensures
            nearest == nearest_of(samples@, samples@.len()),
    {
        let mut best = NearestOnSpine { distance2: MAX_FINITE, along: 0, horizontal: true };
        let mut i: usize = 0;
        while i < samples.len()
            invariant
                i <= samples@.len(),
                best == nearest_of(samples@, i as nat),
            decreases samples@.len() - i,
        {
            let s = samples[i];
            if bits_less(s.distance2, best.distance2) {
                let horizontal: bool = bits_at_most(s.run_z, s.run_x);
                best =
                NearestOnSpine {
                    distance2: s.distance2,
                    along: if horizontal {
                        s.foot.x
                    } else {
                        s.foot.z
                    },
                    horizontal,
                };
            }
            i = i + 1;
        }
        best
    }
}

/// No segment is nearer than the nearest one.
pub proof fn law_nearest_is_nearest(samples: Seq<SegmentSample>, n: nat, i: int)
    requires
        n <= samples.len(),
        0 <= i < n,
    ensures
        !less(samples[i].distance2, nearest_of(samples, n).distance2),
    decreases n,
{
    if i < n - 1 {
        law_nearest_is_nearest(samples, (n - 1) as nat, i);
    }
}

/// The nearest of some measured segments is at most as far as each of them.
pub proof fn law_nearest_bounds_every_segment(samples: Seq<SegmentSample>, n: nat, i: int)
    requires
        n <= samples.len(),
        0 <= i < n,
        !is_nan_bits(samples[i].distance2),
    ensures
        at_most(nearest_of(samples, n).distance2, samples[i].distance2),
{
    law_nearest_is_nearest(samples, n, i);
    lemma_nearest_is_a_number(samples, n);
}

proof fn lemma_nearest_is_a_number(samples: Seq<SegmentSample>, n: nat)
    ensures
        !is_nan_bits(nearest_of(samples, n).distance2),
    decreases n,
{
    if n > 0 {
        lemma_nearest_is_a_number(samples, (n - 1) as nat);
    }
}

/// Everything planned for one square region of the world. Regions tile a
/// fixed world-space lattice.
#[derive(Clone, Debug)]
pub struct RegionPlan {
    /// Lower-left corner.
    pub origin_world: Position,
    /// Side length.
    pub size_world: FloatBits,
    /// Dominant designer first, then renovator, then an optional intruder.
    pub architects: Vec<ArchitectGenome>,
    pub assemblies: Vec<AssemblyInstance>,
    pub corridors: Vec<CirculationSpine>,
    pub anomalies: Vec<AnomalyInstance>,
    /// Archway rooms, by rising id.
    pub anchors: Vec<AnchorRoom>,
}

/// Shape of a light that the renderer draws directly.
#[derive(Clone, Copy, Debug, PartialEq, Eq, Structural)]
pub enum LightKind {
    CeilingPanel,
    Strip,
}

/// A light that the renderer draws directly.
#[derive(Clone, Copy, Debug, PartialEq, Eq, Structural)]
pub struct RuntimeLight {
    pub at: Position,
    pub height: FloatBits,
    pub half_x: FloatBits,
    pub half_z: FloatBits,
    pub red: FloatBits,
    pub green: FloatBits,
    pub blue: FloatBits,
    pub range: FloatBits,
    pub intensity: FloatBits,
    pub enabled: bool,
    pub kind: LightKind,
}

proof fn lemma_bounds_finite(points: Seq<Position>, n: nat)
    requires
        n <= points.len(),
        forall|i: int|
            0 <= i < points.len() ==> is_finite_bits((#[trigger] points[i]).x) && is_finite_bits(
                points[i].z,
            ),
    ensures
        ({
            let b = bounds_of(points, n);
            is_finite_bits(b.min_x) && is_finite_bits(b.min_z) && is_finite_bits(b.max_x)
                && is_finite_bits(b.max_z)
        }),
    decreases n,
{
    if n > 0 {
        lemma_bounds_finite(points, (n - 1) as nat);
        assert(is_finite_bits(points[n - 1].x) && is_finite_bits(points[n - 1].z));
    }
}

/// Bounds hold every point that they are the bounds of, and are no wider than that: of
/// some points each of the four ends is the coordinate of one.
pub proof fn law_bounds_fit_their_points(points: Seq<Position>, n: nat, i: int)
    requires
        0 <= i < n <= points.len(),
        forall|k: int|
            0 <= k < points.len() ==> is_finite_bits((#[trigger] points[k]).x) && is_finite_bits(
                points[k].z,
            ),
    ensures
        bounds_of(points, n).holds(points[i].x, points[i].z),
        exists|k: int|
            0 <= k < n && same_number((#[trigger] points[k]).x, bounds_of(points, n).min_x),
        exists|k: int|
            0 <= k < n && same_number((#[trigger] points[k]).z, bounds_of(points, n).min_z),
        exists|k: int|
            0 <= k < n && same_number((#[trigger] points[k]).x, bounds_of(points, n).max_x),
        exists|k: int|
            0 <= k < n && same_number((#[trigger] points[k]).z, bounds_of(points, n).max_z),
    decreases n,
{
    let b = bounds_of(points, n);
    let last = points[n - 1];
    let before = bounds_of(points, (n - 1) as nat);
    lemma_bounds_finite(points, (n - 1) as nat);
    lemma_bounds_finite(points, n);
    assert(is_finite_bits(last.x) && is_finite_bits(last.z));
    assert(is_finite_bits(points[i].x) && is_finite_bits(points[i].z));
    if n > 1 {
        law_bounds_fit_their_points(points, (n - 1) as nat, if i < n - 1 {
            i
        } else {
            0
        });
        let a = choose|k: int|
            0 <= k < n - 1 && same_number((#[trigger] points[k]).x, before.min_x);
        let c = choose|k: int|
            0 <= k < n - 1 && same_number((#[trigger] points[k]).z, before.min_z);
        let d = choose|k: int|
            0 <= k < n - 1 && same_number((#[trigger] points[k]).x, before.max_x);
        let e = choose|k: int|
            0 <= k < n - 1 && same_number((#[trigger] points[k]).z, before.max_z);
        assert(same_number(points[a].x, b.min_x) || same_number(last.x, b.min_x));
        assert(same_number(points[c].z, b.min_z) || same_number(last.z, b.min_z));
        assert(same_number(points[d].x, b.max_x) || same_number(last.x, b.max_x));
        assert(same_number(points[e].z, b.max_z) || same_number(last.z, b.max_z));
    } else {
        assert(same_number(points[0].x, b.min_x));
        assert(same_number(points[0].z, b.min_z));
        assert(same_number(points[0].x, b.max_x));
        assert(same_number(points[0].z, b.max_z));
    }
}

/// What is said of the nearest segment is said of one segment: its distance, whether it
/// runs along x rather than along z, and where along that axis the nearest point is. On
/// equal distances it is the first.
pub proof fn law_nearest_names_one_segment(samples: Seq<SegmentSample>, n: nat)
    requires
        n <= samples.len(),
        exists|i: int| 0 <= i < n && less((#[trigger] samples[i]).distance2, MAX_FINITE),
    ensures
        exists|i: int|
            0 <= i < n && is_nearest(samples, n, #[trigger] samples[i]) && forall|k: int|
                0 <= k < i ==> less(samples[i].distance2, (#[trigger] samples[k]).distance2)
                    || is_nan_bits(samples[k].distance2),
    decreases n,
{
    let best = nearest_of(samples, (n - 1) as nat);
    let s = samples[n - 1];
    lemma_nearest_is_a_number(samples, (n - 1) as nat);
    if less(s.distance2, best.distance2) {
        assert(is_nearest(samples, n, samples[n - 1]));
        assert forall|k: int| 0 <= k < n - 1 implies less(
            s.distance2,
            (#[trigger] samples[k]).distance2,
        ) || is_nan_bits(samples[k].distance2) by {
            law_nearest_is_nearest(samples, (n - 1) as nat, k);
        }
    } else {
        if !(exists|i: int| 0 <= i < n - 1 && less((#[trigger] samples[i]).distance2, MAX_FINITE)) {
            lemma_nothing_near(samples, (n - 1) as nat);
        }
        law_nearest_names_one_segment(samples, (n - 1) as nat);
        let i = choose|i: int|
            0 <= i < n - 1 && is_nearest(samples, (n - 1) as nat, #[trigger] samples[i])
                && forall|k: int|
                0 <= k < i ==> less(samples[i].distance2, (#[trigger] samples[k]).distance2)
                    || is_nan_bits(samples[k].distance2);
        assert(is_nearest(samples, n, samples[i]));
    }
}

/// The nearest of the first `n` segments is described by this one.
pub open spec fn is_nearest(samples: Seq<SegmentSample>, n: nat, s: SegmentSample) -> bool {
    let best = nearest_of(samples, n);
    &&& best.distance2 == s.distance2
    &&& best.horizontal <==> at_most(s.run_z, s.run_x)
    &&& best.horizontal ==> best.along == s.foot.x
    &&& !best.horizontal ==> best.along == s.foot.z
}

proof fn lemma_nothing_near(samples: Seq<SegmentSample>, n: nat)
    requires
        n <= samples.len(),
        forall|i: int| 0 <= i < n ==> !less((#[trigger] samples[i]).distance2, MAX_FINITE),
    ensures
        nearest_of(samples, n).distance2 == MAX_FINITE,
    decreases n,
{
    if n > 0 {
        lemma_nothing_near(samples, (n - 1) as nat);
        assert(!less(samples[n - 1].distance2, MAX_FINITE));
    }
}

} // verus!
