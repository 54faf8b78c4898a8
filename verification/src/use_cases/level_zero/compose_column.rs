//! Column composition: the one priority order in which the level's systems claim
//! a world column. Circulation beats anchors beats anomalies beats assemblies
//! beats corridor walls beats fabric, and anchors freeze every mutable anomaly
//! around them.

use vstd::prelude::*;

use crate::domain::entities::anomaly::{Position, WorldBounds};
use crate::domain::float_bits::{
    at_most, bits_less, bits_max, bits_rank_at_most, larger, law_total_rank_is_strict, less,
    total_rank, FloatBits,
};
use crate::use_cases::level_zero::circulation::{
    circulation_of, on_spine_edge, sample_circulation, under_strip, within_spine, SpineSample,
    MODULE_LENGTH, STRIP_HALF,
};
use crate::use_cases::level_zero::column::{open_column, ColumnPlan};

verus! {

/// Lowest ceiling over a corridor's edge wall, 3.2.
pub const EDGE_CEILING: FloatBits = 0x404C_CCCD;

/// How an anomaly treats the columns it covers.
#[derive(Clone, Copy, Debug, PartialEq, Eq, Structural)]
pub enum AnomalyFamily {
    /// A stable archway room.
    Anchor,
    /// A room whose light burns red; its architecture stays.
    Red,
    /// Any family that takes its ground over.
    Hostile,
}

/// How one anomaly lies to a column.
#[derive(Clone, Copy, Debug, PartialEq, Eq, Structural)]
pub struct AnomalySample {
    pub family: AnomalyFamily,
    /// The column lies in the anomaly's footprint.
    pub contains: bool,
    /// The footprint's bounds with the family's margin around them.
    pub margin: WorldBounds,
    /// Depth below the footprint's boundary, relative to its size.
    pub depth: FloatBits,
}

/// An anomaly other than a red room covers the place.
pub open spec fn is_owned(anomalies: Seq<AnomalySample>) -> bool {
    exists|i: int|
        0 <= i < anomalies.len() && (#[trigger] anomalies[i]).contains && anomalies[i].family !is Red
}

/// Whether an anomaly owns a place, so that no fixture of an assembly lights it.
/// Red rooms keep their assembly's fixtures.
pub fn place_is_owned(anomalies: &Vec<AnomalySample>) -> (owned: bool)
    ensures
        owned == is_owned(anomalies@),
{
    let mut i: usize = 0;
    while i < anomalies.len()
        invariant
            i <= anomalies@.len(),
            forall|k: int|
                0 <= k < i ==> !((#[trigger] anomalies@[k]).contains && anomalies@[k].family !is Red),
        decreases anomalies@.len() - i,
    {
        if anomalies[i].contains && anomalies[i].family != AnomalyFamily::Red {
            return true;
        }
        i = i + 1;
    }
    false
}

/// How one assembly lies to a column.
#[derive(Clone, Copy, Debug, PartialEq, Eq, Structural)]
pub struct AssemblyReach {
    /// The footprint's bounds with the wall thickness around them.
    pub bounds: WorldBounds,
    pub red_room: bool,
}

/// Who a column belongs to.
#[derive(Clone, Copy, Debug, PartialEq, Eq, Structural)]
pub enum ColumnClaim {
    /// A corridor, which settles the column by itself.
    Corridor { plan: ColumnPlan },
    /// The anchor with this index.
    Anchor { index: usize },
    /// The hostile anomaly with this index; frozen in its first epoch if an anchor
    /// is near.
    Hostile { index: usize, frozen: bool },
    /// The assembly with this index, relit by the red room with the other index.
    Assembly { index: usize, red: Option<usize> },
    /// A corridor's edge wall, which settles the column by itself.
    CorridorWall { plan: ColumnPlan },
    /// The unplanned fabric.
    Fabric,
}

pub open spec fn is_anchor(a: AnomalySample) -> bool {
    a.family is Anchor && a.contains
}

pub open spec fn is_hostile(a: AnomalySample) -> bool {
    a.family is Hostile && a.contains
}

/// An anchor is near enough to freeze what lies at the column.
pub open spec fn anchor_near(anomalies: Seq<AnomalySample>, at: Position) -> bool {
    exists|i: int|
        0 <= i < anomalies.len() && (#[trigger] anomalies[i]).family is Anchor
            && anomalies[i].margin.holds(at.x, at.z)
}

pub open spec fn red_near(a: AnomalySample, at: Position) -> bool {
    a.family is Red && a.margin.holds(at.x, at.z)
}

pub open spec fn reaches(a: AssemblyReach, at: Position) -> bool {
    !less(at.x, a.bounds.min_x) && !less(a.bounds.max_x, at.x) && !less(at.z, a.bounds.min_z)
        && !less(a.bounds.max_z, at.z)
}

/// `i` is the first anchor over the column.
pub open spec fn first_anchor(anomalies: Seq<AnomalySample>, i: int) -> bool {
    &&& 0 <= i < anomalies.len() && is_anchor(anomalies[i])
    &&& forall|j: int| 0 <= j < i ==> !is_anchor(#[trigger] anomalies[j])
}

/// `i` is the hostile anomaly that the column lies deepest in; the last one where
/// several are.
pub open spec fn deepest_hostile(anomalies: Seq<AnomalySample>, i: int) -> bool {
    &&& 0 <= i < anomalies.len() && is_hostile(anomalies[i])
    &&& forall|j: int|
        0 <= j < anomalies.len() && is_hostile(#[trigger] anomalies[j]) ==> {
            ||| total_rank(anomalies[j].depth) < total_rank(anomalies[i].depth)
            ||| anomalies[j].depth == anomalies[i].depth && j <= i
        }
}

/// `i` is the first assembly that reaches the column.
pub open spec fn first_reaching(assemblies: Seq<AssemblyReach>, at: Position, i: int) -> bool {
    &&& 0 <= i < assemblies.len() && reaches(assemblies[i], at)
    &&& forall|j: int| 0 <= j < i ==> !reaches(#[trigger] assemblies[j], at)
}

/// `red` is the first red room near the column, if there is one.
pub open spec fn first_red(anomalies: Seq<AnomalySample>, at: Position, red: Option<usize>) -> bool {
    match red {
        Some(r) => {
            &&& r < anomalies.len() && red_near(anomalies[r as int], at)
            &&& forall|j: int| 0 <= j < r ==> !red_near(#[trigger] anomalies[j], at)
        },
        None => forall|j: int| 0 <= j < anomalies.len() ==> !red_near(#[trigger] anomalies[j], at),
    }
}

/// All that decides who a column belongs to.
pub struct ColumnScene {
    pub at: Position,
    pub spines: Vec<SpineSample>,
    pub anomalies: Vec<AnomalySample>,
    pub assemblies: Vec<AssemblyReach>,
    pub walls_on: bool,
    pub lights_on: bool,
}

pub open spec fn corridor_plan(scene: ColumnScene) -> ColumnPlan {
    let c = circulation_of(scene.spines@);
    ColumnPlan { light: c.light && scene.lights_on, ..open_column(c.ceiling) }
}

pub open spec fn corridor_wall_plan(scene: ColumnScene) -> ColumnPlan {
    let c = circulation_of(scene.spines@);
    ColumnPlan { solid: true, ..open_column(larger(c.ceiling, EDGE_CEILING)) }
}

/// What it takes for a column to belong to a claim.
pub open spec fn belongs_to(scene: ColumnScene, claim: ColumnClaim) -> bool {
    let c = circulation_of(scene.spines@);
    let anomalies = scene.anomalies@;
    let assemblies = scene.assemblies@;
    if c.in_corridor {
        claim == (ColumnClaim::Corridor { plan: corridor_plan(scene) })
    } else if exists|i: int| first_anchor(anomalies, i) {
        claim is Anchor && first_anchor(anomalies, claim->Anchor_index as int)
    } else if exists|i: int| deepest_hostile(anomalies, i) {
        claim is Hostile && deepest_hostile(anomalies, claim->Hostile_index as int)
            && claim->frozen == anchor_near(anomalies, scene.at)
    } else if exists|i: int| first_reaching(assemblies, scene.at, i) {
        claim is Assembly && first_reaching(assemblies, scene.at, claim->Assembly_index as int)
            && if assemblies[claim->Assembly_index as int].red_room {
            first_red(anomalies, scene.at, claim->red)
        } else {
            claim->red is None
        }
    } else if c.wall && scene.walls_on && !c.gap {
        claim == (ColumnClaim::CorridorWall { plan: corridor_wall_plan(scene) })
    } else {
        claim is Fabric
    }
}

fn find_anchor(anomalies: &Vec<AnomalySample>) -> (found: Option<usize>)
    ensures
        match found {
            Some(i) => first_anchor(anomalies@, i as int),
            None => forall|i: int| !#[trigger] first_anchor(anomalies@, i),
        },
{
    let mut i: usize = 0;
    while i < anomalies.len()
        invariant
            i <= anomalies@.len(),
            forall|j: int| 0 <= j < i ==> !is_anchor(#[trigger] anomalies@[j]),
        decreases anomalies@.len() - i,
    {
        let a = anomalies[i];
        let ghost here = anomalies@[i as int];
        if a.family == AnomalyFamily::Anchor && a.contains {
            return Some(i);
        }
        i = i + 1;
    }
    None
}

fn is_anchor_near(anomalies: &Vec<AnomalySample>, at: &Position) -> (near: bool)
    ensures
        near == anchor_near(anomalies@, *at),
{
    let mut i: usize = 0;
    while i < anomalies.len()
        invariant
            i <= anomalies@.len(),
            forall|j: int|
                0 <= j < i ==> !((#[trigger] anomalies@[j]).family is Anchor
                    && anomalies@[j].margin.holds(at.x, at.z)),
        decreases anomalies@.len() - i,
    {
        let a = anomalies[i];
        let ghost here = anomalies@[i as int];
        if a.family == AnomalyFamily::Anchor && a.margin.contains(at.x, at.z) {
            return true;
        }
        i = i + 1;
    }
    false
}

/// `best` is the deepest hostile anomaly among the first `n`.
spec fn deepest_before(anomalies: Seq<AnomalySample>, n: int, best: Option<usize>) -> bool {
    match best {
        Some(b) => {
            &&& b < n && is_hostile(anomalies[b as int])
            &&& forall|j: int|
                0 <= j < n && is_hostile(#[trigger] anomalies[j]) ==> {
                    ||| total_rank(anomalies[j].depth) < total_rank(anomalies[b as int].depth)
                    ||| anomalies[j].depth == anomalies[b as int].depth && j <= b
                }
        },
        None => forall|j: int| 0 <= j < n ==> !is_hostile(#[trigger] anomalies[j]),
    }
}

fn find_hostile(anomalies: &Vec<AnomalySample>) -> (found: Option<usize>)
    ensures
        match found {
            Some(i) => deepest_hostile(anomalies@, i as int),
            None => forall|i: int| !#[trigger] deepest_hostile(anomalies@, i),
        },
{
    let mut best: Option<usize> = None;
    let mut i: usize = 0;
    while i < anomalies.len()
        invariant
            i <= anomalies@.len(),
            deepest_before(anomalies@, i as int, best),
        decreases anomalies@.len() - i,
    {
        let a = anomalies[i];
        let ghost here = anomalies@[i as int];
        if a.family == AnomalyFamily::Hostile && a.contains {
            match best {
                Some(b) => {
                    let ghost leader = anomalies@[b as int];
                    if bits_rank_at_most(anomalies[b].depth, a.depth) {
                        best = Some(i);
                    }
                },
                None => {
                    best = Some(i);
                },
            }
        }
        i = i + 1;
    }
    best
}

fn find_assembly(assemblies: &Vec<AssemblyReach>, at: &Position) -> (found: Option<usize>)
    ensures
        match found {
            Some(i) => first_reaching(assemblies@, *at, i as int),
            None => forall|i: int| !#[trigger] first_reaching(assemblies@, *at, i),
        },
{
    let mut i: usize = 0;
    while i < assemblies.len()
        invariant
            i <= assemblies@.len(),
            forall|j: int| 0 <= j < i ==> !reaches(#[trigger] assemblies@[j], *at),
        decreases assemblies@.len() - i,
    {
        let a = assemblies[i];
        let ghost here = assemblies@[i as int];
        if !bits_less(at.x, a.bounds.min_x) && !bits_less(a.bounds.max_x, at.x) && !bits_less(
            at.z,
            a.bounds.min_z,
        ) && !bits_less(a.bounds.max_z, at.z) {
            return Some(i);
        }
        i = i + 1;
    }
    None
}

fn find_red(anomalies: &Vec<AnomalySample>, at: &Position) -> (found: Option<usize>)
    ensures
        first_red(anomalies@, *at, found),
{
    let mut i: usize = 0;
    while i < anomalies.len()
        invariant
            i <= anomalies@.len(),
            forall|j: int| 0 <= j < i ==> !red_near(#[trigger] anomalies@[j], *at),
        decreases anomalies@.len() - i,
    {
        let a = anomalies[i];
        let ghost here = anomalies@[i as int];
        if a.family == AnomalyFamily::Red && a.margin.contains(at.x, at.z) {
            return Some(i);
        }
        i = i + 1;
    }
    None
}

/// Who the column belongs to.
pub fn claim_column(scene: &ColumnScene) -> (claim: ColumnClaim)
    ensures
        belongs_to(*scene, claim),
{
    let c = sample_circulation(&scene.spines);
    if c.in_corridor {
        let mut plan = ColumnPlan::open(c.ceiling);
        plan.light = c.light && scene.lights_on;
        return ColumnClaim::Corridor { plan };
    }
    if let Some(index) = find_anchor(&scene.anomalies) {
        return ColumnClaim::Anchor { index };
    }
    if let Some(index) = find_hostile(&scene.anomalies) {
        return ColumnClaim::Hostile { index, frozen: is_anchor_near(&scene.anomalies, &scene.at) };
    }
    if let Some(index) = find_assembly(&scene.assemblies, &scene.at) {
        let red = if scene.assemblies[index].red_room {
            find_red(&scene.anomalies, &scene.at)
        } else {
            None
        };
        return ColumnClaim::Assembly { index, red };
    }
    if c.wall && scene.walls_on && !c.gap {
        let mut plan = ColumnPlan::open(bits_max(c.ceiling, EDGE_CEILING));
        plan.solid = true;
        return ColumnClaim::CorridorWall { plan };
    }
    ColumnClaim::Fabric
}

/// A column belongs to one claim only.
pub proof fn law_column_has_one_owner(scene: ColumnScene, a: ColumnClaim, b: ColumnClaim)
    requires
        belongs_to(scene, a),
        belongs_to(scene, b),
    ensures
        a == b,
{
    let anomalies = scene.anomalies@;
    let assemblies = scene.assemblies@;
    if a is Anchor && b is Anchor {
        let (i, j) = (a->Anchor_index as int, b->Anchor_index as int);
        assert(is_anchor(anomalies[i]) && is_anchor(anomalies[j]));
    } else if a is Hostile && b is Hostile {
        let (i, j) = (a->Hostile_index as int, b->Hostile_index as int);
        assert(is_hostile(anomalies[i]) && is_hostile(anomalies[j]));
    } else if a is Assembly && b is Assembly {
        let (i, j) = (a->Assembly_index as int, b->Assembly_index as int);
        assert(reaches(assemblies[i], scene.at) && reaches(assemblies[j], scene.at));
        if a->red is Some {
            assert(red_near(anomalies[a->red->0 as int], scene.at));
        }
        if b->red is Some {
            assert(red_near(anomalies[b->red->0 as int], scene.at));
        }
    }
}

/// Corridors are carved open through everything: whatever else covers a column in
/// a corridor, it is not solid.
pub proof fn law_corridors_are_carved_open(scene: ColumnScene, claim: ColumnClaim)
    requires
        belongs_to(scene, claim),
        circulation_of(scene.spines@).in_corridor,
    ensures
        claim is Corridor,
        !claim->Corridor_plan.solid,
        claim->Corridor_plan.ceiling_units == circulation_of(scene.spines@).ceiling,
{
}

/// Anchors stay as they are: no hostile anomaly claims a column that an anchor
/// covers, and within an anchor's margin a hostile anomaly is frozen.
pub proof fn law_anchors_are_immune(scene: ColumnScene, claim: ColumnClaim, i: int)
    requires
        belongs_to(scene, claim),
        0 <= i < scene.anomalies@.len(),
        scene.anomalies@[i].family is Anchor,
    ensures
        scene.anomalies@[i].contains ==> !(claim is Hostile),
        scene.anomalies@[i].margin.holds(scene.at.x, scene.at.z) && claim is Hostile ==> claim->frozen,
{
    if scene.anomalies@[i].contains {
        lemma_some_first_anchor(scene.anomalies@, i);
    }
}

proof fn lemma_some_first_anchor(anomalies: Seq<AnomalySample>, i: int)
    requires
        0 <= i < anomalies.len(),
        is_anchor(anomalies[i]),
    ensures
        exists|k: int| first_anchor(anomalies, k),
    decreases i,
{
    if first_anchor(anomalies, i) {
    } else {
        let j = choose|j: int| 0 <= j < i && is_anchor(#[trigger] anomalies[j]);
        lemma_some_first_anchor(anomalies, j);
    }
}

proof fn lemma_some_first_reaching(assemblies: Seq<AssemblyReach>, at: Position, i: int)
    requires
        0 <= i < assemblies.len(),
        reaches(assemblies[i], at),
    ensures
        exists|k: int| first_reaching(assemblies, at, k),
    decreases i,
{
    if first_reaching(assemblies, at, i) {
    } else {
        let j = choose|j: int| 0 <= j < i && reaches(#[trigger] assemblies[j], at);
        lemma_some_first_reaching(assemblies, at, j);
    }
}

proof fn lemma_some_deepest(anomalies: Seq<AnomalySample>, n: nat) -> (best: Option<usize>)
    requires
        n <= anomalies.len() <= usize::MAX,
    ensures
        deepest_before(anomalies, n as int, best),
    decreases n,
{
    if n == 0 {
        None
    } else {
        let before = lemma_some_deepest(anomalies, (n - 1) as nat);
        let here = anomalies[n - 1];
        if !is_hostile(here) {
            before
        } else {
            match before {
                Some(b) if total_rank(here.depth) < total_rank(anomalies[b as int].depth) => before,
                Some(b) => {
                    if total_rank(here.depth) == total_rank(anomalies[b as int].depth) {
                        law_total_rank_is_strict(here.depth, anomalies[b as int].depth);
                    }
                    Some((n - 1) as usize)
                },
                None => Some((n - 1) as usize),
            }
        }
    }
}

/// The anomaly at `i` is of that family and covers the column.
pub open spec fn covered_by(scene: ColumnScene, family: AnomalyFamily, i: int) -> bool {
    0 <= i < scene.anomalies@.len() && scene.anomalies@[i].contains && scene.anomalies@[i].family
        == family
}

/// The column lies inside the spine at `i`.
pub open spec fn inside_spine(scene: ColumnScene, i: int) -> bool {
    0 <= i < scene.spines@.len() && at_most(scene.spines@[i].distance, scene.spines@[i].half)
}

/// The column lies in the edge wall of the spine at `i`, outside of it.
pub open spec fn beside_spine(scene: ColumnScene, i: int) -> bool {
    0 <= i < scene.spines@.len() && !at_most(scene.spines@[i].distance, scene.spines@[i].half)
        && at_most(scene.spines@[i].distance, scene.spines@[i].outer)
}

/// The assembly at `i` reaches the column.
pub open spec fn reached_by(scene: ColumnScene, i: int) -> bool {
    let at = scene.at;
    0 <= i < scene.assemblies@.len() && {
        let b = scene.assemblies@[i].bounds;
        !less(at.x, b.min_x) && !less(b.max_x, at.x) && !less(at.z, b.min_z) && !less(b.max_z, at.z)
    }
}

/// The order of the claims. A column in a corridor is the corridor's, whatever else
/// covers it; else the first anchor's that covers it; else the deepest hostile
/// anomaly's; else the first assembly's that reaches it; else, where walls are
/// built, a corridor's edge wall's, unless one of the edge walls there is dissolved;
/// else the fabric's.
pub proof fn law_claims_are_taken_in_order(scene: ColumnScene, claim: ColumnClaim)
    requires
        belongs_to(scene, claim),
    ensures
        ({
            let corridor = exists|i: int| inside_spine(scene, i);
            let anchor = exists|i: int| covered_by(scene, AnomalyFamily::Anchor, i);
            let hostile = exists|i: int| covered_by(scene, AnomalyFamily::Hostile, i);
            let assembly = exists|i: int| reached_by(scene, i);
            let wall = scene.walls_on && (exists|i: int| beside_spine(scene, i)) && forall|i: int| #[trigger]
                beside_spine(scene, i) ==> !scene.spines@[i].opens;
            &&& claim is Corridor <==> corridor
            &&& claim is Anchor <==> !corridor && anchor
            &&& claim is Hostile <==> !corridor && !anchor && hostile
            &&& claim is Assembly <==> !corridor && !anchor && !hostile && assembly
            &&& claim is CorridorWall <==> !corridor && !anchor && !hostile && !assembly && wall
            &&& claim is Fabric <==> !corridor && !anchor && !hostile && !assembly && !wall
        }),
{
    let anomalies = scene.anomalies@;
    let assemblies = scene.assemblies@;
    let c = circulation_of(scene.spines@);
    assert(c.in_corridor == exists|i: int| inside_spine(scene, i)) by {
        if c.in_corridor {
            let i = choose|i: int|
                0 <= i < scene.spines@.len() && within_spine(#[trigger] scene.spines@[i]);
            assert(inside_spine(scene, i));
        }
        if exists|i: int| inside_spine(scene, i) {
            let i = choose|i: int| inside_spine(scene, i);
            assert(within_spine(scene.spines@[i]));
        }
    }
    assert(c.wall == exists|i: int| beside_spine(scene, i)) by {
        if c.wall {
            let i = choose|i: int|
                0 <= i < scene.spines@.len() && on_spine_edge(#[trigger] scene.spines@[i]);
            assert(beside_spine(scene, i));
        }
        if exists|i: int| beside_spine(scene, i) {
            let i = choose|i: int| beside_spine(scene, i);
            assert(on_spine_edge(scene.spines@[i]));
        }
    }
    assert(!c.gap == forall|i: int| #[trigger]
        beside_spine(scene, i) ==> !scene.spines@[i].opens) by {
        if c.gap {
            let i = choose|i: int|
                0 <= i < scene.spines@.len() && on_spine_edge(#[trigger] scene.spines@[i])
                    && scene.spines@[i].opens;
            assert(beside_spine(scene, i));
        } else {
            assert forall|i: int| #[trigger] beside_spine(scene, i) implies !scene.spines@[i].opens by {
                assert(on_spine_edge(scene.spines@[i]));
            }
        }
    }
    assert((exists|i: int| first_anchor(anomalies, i)) == exists|i: int|
        covered_by(scene, AnomalyFamily::Anchor, i)) by {
        if exists|i: int| first_anchor(anomalies, i) {
            let i = choose|i: int| first_anchor(anomalies, i);
            assert(covered_by(scene, AnomalyFamily::Anchor, i));
        }
        if exists|i: int| covered_by(scene, AnomalyFamily::Anchor, i) {
            let i = choose|i: int| covered_by(scene, AnomalyFamily::Anchor, i);
            lemma_some_first_anchor(anomalies, i);
        }
    }
    assert((exists|i: int| deepest_hostile(anomalies, i)) == exists|i: int|
        covered_by(scene, AnomalyFamily::Hostile, i)) by {
        if exists|i: int| deepest_hostile(anomalies, i) {
            let i = choose|i: int| deepest_hostile(anomalies, i);
            assert(covered_by(scene, AnomalyFamily::Hostile, i));
        }
        if exists|i: int| covered_by(scene, AnomalyFamily::Hostile, i) {
            let i = choose|i: int| covered_by(scene, AnomalyFamily::Hostile, i);
            assert(scene.anomalies.len() == anomalies.len());
            let best = lemma_some_deepest(anomalies, anomalies.len());
            assert(is_hostile(anomalies[i]));
            assert(deepest_hostile(anomalies, best->0 as int));
        }
    }
    assert((exists|i: int| first_reaching(assemblies, scene.at, i)) == exists|i: int|
        reached_by(scene, i)) by {
        if exists|i: int| first_reaching(assemblies, scene.at, i) {
            let i = choose|i: int| first_reaching(assemblies, scene.at, i);
            assert(reached_by(scene, i));
        }
        if exists|i: int| reached_by(scene, i) {
            let i = choose|i: int| reached_by(scene, i);
            lemma_some_first_reaching(assemblies, scene.at, i);
        }
    }
}

/// What each claim names. An anchor is the first that covers the column. No hostile
/// anomaly that covers it lies deeper over it than the one named. An assembly is the
/// first that reaches it; only a red one is relit, by the first red room near. The
/// plan of a corridor is open and lit only where lights are on and a strip hangs
/// over it; the plan of an edge wall is solid and unlit.
pub proof fn law_claims_name_their_owner(scene: ColumnScene, claim: ColumnClaim, i: int)
    requires
        belongs_to(scene, claim),
    ensures
        claim matches ColumnClaim::Corridor { plan } ==> {
            &&& plan.floor && !plan.solid && plan.lintel_from_units is None && !plan.red_light
            &&& plan.light ==> scene.lights_on && exists|k: int|
                inside_spine(scene, k) && less(#[trigger] scene.spines@[k].distance, STRIP_HALF)
                    && less(scene.spines@[k].phase, MODULE_LENGTH)
            &&& scene.lights_on && inside_spine(scene, i) && less(
                scene.spines@[i].distance,
                STRIP_HALF,
            ) && less(scene.spines@[i].phase, MODULE_LENGTH) ==> plan.light
        },
        claim matches ColumnClaim::CorridorWall { plan } ==> plan.floor && plan.solid && !plan.light
            && !plan.red_light,
        claim matches ColumnClaim::Anchor { index } ==> covered_by(
            scene,
            AnomalyFamily::Anchor,
            index as int,
        ) && (covered_by(scene, AnomalyFamily::Anchor, i) ==> index <= i),
        claim matches ColumnClaim::Hostile { index, frozen } ==> {
            &&& covered_by(scene, AnomalyFamily::Hostile, index as int)
            &&& covered_by(scene, AnomalyFamily::Hostile, i) ==> !less(
                scene.anomalies@[index as int].depth,
                scene.anomalies@[i].depth,
            )
            &&& frozen <==> exists|k: int|
                0 <= k < scene.anomalies@.len() && (#[trigger] scene.anomalies@[k]).family is Anchor
                    && scene.anomalies@[k].margin.holds(scene.at.x, scene.at.z)
        },
        claim matches ColumnClaim::Assembly { index, red } ==> {
            &&& reached_by(scene, index as int) && (reached_by(scene, i) ==> index <= i)
            &&& red is Some ==> scene.assemblies@[index as int].red_room && red->0
                < scene.anomalies@.len() && scene.anomalies@[red->0 as int].family is Red
                && scene.anomalies@[red->0 as int].margin.holds(scene.at.x, scene.at.z)
            &&& red is None && 0 <= i < scene.anomalies@.len() && scene.anomalies@[i].family is Red
                && scene.anomalies@[i].margin.holds(scene.at.x, scene.at.z)
                ==> !scene.assemblies@[index as int].red_room
        },
{
    let anomalies = scene.anomalies@;
    if let ColumnClaim::Corridor { plan } = claim {
        if plan.light {
            let k = choose|k: int|
                0 <= k < scene.spines@.len() && under_strip(#[trigger] scene.spines@[k]);
            assert(inside_spine(scene, k) && less(scene.spines@[k].distance, STRIP_HALF));
        }
        if inside_spine(scene, i) && less(scene.spines@[i].distance, STRIP_HALF) && less(
            scene.spines@[i].phase,
            MODULE_LENGTH,
        ) {
            assert(under_strip(scene.spines@[i]));
        }
    }
    if let ColumnClaim::Anchor { index } = claim {
        if covered_by(scene, AnomalyFamily::Anchor, i) {
            assert(is_anchor(anomalies[i]));
        }
    }
    if let ColumnClaim::Hostile { index, .. } = claim {
        if covered_by(scene, AnomalyFamily::Hostile, i) {
            assert(is_hostile(anomalies[i]));
        }
    }
    if let ColumnClaim::Assembly { index, red } = claim {
        if reached_by(scene, i) {
            assert(reaches(scene.assemblies@[i], scene.at));
        }
        if 0 <= i < anomalies.len() && scene.assemblies@[index as int].red_room && red is None {
            assert(!red_near(anomalies[i], scene.at));
        }
    }
}

} // verus!
