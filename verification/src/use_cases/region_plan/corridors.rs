//! Circulation of a region: one dominant spine between the portals it shares with
//! its neighbours, and a few branches.

use vstd::prelude::*;

use crate::domain::entities::anomaly::Position;
use crate::domain::entities::architecture::{
    law_nearest_bounds_every_segment, nearest_of, CirculationSpine, CirculationStyle, SegmentSample,
    SpaceProgram,
};
use crate::domain::float_bits::{
    at_most, bits_at_most, bits_equal, bits_less, bits_max, bits_min, is_nan_bits, larger, less,
    same_number, smaller, FloatBits,
};

verus! {

/// Six units east of the portal whose z is given.
pub open spec fn spawn_at(portal_z: u32) -> Position {
    Position { x: 0x40C0_0000, z: portal_z }
}

/// World spawn: on the main corridor's centerline, six units east of the portal
/// whose z is given.
pub fn spawn_point(portal_z: FloatBits) -> (spawn: Position)
    ensures
        spawn == spawn_at(portal_z),
{
    Position { x: 0x40C0_0000, z: portal_z }
}

/// The coordinates that a main spine runs along.
#[derive(Clone, Copy, Debug, PartialEq, Eq, Structural)]
pub struct SpineCourse {
    /// West and east edge of the region.
    pub x0: FloatBits,
    pub x1: FloatBits,
    /// Portals on those edges.
    pub west_z: FloatBits,
    pub east_z: FloatBits,
    pub bend_x: FloatBits,
    /// Course of a meandering spine between its bends.
    pub mid_z: FloatBits,
    pub bend2_x: FloatBits,
}

pub open spec fn main_waypoints(style: CirculationStyle, c: SpineCourse) -> Seq<Position> {
    if style is MeanderingSpine {
        seq![
            Position { x: c.x0, z: c.west_z },
            Position { x: c.bend_x, z: c.west_z },
            Position { x: c.bend_x, z: c.mid_z },
            Position { x: c.bend2_x, z: c.mid_z },
            Position { x: c.bend2_x, z: c.east_z },
            Position { x: c.x1, z: c.east_z },
        ]
    } else {
        seq![
            Position { x: c.x0, z: c.west_z },
            Position { x: c.bend_x, z: c.west_z },
            Position { x: c.bend_x, z: c.east_z },
            Position { x: c.x1, z: c.east_z },
        ]
    }
}

/// Waypoints of the main spine: west portal to east portal, always.
pub fn main_path(style: CirculationStyle, c: &SpineCourse) -> (path: Vec<Position>)
    ensures
        path@ == main_waypoints(style, *c),
{
    let mut path: Vec<Position> = Vec::new();
    path.push(Position { x: c.x0, z: c.west_z });
    path.push(Position { x: c.bend_x, z: c.west_z });
    if style == CirculationStyle::MeanderingSpine {
        path.push(Position { x: c.bend_x, z: c.mid_z });
        path.push(Position { x: c.bend2_x, z: c.mid_z });
        path.push(Position { x: c.bend2_x, z: c.east_z });
    } else {
        path.push(Position { x: c.bend_x, z: c.east_z });
    }
    path.push(Position { x: c.x1, z: c.east_z });
    assert(path@ =~= main_waypoints(style, *c));
    path
}

/// A main spine runs from its west portal to its east portal, and every stretch
/// of it is parallel to an axis.
pub proof fn law_main_spine_joins_its_portals(style: CirculationStyle, c: SpineCourse)
    ensures
        ({
            let path = main_waypoints(style, c);
            &&& path.first() == (Position { x: c.x0, z: c.west_z })
            &&& path.last() == (Position { x: c.x1, z: c.east_z })
            &&& forall|i: int|
                #![trigger path[i]]
                0 < i < path.len() ==> path[i].x == path[i - 1].x || path[i].z == path[i - 1].z
        }),
{
}

/// Corridors chain across regions: two neighbours that agree on their shared edge
/// and its portal meet in one point.
pub proof fn law_neighbours_meet_at_their_portal(
    west_style: CirculationStyle,
    west: SpineCourse,
    east_style: CirculationStyle,
    east: SpineCourse,
)
    requires
        west.x1 == east.x0,
        west.east_z == east.west_z,
    ensures
        main_waypoints(west_style, west).last() == main_waypoints(east_style, east).first(),
{
}

/// The stretch that ends in waypoint `i` runs along x and passes `x`.
pub open spec fn passes(path: Seq<Position>, i: int, x: u32) -> bool {
    let (a, b) = (path[i - 1], path[i]);
    same_number(a.z, b.z) && at_most(smaller(a.x, b.x), x) && at_most(x, larger(a.x, b.x))
}

/// The z of the first stretch before waypoint `n` that passes `x`.
pub open spec fn first_passing(path: Seq<Position>, x: u32, n: nat) -> Option<u32>
    decreases n,
{
    if n <= 1 {
        None
    } else {
        match first_passing(path, x, (n - 1) as nat) {
            Some(z) => Some(z),
            None => if passes(path, n - 1, x) {
                Some(path[n - 2].z)
            } else {
                None
            },
        }
    }
}

/// Z coordinate of a west-to-east spine where it passes `x`; that of its first
/// waypoint where it does not.
pub fn spine_z_at(path: &Vec<Position>, x: FloatBits) -> (z: FloatBits)
    requires
        path@.len() > 0,
    ensures
        z == match first_passing(path@, x, path@.len()) {
            Some(at) => at,
            None => path@[0].z,
        },
{
    let mut found: Option<FloatBits> = None;
    let mut i: usize = 1;
    while i < path.len()
        invariant
            1 <= i <= path@.len(),
            found == first_passing(path@, x, i as nat),
        decreases path@.len() - i,
    {
        let a = path[i - 1];
        let b = path[i];
        if found.is_none() && bits_equal(a.z, b.z) && bits_at_most(bits_min(a.x, b.x), x)
            && bits_at_most(x, bits_max(a.x, b.x)) {
            found = Some(a.z);
        }
        i = i + 1;
    }
    match found {
        Some(z) => z,
        None => path[0].z,
    }
}

/// How many branches leave the main spine: 0.45, 0.20, 0.28 and 0.82 divide the
/// rolls.
pub open spec fn branches_of(style: CirculationStyle, roll: u32) -> nat {
    if style is StraightSpine && less(roll, 0x3EE6_6666) {
        0
    } else if style is MeanderingSpine && less(roll, 0x3E4C_CCCD) {
        0
    } else if less(roll, 0x3E8F_5C29) {
        0
    } else if less(roll, 0x3F51_EB85) {
        1
    } else {
        2
    }
}

/// Roughly a quarter of regions have no branch, most have one, and a few two.
pub fn branch_count(style: CirculationStyle, roll: FloatBits) -> (count: usize)
    ensures
        count == branches_of(style, roll),
{
    if style == CirculationStyle::StraightSpine && bits_less(roll, 0x3EE6_6666) {
        0
    } else if style == CirculationStyle::MeanderingSpine && bits_less(roll, 0x3E4C_CCCD) {
        0
    } else if bits_less(roll, 0x3E8F_5C29) {
        0
    } else if bits_less(roll, 0x3F51_EB85) {
        1
    } else {
        2
    }
}

/// A branch that may be built.
#[derive(Clone, Copy, Debug, PartialEq, Eq, Structural)]
pub struct BranchCourse {
    /// Where it leaves the main spine, and where it would end.
    pub start: Position,
    pub end: Position,
    /// How far it reaches.
    pub length: FloatBits,
}

/// Shortest branch that is built, 8 units.
pub const SHORTEST_BRANCH: FloatBits = 0x4100_0000;

pub open spec fn is_built(b: BranchCourse) -> bool {
    at_most(SHORTEST_BRANCH, b.length)
}

/// How many of the first `n` branches are built.
pub open spec fn built_count(branches: Seq<BranchCourse>, n: nat) -> int
    decreases n,
{
    if n == 0 {
        0
    } else {
        built_count(branches, (n - 1) as nat) + if is_built(branches[n - 1]) {
            1int
        } else {
            0
        }
    }
}

/// The spine that a branch becomes after `id` others.
pub open spec fn is_branch(spine: CirculationSpine, b: BranchCourse, width: u32, id: int) -> bool {
    &&& spine.id == id
    &&& spine.spine_kind is SecondaryHall
    &&& spine.path@ == seq![b.start, b.end]
    &&& spine.width == width
}

/// What it takes to be the circulation of a region.
pub open spec fn is_circulation(
    spines: Seq<CirculationSpine>,
    style: CirculationStyle,
    c: SpineCourse,
    main_width: u32,
    branch_width: u32,
    branches: Seq<BranchCourse>,
    n: nat,
) -> bool {
    &&& spines.len() == 1 + built_count(branches, n)
    &&& spines[0].id == 0
    &&& spines[0].spine_kind is MainCorridor
    &&& spines[0].path@ == main_waypoints(style, c)
    &&& spines[0].width == main_width
    &&& forall|i: int|
        0 <= i < n && is_built(#[trigger] branches[i]) ==> is_branch(
            spines[1 + built_count(branches, i as nat)],
            branches[i],
            branch_width,
            1 + built_count(branches, i as nat),
        )
}

/// Spawn lies on the centerline of the main corridor: the first spine of a region
/// whose west edge is at zero passes the spawn's x at the spawn's z, whatever its
/// style, as long as its first bend lies further east. Once its distance from that
/// stretch was measured as zero, it is no distance from the corridor.
pub proof fn law_spawn_is_on_the_spine(
    spines: Seq<CirculationSpine>,
    style: CirculationStyle,
    c: SpineCourse,
    main_width: u32,
    branch_width: u32,
    branches: Seq<BranchCourse>,
    samples: Seq<SegmentSample>,
)
    requires
        is_circulation(spines, style, c, main_width, branch_width, branches, branches.len()),
        c.x0 == 0,
        less(spawn_at(c.west_z).x, c.bend_x),
        !is_nan_bits(c.west_z),
    ensures
        ({
            let spawn = spawn_at(c.west_z);
            let path = spines[0].path@;
            &&& spines[0].spine_kind is MainCorridor
            &&& passes(path, 1, spawn.x)
            &&& path[0].z == spawn.z
            &&& first_passing(path, spawn.x, path.len()) == Some(spawn.z)
            &&& samples.len() == path.len() - 1 && same_number(samples[0].distance2, 0) ==> at_most(
                nearest_of(samples, samples.len()).distance2,
                0,
            )
        }),
{
    let path = spines[0].path@;
    assert(passes(path, 1, spawn_at(c.west_z).x));
    reveal_with_fuel(first_passing, 7);
    if samples.len() == path.len() - 1 && same_number(samples[0].distance2, 0) {
        law_nearest_bounds_every_segment(samples, samples.len(), 0);
    }
}

/// Corridors meet their neighbours at shared portals: two neighbouring regions that
/// take their portals from one lattice and share an edge have main corridors of
/// which one ends where the other starts.
pub proof fn law_corridors_meet_at_shared_portals(
    lattice: spec_fn(i64, i64) -> u32,
    rx: i64,
    rz: i64,
    west: Seq<CirculationSpine>,
    west_style: CirculationStyle,
    a: SpineCourse,
    east: Seq<CirculationSpine>,
    east_style: CirculationStyle,
    b: SpineCourse,
    widths: (u32, u32, u32, u32),
    west_branches: Seq<BranchCourse>,
    east_branches: Seq<BranchCourse>,
)
    requires
        rx < i64::MAX,
        a.x1 == b.x0,
        a.east_z == lattice((rx + 1) as i64, rz),
        b.west_z == lattice((rx + 1) as i64, rz),
        is_circulation(west, west_style, a, widths.0, widths.1, west_branches, west_branches.len()),
        is_circulation(east, east_style, b, widths.2, widths.3, east_branches, east_branches.len()),
    ensures
        west[0].spine_kind is MainCorridor,
        east[0].spine_kind is MainCorridor,
        west[0].path@.last() == east[0].path@.first(),
        west[0].path@.last() == (Position { x: b.x0, z: lattice((rx + 1) as i64, rz) }),
{
    law_neighbours_meet_at_their_portal(west_style, a, east_style, b);
    law_main_spine_joins_its_portals(west_style, a);
}

/// The portals on a region's west and east edge.
#[derive(Clone, Copy, Debug, PartialEq, Eq, Structural)]
pub struct RegionPortals {
    pub west: FloatBits,
    pub east: FloatBits,
}

/// A region's portals, by the lattice of portals on west edges: its own, and that of
/// its east neighbour.
pub fn region_portals<F: Fn(i64, i64) -> FloatBits>(rx: i64, rz: i64, lattice: F) -> (portals:
    RegionPortals)
    requires
        rx < i64::MAX,
        call_requires(lattice, (rx, rz)),
        call_requires(lattice, ((rx + 1) as i64, rz)),
    ensures
        call_ensures(lattice, (rx, rz), portals.west),
        call_ensures(lattice, ((rx + 1) as i64, rz), portals.east),
{
    RegionPortals { west: lattice(rx, rz), east: lattice(rx + 1, rz) }
}

proof fn lemma_built_count(branches: Seq<BranchCourse>, i: nat, n: nat)
    requires
        i <= n,
    ensures
        0 <= built_count(branches, i) <= built_count(branches, n),
        built_count(branches, n) <= n,
        i < n && is_built(branches[i as int]) ==> built_count(branches, i) < built_count(branches, n),
    decreases n,
{
    if n > 0 && i < n {
        lemma_built_count(branches, i, (n - 1) as nat);
    } else if n > 0 {
        lemma_built_count(branches, (n - 1) as nat, (n - 1) as nat);
    }
}

/// The main spine, then every branch that is long enough, numbered in order.
pub fn build_corridors(
    style: CirculationStyle,
    c: &SpineCourse,
    main_width: FloatBits,
    branch_width: FloatBits,
    branches: &Vec<BranchCourse>,
) -> (spines: Vec<CirculationSpine>)
    requires
        branches@.len() < u32::MAX,
    ensures
        is_circulation(spines@, style, *c, main_width, branch_width, branches@, branches@.len()),
{
    let mut spines: Vec<CirculationSpine> = Vec::new();
    spines.push(
        CirculationSpine {
            id: 0,
            spine_kind: SpaceProgram::MainCorridor,
            path: main_path(style, c),
            width: main_width,
        },
    );
    let mut id: u32 = 1;
    let mut i: usize = 0;
    while i < branches.len()
        invariant
            i <= branches@.len() < u32::MAX,
            id == 1 + built_count(branches@, i as nat),
            id <= 1 + i,
            is_circulation(spines@, style, *c, main_width, branch_width, branches@, i as nat),
        decreases branches@.len() - i,
    {
        let b = branches[i];
        let ghost before = spines@;
        if bits_at_most(SHORTEST_BRANCH, b.length) {
            let mut path: Vec<Position> = Vec::new();
            path.push(b.start);
            path.push(b.end);
            assert(path@ =~= seq![b.start, b.end]);
            spines.push(
                CirculationSpine {
                    id,
                    spine_kind: SpaceProgram::SecondaryHall,
                    path,
                    width: branch_width,
                },
            );
            id = id + 1;
        }
        proof {
            lemma_built_count(branches@, i as nat, i as nat);
            assert(built_count(branches@, (i + 1) as nat) == built_count(branches@, i as nat) + if is_built(
                branches@[i as int],
            ) {
                1int
            } else {
                0
            });
            assert(spines@[0] == before[0]);
            assert forall|k: int| 0 <= k < i + 1 && is_built(#[trigger] branches@[k]) implies is_branch(
                spines@[1 + built_count(branches@, k as nat)],
                branches@[k],
                branch_width,
                1 + built_count(branches@, k as nat),
            ) by {
                if k < i {
                    lemma_built_count(branches@, k as nat, i as nat);
                    assert(spines@[1 + built_count(branches@, k as nat)] == before[1 + built_count(
                        branches@,
                        k as nat,
                    )]);
                }
            }
        }
        i = i + 1;
    }
    spines
}

/// A straight stretch of the main spine that runs along x.
#[derive(Clone, Copy, Debug, PartialEq, Eq, Structural)]
pub struct SpineLeg {
    pub x0: FloatBits,
    pub x1: FloatBits,
    pub z: FloatBits,
    pub width: FloatBits,
}

/// The stretches of a spine, up to waypoint `n`, that run along x.
pub open spec fn legs_of(path: Seq<Position>, width: u32, n: nat) -> Seq<SpineLeg>
    decreases n,
{
    if n <= 1 {
        Seq::empty()
    } else {
        let before = legs_of(path, width, (n - 1) as nat);
        let (a, b) = (path[n - 2], path[n - 1]);
        if same_number(a.z, b.z) {
            before.push(
                SpineLeg { x0: smaller(a.x, b.x), x1: larger(a.x, b.x), z: a.z, width },
            )
        } else {
            before
        }
    }
}

/// The stretches of the main spines among the first `n`, in order.
pub open spec fn main_legs_of(spines: Seq<CirculationSpine>, n: nat) -> Seq<SpineLeg>
    decreases n,
{
    if n == 0 {
        Seq::empty()
    } else {
        let before = main_legs_of(spines, (n - 1) as nat);
        let s = spines[n - 1];
        if s.spine_kind is MainCorridor {
            before + legs_of(s.path@, s.width, s.path@.len())
        } else {
            before
        }
    }
}

/// Where masses may stand: beside the stretches of the main spine that run along
/// x. Branches stay exposed.
pub fn main_legs(spines: &Vec<CirculationSpine>) -> (legs: Vec<SpineLeg>)
    ensures
        legs@ == main_legs_of(spines@, spines@.len()),
{
    let mut legs: Vec<SpineLeg> = Vec::new();
    let mut i: usize = 0;
    while i < spines.len()
        invariant
            i <= spines@.len(),
            legs@ == main_legs_of(spines@, i as nat),
        decreases spines@.len() - i,
    {
        let s = &spines[i];
        if s.spine_kind == SpaceProgram::MainCorridor {
            let ghost before = legs@;
            assert(legs@ =~= before + legs_of(s.path@, s.width, 1));
            let mut k: usize = 1;
            while k < s.path.len()
                invariant
                    1 <= k,
                    k <= s.path@.len() || s.path@.len() == 0,
                    k == 1 || k <= s.path@.len(),
                    legs@ == before + legs_of(s.path@, s.width, k as nat),
                decreases s.path@.len() - k,
            {
                let a = s.path[k - 1];
                let b = s.path[k];
                if bits_equal(a.z, b.z) {
                    legs.push(
                        SpineLeg {
                            x0: bits_min(a.x, b.x),
                            x1: bits_max(a.x, b.x),
                            z: a.z,
                            width: s.width,
                        },
                    );
                }
                k = k + 1;
                assert(legs@ =~= before + legs_of(s.path@, s.width, k as nat));
            }
            assert(legs@ =~= before + legs_of(s.path@, s.width, s.path@.len()));
        }
        i = i + 1;
    }
    legs
}

/// Shortest stretch that masses stand beside, 14 units.
pub const SHORTEST_LEG: FloatBits = 0x4160_0000;

/// The stretches among the first `n` that are long enough for masses.
pub open spec fn long_legs_of(legs: Seq<SpineLeg>, lengths: Seq<u32>, n: nat) -> Seq<SpineLeg>
    decreases n,
{
    if n == 0 {
        Seq::empty()
    } else {
        let before = long_legs_of(legs, lengths, (n - 1) as nat);
        if at_most(SHORTEST_LEG, lengths[n - 1]) {
            before.push(legs[n - 1])
        } else {
            before
        }
    }
}

/// The stretches that are long enough for masses, in order.
pub fn long_legs(legs: &Vec<SpineLeg>, lengths: &Vec<FloatBits>) -> (long: Vec<SpineLeg>)
    requires
        lengths@.len() == legs@.len(),
    ensures
        long@ == long_legs_of(legs@, lengths@, legs@.len()),
{
    let mut long: Vec<SpineLeg> = Vec::new();
    let mut i: usize = 0;
    while i < legs.len()
        invariant
            i <= legs@.len(),
            lengths@.len() == legs@.len(),
            long@ == long_legs_of(legs@, lengths@, i as nat),
        decreases legs@.len() - i,
    {
        if bits_at_most(SHORTEST_LEG, lengths[i]) {
            long.push(legs[i]);
        }
        i = i + 1;
    }
    long
}

/// A main spine keeps to its portals' courses but between its bends: it leaves the
/// west portal straight up to the first bend. A meandering one then follows its
/// middle course up to the second bend; any other turns at once. From the last bend
/// it runs straight into the east portal.
pub proof fn law_main_spine_turns_at_its_bends(style: CirculationStyle, c: SpineCourse)
    ensures
        ({
            let path = main_waypoints(style, c);
            let n = path.len();
            &&& path[1].x == c.bend_x && path[1].z == c.west_z
            &&& path[2].x == c.bend_x
            &&& style is MeanderingSpine ==> n == 6 && path[2].z == c.mid_z && path[3].z == c.mid_z
                && path[3].x == c.bend2_x && path[4].x == c.bend2_x && path[4].z == c.east_z
            &&& !(style is MeanderingSpine) ==> n == 4 && path[2].z == c.east_z
        }),
{
}

proof fn lemma_first_passing(path: Seq<Position>, x: u32, n: nat)
    requires
        n <= path.len(),
    ensures
        first_passing(path, x, n) matches Some(z) ==> exists|i: int|
            0 < i < n && #[trigger] passes(path, i, x) && path[i - 1].z == z && forall|k: int|
                0 < k < i ==> !#[trigger] passes(path, k, x),
        first_passing(path, x, n) is None ==> forall|i: int|
            0 < i < n ==> !#[trigger] passes(path, i, x),
    decreases n,
{
    if n > 1 {
        lemma_first_passing(path, x, (n - 1) as nat);
        if first_passing(path, x, (n - 1) as nat) is None && passes(path, n - 1, x) {
            assert(path[n - 1 - 1].z == path[n - 2].z);
        }
    }
}

/// Where a spine passes `x`, its course there is that of the first stretch along x
/// that has `x` between its ends; a spine that does not pass it has none.
pub proof fn law_spine_course_is_that_of_a_stretch(path: Seq<Position>, x: u32)
    ensures
        match first_passing(path, x, path.len()) {
            Some(z) => exists|i: int|
                0 < i < path.len() && z == path[i - 1].z && same_number(z, path[i].z) && (at_most(
                    (#[trigger] path[i]).x,
                    x,
                ) || at_most(path[i - 1].x, x)) && (at_most(x, path[i].x) || at_most(
                    x,
                    path[i - 1].x,
                )),
            None => forall|i: int|
                0 < i < path.len() && same_number(path[i - 1].z, (#[trigger] path[i]).z) ==> !(
                at_most(path[i - 1].x, x) && at_most(x, path[i].x)) && !(at_most(path[i].x, x)
                    && at_most(x, path[i - 1].x)),
        },
{
    lemma_first_passing(path, x, path.len());
    if let Some(z) = first_passing(path, x, path.len()) {
        let i = choose|i: int|
            0 < i < path.len() && #[trigger] passes(path, i, x) && path[i - 1].z == z && forall|k: int|
                0 < k < i ==> !#[trigger] passes(path, k, x);
        assert(0 < i < path.len() && z == path[i - 1].z && same_number(z, path[i].z));
    } else {
        assert forall|i: int|
            0 < i < path.len() && same_number(path[i - 1].z, (#[trigger] path[i]).z) implies !(
        at_most(path[i - 1].x, x) && at_most(x, path[i].x)) && !(at_most(path[i].x, x) && at_most(
            x,
            path[i - 1].x,
        )) by {
            assert(!passes(path, i, x));
        }
    }
}

/// A higher roll never takes branches away, and there are at most two. Straight
/// spines have none below 0.45, others none below 0.28; two take at least 0.82.
pub proof fn law_branches_are_few(style: CirculationStyle, a: u32, b: u32)
    requires
        at_most(a, b),
    ensures
        branches_of(style, a) <= branches_of(style, b) <= 2,
        branches_of(style, a) == 0 <==> less(a, 0x3E8F_5C29) || style is StraightSpine && less(
            a,
            0x3EE6_6666,
        ),
        branches_of(style, a) == 2 <==> !less(a, 0x3F51_EB85),
{
}

/// Every spine after the main one is a secondary hall along a branch of at least
/// eight units; shorter branches are left out. The spines are numbered in order, and
/// branches keep theirs.
pub proof fn law_short_branches_are_left_out(
    spines: Seq<CirculationSpine>,
    style: CirculationStyle,
    c: SpineCourse,
    main_width: u32,
    branch_width: u32,
    branches: Seq<BranchCourse>,
    i: int,
    j: int,
)
    requires
        is_circulation(spines, style, c, main_width, branch_width, branches, branches.len()),
        0 <= i < j < branches.len(),
        at_most(0x4100_0000, branches[i].length),
        at_most(0x4100_0000, branches[j].length),
    ensures
        exists|k: int, l: int|
            0 < k < l < spines.len() && (#[trigger] spines[k]).path@ == seq![
                branches[i].start,
                branches[i].end,
            ] && (#[trigger] spines[l]).path@ == seq![branches[j].start, branches[j].end]
                && spines[k].id == k && spines[l].id == l && spines[k].spine_kind is SecondaryHall
                && spines[k].width == branch_width,
        (forall|n: int|
            0 <= n < branches.len() ==> at_most(0x4100_0000, (#[trigger] branches[n]).length))
            ==> spines.len() == branches.len() + 1,
{
    let n = branches.len();
    let k = 1 + built_count(branches, i as nat);
    let l = 1 + built_count(branches, j as nat);
    assert(is_built(branches[i]) && is_built(branches[j]));
    lemma_built_count(branches, i as nat, j as nat);
    lemma_built_count(branches, j as nat, n);
    lemma_built_count(branches, i as nat, i as nat);
    assert(is_branch(spines[k], branches[i], branch_width, k));
    assert(is_branch(spines[l], branches[j], branch_width, l));
    if forall|n: int|
        0 <= n < branches.len() ==> at_most(0x4100_0000, (#[trigger] branches[n]).length) {
        lemma_all_built(branches, n);
    }
}

proof fn lemma_all_built(branches: Seq<BranchCourse>, n: nat)
    requires
        n <= branches.len(),
        forall|k: int|
            0 <= k < branches.len() ==> at_most(0x4100_0000, (#[trigger] branches[k]).length),
    ensures
        built_count(branches, n) == n,
    decreases n,
{
    if n > 0 {
        lemma_all_built(branches, (n - 1) as nat);
        assert(at_most(0x4100_0000, branches[n - 1].length));
    }
}

/// The leg lies along the stretch that ends in waypoint `i`, from its low end to its
/// high end.
pub open spec fn leg_along(leg: SpineLeg, path: Seq<Position>, i: int) -> bool {
    let (a, b) = (path[i - 1].x, path[i].x);
    &&& leg.z == path[i - 1].z
    &&& leg.x0 == a || leg.x0 == b
    &&& leg.x1 == a || leg.x1 == b
    &&& !is_nan_bits(a) && !is_nan_bits(b) ==> at_most(leg.x0, leg.x1) && (leg.x0 == a && leg.x1
        == b || leg.x0 == b && leg.x1 == a)
}

proof fn lemma_legs(path: Seq<Position>, width: u32, n: nat)
    requires
        n <= path.len(),
    ensures
        forall|k: int|
            0 <= k < legs_of(path, width, n).len() ==> (#[trigger] legs_of(path, width, n)[k]).width
                == width && exists|i: int|
                0 < i < n && same_number(path[i - 1].z, path[i].z) && #[trigger] leg_along(
                    legs_of(path, width, n)[k],
                    path,
                    i,
                ),
        forall|i: int|
            0 < i < n && same_number(path[i - 1].z, (#[trigger] path[i]).z) && !is_nan_bits(path[i].x)
                && !is_nan_bits(path[i - 1].x) ==> exists|k: int|
                0 <= k < legs_of(path, width, n).len() && leg_along(
                    #[trigger] legs_of(path, width, n)[k],
                    path,
                    i,
                ),
    decreases n,
{
    if n > 1 {
        lemma_legs(path, width, (n - 1) as nat);
        let before = legs_of(path, width, (n - 1) as nat);
        let all = legs_of(path, width, n);
        assert forall|k: int| 0 <= k < all.len() implies (#[trigger] all[k]).width == width
            && exists|i: int|
            0 < i < n && same_number(path[i - 1].z, path[i].z) && #[trigger] leg_along(
                all[k],
                path,
                i,
            ) by {
            if k < before.len() {
                assert(all[k] == before[k]);
                let i = choose|i: int|
                    0 < i < n - 1 && same_number(path[i - 1].z, path[i].z) && #[trigger] leg_along(
                        before[k],
                        path,
                        i,
                    );
                assert(leg_along(all[k], path, i));
            } else {
                assert(leg_along(all[k], path, n - 1));
            }
        }
        assert forall|i: int|
            0 < i < n && same_number(path[i - 1].z, (#[trigger] path[i]).z) && !is_nan_bits(path[i].x)
                && !is_nan_bits(path[i - 1].x) implies exists|k: int|
            0 <= k < all.len() && leg_along(#[trigger] all[k], path, i) by {
            if i < n - 1 {
                let k = choose|k: int|
                    0 <= k < before.len() && leg_along(#[trigger] before[k], path, i);
                assert(leg_along(all[k], path, i));
            } else {
                assert(leg_along(all[all.len() - 1], path, i));
            }
        }
    }
}

/// The legs of a spine are its stretches along x, all of them and no others, with its
/// width.
pub proof fn law_legs_are_the_stretches_along_x(path: Seq<Position>, width: u32, k: int, i: int)
    ensures
        0 <= k < legs_of(path, width, path.len()).len() ==> legs_of(path, width, path.len())[k].width
            == width && exists|j: int|
            0 < j < path.len() && same_number(path[j - 1].z, path[j].z) && #[trigger] leg_along(
                legs_of(path, width, path.len())[k],
                path,
                j,
            ),
        0 < i < path.len() && same_number(path[i - 1].z, path[i].z) && !is_nan_bits(path[i].x)
            && !is_nan_bits(path[i - 1].x) ==> exists|j: int|
            0 <= j < legs_of(path, width, path.len()).len() && leg_along(
                #[trigger] legs_of(path, width, path.len())[j],
                path,
                i,
            ),
{
    lemma_legs(path, width, path.len());
}

/// Masses stand beside exactly the legs of fourteen units and more.
pub proof fn law_masses_take_long_legs(legs: Seq<SpineLeg>, lengths: Seq<u32>, leg: SpineLeg)
    requires
        lengths.len() == legs.len(),
    ensures
        long_legs_of(legs, lengths, legs.len()).contains(leg) <==> exists|i: int|
            0 <= i < legs.len() && #[trigger] legs[i] == leg && at_most(0x4160_0000, lengths[i]),
{
    lemma_long_legs(legs, lengths, legs.len(), leg);
}

proof fn lemma_long_legs(legs: Seq<SpineLeg>, lengths: Seq<u32>, n: nat, leg: SpineLeg)
    requires
        n <= legs.len(),
        lengths.len() == legs.len(),
    ensures
        long_legs_of(legs, lengths, n).contains(leg) <==> exists|i: int|
            0 <= i < n && #[trigger] legs[i] == leg && at_most(0x4160_0000, lengths[i]),
    decreases n,
{
    if n > 0 {
        lemma_long_legs(legs, lengths, (n - 1) as nat, leg);
        let before = long_legs_of(legs, lengths, (n - 1) as nat);
        let all = long_legs_of(legs, lengths, n);
        if at_most(0x4160_0000, lengths[n - 1]) {
            assert(all == before.push(legs[n - 1]));
            assert(all[before.len() as int] == legs[n - 1]);
            if before.contains(leg) {
                let i = before.index_of(leg);
                assert(all[i] == leg);
            }
            if all.contains(leg) && !before.contains(leg) {
                let i = all.index_of(leg);
                if i < before.len() {
                    assert(before[i] == leg);
                }
                assert(legs[n - 1] == leg);
            }
        }
    }
}

} // verus!
