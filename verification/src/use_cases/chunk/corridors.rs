//! Reserving cells for corridors outside the rooms.

use vstd::prelude::*;

use crate::domain::entities::blueprint::{Blueprint, PlanCell, PlanModel};
use crate::use_cases::chunk::metrics::MAX_SPAN;

verus! {

/// A compass direction on the plan; north is towards smaller z.
#[derive(Debug, Clone, Copy, PartialEq, Eq, Structural)]
pub enum Heading {
    North,
    South,
    West,
    East,
}

/// The plan while corridors are reserved, and how many cells they have.
#[verifier::ext_equal]
pub struct Reserved {
    pub plan: PlanModel,
    pub count: int,
}

pub open spec fn as_corridor(cell: PlanCell) -> PlanCell {
    PlanCell {
        north: cell.north,
        east: cell.east,
        south: cell.south,
        west: cell.west,
        zone: cell.zone,
        is_corridor: true,
        room: cell.room,
    }
}

pub open spec fn marked(r: Reserved, x: int, z: int) -> Reserved {
    Reserved { plan: r.plan.put(x, z, as_corridor(r.plan.at(x, z))), count: r.count + 1 }
}

pub open spec fn wall_towards(cell: PlanCell, h: Heading) -> bool {
    match h {
        Heading::North => cell.north,
        Heading::South => cell.south,
        Heading::West => cell.west,
        Heading::East => cell.east,
    }
}

pub open spec fn step_x(x: int, h: Heading) -> int {
    match h {
        Heading::West => x - 1,
        Heading::East => x + 1,
        _ => x,
    }
}

pub open spec fn step_z(z: int, h: Heading) -> int {
    match h {
        Heading::North => z - 1,
        Heading::South => z + 1,
        _ => z,
    }
}

/// Cells left before the edge of the plan.
pub open spec fn cells_ahead(plan: PlanModel, x: int, z: int, h: Heading) -> int {
    match h {
        Heading::North => z,
        Heading::South => plan.depth - 1 - z,
        Heading::West => x,
        Heading::East => plan.width - 1 - x,
    }
}

/// A corridor that runs on from a cell until a wall, a room, another corridor
/// or the edge of the plan stops it.
pub open spec fn extended(r: Reserved, x: int, z: int, h: Heading) -> Reserved
    decreases cells_ahead(r.plan, x, z, h),
{
    let nx = step_x(x, h);
    let nz = step_z(z, h);
    if cells_ahead(r.plan, x, z, h) <= 0 || wall_towards(r.plan.at(x, z), h) {
        r
    } else if r.plan.at(nx, nz).room is Some || r.plan.at(nx, nz).is_corridor {
        r
    } else {
        extended(marked(r, nx, nz), nx, nz, h)
    }
}

/// A corridor started at a cell and run on in all four directions.
pub open spec fn started(r: Reserved, x: int, z: int) -> Reserved {
    let r0 = marked(r, x, z);
    let r1 = extended(r0, x, z, Heading::North);
    let r2 = extended(r1, x, z, Heading::South);
    let r3 = extended(r2, x, z, Heading::West);
    extended(r3, x, z, Heading::East)
}

/// Corridors started at the first `n` of the given cells, until enough cells
/// are reserved.
pub open spec fn reserved(r: Reserved, order: Seq<usize>, target: int, n: nat) -> Reserved
    decreases n,
{
    if n == 0 {
        r
    } else {
        let before = reserved(r, order, target, (n - 1) as nat);
        let x = order[n - 1] as int % r.plan.width;
        let z = order[n - 1] as int / r.plan.width;
        if before.count >= target || before.plan.at(x, z).is_corridor {
            before
        } else {
            started(before, x, z)
        }
    }
}

/// What reserving keeps: the size of the plan, and of a cell everything but
/// whether it is a corridor, which it stays and becomes only outside rooms.
pub open spec fn kept(before: PlanModel, after: PlanModel, x: int, z: int) -> bool {
    let a = before.at(x, z);
    let b = after.at(x, z);
    &&& b.north == a.north
    &&& b.east == a.east
    &&& b.south == a.south
    &&& b.west == a.west
    &&& b.zone == a.zone
    &&& b.room == a.room
    &&& a.is_corridor ==> b.is_corridor
    &&& b.is_corridor && !a.is_corridor ==> b.room is None
}

pub open spec fn all_kept(before: PlanModel, after: PlanModel) -> bool {
    &&& after.width == before.width
    &&& after.depth == before.depth
    &&& forall|x: int, z: int| #[trigger] kept(before, after, x, z)
}

proof fn lemma_kept_trans(a: PlanModel, b: PlanModel, c: PlanModel)
    requires
        all_kept(a, b),
        all_kept(b, c),
    ensures
        all_kept(a, c),
{
    assert forall|x: int, z: int| #[trigger] kept(a, c, x, z) by {
        assert(kept(a, b, x, z));
        assert(kept(b, c, x, z));
    }
}

proof fn lemma_marked_kept(r: Reserved, x: int, z: int)
    requires
        r.plan.at(x, z).room is None,
    ensures
        all_kept(r.plan, marked(r, x, z).plan),
{
}

proof fn lemma_extended_kept(r: Reserved, x: int, z: int, h: Heading)
    requires
        r.plan.inside(x, z),
    ensures
        all_kept(r.plan, extended(r, x, z, h).plan),
        r.count <= extended(r, x, z, h).count <= r.count + cells_ahead(r.plan, x, z, h),
    decreases cells_ahead(r.plan, x, z, h),
{
    let nx = step_x(x, h);
    let nz = step_z(z, h);
    if cells_ahead(r.plan, x, z, h) <= 0 || wall_towards(r.plan.at(x, z), h) || r.plan.at(
        nx,
        nz,
    ).room is Some || r.plan.at(nx, nz).is_corridor {
    } else {
        let next = marked(r, nx, nz);
        lemma_marked_kept(r, nx, nz);
        lemma_extended_kept(next, nx, nz, h);
        lemma_kept_trans(r.plan, next.plan, extended(next, nx, nz, h).plan);
    }
}

proof fn lemma_started_kept(r: Reserved, x: int, z: int)
    requires
        r.plan.inside(x, z),
        r.plan.at(x, z).room is None,
    ensures
        all_kept(r.plan, started(r, x, z).plan),
        r.count < started(r, x, z).count < r.count + r.plan.width + r.plan.depth,
{
    let r0 = marked(r, x, z);
    let r1 = extended(r0, x, z, Heading::North);
    let r2 = extended(r1, x, z, Heading::South);
    let r3 = extended(r2, x, z, Heading::West);
    let r4 = extended(r3, x, z, Heading::East);
    lemma_marked_kept(r, x, z);
    lemma_extended_kept(r0, x, z, Heading::North);
    lemma_extended_kept(r1, x, z, Heading::South);
    lemma_extended_kept(r2, x, z, Heading::West);
    lemma_extended_kept(r3, x, z, Heading::East);
    lemma_kept_trans(r.plan, r0.plan, r1.plan);
    lemma_kept_trans(r.plan, r1.plan, r2.plan);
    lemma_kept_trans(r.plan, r2.plan, r3.plan);
    lemma_kept_trans(r.plan, r3.plan, r4.plan);
}

/// The cells that may become corridors: inside the plan and outside every room.
pub open spec fn order_free(plan: PlanModel, order: Seq<usize>) -> bool {
    forall|i: int|
        0 <= i < order.len() ==> {
            let x = (#[trigger] order[i]) as int % plan.width;
            let z = order[i] as int / plan.width;
            plan.inside(x, z) && plan.at(x, z).room is None
        }
}

/// Reserving corridors changes nothing but corridor marks, and marks no cell of
/// a room.
pub proof fn law_corridors_avoid_rooms(r: Reserved, order: Seq<usize>, target: int, n: nat)
    requires
        n <= order.len(),
        r.plan.width > 0,
        order_free(r.plan, order),
    ensures
        all_kept(r.plan, reserved(r, order, target, n).plan),
    decreases n,
{
    if n > 0 {
        law_corridors_avoid_rooms(r, order, target, (n - 1) as nat);
        let before = reserved(r, order, target, (n - 1) as nat);
        let x = order[n - 1] as int % r.plan.width;
        let z = order[n - 1] as int / r.plan.width;
        if before.count >= target || before.plan.at(x, z).is_corridor {
        } else {
            assert(kept(r.plan, before.plan, x, z));
            lemma_started_kept(before, x, z);
            lemma_kept_trans(r.plan, before.plan, started(before, x, z).plan);
        }
    }
}

fn mark(plan: &mut Blueprint, x: usize, z: usize)
    requires
        old(plan).wf(),
        old(plan)@.inside(x as int, z as int),
    ensures
        final(plan).wf(),
        final(plan)@ == old(plan)@.put(
            x as int,
            z as int,
            as_corridor(old(plan)@.at(x as int, z as int)),
        ),
{
    let mut cell = plan.get(x, z);
    cell.is_corridor = true;
    plan.set(x, z, cell);
}

/// Runs a corridor on from a cell; returns how many cells it took.
fn extend(plan: &mut Blueprint, x: usize, z: usize, h: Heading) -> (taken: usize)
    requires
        old(plan).wf(),
        old(plan)@.inside(x as int, z as int),
    ensures
        final(plan).wf(),
        ({
            let start = Reserved { plan: old(plan)@, count: 0 };
            let end = extended(start, x as int, z as int, h);
            final(plan)@ == end.plan && taken == end.count
        }),
{
    let ghost start = Reserved { plan: plan@, count: 0 };
    let ghost end = extended(start, x as int, z as int, h);
    proof {
        plan.lemma_model();
        lemma_extended_kept(start, x as int, z as int, h);
    }
    let mut cx: usize = x;
    let mut cz: usize = z;
    let mut taken: usize = 0;
    loop
        invariant_except_break
            plan.wf(),
            plan@.inside(cx as int, cz as int),
            extended(Reserved { plan: plan@, count: taken as int }, cx as int, cz as int, h) == end,
            end.count <= usize::MAX,
        ensures
            plan.wf(),
            plan@ == end.plan,
            taken == end.count,
        decreases cells_ahead(plan@, cx as int, cz as int, h),
    {
        let ghost now = Reserved { plan: plan@, count: taken as int };
        proof {
            lemma_extended_kept(now, cx as int, cz as int, h);
        }
        let cell = plan.get(cx, cz);
        let blocked: bool = match h {
            Heading::North => cz == 0 || cell.north,
            Heading::South => cz == plan.depth() - 1 || cell.south,
            Heading::West => cx == 0 || cell.west,
            Heading::East => cx == plan.width() - 1 || cell.east,
        };
        if blocked {
            break;
        }
        let (nx, nz): (usize, usize) = match h {
            Heading::North => (cx, cz - 1),
            Heading::South => (cx, cz + 1),
            Heading::West => (cx - 1, cz),
            Heading::East => (cx + 1, cz),
        };
        let next = plan.get(nx, nz);
        if next.room.is_some() || next.is_corridor {
            break;
        }
        mark(plan, nx, nz);
        proof {
            lemma_extended_kept(marked(now, nx as int, nz as int), nx as int, nz as int, h);
        }
        taken = taken + 1;
        cx = nx;
        cz = nz;
    }
    taken
}

proof fn lemma_extended_shift(plan: PlanModel, a: int, b: int, x: int, z: int, h: Heading)
    ensures
        extended(Reserved { plan, count: a }, x, z, h).plan == extended(
            Reserved { plan, count: b },
            x,
            z,
            h,
        ).plan,
        extended(Reserved { plan, count: a }, x, z, h).count - a == extended(
            Reserved { plan, count: b },
            x,
            z,
            h,
        ).count - b,
    decreases cells_ahead(plan, x, z, h),
{
    let nx = step_x(x, h);
    let nz = step_z(z, h);
    if cells_ahead(plan, x, z, h) <= 0 || wall_towards(plan.at(x, z), h) || plan.at(
        nx,
        nz,
    ).room is Some || plan.at(nx, nz).is_corridor {
    } else {
        let next = plan.put(nx, nz, as_corridor(plan.at(nx, nz)));
        lemma_extended_shift(next, a + 1, b + 1, nx, nz, h);
    }
}

/// Starts corridors at the given cells, in order, until `target` cells are
/// reserved. Returns how many were.
pub fn reserve_corridors(plan: &mut Blueprint, order: &Vec<usize>, target: usize) -> (count: usize)
    requires
        old(plan).wf(),
        old(plan)@.width > 0,
        old(plan)@.width <= MAX_SPAN,
        old(plan)@.depth <= MAX_SPAN,
        target <= usize::MAX - 2 * MAX_SPAN,
        order_free(old(plan)@, order@),
    ensures
        final(plan).wf(),
        ({
            let start = Reserved { plan: old(plan)@, count: 0 };
            let end = reserved(start, order@, target as int, order@.len());
            final(plan)@ == end.plan && count == end.count
        }),
{
    let ghost start = Reserved { plan: plan@, count: 0 };
    let mut count: usize = 0;
    let mut i: usize = 0;
    while i < order.len()
        invariant
            i <= order@.len(),
            plan.wf(),
            0 < start.plan.width <= MAX_SPAN,
            start.plan.depth <= MAX_SPAN,
            target <= usize::MAX - 2 * MAX_SPAN,
            order_free(start.plan, order@),
            all_kept(start.plan, plan@),
            reserved(start, order@, target as int, i as nat) == (Reserved {
                plan: plan@,
                count: count as int,
            }),
        decreases order@.len() - i,
    {
        let w: usize = plan.width();
        let x: usize = order[i] % w;
        let z: usize = order[i] / w;
        let ghost r = Reserved { plan: plan@, count: count as int };
        proof {
            law_corridors_avoid_rooms(start, order@, target as int, i as nat);
            law_corridors_avoid_rooms(start, order@, target as int, (i + 1) as nat);
            assert(order[i as int] == order@[i as int]);
            assert(start.plan.inside(x as int, z as int));
            assert(kept(start.plan, plan@, x as int, z as int));
        }
        if count < target && !plan.get(x, z).is_corridor {
            proof {
                lemma_started_kept(r, x as int, z as int);
            }
            let ghost (gx, gz) = (x as int, z as int);
            let ghost r0 = marked(r, gx, gz);
            let ghost r1 = extended(r0, gx, gz, Heading::North);
            let ghost r2 = extended(r1, gx, gz, Heading::South);
            let ghost r3 = extended(r2, gx, gz, Heading::West);
            let ghost r4 = extended(r3, gx, gz, Heading::East);
            proof {
                lemma_extended_kept(r0, gx, gz, Heading::North);
                lemma_extended_kept(r1, gx, gz, Heading::South);
                lemma_extended_kept(r2, gx, gz, Heading::West);
                lemma_extended_kept(r3, gx, gz, Heading::East);
                lemma_extended_shift(r0.plan, r0.count, 0, gx, gz, Heading::North);
                lemma_extended_shift(r1.plan, r1.count, 0, gx, gz, Heading::South);
                lemma_extended_shift(r2.plan, r2.count, 0, gx, gz, Heading::West);
                lemma_extended_shift(r3.plan, r3.count, 0, gx, gz, Heading::East);
            }
            mark(plan, x, z);
            count = count + 1;
            let north: usize = extend(plan, x, z, Heading::North);
            count = count + north;
            assert(plan@ == r1.plan && count == r1.count);
            let south: usize = extend(plan, x, z, Heading::South);
            count = count + south;
            assert(plan@ == r2.plan && count == r2.count);
            let west: usize = extend(plan, x, z, Heading::West);
            count = count + west;
            assert(plan@ == r3.plan && count == r3.count);
            let east: usize = extend(plan, x, z, Heading::East);
            count = count + east;
            assert(plan@ == r4.plan && count == r4.count);
        }
        i = i + 1;
    }
    count
}

/// The cells outside every room, row by row.
pub open spec fn free_cells(plan: PlanModel, n: nat) -> Seq<usize>
    decreases n,
{
    if n == 0 {
        Seq::empty()
    } else {
        let before = free_cells(plan, (n - 1) as nat);
        let i = n - 1;
        if plan.at(i % plan.width, i / plan.width).room is None {
            before.push(i as usize)
        } else {
            before
        }
    }
}

/// Lists the cells outside every room, row by row.
pub fn list_free_cells(plan: &Blueprint) -> (list: Vec<usize>)
    requires
        plan.wf(),
        plan@.width > 0,
    ensures
        list@ == free_cells(plan@, (plan@.width * plan@.depth) as nat),
        order_free(plan@, list@),
{
    let mut list: Vec<usize> = Vec::new();
    let w: usize = plan.width();
    let d: usize = plan.depth();
    proof {
        plan.lemma_model();
    }
    let count: usize = w * d;
    let mut i: usize = 0;
    while i < count
        invariant
            i <= count,
            count == w * d,
            plan.wf(),
            w > 0,
            plan@.width == w,
            plan@.depth == d,
            list@ == free_cells(plan@, i as nat),
            order_free(plan@, list@),
        decreases count - i,
    {
        let x: usize = i % w;
        let z: usize = i / w;
        assert(z < d) by (nonlinear_arith)
            requires
                i < w * d,
                z == i / w,
                w > 0,
        ;
        if plan.get(x, z).room.is_none() {
            list.push(i);
        }
        i = i + 1;
    }
    list
}

/// The cell that lies `k` steps from another.
pub open spec fn stepped(x: int, z: int, h: Heading, k: int) -> (int, int) {
    match h {
        Heading::North => (x, z - k),
        Heading::South => (x, z + k),
        Heading::West => (x - k, z),
        Heading::East => (x + k, z),
    }
}

/// Something stops a corridor at the cell `k` steps away: the edge of the plan, a wall
/// of the cell, or beyond it a room or a corridor.
pub open spec fn stopped_at(plan: PlanModel, x: int, z: int, h: Heading, k: int) -> bool {
    let here = stepped(x, z, h, k);
    let next = stepped(x, z, h, k + 1);
    let wall = match h {
        Heading::North => plan.at(here.0, here.1).north,
        Heading::South => plan.at(here.0, here.1).south,
        Heading::West => plan.at(here.0, here.1).west,
        Heading::East => plan.at(here.0, here.1).east,
    };
    ||| !plan.inside(next.0, next.1)
    ||| wall
    ||| plan.at(next.0, next.1).room is Some
    ||| plan.at(next.0, next.1).is_corridor
}

/// A corridor runs straight on from a cell and stops at the first thing in its way: the
/// cells up to there become corridors, nothing else changes, and as many cells are
/// counted.
pub proof fn law_corridors_run_until_stopped(r: Reserved, x: int, z: int, h: Heading) -> (run: int)
    requires
        r.plan.inside(x, z),
    ensures
        run >= 0,
        extended(r, x, z, h).count == r.count + run,
        stopped_at(r.plan, x, z, h, run),
        forall|k: int| 0 <= k < run ==> !#[trigger] stopped_at(r.plan, x, z, h, k),
        forall|i: int, j: int| #[trigger]
            extended(r, x, z, h).plan.at(i, j) == (if exists|k: int|
                1 <= k <= run && #[trigger] stepped(x, z, h, k) == (i, j) {
                as_corridor(r.plan.at(i, j))
            } else {
                r.plan.at(i, j)
            }),
    decreases cells_ahead(r.plan, x, z, h),
{
    let nx = step_x(x, h);
    let nz = step_z(z, h);
    let end = extended(r, x, z, h);
    assert(stepped(x, z, h, 0) == (x, z) && stepped(x, z, h, 1) == (nx, nz));
    if cells_ahead(r.plan, x, z, h) <= 0 || wall_towards(r.plan.at(x, z), h) || r.plan.at(
        nx,
        nz,
    ).room is Some || r.plan.at(nx, nz).is_corridor {
        assert(stopped_at(r.plan, x, z, h, 0));
        0
    } else {
        let next = marked(r, nx, nz);
        let rest = law_corridors_run_until_stopped(next, nx, nz, h);
        let run = rest + 1;
        assert forall|k: int| 0 <= k implies #[trigger] stepped(nx, nz, h, k) == stepped(
            x,
            z,
            h,
            k + 1,
        ) by {}
        assert forall|k: int| 0 <= k implies #[trigger] stopped_at(next.plan, nx, nz, h, k)
            == stopped_at(r.plan, x, z, h, k + 1) by {
            assert(stepped(nx, nz, h, k) == stepped(x, z, h, k + 1));
            assert(stepped(nx, nz, h, k + 1) == stepped(x, z, h, k + 2));
        }
        assert(stopped_at(next.plan, nx, nz, h, rest));
        assert(!stopped_at(r.plan, x, z, h, 0));
        assert forall|k: int| 0 <= k < run implies !#[trigger] stopped_at(r.plan, x, z, h, k) by {
            if k > 0 {
                assert(!stopped_at(next.plan, nx, nz, h, k - 1));
            }
        }
        assert forall|i: int, j: int| #[trigger]
            end.plan.at(i, j) == (if exists|k: int|
                1 <= k <= run && #[trigger] stepped(x, z, h, k) == (i, j) {
                as_corridor(r.plan.at(i, j))
            } else {
                r.plan.at(i, j)
            }) by {
            if exists|k: int| 1 <= k <= run && #[trigger] stepped(x, z, h, k) == (i, j) {
                let k = choose|k: int| 1 <= k <= run && #[trigger] stepped(x, z, h, k) == (i, j);
                if k > 1 {
                    assert(stepped(nx, nz, h, k - 1) == (i, j));
                }
            } else if exists|k: int| 1 <= k <= rest && #[trigger] stepped(nx, nz, h, k) == (i, j) {
                let k = choose|k: int| 1 <= k <= rest && #[trigger] stepped(nx, nz, h, k) == (i, j);
                assert(stepped(x, z, h, k + 1) == (i, j));
            }
            assert(stepped(x, z, h, 1) == (nx, nz));
        }
        run
    }
}

/// Reserving goes on until there are enough corridor cells: after the first `n` cells
/// of the order there are enough, or every one of those cells is a corridor.
pub proof fn law_reserving_goes_on_until_enough(
    r: Reserved,
    order: Seq<usize>,
    target: int,
    n: nat,
    i: int,
)
    requires
        0 <= i < n <= order.len(),
        r.plan.width > 0,
        order_free(r.plan, order),
    ensures
        ({
            let after = reserved(r, order, target, n);
            let x = order[i] as int % r.plan.width;
            let z = order[i] as int / r.plan.width;
            after.count >= target || after.plan.at(x, z).is_corridor
        }),
    decreases n,
{
    let before = reserved(r, order, target, (n - 1) as nat);
    law_corridors_avoid_rooms(r, order, target, (n - 1) as nat);
    let x = order[n - 1] as int % r.plan.width;
    let z = order[n - 1] as int / r.plan.width;
    let a = order[i] as int % r.plan.width;
    let b = order[i] as int / r.plan.width;
    assert(kept(r.plan, before.plan, x, z));
    if i < n - 1 {
        law_reserving_goes_on_until_enough(r, order, target, (n - 1) as nat, i);
    }
    if before.count < target && !before.plan.at(x, z).is_corridor {
        let after = started(before, x, z);
        lemma_started_kept(before, x, z);
        assert(kept(before.plan, after.plan, a, b));
        let r0 = marked(before, x, z);
        let r1 = extended(r0, x, z, Heading::North);
        let r2 = extended(r1, x, z, Heading::South);
        let r3 = extended(r2, x, z, Heading::West);
        lemma_extended_kept(r0, x, z, Heading::North);
        lemma_extended_kept(r1, x, z, Heading::South);
        lemma_extended_kept(r2, x, z, Heading::West);
        lemma_extended_kept(r3, x, z, Heading::East);
        assert(kept(r0.plan, r1.plan, x, z));
        assert(kept(r1.plan, r2.plan, x, z));
        assert(kept(r2.plan, r3.plan, x, z));
        assert(kept(r3.plan, after.plan, x, z));
    }
}

} // verus!
