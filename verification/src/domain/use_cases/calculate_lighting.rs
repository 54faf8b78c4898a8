//! Flood-fill lighting over the dense grid.
//!
//! Light starts at every emissive voxel with level 15 and spreads through air
//! one face at a time. A step loses one level, except straight down, where it
//! loses none. Solid voxels light up but stop the light.

use std::collections::VecDeque;
use vstd::prelude::*;

use crate::domain::entities::voxel_grid::{
    GridModel, Voxel, VoxelGrid, VOXEL_AIR, VOXEL_LIGHT, VOXEL_RED_LIGHT,
};

verus! {

/// Level given to every emissive voxel.
pub const MAX_LIGHT: u8 = 15;

/// One pending voxel of the flood and the tint it carries.
pub struct Beam {
    pub x: int,
    pub y: int,
    pub z: int,
    pub red: bool,
}

/// A grid in the middle of the flood, with the voxels still to spread from.
#[verifier::ext_equal]
pub struct Flood {
    pub grid: GridModel,
    pub queue: Seq<Beam>,
}

pub open spec fn emits(material: u8) -> bool {
    material == VOXEL_LIGHT || material == VOXEL_RED_LIGHT
}

/// Bit 6 of a face mask records whether the light there is red.
pub open spec fn tinted(mask: u8, red: bool) -> u8 {
    if red {
        mask | 0b0100_0000u8
    } else {
        mask & 0b1011_1111u8
    }
}

pub open spec fn white(level: u8) -> (u8, u8, u8) {
    (level, level, level)
}

/// An emissive voxel at full level; any other voxel unchanged.
pub open spec fn ignited(v: Voxel) -> Voxel {
    if emits(v.material) {
        Voxel {
            material: v.material,
            level: MAX_LIGHT,
            rgb: white(MAX_LIGHT),
            occlusion: if v.material == VOXEL_RED_LIGHT {
                tinted(v.occlusion, true)
            } else {
                v.occlusion
            },
        }
    } else {
        v
    }
}

/// The grid with every emissive voxel at full level.
pub open spec fn lit_sources(g: GridModel) -> GridModel {
    GridModel {
        width: g.width,
        height: g.height,
        depth: g.depth,
        cells: |x: int, y: int, z: int|
            if g.inside(x, y, z) {
                ignited(g.at(x, y, z))
            } else {
                g.at(x, y, z)
            },
    }
}

/// The emissive voxels among the first `n` of the row at `y`, `z`.
pub open spec fn row_sources(g: GridModel, n: nat, y: int, z: int) -> Seq<Beam>
    decreases n,
{
    if n == 0 {
        Seq::empty()
    } else {
        let before = row_sources(g, (n - 1) as nat, y, z);
        let m = g.material(n - 1, y, z);
        if emits(m) {
            before.push(Beam { x: n - 1, y, z, red: m == VOXEL_RED_LIGHT })
        } else {
            before
        }
    }
}

/// The emissive voxels of the first `n` rows of the slice at `z`.
pub open spec fn slice_sources(g: GridModel, n: nat, z: int) -> Seq<Beam>
    decreases n,
{
    if n == 0 {
        Seq::empty()
    } else {
        slice_sources(g, (n - 1) as nat, z) + row_sources(g, g.width as nat, n - 1, z)
    }
}

/// The emissive voxels of the first `n` slices, in scan order.
pub open spec fn sources(g: GridModel, n: nat) -> Seq<Beam>
    decreases n,
{
    if n == 0 {
        Seq::empty()
    } else {
        sources(g, (n - 1) as nat) + slice_sources(g, g.height as nat, n - 1)
    }
}

/// Level that arrives one face away from a voxel of level `level`.
pub open spec fn arriving(level: u8, y: int, ny: int) -> int {
    if ny < y {
        level as int
    } else {
        level - 1
    }
}

/// Offers a neighbour the light of `b`, whose level is `level`.
pub open spec fn relax(f: Flood, b: Beam, level: u8, nx: int, ny: int, nz: int) -> Flood {
    let next = arriving(level, b.y, ny);
    if f.grid.inside(nx, ny, nz) && next > 0 && f.grid.level(nx, ny, nz) < next {
        Flood {
            grid: f.grid.put_light(nx, ny, nz, white(next as u8)).put_occlusion(
                nx,
                ny,
                nz,
                tinted(f.grid.at(nx, ny, nz).occlusion, b.red),
            ),
            queue: if f.grid.material(nx, ny, nz) == VOXEL_AIR {
                f.queue.push(Beam { x: nx, y: ny, z: nz, red: b.red })
            } else {
                f.queue
            },
        }
    } else {
        f
    }
}

/// Offers all six face neighbours the light of `b`.
pub open spec fn relax_all(f: Flood, b: Beam, level: u8) -> Flood {
    let f1 = relax(f, b, level, b.x + 1, b.y, b.z);
    let f2 = relax(f1, b, level, b.x - 1, b.y, b.z);
    let f3 = relax(f2, b, level, b.x, b.y + 1, b.z);
    let f4 = relax(f3, b, level, b.x, b.y - 1, b.z);
    let f5 = relax(f4, b, level, b.x, b.y, b.z + 1);
    relax(f5, b, level, b.x, b.y, b.z - 1)
}

/// Takes the oldest pending voxel and spreads its light.
pub open spec fn spread(f: Flood) -> Flood {
    let b = f.queue[0];
    let rest = Flood { grid: f.grid, queue: f.queue.drop_first() };
    let level = f.grid.level(b.x, b.y, b.z);
    if level <= 1 {
        rest
    } else {
        relax_all(rest, b, level)
    }
}

/// How much brighter the first `n` voxels of a row can still get.
pub open spec fn row_room(g: GridModel, n: nat, y: int, z: int) -> nat
    decreases n,
{
    if n == 0 {
        0
    } else {
        row_room(g, (n - 1) as nat, y, z) + (255 - g.level(n - 1, y, z)) as nat
    }
}

pub open spec fn slice_room(g: GridModel, n: nat, z: int) -> nat
    decreases n,
{
    if n == 0 {
        0
    } else {
        slice_room(g, (n - 1) as nat, z) + row_room(g, g.width as nat, n - 1, z)
    }
}

pub open spec fn room(g: GridModel, n: nat) -> nat
    decreases n,
{
    if n == 0 {
        0
    } else {
        room(g, (n - 1) as nat) + slice_room(g, g.height as nat, n - 1)
    }
}

/// How much brighter the whole grid can still get; every raised voxel lowers it.
pub open spec fn total_room(g: GridModel) -> nat {
    room(g, g.depth as nat)
}

/// Spreads until nothing is pending.
pub open spec fn settled(f: Flood) -> GridModel
    decreases total_room(f.grid), f.queue.len(),
{
    if f.queue.len() == 0 {
        f.grid
    } else {
        proof {
            lemma_spread_progress(f);
        }
        settled(spread(f))
    }
}

/// The grid after lighting: sources ignited, then the flood settled.
pub open spec fn flooded(g: GridModel) -> GridModel {
    settled(Flood { grid: lit_sources(g), queue: sources(g, g.depth as nat) })
}

/// `after` differs from `before` in at most one voxel, which did not get darker.
spec fn raised_at(before: GridModel, after: GridModel, x: int, y: int, z: int) -> bool {
    &&& before.same_extents(after)
    &&& before.inside(x, y, z)
    &&& before.level(x, y, z) <= after.level(x, y, z)
    &&& forall|i: int, j: int, k: int|
        !(i == x && j == y && k == z) ==> #[trigger] after.level(i, j, k) == before.level(i, j, k)
}

spec fn gain(before: GridModel, after: GridModel, x: int, y: int, z: int) -> int {
    after.level(x, y, z) - before.level(x, y, z)
}

proof fn lemma_row_room(
    before: GridModel,
    after: GridModel,
    x: int,
    y: int,
    z: int,
    n: nat,
    j: int,
    k: int,
)
    requires
        raised_at(before, after, x, y, z),
    ensures
        row_room(before, n, j, k) == row_room(after, n, j, k) + if j == y && k == z && x < n {
            gain(before, after, x, y, z)
        } else {
            0
        },
    decreases n,
{
    if n > 0 {
        lemma_row_room(before, after, x, y, z, (n - 1) as nat, j, k);
    }
}

proof fn lemma_slice_room(
    before: GridModel,
    after: GridModel,
    x: int,
    y: int,
    z: int,
    n: nat,
    k: int,
)
    requires
        raised_at(before, after, x, y, z),
    ensures
        slice_room(before, n, k) == slice_room(after, n, k) + if k == z && y < n {
            gain(before, after, x, y, z)
        } else {
            0
        },
    decreases n,
{
    if n > 0 {
        lemma_slice_room(before, after, x, y, z, (n - 1) as nat, k);
        lemma_row_room(before, after, x, y, z, before.width as nat, n - 1, k);
    }
}

proof fn lemma_room(before: GridModel, after: GridModel, x: int, y: int, z: int, n: nat)
    requires
        raised_at(before, after, x, y, z),
    ensures
        room(before, n) == room(after, n) + if z < n {
            gain(before, after, x, y, z)
        } else {
            0
        },
    decreases n,
{
    if n > 0 {
        lemma_room(before, after, x, y, z, (n - 1) as nat);
        lemma_slice_room(before, after, x, y, z, before.height as nat, n - 1);
    }
}

/// `after` may follow `before`: it is the same flood or has less room left.
spec fn advanced(before: Flood, after: Flood) -> bool {
    ||| after == before
    ||| total_room(after.grid) < total_room(before.grid)
}

proof fn lemma_relax_progress(f: Flood, b: Beam, level: u8, nx: int, ny: int, nz: int)
    ensures
        advanced(f, relax(f, b, level, nx, ny, nz)),
{
    let g = relax(f, b, level, nx, ny, nz);
    if g != f {
        lemma_room(f.grid, g.grid, nx, ny, nz, f.grid.depth as nat);
    }
}

/// Every step of the flood either raises a voxel or shortens the queue.
pub proof fn lemma_spread_progress(f: Flood)
    requires
        f.queue.len() > 0,
    ensures
        total_room(spread(f).grid) < total_room(f.grid) || (total_room(spread(f).grid)
            == total_room(f.grid) && spread(f).queue.len() < f.queue.len()),
{
    let b = f.queue[0];
    let rest = Flood { grid: f.grid, queue: f.queue.drop_first() };
    let level = f.grid.level(b.x, b.y, b.z);
    let f1 = relax(rest, b, level, b.x + 1, b.y, b.z);
    let f2 = relax(f1, b, level, b.x - 1, b.y, b.z);
    let f3 = relax(f2, b, level, b.x, b.y + 1, b.z);
    let f4 = relax(f3, b, level, b.x, b.y - 1, b.z);
    let f5 = relax(f4, b, level, b.x, b.y, b.z + 1);
    lemma_relax_progress(rest, b, level, b.x + 1, b.y, b.z);
    lemma_relax_progress(f1, b, level, b.x - 1, b.y, b.z);
    lemma_relax_progress(f2, b, level, b.x, b.y + 1, b.z);
    lemma_relax_progress(f3, b, level, b.x, b.y - 1, b.z);
    lemma_relax_progress(f4, b, level, b.x, b.y, b.z + 1);
    lemma_relax_progress(f5, b, level, b.x, b.y, b.z - 1);
}

spec fn beam_of(t: (usize, usize, usize, bool)) -> Beam {
    Beam { x: t.0 as int, y: t.1 as int, z: t.2 as int, red: t.3 }
}

spec fn beams_of(q: Seq<(usize, usize, usize, bool)>) -> Seq<Beam> {
    q.map_values(|t: (usize, usize, usize, bool)| beam_of(t))
}

spec fn flood_of(grid: &VoxelGrid, q: Seq<(usize, usize, usize, bool)>) -> Flood {
    Flood { grid: grid@, queue: beams_of(q) }
}

proof fn lemma_beams_push(q: Seq<(usize, usize, usize, bool)>, t: (usize, usize, usize, bool))
    ensures
        beams_of(q.push(t)) == beams_of(q).push(beam_of(t)),
{
    assert(beams_of(q.push(t)) =~= beams_of(q).push(beam_of(t)));
}

fn offer(
    grid: &mut VoxelGrid,
    queue: &mut VecDeque<(usize, usize, usize, bool)>,
    from: (usize, usize, usize, bool),
    level: u8,
    nx: usize,
    ny: usize,
    nz: usize,
)
    requires
        old(grid).wf(),
        level > 1,
    ensures
        final(grid).wf(),
        flood_of(final(grid), final(queue)@) == relax(
            flood_of(old(grid), old(queue)@),
            beam_of(from),
            level,
            nx as int,
            ny as int,
            nz as int,
        ),
{
    if nx < grid.width() && ny < grid.height() && nz < grid.depth() {
        let next: u8 = if ny < from.1 {
            level
        } else {
            level - 1
        };
        let material: u8 = grid.get(nx, ny, nz);
        let light: u8 = grid.get_light(nx, ny, nz);
        if light < next {
            grid.set_light(nx, ny, nz, next);
            let mask: u8 = grid.get_face_occlusion(nx, ny, nz);
            let mask: u8 = if from.3 {
                mask | 0b0100_0000u8
            } else {
                mask & 0b1011_1111u8
            };
            grid.set_face_occlusion(nx, ny, nz, mask);
            if material == VOXEL_AIR {
                proof {
                    lemma_beams_push(queue@, (nx, ny, nz, from.3));
                }
                queue.push_back((nx, ny, nz, from.3));
            }
        }
    }
}

fn offer_all(
    grid: &mut VoxelGrid,
    queue: &mut VecDeque<(usize, usize, usize, bool)>,
    from: (usize, usize, usize, bool),
    level: u8,
)
    requires
        old(grid).wf(),
        level > 1,
        level == old(grid)@.level(from.0 as int, from.1 as int, from.2 as int),
    ensures
        final(grid).wf(),
        flood_of(final(grid), final(queue)@) == relax_all(
            flood_of(old(grid), old(queue)@),
            beam_of(from),
            level,
        ),
{
    let cx: usize = from.0;
    let cy: usize = from.1;
    let cz: usize = from.2;
    let ghost b = beam_of(from);
    let ghost f0 = flood_of(grid, queue@);
    proof {
        grid.lemma_model();
    }
    offer(grid, queue, from, level, cx + 1, cy, cz);
    let ghost f1 = flood_of(grid, queue@);
    if cx > 0 {
        offer(grid, queue, from, level, cx - 1, cy, cz);
    }
    let ghost f2 = flood_of(grid, queue@);
    assert(f2 == relax(f1, b, level, b.x - 1, b.y, b.z));
    offer(grid, queue, from, level, cx, cy + 1, cz);
    let ghost f3 = flood_of(grid, queue@);
    if cy > 0 {
        offer(grid, queue, from, level, cx, cy - 1, cz);
    }
    let ghost f4 = flood_of(grid, queue@);
    assert(f4 == relax(f3, b, level, b.x, b.y - 1, b.z));
    offer(grid, queue, from, level, cx, cy, cz + 1);
    let ghost f5 = flood_of(grid, queue@);
    if cz > 0 {
        offer(grid, queue, from, level, cx, cy, cz - 1);
    }
    assert(flood_of(grid, queue@) == relax(f5, b, level, b.x, b.y, b.z - 1));
}

/// Calculates 3D voxel lighting across the dense grid with a breadth-first
/// flood fill from every emissive voxel.
pub fn calculate_voxel_lighting(grid: &mut VoxelGrid)
    requires
        old(grid).wf(),
    ensures
        final(grid).wf(),
        final(grid)@ == flooded(old(grid)@),
{
    let mut queue: VecDeque<(usize, usize, usize, bool)> = VecDeque::new();
    let ghost start = grid@;
    proof {
        grid.lemma_model();
    }
    ignite_sources(grid, &mut queue);
    proof {
        assert(flood_of(grid, queue@) == (Flood {
            grid: lit_sources(start),
            queue: sources(start, start.depth as nat),
        }));
    }
    while queue.len() > 0
        invariant
            grid.wf(),
            settled(flood_of(grid, queue@)) == flooded(start),
        decreases total_room(grid@), queue@.len(),
    {
        let ghost before = flood_of(grid, queue@);
        proof {
            lemma_spread_progress(before);
        }
        let Some(from) = queue.pop_front() else {
            return;
        };
        let level: u8 = grid.get_light(from.0, from.1, from.2);
        assert(beams_of(queue@) =~= before.queue.drop_first());
        assert(before.queue[0] == beam_of(from));
        if level > 1 {
            offer_all(grid, &mut queue, from, level);
        }
        assert(flood_of(grid, queue@) == spread(before));
    }
}

/// Whether a coordinate comes before `x`, `y`, `z` in scan order.
spec fn scanned(i: int, j: int, k: int, x: int, y: int, z: int) -> bool {
    k < z || (k == z && (j < y || (j == y && i < x)))
}

/// The grid with the emissive voxels that come before `x`, `y`, `z` ignited.
spec fn lit_before(g: GridModel, x: int, y: int, z: int) -> GridModel {
    GridModel {
        width: g.width,
        height: g.height,
        depth: g.depth,
        cells: |i: int, j: int, k: int|
            if g.inside(i, j, k) && scanned(i, j, k, x, y, z) {
                ignited(g.at(i, j, k))
            } else {
                g.at(i, j, k)
            },
    }
}

proof fn lemma_next_row(g: GridModel, y: int, z: int)
    ensures
        lit_before(g, g.width, y, z) == lit_before(g, 0, y + 1, z),
{
    assert(lit_before(g, g.width, y, z).cells =~= lit_before(g, 0, y + 1, z).cells);
}

proof fn lemma_next_slice(g: GridModel, z: int)
    ensures
        lit_before(g, 0, g.height, z) == lit_before(g, 0, 0, z + 1),
{
    assert(lit_before(g, 0, g.height, z).cells =~= lit_before(g, 0, 0, z + 1).cells);
}

fn ignite_sources(grid: &mut VoxelGrid, queue: &mut VecDeque<(usize, usize, usize, bool)>)
    requires
        old(grid).wf(),
        old(queue)@.len() == 0,
    ensures
        final(grid).wf(),
        final(grid)@ == lit_sources(old(grid)@),
        beams_of(final(queue)@) == sources(old(grid)@, old(grid)@.depth as nat),
{
    let w: usize = grid.width();
    let h: usize = grid.height();
    let d: usize = grid.depth();
    let ghost start = grid@;
    let mut z: usize = 0;
    assert(grid@.cells =~= lit_before(start, 0, 0, 0).cells);
    assert(beams_of(queue@) =~= sources(start, 0));
    while z < d
        invariant
            z <= d,
            start.width == w,
            start.height == h,
            start.depth == d,
            grid.wf(),
            grid@ == lit_before(start, 0, 0, z as int),
            beams_of(queue@) == sources(start, z as nat),
        decreases d - z,
    {
        let ghost done = sources(start, z as nat);
        let mut y: usize = 0;
        assert(beams_of(queue@) =~= done + slice_sources(start, 0, z as int));
        while y < h
            invariant
                z < d,
                y <= h,
                start.width == w,
                start.height == h,
                start.depth == d,
                grid.wf(),
                grid@ == lit_before(start, 0, y as int, z as int),
                done == sources(start, z as nat),
                beams_of(queue@) == done + slice_sources(start, y as nat, z as int),
            decreases h - y,
        {
            let ghost rows = slice_sources(start, y as nat, z as int);
            let mut x: usize = 0;
            assert(beams_of(queue@) =~= done + (rows + row_sources(start, 0, y as int, z as int)));
            while x < w
                invariant
                    z < d,
                    y < h,
                    x <= w,
                    start.width == w,
                    start.height == h,
                    start.depth == d,
                    grid.wf(),
                    grid@ == lit_before(start, x as int, y as int, z as int),
                    beams_of(queue@) == done + (rows + row_sources(
                        start,
                        x as nat,
                        y as int,
                        z as int,
                    )),
                decreases w - x,
            {
                let ghost before = queue@;
                let v: u8 = grid.get(x, y, z);
                assert(v == start.material(x as int, y as int, z as int));
                if v == VOXEL_LIGHT || v == VOXEL_RED_LIGHT {
                    grid.set_light(x, y, z, MAX_LIGHT);
                    let is_red: bool = v == VOXEL_RED_LIGHT;
                    if is_red {
                        let mask: u8 = grid.get_face_occlusion(x, y, z);
                        grid.set_face_occlusion(x, y, z, mask | 0b0100_0000u8);
                    }
                    proof {
                        lemma_beams_push(before, (x, y, z, is_red));
                    }
                    queue.push_back((x, y, z, is_red));
                }
                proof {
                    let target = lit_before(start, x + 1, y as int, z as int);
                    assert(grid@.cells =~= target.cells);
                    assert(beams_of(queue@) =~= done + (rows + row_sources(
                        start,
                        (x + 1) as nat,
                        y as int,
                        z as int,
                    )));
                }
                x = x + 1;
            }
            proof {
                lemma_next_row(start, y as int, z as int);
                assert(beams_of(queue@) =~= done + slice_sources(start, (y + 1) as nat, z as int));
            }
            y = y + 1;
        }
        proof {
            lemma_next_slice(start, z as int);
        }
        z = z + 1;
    }
    assert(lit_before(start, 0, 0, d as int).cells =~= lit_sources(start).cells);
}

} // verus!
