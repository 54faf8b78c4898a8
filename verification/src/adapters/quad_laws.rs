//! What the merged quads promise of the picture they make: every face that is
//! seen is drawn by one quad, in its own type and color, and nothing else is.

use vstd::prelude::*;

use crate::adapters::greedy_mesh::{
    covered, in_quad, law_mesh_covers_faces_once, mesh, Face,
};
use crate::adapters::voxel_mapper::{
    all_direction_quads, direction_quads, face_of, grid_quads, law_every_face_is_drawn_once,
    layer_count, layer_quads, placed_quad, shows_face, slice_faces, slice_voxel,
    FaceDirection, LightRamp, MergedQuad, VoxelType,
};
use crate::domain::entities::voxel_grid::{
    GridModel, VOXEL_AIR, VOXEL_CEILING, VOXEL_FLOOR, VOXEL_LIGHT, VOXEL_RED_LIGHT, VOXEL_RED_WALL,
    VOXEL_WALL,
};

verus! {

/// The quad covers the voxel: it lies in the quad's plane, less than `w` voxels
/// along the first axis of the plane and less than `h` along the second. Those are
/// x and z for quads that lie flat, x and y for quads that look along z, and z and
/// y for quads that look along x.
pub open spec fn covers(q: MergedQuad, x: int, y: int, z: int) -> bool {
    match q.dir {
        FaceDirection::Up | FaceDirection::Down => y == q.y && q.x <= x < q.x + q.w && q.z <= z
            < q.z + q.h,
        FaceDirection::North | FaceDirection::South => z == q.z && q.x <= x < q.x + q.w && q.y <= y
            < q.y + q.h,
        FaceDirection::East | FaceDirection::West => x == q.x && q.z <= z < q.z + q.w && q.y <= y
            < q.y + q.h,
    }
}

pub open spec fn draws(q: MergedQuad, dir: FaceDirection, x: int, y: int, z: int) -> bool {
    q.dir == dir && covers(q, x, y, z)
}

/// The voxel can be seen from one side: it is not air, and on that side is air or
/// the end of the grid.
pub open spec fn seen(g: GridModel, dir: FaceDirection, x: int, y: int, z: int) -> bool {
    g.material(x, y, z) != VOXEL_AIR && match dir {
        FaceDirection::Up => y + 1 == g.height || g.material(x, y + 1, z) == VOXEL_AIR,
        FaceDirection::Down => y == 0 || g.material(x, y - 1, z) == VOXEL_AIR,
        FaceDirection::North => z == 0 || g.material(x, y, z - 1) == VOXEL_AIR,
        FaceDirection::South => z + 1 == g.depth || g.material(x, y, z + 1) == VOXEL_AIR,
        FaceDirection::East => x + 1 == g.width || g.material(x + 1, y, z) == VOXEL_AIR,
        FaceDirection::West => x == 0 || g.material(x - 1, y, z) == VOXEL_AIR,
    }
}

/// A color whose channels are what the ramp shows of the given ones.
pub open spec fn dimmed(ramp: LightRamp, level: u8, red: u32, green: u32, blue: u32) -> u32 {
    (ramp.values@[level * 256 + red] << 16u32) | (ramp.values@[level * 256 + green] << 8u32)
        | ramp.values@[level * 256 + blue]
}

/// The quad looks as the material does in that light. Lamps are never dimmed.
pub open spec fn looks_like(q: MergedQuad, ramp: LightRamp, material: u8, level: u8) -> bool {
    if material == VOXEL_LIGHT {
        q.v_type == VoxelType::Light && q.color == 0xff_ffff
    } else if material == VOXEL_RED_LIGHT {
        q.v_type == VoxelType::Light && q.color == 0xff_4444
    } else if material == VOXEL_FLOOR {
        q.v_type == VoxelType::Floor && q.color == dimmed(ramp, level, 0x99, 0x88, 0x11)
    } else if material == VOXEL_CEILING {
        q.v_type == VoxelType::Ceiling && q.color == dimmed(ramp, level, 0xcc, 0xcc, 0xcc)
    } else if material == VOXEL_RED_WALL {
        q.v_type == VoxelType::RedWall && q.color == dimmed(ramp, level, 0x88, 0, 0)
    } else if material == VOXEL_WALL {
        q.v_type == VoxelType::Wall && q.color == dimmed(ramp, level, 0xdd, 0xcc, 0x66)
    } else {
        q.v_type == VoxelType::Wall && q.color == dimmed(ramp, level, 0, 0, 0)
    }
}

/// Exactly the voxels with a face are drawn, by one quad each, which has the face.
spec fn drawn_once(
    quads: Seq<MergedQuad>,
    dir: FaceDirection,
    x: int,
    y: int,
    z: int,
    face: Option<Face>,
) -> bool {
    &&& face is Some <==> exists|i: int|
        0 <= i < quads.len() && draws(#[trigger] quads[i], dir, x, y, z)
    &&& forall|i: int|
        0 <= i < quads.len() && draws(#[trigger] quads[i], dir, x, y, z) ==> face == Some(
            Face { v_type: quads[i].v_type, color: quads[i].color },
        )
    &&& forall|i: int, j: int|
        #![trigger quads[i], quads[j]]
        0 <= i < quads.len() && 0 <= j < quads.len() && draws(quads[i], dir, x, y, z) && draws(
            quads[j],
            dir,
            x,
            y,
            z,
        ) ==> i == j
}

/// Quads that draw nothing there change nothing.
proof fn lemma_drawn_beside(
    a: Seq<MergedQuad>,
    b: Seq<MergedQuad>,
    dir: FaceDirection,
    x: int,
    y: int,
    z: int,
    face: Option<Face>,
)
    ensures
        drawn_once(a, dir, x, y, z, face) && drawn_once(b, dir, x, y, z, None) ==> drawn_once(
            a + b,
            dir,
            x,
            y,
            z,
            face,
        ),
        drawn_once(a, dir, x, y, z, None) && drawn_once(b, dir, x, y, z, face) ==> drawn_once(
            a + b,
            dir,
            x,
            y,
            z,
            face,
        ),
{
    let both = a + b;
    assert forall|i: int| 0 <= i < both.len() implies #[trigger] both[i] == (if i < a.len() {
        a[i]
    } else {
        b[i - a.len()]
    }) by {}
    if drawn_once(a, dir, x, y, z, face) && drawn_once(b, dir, x, y, z, None) {
        if face is Some {
            let i = choose|i: int| 0 <= i < a.len() && draws(#[trigger] a[i], dir, x, y, z);
            assert(both[i] == a[i]);
        }
    }
    if drawn_once(a, dir, x, y, z, None) && drawn_once(b, dir, x, y, z, face) {
        if face is Some {
            let i = choose|i: int| 0 <= i < b.len() && draws(#[trigger] b[i], dir, x, y, z);
            assert(both[a.len() + i] == b[i]);
        }
    }
}

/// Where a voxel stands in the slices of a direction.
spec fn slice_place(dir: FaceDirection, x: int, y: int, z: int) -> (int, int, int) {
    match dir {
        FaceDirection::Up | FaceDirection::Down => (y, x, z),
        FaceDirection::North | FaceDirection::South => (z, x, y),
        FaceDirection::East | FaceDirection::West => (x, z, y),
    }
}

spec fn measurable(g: GridModel) -> bool {
    0 <= g.width <= usize::MAX && 0 <= g.height <= usize::MAX && 0 <= g.depth <= usize::MAX
}

proof fn lemma_layer_draws(
    g: GridModel,
    ramp: LightRamp,
    dir: FaceDirection,
    layer: int,
    x: int,
    y: int,
    z: int,
)
    requires
        measurable(g),
        g.inside(x, y, z),
        0 <= layer < layer_count(g, dir),
    ensures
        drawn_once(
            layer_quads(g, ramp, dir, layer),
            dir,
            x,
            y,
            z,
            if slice_place(dir, x, y, z).0 == layer {
                face_of(g, ramp, dir, (x, y, z))
            } else {
                None
            },
        ),
{
    let (own, u, v) = slice_place(dir, x, y, z);
    let quads = layer_quads(g, ramp, dir, layer);
    let flat = mesh(slice_faces(g, ramp, dir, layer));
    law_mesh_covers_faces_once(slice_faces(g, ramp, dir, layer));
    law_every_face_is_drawn_once(g, ramp, dir, layer, u, v);
    assert forall|i: int| 0 <= i < quads.len() implies (draws(#[trigger] quads[i], dir, x, y, z)
        <==> own == layer && in_quad(flat[i], u, v)) by {
        assert(quads[i] == placed_quad(flat[i], dir, layer));
        assert(flat[i].w >= 1);
    }
    if own == layer {
        assert(slice_voxel(dir, layer, u, v) == (x, y, z));
        if covered(flat, u, v) {
            let i = choose|i: int| 0 <= i < flat.len() && in_quad(#[trigger] flat[i], u, v);
            assert(quads[i] == placed_quad(flat[i], dir, layer));
            assert(draws(quads[i], dir, x, y, z));
        }
        assert forall|i: int|
            0 <= i < quads.len() && draws(#[trigger] quads[i], dir, x, y, z) implies face_of(
            g,
            ramp,
            dir,
            (x, y, z),
        ) == Some(Face { v_type: quads[i].v_type, color: quads[i].color }) by {
            assert(in_quad(flat[i], u, v));
        }
        assert forall|i: int, j: int|
            #![trigger quads[i], quads[j]]
            0 <= i < quads.len() && 0 <= j < quads.len() && draws(quads[i], dir, x, y, z) && draws(
                quads[j],
                dir,
                x,
                y,
                z,
            ) implies i == j by {
            assert(in_quad(flat[i], u, v) && in_quad(flat[j], u, v));
        }
    }
}

proof fn lemma_layers_draw(
    g: GridModel,
    ramp: LightRamp,
    dir: FaceDirection,
    n: nat,
    x: int,
    y: int,
    z: int,
)
    requires
        measurable(g),
        g.inside(x, y, z),
        n <= layer_count(g, dir),
    ensures
        drawn_once(
            direction_quads(g, ramp, dir, n),
            dir,
            x,
            y,
            z,
            if slice_place(dir, x, y, z).0 < n {
                face_of(g, ramp, dir, (x, y, z))
            } else {
                None
            },
        ),
    decreases n,
{
    if n > 0 {
        let before = direction_quads(g, ramp, dir, (n - 1) as nat);
        let more = layer_quads(g, ramp, dir, n - 1);
        lemma_layers_draw(g, ramp, dir, (n - 1) as nat, x, y, z);
        lemma_layer_draws(g, ramp, dir, n - 1, x, y, z);
        lemma_drawn_beside(before, more, dir, x, y, z, face_of(g, ramp, dir, (x, y, z)));
        lemma_drawn_beside(before, more, dir, x, y, z, None);
    }
}

proof fn lemma_direction_of_quads(g: GridModel, ramp: LightRamp, dir: FaceDirection, n: nat)
    ensures
        forall|i: int|
            0 <= i < direction_quads(g, ramp, dir, n).len() ==> (#[trigger] direction_quads(
                g,
                ramp,
                dir,
                n,
            )[i]).dir == dir,
    decreases n,
{
    if n > 0 {
        lemma_direction_of_quads(g, ramp, dir, (n - 1) as nat);
    }
}

/// Of one direction's quads only those of the direction asked for draw.
proof fn lemma_direction_draws(
    g: GridModel,
    ramp: LightRamp,
    of: FaceDirection,
    dir: FaceDirection,
    x: int,
    y: int,
    z: int,
)
    requires
        measurable(g),
        g.inside(x, y, z),
    ensures
        drawn_once(
            all_direction_quads(g, ramp, of),
            dir,
            x,
            y,
            z,
            if of == dir {
                face_of(g, ramp, dir, (x, y, z))
            } else {
                None
            },
        ),
{
    if of == dir {
        lemma_layers_draw(g, ramp, dir, layer_count(g, dir) as nat, x, y, z);
    } else {
        lemma_direction_of_quads(g, ramp, of, layer_count(g, of) as nat);
    }
}

proof fn lemma_grid_draws(
    g: GridModel,
    ramp: LightRamp,
    dir: FaceDirection,
    x: int,
    y: int,
    z: int,
)
    requires
        measurable(g),
        g.inside(x, y, z),
    ensures
        drawn_once(grid_quads(g, ramp), dir, x, y, z, face_of(g, ramp, dir, (x, y, z))),
{
    let face = face_of(g, ramp, dir, (x, y, z));
    let up = all_direction_quads(g, ramp, FaceDirection::Up);
    let down = all_direction_quads(g, ramp, FaceDirection::Down);
    let north = all_direction_quads(g, ramp, FaceDirection::North);
    let south = all_direction_quads(g, ramp, FaceDirection::South);
    let east = all_direction_quads(g, ramp, FaceDirection::East);
    let west = all_direction_quads(g, ramp, FaceDirection::West);
    lemma_direction_draws(g, ramp, FaceDirection::Up, dir, x, y, z);
    lemma_direction_draws(g, ramp, FaceDirection::Down, dir, x, y, z);
    lemma_direction_draws(g, ramp, FaceDirection::North, dir, x, y, z);
    lemma_direction_draws(g, ramp, FaceDirection::South, dir, x, y, z);
    lemma_direction_draws(g, ramp, FaceDirection::East, dir, x, y, z);
    lemma_direction_draws(g, ramp, FaceDirection::West, dir, x, y, z);
    lemma_drawn_beside(up, down, dir, x, y, z, face);
    lemma_drawn_beside(up, down, dir, x, y, z, None);
    lemma_drawn_beside(up + down, north, dir, x, y, z, face);
    lemma_drawn_beside(up + down, north, dir, x, y, z, None);
    lemma_drawn_beside(up + down + north, south, dir, x, y, z, face);
    lemma_drawn_beside(up + down + north, south, dir, x, y, z, None);
    lemma_drawn_beside(up + down + north + south, east, dir, x, y, z, face);
    lemma_drawn_beside(up + down + north + south, east, dir, x, y, z, None);
    lemma_drawn_beside(up + down + north + south + east, west, dir, x, y, z, face);
}

/// The merged quads draw what is seen and nothing else. A voxel is seen from a
/// side exactly if a quad of that direction covers it; then one quad alone does,
/// and it looks as the voxel's material does in the voxel's light.
pub proof fn law_seen_faces_are_drawn_by_one_quad(
    g: GridModel,
    ramp: LightRamp,
    dir: FaceDirection,
    x: int,
    y: int,
    z: int,
)
    requires
        0 <= g.width <= usize::MAX,
        0 <= g.height <= usize::MAX,
        0 <= g.depth <= usize::MAX,
        g.inside(x, y, z),
    ensures
        seen(g, dir, x, y, z) <==> exists|i: int|
            0 <= i < grid_quads(g, ramp).len() && draws(
                #[trigger] grid_quads(g, ramp)[i],
                dir,
                x,
                y,
                z,
            ),
        forall|i: int, j: int|
            #![trigger grid_quads(g, ramp)[i], grid_quads(g, ramp)[j]]
            0 <= i < grid_quads(g, ramp).len() && 0 <= j < grid_quads(g, ramp).len() && draws(
                grid_quads(g, ramp)[i],
                dir,
                x,
                y,
                z,
            ) && draws(grid_quads(g, ramp)[j], dir, x, y, z) ==> i == j,
        forall|i: int|
            0 <= i < grid_quads(g, ramp).len() && draws(
                #[trigger] grid_quads(g, ramp)[i],
                dir,
                x,
                y,
                z,
            ) ==> looks_like(
                grid_quads(g, ramp)[i],
                ramp,
                g.at(x, y, z).material,
                g.at(x, y, z).level,
            ),
{
    lemma_grid_draws(g, ramp, dir, x, y, z);
    assert(seen(g, dir, x, y, z) <==> shows_face(g, dir, (x, y, z)));
    lemma_channels();
}

proof fn lemma_channels()
    ensures
        (0xddcc66u32 >> 16u32) & 0xffu32 == 0xdd && (0xddcc66u32 >> 8u32) & 0xffu32 == 0xcc
            && 0xddcc66u32 & 0xffu32 == 0x66,
        (0x998811u32 >> 16u32) & 0xffu32 == 0x99 && (0x998811u32 >> 8u32) & 0xffu32 == 0x88
            && 0x998811u32 & 0xffu32 == 0x11,
        (0xccccccu32 >> 16u32) & 0xffu32 == 0xcc && (0xccccccu32 >> 8u32) & 0xffu32 == 0xcc
            && 0xccccccu32 & 0xffu32 == 0xcc,
        (0x880000u32 >> 16u32) & 0xffu32 == 0x88 && (0x880000u32 >> 8u32) & 0xffu32 == 0
            && 0x880000u32 & 0xffu32 == 0,
        (0u32 >> 16u32) & 0xffu32 == 0 && (0u32 >> 8u32) & 0xffu32 == 0 && 0u32 & 0xffu32 == 0,
{
    assert((0xddcc66u32 >> 16u32) & 0xffu32 == 0xdd && (0xddcc66u32 >> 8u32) & 0xffu32 == 0xcc
        && 0xddcc66u32 & 0xffu32 == 0x66 && (0x998811u32 >> 16u32) & 0xffu32 == 0x99 && (0x998811u32
        >> 8u32) & 0xffu32 == 0x88 && 0x998811u32 & 0xffu32 == 0x11 && (0xccccccu32 >> 16u32)
        & 0xffu32 == 0xcc && (0xccccccu32 >> 8u32) & 0xffu32 == 0xcc && 0xccccccu32 & 0xffu32 == 0xcc
        && (0x880000u32 >> 16u32) & 0xffu32 == 0x88 && (0x880000u32 >> 8u32) & 0xffu32 == 0
        && 0x880000u32 & 0xffu32 == 0 && (0u32 >> 16u32) & 0xffu32 == 0 && (0u32 >> 8u32) & 0xffu32
        == 0 && 0u32 & 0xffu32 == 0) by (bit_vector);
}

proof fn lemma_quads_stand_inside(g: GridModel, ramp: LightRamp, dir: FaceDirection, n: nat)
    requires
        measurable(g),
        n <= layer_count(g, dir),
    ensures
        forall|i: int|
            0 <= i < direction_quads(g, ramp, dir, n).len() ==> stands_inside(
                g,
                #[trigger] direction_quads(g, ramp, dir, n)[i],
            ),
    decreases n,
{
    if n > 0 {
        let quads = direction_quads(g, ramp, dir, n);
        let before = direction_quads(g, ramp, dir, (n - 1) as nat);
        let flat = mesh(slice_faces(g, ramp, dir, n - 1));
        lemma_quads_stand_inside(g, ramp, dir, (n - 1) as nat);
        law_mesh_covers_faces_once(slice_faces(g, ramp, dir, n - 1));
        assert forall|i: int| 0 <= i < quads.len() implies stands_inside(g, #[trigger] quads[i]) by {
            if i < before.len() {
                assert(quads[i] == before[i]);
            } else {
                let k = i - before.len();
                assert(quads[i] == placed_quad(flat[k], dir, n - 1));
                assert(flat[k].w >= 1);
            }
        }
    }
}

/// The quad covers something, and nothing outside the grid.
pub open spec fn stands_inside(g: GridModel, q: MergedQuad) -> bool {
    &&& q.w >= 1 && q.h >= 1
    &&& covers(q, q.x as int, q.y as int, q.z as int)
    &&& forall|x: int, y: int, z: int| #[trigger] covers(q, x, y, z) ==> g.inside(x, y, z)
}

/// Every quad covers at least one voxel and none outside the grid.
pub proof fn law_quads_stay_in_the_grid(g: GridModel, ramp: LightRamp, i: int)
    requires
        0 <= g.width <= usize::MAX,
        0 <= g.height <= usize::MAX,
        0 <= g.depth <= usize::MAX,
        0 <= i < grid_quads(g, ramp).len(),
    ensures
        stands_inside(g, grid_quads(g, ramp)[i]),
{
    let up = all_direction_quads(g, ramp, FaceDirection::Up);
    let down = all_direction_quads(g, ramp, FaceDirection::Down);
    let north = all_direction_quads(g, ramp, FaceDirection::North);
    let south = all_direction_quads(g, ramp, FaceDirection::South);
    let east = all_direction_quads(g, ramp, FaceDirection::East);
    let west = all_direction_quads(g, ramp, FaceDirection::West);
    lemma_quads_stand_inside(g, ramp, FaceDirection::Up, g.height as nat);
    lemma_quads_stand_inside(g, ramp, FaceDirection::Down, g.height as nat);
    lemma_quads_stand_inside(g, ramp, FaceDirection::North, g.depth as nat);
    lemma_quads_stand_inside(g, ramp, FaceDirection::South, g.depth as nat);
    lemma_quads_stand_inside(g, ramp, FaceDirection::East, g.width as nat);
    lemma_quads_stand_inside(g, ramp, FaceDirection::West, g.width as nat);
    let q = grid_quads(g, ramp)[i];
    let k1 = i - up.len();
    let k2 = k1 - down.len();
    let k3 = k2 - north.len();
    let k4 = k3 - south.len();
    let k5 = k4 - east.len();
    if k1 < 0 {
        assert(q == up[i]);
    } else if k2 < 0 {
        assert(q == down[k1]);
    } else if k3 < 0 {
        assert(q == north[k2]);
    } else if k4 < 0 {
        assert(q == south[k3]);
    } else if k5 < 0 {
        assert(q == east[k4]);
    } else {
        assert(q == west[k5]);
    }
}

} // verus!
