//! Maps the voxel grid to merged quads, slice by slice and direction by
//! direction.

use vstd::prelude::*;

use crate::adapters::greedy_mesh::{
    covered, greedy_mesh_2d, in_quad, law_mesh_covers_faces_once, lemma_mesh_local, mesh, Face,
    Faces, SliceQuad,
};
use crate::domain::entities::voxel_grid::{
    GridModel, VoxelGrid, VOXEL_AIR, VOXEL_CEILING, VOXEL_FLOOR, VOXEL_LIGHT, VOXEL_RED_LIGHT,
    VOXEL_RED_WALL, VOXEL_WALL,
};
use crate::domain::float_bits::FloatBits;
use crate::domain::plane::{Plane, PlaneModel};

pub use crate::adapters::greedy_mesh::VoxelType;

verus! {

#[derive(Debug, Clone, Copy, PartialEq, Eq, Structural)]
pub enum FaceDirection {
    Up,
    Down,
    North,
    South,
    East,
    West,
}

/// A merged quad, in voxels.
#[derive(Debug, Clone, Copy, PartialEq, Eq, Structural)]
pub struct MergedQuad {
    pub x: usize,
    pub y: usize,
    pub z: usize,
    pub w: usize,
    pub h: usize,
    pub dir: FaceDirection,
    pub v_type: VoxelType,
    pub color: u32,
}

/// Brightness of colors: for each light level and channel value, the value that
/// is shown. Levels follow each other in blocks of 256 channel values.
#[derive(Debug, Clone)]
pub struct LightRamp {
    pub values: Vec<u32>,
}

/// Entries of a full ramp.
pub const RAMP_SIZE: usize = 65536;

impl LightRamp {
    pub open spec fn wf(&self) -> bool {
        self.values@.len() == RAMP_SIZE
    }

    pub open spec fn shown(&self, level: u8, channel: u32) -> u32 {
        self.values@[level * 256 + channel]
    }
}

pub struct VoxelMapper {
    /// World length of a voxel, for the caller that scales quads.
    pub voxel_scale: FloatBits,
}

pub open spec fn voxel_type_of(material: u8) -> VoxelType {
    if material == VOXEL_FLOOR {
        VoxelType::Floor
    } else if material == VOXEL_CEILING {
        VoxelType::Ceiling
    } else if material == VOXEL_LIGHT || material == VOXEL_RED_LIGHT {
        VoxelType::Light
    } else if material == VOXEL_RED_WALL {
        VoxelType::RedWall
    } else {
        VoxelType::Wall
    }
}

pub open spec fn surface_color(material: u8) -> u32 {
    if material == VOXEL_WALL {
        0xddcc66
    } else if material == VOXEL_FLOOR {
        0x998811
    } else if material == VOXEL_CEILING {
        0xcccccc
    } else if material == VOXEL_LIGHT {
        0xffffff
    } else if material == VOXEL_RED_LIGHT {
        0xff4444
    } else if material == VOXEL_RED_WALL {
        0x880000
    } else {
        0x000000
    }
}

/// A color with each channel as bright as the ramp shows it.
pub open spec fn lit_color(ramp: LightRamp, color: u32, level: u8) -> u32 {
    let r = ramp.shown(level, (color >> 16u32) & 0xFFu32);
    let g = ramp.shown(level, (color >> 8u32) & 0xFFu32);
    let b = ramp.shown(level, color & 0xFFu32);
    (r << 16u32) | (g << 8u32) | b
}

/// Lamps show their own color, everything else is lit by its level.
pub open spec fn shown_color(ramp: LightRamp, material: u8, level: u8) -> u32 {
    if material == VOXEL_LIGHT || material == VOXEL_RED_LIGHT {
        surface_color(material)
    } else {
        lit_color(ramp, surface_color(material), level)
    }
}

/// Voxel at slice coordinates `u`, `v` of a layer.
pub open spec fn slice_voxel(dir: FaceDirection, layer: int, u: int, v: int) -> (int, int, int) {
    match dir {
        FaceDirection::Up | FaceDirection::Down => (u, layer, v),
        FaceDirection::North | FaceDirection::South => (u, v, layer),
        FaceDirection::East | FaceDirection::West => (layer, v, u),
    }
}

/// The voxel that a face looks at.
pub open spec fn looked_at(dir: FaceDirection, p: (int, int, int)) -> (int, int, int) {
    match dir {
        FaceDirection::Up => (p.0, p.1 + 1, p.2),
        FaceDirection::Down => (p.0, p.1 - 1, p.2),
        FaceDirection::North => (p.0, p.1, p.2 - 1),
        FaceDirection::South => (p.0, p.1, p.2 + 1),
        FaceDirection::East => (p.0 + 1, p.1, p.2),
        FaceDirection::West => (p.0 - 1, p.1, p.2),
    }
}

/// A voxel shows a face towards air or out of the grid.
pub open spec fn shows_face(g: GridModel, dir: FaceDirection, p: (int, int, int)) -> bool {
    let n = looked_at(dir, p);
    g.material(p.0, p.1, p.2) != VOXEL_AIR && (!g.inside(n.0, n.1, n.2) || g.material(
        n.0,
        n.1,
        n.2,
    ) == VOXEL_AIR)
}

pub open spec fn face_of(
    g: GridModel,
    ramp: LightRamp,
    dir: FaceDirection,
    p: (int, int, int),
) -> Option<Face> {
    if shows_face(g, dir, p) {
        let voxel = g.at(p.0, p.1, p.2);
        Some(
            Face {
                v_type: voxel_type_of(voxel.material),
                color: shown_color(ramp, voxel.material, voxel.level),
            },
        )
    } else {
        None
    }
}

pub open spec fn slice_width(g: GridModel, dir: FaceDirection) -> int {
    match dir {
        FaceDirection::East | FaceDirection::West => g.depth,
        _ => g.width,
    }
}

pub open spec fn slice_height(g: GridModel, dir: FaceDirection) -> int {
    match dir {
        FaceDirection::Up | FaceDirection::Down => g.depth,
        _ => g.height,
    }
}

pub open spec fn layer_count(g: GridModel, dir: FaceDirection) -> int {
    match dir {
        FaceDirection::Up | FaceDirection::Down => g.height,
        FaceDirection::North | FaceDirection::South => g.depth,
        FaceDirection::East | FaceDirection::West => g.width,
    }
}

/// The faces of one layer in one direction.
pub open spec fn slice_faces(g: GridModel, ramp: LightRamp, dir: FaceDirection, layer: int) -> Faces {
    PlaneModel {
        width: slice_width(g, dir),
        height: slice_height(g, dir),
        cells: |u: int, v: int| face_of(g, ramp, dir, slice_voxel(dir, layer, u, v)),
    }
}

pub open spec fn placed_quad(q: SliceQuad, dir: FaceDirection, layer: int) -> MergedQuad {
    let p = slice_voxel(dir, layer, q.u as int, q.v as int);
    MergedQuad {
        x: p.0 as usize,
        y: p.1 as usize,
        z: p.2 as usize,
        w: q.w,
        h: q.h,
        dir,
        v_type: q.face.v_type,
        color: q.face.color,
    }
}

/// The merged quads of one layer.
pub open spec fn layer_quads(g: GridModel, ramp: LightRamp, dir: FaceDirection, layer: int) -> Seq<
    MergedQuad,
> {
    mesh(slice_faces(g, ramp, dir, layer)).map_values(|q: SliceQuad| placed_quad(q, dir, layer))
}

/// The merged quads of the first `n` layers in one direction.
pub open spec fn direction_quads(g: GridModel, ramp: LightRamp, dir: FaceDirection, n: nat) -> Seq<
    MergedQuad,
>
    decreases n,
{
    if n == 0 {
        Seq::empty()
    } else {
        direction_quads(g, ramp, dir, (n - 1) as nat) + layer_quads(g, ramp, dir, n - 1)
    }
}

pub open spec fn all_direction_quads(g: GridModel, ramp: LightRamp, dir: FaceDirection) -> Seq<
    MergedQuad,
> {
    direction_quads(g, ramp, dir, layer_count(g, dir) as nat)
}

/// The merged quads of a grid: up, down, north, south, east, west.
pub open spec fn grid_quads(g: GridModel, ramp: LightRamp) -> Seq<MergedQuad> {
    all_direction_quads(g, ramp, FaceDirection::Up) + all_direction_quads(
        g,
        ramp,
        FaceDirection::Down,
    ) + all_direction_quads(g, ramp, FaceDirection::North) + all_direction_quads(
        g,
        ramp,
        FaceDirection::South,
    ) + all_direction_quads(g, ramp, FaceDirection::East) + all_direction_quads(
        g,
        ramp,
        FaceDirection::West,
    )
}

fn material_type(material: u8) -> (t: VoxelType)
    ensures
        t == voxel_type_of(material),
{
    match material {
        VOXEL_WALL => VoxelType::Wall,
        VOXEL_FLOOR => VoxelType::Floor,
        VOXEL_CEILING => VoxelType::Ceiling,
        VOXEL_LIGHT | VOXEL_RED_LIGHT => VoxelType::Light,
        VOXEL_RED_WALL => VoxelType::RedWall,
        _ => VoxelType::Wall,
    }
}

fn material_color(material: u8) -> (c: u32)
    ensures
        c == surface_color(material),
{
    match material {
        VOXEL_WALL => 0xddcc66,
        VOXEL_FLOOR => 0x998811,
        VOXEL_CEILING => 0xcccccc,
        VOXEL_LIGHT => 0xffffff,
        VOXEL_RED_LIGHT => 0xff4444,
        VOXEL_RED_WALL => 0x880000,
        _ => 0x000000,
    }
}

fn ramp_value(ramp: &LightRamp, level: u8, channel: u32) -> (v: u32)
    requires
        ramp.wf(),
        channel < 256,
    ensures
        v == ramp.shown(level, channel),
{
    ramp.values[level as usize * 256 + channel as usize]
}

fn apply_light(ramp: &LightRamp, color: u32, level: u8) -> (c: u32)
    requires
        ramp.wf(),
    ensures
        c == lit_color(*ramp, color, level),
{
    assert((color >> 16u32) & 0xFFu32 < 256 && (color >> 8u32) & 0xFFu32 < 256 && color & 0xFFu32
        < 256) by (bit_vector);
    let r: u32 = ramp_value(ramp, level, (color >> 16u32) & 0xFFu32);
    let g: u32 = ramp_value(ramp, level, (color >> 8u32) & 0xFFu32);
    let b: u32 = ramp_value(ramp, level, color & 0xFFu32);
    (r << 16u32) | (g << 8u32) | b
}

fn voxel_color(ramp: &LightRamp, material: u8, level: u8) -> (c: u32)
    requires
        ramp.wf(),
    ensures
        c == shown_color(*ramp, material, level),
{
    let base: u32 = material_color(material);
    if material == VOXEL_LIGHT || material == VOXEL_RED_LIGHT {
        base
    } else {
        apply_light(ramp, base, level)
    }
}

fn voxel_position(dir: FaceDirection, layer: usize, u: usize, v: usize) -> (p: (usize, usize, usize))
    ensures
        (p.0 as int, p.1 as int, p.2 as int) == slice_voxel(
            dir,
            layer as int,
            u as int,
            v as int,
        ),
{
    match dir {
        FaceDirection::Up | FaceDirection::Down => (u, layer, v),
        FaceDirection::North | FaceDirection::South => (u, v, layer),
        FaceDirection::East | FaceDirection::West => (layer, v, u),
    }
}

/// The face that a voxel shows, if any.
fn get_face(grid: &VoxelGrid, ramp: &LightRamp, dir: FaceDirection, x: usize, y: usize, z: usize) -> (face:
    Option<Face>)
    requires
        grid.wf(),
        ramp.wf(),
        grid@.inside(x as int, y as int, z as int),
    ensures
        face == face_of(grid@, *ramp, dir, (x as int, y as int, z as int)),
{
    let material: u8 = grid.get(x, y, z);
    if material == VOXEL_AIR {
        return None;
    }
    let open: bool = match dir {
        FaceDirection::Up => y == grid.height() - 1 || grid.get(x, y + 1, z) == VOXEL_AIR,
        FaceDirection::Down => y == 0 || grid.get(x, y - 1, z) == VOXEL_AIR,
        FaceDirection::North => z == 0 || grid.get(x, y, z - 1) == VOXEL_AIR,
        FaceDirection::South => z == grid.depth() - 1 || grid.get(x, y, z + 1) == VOXEL_AIR,
        FaceDirection::East => x == grid.width() - 1 || grid.get(x + 1, y, z) == VOXEL_AIR,
        FaceDirection::West => x == 0 || grid.get(x - 1, y, z) == VOXEL_AIR,
    };
    if open {
        let level: u8 = grid.get_light(x, y, z);
        Some(Face { v_type: material_type(material), color: voxel_color(ramp, material, level) })
    } else {
        None
    }
}

/// Collects the faces of one layer.
fn collect_faces(grid: &VoxelGrid, ramp: &LightRamp, dir: FaceDirection, layer: usize) -> (faces: Plane<
    Option<Face>,
>)
    requires
        grid.wf(),
        ramp.wf(),
        layer < layer_count(grid@, dir),
        slice_width(grid@, dir) * slice_height(grid@, dir) <= usize::MAX,
    ensures
        faces.wf(),
        faces@.width == slice_width(grid@, dir),
        faces@.height == slice_height(grid@, dir),
        forall|u: int, v: int|
            faces@.inside(u, v) ==> #[trigger] faces@.at(u, v) == slice_faces(
                grid@,
                *ramp,
                dir,
                layer as int,
            ).at(u, v),
{
    let (w, h): (usize, usize) = match dir {
        FaceDirection::Up | FaceDirection::Down => (grid.width(), grid.depth()),
        FaceDirection::North | FaceDirection::South => (grid.width(), grid.height()),
        FaceDirection::East | FaceDirection::West => (grid.depth(), grid.height()),
    };
    let ghost goal = slice_faces(grid@, *ramp, dir, layer as int);
    let mut faces: Plane<Option<Face>> = Plane::new(w, h, None);
    let mut v: usize = 0;
    while v < h
        invariant
            v <= h,
            grid.wf(),
            ramp.wf(),
            layer < layer_count(grid@, dir),
            w == slice_width(grid@, dir),
            h == slice_height(grid@, dir),
            faces.wf(),
            faces@.width == w,
            faces@.height == h,
            goal == slice_faces(grid@, *ramp, dir, layer as int),
            forall|i: int, j: int|
                faces@.inside(i, j) && j < v ==> #[trigger] faces@.at(i, j) == goal.at(i, j),
        decreases h - v,
    {
        let mut u: usize = 0;
        while u < w
            invariant
                u <= w,
                v < h,
                grid.wf(),
                ramp.wf(),
                layer < layer_count(grid@, dir),
                w == slice_width(grid@, dir),
                h == slice_height(grid@, dir),
                faces.wf(),
                faces@.width == w,
                faces@.height == h,
                goal == slice_faces(grid@, *ramp, dir, layer as int),
                forall|i: int, j: int|
                    faces@.inside(i, j) && (j < v || (j == v && i < u)) ==> #[trigger] faces@.at(
                        i,
                        j,
                    ) == goal.at(i, j),
            decreases w - u,
        {
            let (x, y, z): (usize, usize, usize) = voxel_position(dir, layer, u, v);
            let face = get_face(grid, ramp, dir, x, y, z);
            faces.set(u, v, face);
            u = u + 1;
        }
        v = v + 1;
    }
    faces
}

/// Appends the merged quads of one layer.
fn push_layer(
    quads: &mut Vec<MergedQuad>,
    grid: &VoxelGrid,
    ramp: &LightRamp,
    dir: FaceDirection,
    layer: usize,
)
    requires
        grid.wf(),
        ramp.wf(),
        layer < layer_count(grid@, dir),
        slice_width(grid@, dir) > 0,
        slice_width(grid@, dir) * slice_height(grid@, dir) <= usize::MAX,
    ensures
        final(quads)@ == old(quads)@ + layer_quads(grid@, *ramp, dir, layer as int),
{
    let ghost start = quads@;
    let faces = collect_faces(grid, ramp, dir, layer);
    proof {
        grid.lemma_model();
        lemma_mesh_local(faces@, slice_faces(grid@, *ramp, dir, layer as int));
    }
    let merged = greedy_mesh_2d(&faces);
    let ghost all = layer_quads(grid@, *ramp, dir, layer as int);
    let mut i: usize = 0;
    assert(quads@ =~= start + all.take(0));
    while i < merged.len()
        invariant
            i <= merged@.len(),
            all.len() == merged@.len(),
            forall|k: int|
                0 <= k < merged@.len() ==> #[trigger] all[k] == placed_quad(
                    merged@[k],
                    dir,
                    layer as int,
                ),
            quads@ == start + all.take(i as int),
        decreases merged@.len() - i,
    {
        let q = merged[i];
        let (x, y, z): (usize, usize, usize) = voxel_position(dir, layer, q.u, q.v);
        quads.push(
            MergedQuad {
                x,
                y,
                z,
                w: q.w,
                h: q.h,
                dir,
                v_type: q.face.v_type,
                color: q.face.color,
            },
        );
        assert(all[i as int] == placed_quad(merged@[i as int], dir, layer as int));
        assert(start + all.take(i + 1) =~= (start + all.take(i as int)).push(all[i as int]));
        i = i + 1;
    }
    assert(all.take(all.len() as int) =~= all);
}

/// A slice of a layer that exists has no more cells than the grid.
proof fn lemma_slice_fits(g: GridModel, dir: FaceDirection)
    requires
        0 <= g.width,
        0 <= g.height,
        0 <= g.depth,
        g.width * g.height * g.depth <= usize::MAX,
        layer_count(g, dir) > 0,
    ensures
        0 <= slice_width(g, dir) * slice_height(g, dir) <= usize::MAX,
{
    let a = slice_width(g, dir);
    let b = slice_height(g, dir);
    let c = layer_count(g, dir);
    assert(a * b * c == g.width * g.height * g.depth) by (nonlinear_arith)
        requires
            (a == g.width && b == g.depth && c == g.height) || (a == g.width && b == g.height && c
                == g.depth) || (a == g.depth && b == g.height && c == g.width),
    ;
    assert(0 <= a * b <= a * b * c) by (nonlinear_arith)
        requires
            0 <= a,
            0 <= b,
            0 < c,
    ;
}

/// With no cells in a slice there is nothing to merge.
proof fn lemma_empty_layer(g: GridModel, ramp: LightRamp, dir: FaceDirection, layer: int)
    requires
        slice_width(g, dir) == 0,
    ensures
        layer_quads(g, ramp, dir, layer).len() == 0,
{
    let faces = slice_faces(g, ramp, dir, layer);
    assert(faces.width * faces.height == 0) by (nonlinear_arith)
        requires
            faces.width == 0,
    ;
}

fn push_direction(
    quads: &mut Vec<MergedQuad>,
    grid: &VoxelGrid,
    ramp: &LightRamp,
    dir: FaceDirection,
)
    requires
        grid.wf(),
        ramp.wf(),
    ensures
        final(quads)@ == old(quads)@ + all_direction_quads(grid@, *ramp, dir),
{
    let ghost start = quads@;
    let (layers, across): (usize, usize) = match dir {
        FaceDirection::Up | FaceDirection::Down => (grid.height(), grid.width()),
        FaceDirection::North | FaceDirection::South => (grid.depth(), grid.width()),
        FaceDirection::East | FaceDirection::West => (grid.width(), grid.depth()),
    };
    proof {
        grid.lemma_model();
        grid.lemma_size();
        if layers > 0 {
            lemma_slice_fits(grid@, dir);
        }
    }
    let mut layer: usize = 0;
    assert(quads@ =~= start + direction_quads(grid@, *ramp, dir, 0));
    while layer < layers
        invariant
            layer <= layers,
            layers == layer_count(grid@, dir),
            across == slice_width(grid@, dir),
            grid.wf(),
            ramp.wf(),
            layers > 0 ==> slice_width(grid@, dir) * slice_height(grid@, dir) <= usize::MAX,
            quads@ == start + direction_quads(grid@, *ramp, dir, layer as nat),
        decreases layers - layer,
    {
        let ghost before = direction_quads(grid@, *ramp, dir, layer as nat);
        let ghost more = layer_quads(grid@, *ramp, dir, layer as int);
        if across > 0 {
            push_layer(quads, grid, ramp, dir, layer);
        } else {
            proof {
                lemma_empty_layer(grid@, *ramp, dir, layer as int);
                assert(more =~= Seq::empty());
            }
        }
        assert(quads@ =~= start + (before + more));
        layer = layer + 1;
    }
}

impl VoxelMapper {
    pub fn new(voxel_scale: FloatBits) -> (mapper: Self)
        ensures
            mapper.voxel_scale == voxel_scale,
    {
        VoxelMapper { voxel_scale }
    }

    /// Maps the voxel grid into a list of merged quads using greedy meshing.
    /// Quads are in voxels; the caller scales them by the voxel size.
    pub fn map_voxel_grid(&self, grid: &VoxelGrid, ramp: &LightRamp) -> (quads: Vec<MergedQuad>)
        requires
            grid.wf(),
            ramp.wf(),
        ensures
            quads@ == grid_quads(grid@, *ramp),
    {
        let mut quads: Vec<MergedQuad> = Vec::new();
        push_direction(&mut quads, grid, ramp, FaceDirection::Up);
        push_direction(&mut quads, grid, ramp, FaceDirection::Down);
        push_direction(&mut quads, grid, ramp, FaceDirection::North);
        push_direction(&mut quads, grid, ramp, FaceDirection::South);
        push_direction(&mut quads, grid, ramp, FaceDirection::East);
        push_direction(&mut quads, grid, ramp, FaceDirection::West);
        assert(quads@ =~= grid_quads(grid@, *ramp));
        quads
    }
}

/// Every face that a voxel of a layer shows is drawn by exactly one quad of that
/// layer, in the face's own type and color, and nothing else is drawn.
pub proof fn law_every_face_is_drawn_once(
    g: GridModel,
    ramp: LightRamp,
    dir: FaceDirection,
    layer: int,
    u: int,
    v: int,
)
    requires
        0 <= u < slice_width(g, dir) <= usize::MAX,
        0 <= v < slice_height(g, dir) <= usize::MAX,
    ensures
        ({
            let quads = mesh(slice_faces(g, ramp, dir, layer));
            let face = face_of(g, ramp, dir, slice_voxel(dir, layer, u, v));
            &&& face is Some <==> covered(quads, u, v)
            &&& forall|i: int|
                0 <= i < quads.len() && in_quad(#[trigger] quads[i], u, v) ==> face == Some(
                    quads[i].face,
                )
            &&& forall|i: int, j: int|
                #![trigger quads[i], quads[j]]
                0 <= i < quads.len() && 0 <= j < quads.len() && in_quad(quads[i], u, v) && in_quad(
                    quads[j],
                    u,
                    v,
                ) ==> i == j
        }),
{
    let faces = slice_faces(g, ramp, dir, layer);
    law_mesh_covers_faces_once(faces);
    assert(faces.inside(u, v));
    assert(faces.at(u, v) == face_of(g, ramp, dir, slice_voxel(dir, layer, u, v)));
}

} // verus!
