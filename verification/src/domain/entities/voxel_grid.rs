//! The dense voxel grid that generators fill and that lighting, meshing and
//! octree construction read.

use vstd::prelude::*;

verus! {

pub const VOXEL_AIR: u8 = 0;
pub const VOXEL_WALL: u8 = 1;
pub const VOXEL_FLOOR: u8 = 2;
pub const VOXEL_CEILING: u8 = 3;
pub const VOXEL_LIGHT: u8 = 4;
pub const VOXEL_RED_WALL: u8 = 5;
/// Walkable ground cover (grassland level). Visual-only, like FLOOR.
pub const VOXEL_GRASS: u8 = 6;
/// Walkable shallow water (grassland lakes). Visual-only, like FLOOR.
pub const VOXEL_WATER: u8 = 7;
/// Tree trunk (grassland). Solid: blocks the player like WALL.
pub const VOXEL_TREE: u8 = 8;
pub const VOXEL_RED_LIGHT: u8 = 9;
/// Faint cue light of dark expanses.
pub const VOXEL_GLIMMER: u8 = 10;

/// Everything one voxel holds.
pub struct Voxel {
    pub material: u8,
    /// Scalar light level: the brightest of the three channels.
    pub level: u8,
    pub rgb: (u8, u8, u8),
    pub occlusion: u8,
}

/// The voxel found everywhere outside a grid, and everywhere in a new one.
pub open spec fn dark_air() -> Voxel {
    Voxel { material: VOXEL_AIR, level: 0, rgb: (0, 0, 0), occlusion: 0 }
}

/// The mathematical content of a grid: its extents and a voxel per coordinate.
#[verifier::ext_equal]
pub struct GridModel {
    pub width: int,
    pub height: int,
    pub depth: int,
    pub cells: spec_fn(int, int, int) -> Voxel,
}

impl GridModel {
    pub open spec fn inside(self, x: int, y: int, z: int) -> bool {
        0 <= x < self.width && 0 <= y < self.height && 0 <= z < self.depth
    }

    pub open spec fn at(self, x: int, y: int, z: int) -> Voxel {
        (self.cells)(x, y, z)
    }

    pub open spec fn material(self, x: int, y: int, z: int) -> u8 {
        self.at(x, y, z).material
    }

    pub open spec fn level(self, x: int, y: int, z: int) -> u8 {
        self.at(x, y, z).level
    }

    pub open spec fn same_extents(self, other: GridModel) -> bool {
        self.width == other.width && self.height == other.height && self.depth == other.depth
    }

    /// Replaces one voxel; coordinates outside the grid change nothing.
    pub open spec fn put(self, x: int, y: int, z: int, v: Voxel) -> GridModel {
        if self.inside(x, y, z) {
            GridModel {
                width: self.width,
                height: self.height,
                depth: self.depth,
                cells: |i: int, j: int, k: int|
                    if i == x && j == y && k == z {
                        v
                    } else {
                        (self.cells)(i, j, k)
                    },
            }
        } else {
            self
        }
    }

    pub open spec fn put_material(self, x: int, y: int, z: int, m: u8) -> GridModel {
        let v = self.at(x, y, z);
        self.put(x, y, z, Voxel { material: m, level: v.level, rgb: v.rgb, occlusion: v.occlusion })
    }

    /// Replaces the material wherever the brush names one.
    pub open spec fn painted(self, brush: spec_fn(int, int, int) -> Option<u8>) -> GridModel {
        GridModel {
            width: self.width,
            height: self.height,
            depth: self.depth,
            cells: |i: int, j: int, k: int|
                {
                    let v = (self.cells)(i, j, k);
                    match brush(i, j, k) {
                        Some(m) if self.inside(i, j, k) => Voxel {
                            material: m,
                            level: v.level,
                            rgb: v.rgb,
                            occlusion: v.occlusion,
                        },
                        _ => v,
                    }
                },
        }
    }

    pub open spec fn put_light(self, x: int, y: int, z: int, rgb: (u8, u8, u8)) -> GridModel {
        let v = self.at(x, y, z);
        self.put(
            x,
            y,
            z,
            Voxel { material: v.material, level: brightest(rgb), rgb, occlusion: v.occlusion },
        )
    }

    pub open spec fn put_occlusion(self, x: int, y: int, z: int, mask: u8) -> GridModel {
        let v = self.at(x, y, z);
        self.put(x, y, z, Voxel { material: v.material, level: v.level, rgb: v.rgb, occlusion: mask })
    }
}

/// The brightest of three channels.
pub open spec fn brightest(rgb: (u8, u8, u8)) -> u8 {
    let rg = if rgb.0 >= rgb.1 {
        rgb.0
    } else {
        rgb.1
    };
    if rg >= rgb.2 {
        rg
    } else {
        rgb.2
    }
}

pub open spec fn triple(rgb: [u8; 3]) -> (u8, u8, u8) {
    (rgb[0], rgb[1], rgb[2])
}

/// A grid of the given extents that holds nothing but unlit air.
pub open spec fn empty_model(width: int, height: int, depth: int) -> GridModel {
    GridModel { width, height, depth, cells: |x: int, y: int, z: int| dark_air() }
}

/// Position of a coordinate in the grid's row-major storage.
pub open spec fn linear(width: int, depth: int, x: int, y: int, z: int) -> int {
    y * (width * depth) + z * width + x
}

/// Storage positions lie inside the storage, below any product they need.
pub proof fn lemma_linear_bounds(width: int, height: int, depth: int, x: int, y: int, z: int)
    requires
        0 <= x < width,
        0 <= y < height,
        0 <= z < depth,
    ensures
        0 <= width * depth <= width * height * depth,
        0 <= y * (width * depth) <= linear(width, depth, x, y, z),
        0 <= z * width <= linear(width, depth, x, y, z),
        0 <= linear(width, depth, x, y, z) < width * height * depth,
{
    assert(width * height * depth == height * (width * depth)) by (nonlinear_arith);
    let layer = width * depth;
    assert(layer > 0) by (nonlinear_arith)
        requires
            width > 0,
            depth > 0,
            layer == width * depth,
    ;
    assert(z * width + width <= layer) by (nonlinear_arith)
        requires
            0 <= z < depth,
            width > 0,
            layer == width * depth,
    ;
    assert(y * layer + layer <= height * layer) by (nonlinear_arith)
        requires
            0 <= y < height,
            layer > 0,
    ;
    assert(0 <= y * layer) by (nonlinear_arith)
        requires
            0 <= y,
            layer > 0,
    ;
    assert(0 <= z * width) by (nonlinear_arith)
        requires
            0 <= z,
            width > 0,
    ;
    assert(layer <= height * layer) by (nonlinear_arith)
        requires
            height > 0,
            layer > 0,
    ;
}

/// Two coordinates inside a grid share a storage position only if they agree.
pub proof fn lemma_linear_injective(
    width: int,
    height: int,
    depth: int,
    x: int,
    y: int,
    z: int,
    x2: int,
    y2: int,
    z2: int,
)
    requires
        0 <= x < width,
        0 <= y < height,
        0 <= z < depth,
        0 <= x2 < width,
        0 <= y2 < height,
        0 <= z2 < depth,
        linear(width, depth, x, y, z) == linear(width, depth, x2, y2, z2),
    ensures
        x == x2,
        y == y2,
        z == z2,
{
    let layer = width * depth;
    let a = z * width + x;
    let b = z2 * width + x2;
    assert(0 <= a < layer && 0 <= b < layer) by (nonlinear_arith)
        requires
            0 <= z < depth,
            0 <= z2 < depth,
            0 <= x < width,
            0 <= x2 < width,
            layer == width * depth,
            a == z * width + x,
            b == z2 * width + x2,
    ;
    assert(y == y2) by (nonlinear_arith)
        requires
            y * layer + a == y2 * layer + b,
            0 <= a < layer,
            0 <= b < layer,
    ;
    assert(z == z2) by (nonlinear_arith)
        requires
            z * width + x == z2 * width + x2,
            0 <= x < width,
            0 <= x2 < width,
    ;
}

/// Represents a dense 3D grid of voxels.
pub struct VoxelGrid {
    width: usize,
    height: usize,
    depth: usize,
    data: Vec<u8>,
    /// Scalar light level 0-15 (the max of the RGB channels), kept for
    /// presenters and bakes that only need brightness.
    light_data: Vec<u8>,
    /// Colored flood-fill light, 0-15 per channel.
    light_rgb: Vec<[u8; 3]>,
    face_occlusion: Vec<u8>,
}

impl View for VoxelGrid {
    type V = GridModel;

    closed spec fn view(&self) -> GridModel {
        GridModel {
            width: self.width as int,
            height: self.height as int,
            depth: self.depth as int,
            cells: |x: int, y: int, z: int| self.stored(x, y, z),
        }
    }
}

impl VoxelGrid {
    spec fn stored(&self, x: int, y: int, z: int) -> Voxel {
        if 0 <= x < self.width && 0 <= y < self.height && 0 <= z < self.depth {
            let i = linear(self.width as int, self.depth as int, x, y, z);
            Voxel {
                material: self.data@[i],
                level: self.light_data@[i],
                rgb: triple(self.light_rgb@[i]),
                occlusion: self.face_occlusion@[i],
            }
        } else {
            dark_air()
        }
    }

    /// Every coordinate has its storage, and its scalar light is its brightest
    /// channel.
    pub closed spec fn wf(&self) -> bool {
        let size = self.width * self.height * self.depth;
        &&& size <= usize::MAX
        &&& self.data@.len() == size
        &&& self.light_data@.len() == size
        &&& self.light_rgb@.len() == size
        &&& self.face_occlusion@.len() == size
        &&& forall|i: int|
            0 <= i < size ==> #[trigger] self.light_data@[i] == brightest(triple(self.light_rgb@[i]))
    }

    /// The scalar light of every place is its brightest channel.
    pub proof fn law_level_is_the_brightest_channel(&self, x: int, y: int, z: int)
        requires
            self.wf(),
        ensures
            self@.level(x, y, z) == brightest(self@.at(x, y, z).rgb),
    {
        if self@.inside(x, y, z) {
            lemma_linear_bounds(self.width as int, self.height as int, self.depth as int, x, y, z);
        }
    }

    /// What holds of the model of every grid.
    pub proof fn lemma_model(&self)
        ensures
            0 <= self@.width <= usize::MAX,
            0 <= self@.height <= usize::MAX,
            0 <= self@.depth <= usize::MAX,
            forall|x: int, y: int, z: int|
                !self@.inside(x, y, z) ==> #[trigger] self@.at(x, y, z) == dark_air(),
            self.wf() ==> forall|x: int, y: int, z: int| #[trigger]
                self@.level(x, y, z) == brightest(self@.at(x, y, z).rgb),
    {
        if self.wf() {
            assert forall|x: int, y: int, z: int| #[trigger]
                self@.level(x, y, z) == brightest(self@.at(x, y, z).rgb) by {
                self.law_level_is_the_brightest_channel(x, y, z);
            }
        }
    }

    /// Every voxel can be counted.
    pub proof fn lemma_size(&self)
        requires
            self.wf(),
        ensures
            self@.width * self@.height * self@.depth <= usize::MAX,
    {
    }

    /// Stored changes at one position are changes at one coordinate.
    proof fn lemma_one_change(old_grid: &VoxelGrid, new_grid: &VoxelGrid, x: int, y: int, z: int)
        requires
            old_grid.wf(),
            new_grid.wf(),
            old_grid.width == new_grid.width,
            old_grid.height == new_grid.height,
            old_grid.depth == new_grid.depth,
            old_grid@.inside(x, y, z),
            ({
                let at = linear(old_grid.width as int, old_grid.depth as int, x, y, z);
                forall|i: int|
                    0 <= i < old_grid.data@.len() && i != at ==> {
                        &&& #[trigger] new_grid.data@[i] == old_grid.data@[i]
                        &&& new_grid.light_data@[i] == old_grid.light_data@[i]
                        &&& new_grid.light_rgb@[i] == old_grid.light_rgb@[i]
                        &&& new_grid.face_occlusion@[i] == old_grid.face_occlusion@[i]
                    }
            }),
        ensures
            new_grid@ == old_grid@.put(x, y, z, new_grid@.at(x, y, z)),
    {
        let target = old_grid@.put(x, y, z, new_grid@.at(x, y, z));
        assert forall|i: int, j: int, k: int| #[trigger]
            (new_grid@.cells)(i, j, k) == (target.cells)(i, j, k) by {
            if old_grid@.inside(i, j, k) && !(i == x && j == y && k == z) {
                let w = old_grid.width as int;
                let h = old_grid.height as int;
                let d = old_grid.depth as int;
                lemma_linear_bounds(w, h, d, i, j, k);
                if linear(w, d, i, j, k) == linear(w, d, x, y, z) {
                    lemma_linear_injective(w, h, d, i, j, k, x, y, z);
                }
                assert(new_grid.data@[linear(w, d, i, j, k)] == old_grid.data@[linear(
                    w,
                    d,
                    i,
                    j,
                    k,
                )]);
            }
        }
        assert(new_grid@.cells =~= target.cells);
    }

    pub fn new(width: usize, height: usize, depth: usize) -> (grid: Self)
        requires
            width * height <= usize::MAX,
            width * height * depth <= usize::MAX,
        ensures
            grid.wf(),
            grid@ == empty_model(width as int, height as int, depth as int),
    {
        let size: usize = width * height * depth;
        let mut light_rgb: Vec<[u8; 3]> = Vec::with_capacity(size);
        let mut filled: usize = 0;
        while filled < size
            invariant
                filled <= size,
                light_rgb@.len() == filled,
                forall|i: int| 0 <= i < filled ==> triple(#[trigger] light_rgb@[i]) == (0u8, 0u8, 0u8),
            decreases size - filled,
        {
            light_rgb.push([0, 0, 0]);
            filled = filled + 1;
        }
        let grid = VoxelGrid {
            width,
            height,
            depth,
            data: vec![VOXEL_AIR; size],
            light_data: vec![0; size],
            light_rgb,
            face_occlusion: vec![0; size],
        };
        proof {
            let target = empty_model(width as int, height as int, depth as int);
            assert forall|x: int, y: int, z: int| #[trigger]
                (grid@.cells)(x, y, z) == (target.cells)(x, y, z) by {
                if grid@.inside(x, y, z) {
                    lemma_linear_bounds(width as int, height as int, depth as int, x, y, z);
                }
            }
            assert(grid@.cells =~= target.cells);
        }
        grid
    }

    pub fn width(&self) -> (width: usize)
        ensures
            width == self@.width,
    {
        self.width
    }

    pub fn height(&self) -> (height: usize)
        ensures
            height == self@.height,
    {
        self.height
    }

    pub fn depth(&self) -> (depth: usize)
        ensures
            depth == self@.depth,
    {
        self.depth
    }

    fn index(&self, x: usize, y: usize, z: usize) -> (found: Option<usize>)
        requires
            self.wf(),
        ensures
            match found {
                Some(i) => self@.inside(x as int, y as int, z as int) && i == linear(
                    self.width as int,
                    self.depth as int,
                    x as int,
                    y as int,
                    z as int,
                ) && i < self.data@.len(),
                None => !self@.inside(x as int, y as int, z as int),
            },
    {
        if x < self.width && y < self.height && z < self.depth {
            proof {
                lemma_linear_bounds(
                    self.width as int,
                    self.height as int,
                    self.depth as int,
                    x as int,
                    y as int,
                    z as int,
                );
            }
            Some(y * (self.width * self.depth) + z * self.width + x)
        } else {
            None
        }
    }

    /// Writes one material; coordinates outside the grid are ignored.
    pub fn set(&mut self, x: usize, y: usize, z: usize, voxel_type: u8)
        requires
            old(self).wf(),
        ensures
            final(self).wf(),
            final(self)@ == old(self)@.put_material(x as int, y as int, z as int, voxel_type),
    {
        let ghost before = *self;
        if let Some(idx) = self.index(x, y, z) {
            self.data[idx] = voxel_type;
            proof {
                Self::lemma_one_change(&before, self, x as int, y as int, z as int);
            }
        }
    }

    /// The material at a coordinate; outside the grid there is air.
    pub fn get(&self, x: usize, y: usize, z: usize) -> (voxel_type: u8)
        requires
            self.wf(),
        ensures
            voxel_type == self@.material(x as int, y as int, z as int),
    {
        if let Some(idx) = self.index(x, y, z) {
            self.data[idx]
        } else {
            VOXEL_AIR
        }
    }

    /// Sets a neutral (white) light level: all three channels get `level`.
    pub fn set_light(&mut self, x: usize, y: usize, z: usize, level: u8)
        requires
            old(self).wf(),
        ensures
            final(self).wf(),
            final(self)@ == old(self)@.put_light(x as int, y as int, z as int, (level, level, level)),
    {
        self.set_light_rgb(x, y, z, [level, level, level]);
    }

    pub fn get_light(&self, x: usize, y: usize, z: usize) -> (level: u8)
        requires
            self.wf(),
        ensures
            level == self@.level(x as int, y as int, z as int),
    {
        if let Some(idx) = self.index(x, y, z) {
            self.light_data[idx]
        } else {
            0
        }
    }

    /// Sets colored light (0-15 per channel); the scalar level becomes the
    /// max of the channels.
    pub fn set_light_rgb(&mut self, x: usize, y: usize, z: usize, rgb: [u8; 3])
        requires
            old(self).wf(),
        ensures
            final(self).wf(),
            final(self)@ == old(self)@.put_light(x as int, y as int, z as int, triple(rgb)),
    {
        let ghost before = *self;
        if let Some(idx) = self.index(x, y, z) {
            self.light_rgb[idx] = rgb;
            let mut top: u8 = rgb[0];
            if rgb[1] > top {
                top = rgb[1];
            }
            if rgb[2] > top {
                top = rgb[2];
            }
            self.light_data[idx] = top;
            proof {
                Self::lemma_one_change(&before, self, x as int, y as int, z as int);
            }
        }
    }

    pub fn get_light_rgb(&self, x: usize, y: usize, z: usize) -> (rgb: [u8; 3])
        requires
            self.wf(),
        ensures
            triple(rgb) == self@.at(x as int, y as int, z as int).rgb,
    {
        if let Some(idx) = self.index(x, y, z) {
            self.light_rgb[idx]
        } else {
            [0, 0, 0]
        }
    }

    pub fn set_face_occlusion(&mut self, x: usize, y: usize, z: usize, mask: u8)
        requires
            old(self).wf(),
        ensures
            final(self).wf(),
            final(self)@ == old(self)@.put_occlusion(x as int, y as int, z as int, mask),
    {
        let ghost before = *self;
        if let Some(idx) = self.index(x, y, z) {
            self.face_occlusion[idx] = mask;
            proof {
                Self::lemma_one_change(&before, self, x as int, y as int, z as int);
            }
        }
    }

    pub fn get_face_occlusion(&self, x: usize, y: usize, z: usize) -> (mask: u8)
        requires
            self.wf(),
        ensures
            mask == self@.at(x as int, y as int, z as int).occlusion,
    {
        if let Some(idx) = self.index(x, y, z) {
            self.face_occlusion[idx]
        } else {
            0
        }
    }
}

/// The level of a light is that of its brightest channel: none is brighter, and one is
/// as bright.
pub proof fn law_brightest_is_a_channel(rgb: (u8, u8, u8))
    ensures
        brightest(rgb) >= rgb.0 && brightest(rgb) >= rgb.1 && brightest(rgb) >= rgb.2,
        brightest(rgb) == rgb.0 || brightest(rgb) == rgb.1 || brightest(rgb) == rgb.2,
{
}

/// Writing a material, a light or a face mask changes that of one voxel of the grid and
/// nothing else; outside the grid it changes nothing.
pub proof fn law_writes_change_one_thing(
    g: GridModel,
    x: int,
    y: int,
    z: int,
    material: u8,
    rgb: (u8, u8, u8),
    mask: u8,
    i: int,
    j: int,
    k: int,
)
    ensures
        ({
            let before = g.at(i, j, k);
            let a = g.put_material(x, y, z, material).at(i, j, k);
            let b = g.put_light(x, y, z, rgb).at(i, j, k);
            let c = g.put_occlusion(x, y, z, mask).at(i, j, k);
            let here = i == x && j == y && k == z && g.inside(x, y, z);
            &&& !here ==> a == before && b == before && c == before
            &&& here ==> a.material == material && a.level == before.level && a.rgb == before.rgb
                && a.occlusion == before.occlusion
            &&& here ==> b.rgb == rgb && b.level >= rgb.0 && b.level >= rgb.1 && b.level >= rgb.2
                && (b.level == rgb.0 || b.level == rgb.1 || b.level == rgb.2) && b.material
                == before.material && b.occlusion == before.occlusion
            &&& here ==> c.occlusion == mask && c.material == before.material && c.level
                == before.level && c.rgb == before.rgb
        }),
{
}

} // verus!
