//! Packs a dense grid into a collapsed sparse voxel octree.

use vstd::prelude::*;

use crate::domain::entities::sparse_voxel_octree::{
    air_attrs, lemma_side_shift, mask_of, nodes_of, octant_x, octant_y,
    octant_z, side, Attrs, Node, SparseVoxelOctree, SvoNode,
};
use crate::domain::use_cases::octree_laws::{
    law_built_octree_is_editable, law_octree_agrees_with_grid,
};
use crate::domain::entities::voxel_grid::{
    triple, GridModel, VoxelGrid, VOXEL_AIR, VOXEL_CEILING, VOXEL_FLOOR, VOXEL_GRASS, VOXEL_LIGHT,
    VOXEL_RED_LIGHT, VOXEL_RED_WALL, VOXEL_TREE, VOXEL_WALL, VOXEL_WATER,
};

verus! {

/// 24-bit display color of a material.
pub open spec fn base_color(material: u8) -> u32 {
    if material == VOXEL_WALL {
        0xddcc66
    } else if material == VOXEL_FLOOR {
        0x998811
    } else if material == VOXEL_CEILING {
        0xcccccc
    } else if material == VOXEL_LIGHT {
        0xffffff
    } else if material == VOXEL_RED_LIGHT {
        0xff4444
    } else if material == VOXEL_RED_WALL {
        0x880000
    } else if material == VOXEL_GRASS {
        0x4f9a3d
    } else if material == VOXEL_WATER {
        0x3a6fb8
    } else if material == VOXEL_TREE {
        0x6b4a2f
    } else {
        0x000000
    }
}

/// What the octree stores of a grid coordinate: air holds nothing, and outside
/// the grid there is air. Extents are taken as 32-bit counts.
pub open spec fn voxel_attrs(g: GridModel, x: int, y: int, z: int) -> Attrs {
    let v = g.at(x, y, z);
    if x >= (g.width as u32) || y >= (g.height as u32) || z >= (g.depth as u32) || v.material
        == VOXEL_AIR {
        air_attrs()
    } else {
        Attrs {
            voxel_type: v.material,
            color: base_color(v.material),
            rgb: v.rgb,
            occlusion: v.occlusion,
        }
    }
}

/// A node and the arena once everything below the node has been stored.
#[verifier::ext_equal]
pub struct Built {
    pub node: Node,
    pub arena: Seq<Node>,
}

/// Nodes of the first octants of a cube, and the arena after storing them.
#[verifier::ext_equal]
pub struct BuiltChildren {
    pub nodes: Seq<Node>,
    pub arena: Seq<Node>,
}

/// All eight children are the same leaf.
pub open spec fn uniform(children: Seq<Node>) -> bool {
    children[0] is Leaf && forall|i: int| 0 <= i < 8 ==> #[trigger] children[i] == children[0]
}

/// The tree of the cube at `x`, `y`, `z`: a leaf for a single voxel or for eight
/// equal leaves, else a node whose eight children are stored side by side after
/// everything below them.
pub open spec fn built(g: GridModel, arena: Seq<Node>, x: int, y: int, z: int, depth: nat) -> Built
    decreases depth, 0int,
{
    if depth == 0 {
        Built { node: Node::Leaf { attrs: voxel_attrs(g, x, y, z) }, arena }
    } else {
        let c = built_children(g, arena, x, y, z, (depth - 1) as nat, 8);
        if uniform(c.nodes) {
            Built { node: c.nodes[0], arena: c.arena }
        } else {
            Built {
                node: Node::Internal { base: c.arena.len() as u32, mask: mask_of(c.nodes, 8) },
                arena: c.arena + c.nodes,
            }
        }
    }
}

/// The first `n` octants of a cube whose octants have the given depth.
pub open spec fn built_children(
    g: GridModel,
    arena: Seq<Node>,
    x: int,
    y: int,
    z: int,
    depth: nat,
    n: nat,
) -> BuiltChildren
    decreases depth, 1 + n,
{
    if n == 0 {
        BuiltChildren { nodes: Seq::empty(), arena }
    } else {
        let before = built_children(g, arena, x, y, z, depth, (n - 1) as nat);
        let half = side(depth);
        let o = n - 1;
        let next = built(
            g,
            before.arena,
            x + octant_x(o) * half,
            y + octant_y(o) * half,
            z + octant_z(o) * half,
            depth,
        );
        BuiltChildren { nodes: before.nodes.push(next.node), arena: next.arena }
    }
}

/// Use Case to convert a dense VoxelGrid into a collapsed Sparse Voxel Octree.
pub struct BuildOctreeUseCase;

impl BuildOctreeUseCase {
    pub fn new() -> (builder: Self)
        ensures
            builder == BuildOctreeUseCase,
    {
        BuildOctreeUseCase
    }

    /// Converts a dense VoxelGrid into an SVO of the specified depth. The world
    /// size is carried through as the bits of a 32-bit float.
    pub fn execute(&self, grid: &VoxelGrid, depth: u32, world_size_bits: u32) -> (octree:
        SparseVoxelOctree)
        requires
            grid.wf(),
            depth < 32,
        ensures
            octree.depth == depth,
            octree.world_size_bits == world_size_bits,
            ({
                let b = built(grid@, Seq::empty(), 0, 0, 0, depth as nat);
                octree.arena() == b.arena.push(b.node) && octree.root == b.arena.len()
            }),
            octree.nodes@.len() <= u32::MAX ==> octree.wf(),
            octree.nodes@.len() <= u32::MAX ==> forall|x: int, y: int, z: int|
                octree.in_cube(x, y, z) ==> #[trigger] octree.voxel(x, y, z) == voxel_attrs(
                    grid@,
                    x,
                    y,
                    z,
                ),
            octree.nodes@.len() <= u32::MAX && grid@.width <= u32::MAX && grid@.height <= u32::MAX
                && grid@.depth <= u32::MAX ==> forall|x: int, y: int, z: int|
                octree.in_cube(x, y, z) && grid@.inside(x, y, z) && grid@.material(x, y, z)
                    != VOXEL_AIR ==> {
                    let stored = #[trigger] octree.voxel(x, y, z);
                    let cell = grid@.at(x, y, z);
                    stored.voxel_type == cell.material && stored.rgb == cell.rgb && stored.occlusion
                        == cell.occlusion
                },
    {
        let mut nodes: Vec<SvoNode> = Vec::new();
        proof {
            lemma_side_shift(depth);
        }
        let size: u32 = 1u32 << depth;
        assert(nodes_of(nodes@) =~= Seq::empty());
        let root_node = self.build_recursive(grid, &mut nodes, 0, 0, 0, size, depth);
        let root_idx: usize = nodes.len();
        proof {
            lemma_nodes_push(nodes@, root_node);
        }
        nodes.push(root_node);
        proof {
            if nodes@.len() <= u32::MAX {
                law_built_octree_is_editable(grid@, depth as nat);
                law_octree_agrees_with_grid(grid@, depth as nat);
            }
        }
        SparseVoxelOctree { root: root_idx, nodes, depth, world_size_bits }
    }

    fn build_recursive(
        &self,
        grid: &VoxelGrid,
        nodes: &mut Vec<SvoNode>,
        x: u32,
        y: u32,
        z: u32,
        size: u32,
        depth: u32,
    ) -> (node: SvoNode)
        requires
            grid.wf(),
            depth < 32,
            size == side(depth as nat),
            x + size <= u32::MAX,
            y + size <= u32::MAX,
            z + size <= u32::MAX,
        ensures
            ({
                let b = built(
                    grid@,
                    nodes_of(old(nodes)@),
                    x as int,
                    y as int,
                    z as int,
                    depth as nat,
                );
                node@ == b.node && nodes_of(final(nodes)@) == b.arena
            }),
        decreases depth,
    {
        if depth == 0 {
            return self.voxel_leaf(grid, x, y, z);
        }
        let child_size: u32 = size / 2;
        let ghost start = nodes_of(nodes@);
        let ghost below = (depth - 1) as nat;
        let mut children: Vec<SvoNode> = Vec::with_capacity(8);
        let mut octant: u32 = 0;
        assert(nodes_of(children@) =~= Seq::empty());
        while octant < 8
            invariant
                octant <= 8,
                children@.len() == octant,
                grid.wf(),
                0 < depth < 32,
                below == depth - 1,
                child_size == side(below),
                size == 2 * child_size,
                x + size <= u32::MAX,
                y + size <= u32::MAX,
                z + size <= u32::MAX,
                ({
                    let c = built_children(
                        grid@,
                        start,
                        x as int,
                        y as int,
                        z as int,
                        below,
                        octant as nat,
                    );
                    nodes_of(children@) == c.nodes && nodes_of(nodes@) == c.arena
                }),
            decreases 8 - octant,
        {
            let dx: u32 = if octant % 2 == 1 {
                child_size
            } else {
                0
            };
            let dy: u32 = if (octant / 2) % 2 == 1 {
                child_size
            } else {
                0
            };
            let dz: u32 = if octant / 4 == 1 {
                child_size
            } else {
                0
            };
            assert(dx == octant_x(octant as int) * side(below)) by (nonlinear_arith)
                requires
                    dx == (if octant % 2 == 1 { child_size } else { 0 }),
                    child_size == side(below),
            ;
            assert(dy == octant_y(octant as int) * side(below)) by (nonlinear_arith)
                requires
                    dy == (if (octant / 2) % 2 == 1 { child_size } else { 0 }),
                    child_size == side(below),
            ;
            assert(dz == octant_z(octant as int) * side(below)) by (nonlinear_arith)
                requires
                    octant < 8,
                    dz == (if octant / 4 == 1 { child_size } else { 0 }),
                    child_size == side(below),
            ;
            let child = self.build_recursive(
                grid,
                nodes,
                x + dx,
                y + dy,
                z + dz,
                child_size,
                depth - 1,
            );
            proof {
                lemma_nodes_push(children@, child);
            }
            children.push(child);
            octant = octant + 1;
        }
        let ghost kids = nodes_of(children@);
        if all_equal_leaves(&children) {
            return children[0];
        }
        let child_base_index: u32 = nodes.len() as u32;
        let mut child_mask: u8 = 0;
        let mut i: usize = 0;
        let ghost stored = nodes_of(nodes@);
        assert(stored =~= stored + kids.take(0));
        while i < 8
            invariant
                i <= 8,
                children@.len() == 8,
                kids == nodes_of(children@),
                child_mask == mask_of(kids, i as nat),
                nodes_of(nodes@) == stored + kids.take(i as int),
            decreases 8 - i,
        {
            let child = children[i];
            assert(child@ == kids[i as int]);
            let taken: bool = match child {
                SvoNode::Leaf { voxel_type, .. } => voxel_type != 0,
                SvoNode::Internal { .. } => true,
            };
            if taken {
                child_mask = child_mask | (1u8 << (i as u8));
            }
            proof {
                lemma_nodes_push(nodes@, child);
                assert(stored + kids.take(i + 1) =~= (stored + kids.take(i as int)).push(child@));
            }
            nodes.push(child);
            i = i + 1;
        }
        assert(kids.take(8) =~= kids);
        SvoNode::Internal { child_base_index, child_mask }
    }

    fn voxel_leaf(&self, grid: &VoxelGrid, x: u32, y: u32, z: u32) -> (leaf: SvoNode)
        requires
            grid.wf(),
        ensures
            leaf@ == (Node::Leaf { attrs: voxel_attrs(grid@, x as int, y as int, z as int) }),
    {
        let (voxel_type, color, light_rgb, face_occlusion) = self.get_voxel_attrs(grid, x, y, z);
        SvoNode::Leaf { voxel_type, color, light_rgb, face_occlusion }
    }

    fn get_voxel_attrs(&self, grid: &VoxelGrid, x: u32, y: u32, z: u32) -> (attrs: (
        u8,
        u32,
        [u8; 3],
        u8,
    ))
        requires
            grid.wf(),
        ensures
            voxel_attrs(grid@, x as int, y as int, z as int) == (Attrs {
                voxel_type: attrs.0,
                color: attrs.1,
                rgb: triple(attrs.2),
                occlusion: attrs.3,
            }),
    {
        if x >= grid.width() as u32 || y >= grid.height() as u32 || z >= grid.depth() as u32 {
            return (0, 0, [0, 0, 0], 0);
        }
        let material: u8 = grid.get(x as usize, y as usize, z as usize);
        if material == VOXEL_AIR {
            return (0, 0, [0, 0, 0], 0);
        }
        let light = grid.get_light_rgb(x as usize, y as usize, z as usize);
        let occlusion: u8 = grid.get_face_occlusion(x as usize, y as usize, z as usize);
        let color: u32 = match material {
            VOXEL_WALL => 0xddcc66,
            VOXEL_FLOOR => 0x998811,
            VOXEL_CEILING => 0xcccccc,
            VOXEL_LIGHT => 0xffffff,
            VOXEL_RED_LIGHT => 0xff4444,
            VOXEL_RED_WALL => 0x880000,
            VOXEL_GRASS => 0x4f9a3d,
            VOXEL_WATER => 0x3a6fb8,
            VOXEL_TREE => 0x6b4a2f,
            _ => 0x000000,
        };
        (material, color, light, occlusion)
    }
}

fn all_equal_leaves(children: &Vec<SvoNode>) -> (same: bool)
    requires
        children@.len() == 8,
    ensures
        same == uniform(nodes_of(children@)),
{
    let ghost kids = nodes_of(children@);
    assert(children@[0]@ == kids[0]);
    match children[0] {
        SvoNode::Internal { .. } => false,
        SvoNode::Leaf { voxel_type, color, light_rgb, face_occlusion } => {
            let mut i: usize = 1;
            while i < 8
                invariant
                    1 <= i <= 8,
                    children@.len() == 8,
                    kids == nodes_of(children@),
                    kids[0] == (Node::Leaf {
                        attrs: Attrs {
                            voxel_type,
                            color,
                            rgb: triple(light_rgb),
                            occlusion: face_occlusion,
                        },
                    }),
                    forall|j: int| 0 <= j < i ==> #[trigger] kids[j] == kids[0],
                decreases 8 - i,
            {
                assert(children@[i as int]@ == kids[i as int]);
                match children[i] {
                    SvoNode::Internal { .. } => {
                        return false;
                    },
                    SvoNode::Leaf { voxel_type: vt, color: col, light_rgb: ll, face_occlusion: fo } => {
                        if vt != voxel_type || col != color || fo != face_occlusion || ll[0]
                            != light_rgb[0] || ll[1] != light_rgb[1] || ll[2] != light_rgb[2] {
                            return false;
                        }
                    },
                }
                i = i + 1;
            }
            true
        },
    }
}

proof fn lemma_nodes_push(nodes: Seq<SvoNode>, node: SvoNode)
    ensures
        nodes_of(nodes.push(node)) == nodes_of(nodes).push(node@),
{
    assert(nodes_of(nodes.push(node)) =~= nodes_of(nodes).push(node@));
}

} // verus!
