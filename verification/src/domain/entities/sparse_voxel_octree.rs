//! The sparse voxel octree: an arena of nodes in which the eight children of a
//! node stand side by side.

use vstd::prelude::*;

verus! {

/// One node of the arena.
#[derive(Debug, Clone, Copy)]
pub enum SvoNode {
    Leaf { voxel_type: u8, color: u32, light_rgb: [u8; 3], face_occlusion: u8 },
    Internal { child_base_index: u32, child_mask: u8 },
}

/// What a leaf says of its voxels.
pub struct Attrs {
    pub voxel_type: u8,
    pub color: u32,
    pub rgb: (u8, u8, u8),
    pub occlusion: u8,
}

/// The mathematical content of a node.
pub enum Node {
    Leaf { attrs: Attrs },
    Internal { base: u32, mask: u8 },
}

pub open spec fn air_attrs() -> Attrs {
    Attrs { voxel_type: 0, color: 0, rgb: (0, 0, 0), occlusion: 0 }
}

impl View for SvoNode {
    type V = Node;

    open spec fn view(&self) -> Node {
        match *self {
            SvoNode::Leaf { voxel_type, color, light_rgb, face_occlusion } => Node::Leaf {
                attrs: Attrs {
                    voxel_type,
                    color,
                    rgb: (light_rgb[0], light_rgb[1], light_rgb[2]),
                    occlusion: face_occlusion,
                },
            },
            SvoNode::Internal { child_base_index, child_mask } => Node::Internal {
                base: child_base_index,
                mask: child_mask,
            },
        }
    }
}

pub open spec fn nodes_of(nodes: Seq<SvoNode>) -> Seq<Node> {
    nodes.map_values(|n: SvoNode| n@)
}

/// A leaf of anything but air, or a node with children.
pub open spec fn occupied(node: Node) -> bool {
    match node {
        Node::Leaf { attrs } => attrs.voxel_type != 0,
        Node::Internal { .. } => true,
    }
}

/// The mask whose bit `i` says whether child `i` is occupied, for the first `n`.
pub open spec fn mask_of(children: Seq<Node>, n: nat) -> u8
    decreases n,
{
    if n == 0 {
        0
    } else {
        let before = mask_of(children, (n - 1) as nat);
        if occupied(children[n - 1]) {
            before | (1u8 << ((n - 1) as u8))
        } else {
            before
        }
    }
}

pub open spec fn mask_bit(mask: u8, i: int) -> bool {
    (mask >> (i as u8)) & 1u8 == 1u8
}

/// Side length in voxels of a cube of the given depth.
pub open spec fn side(depth: nat) -> nat
    decreases depth,
{
    if depth == 0 {
        1
    } else {
        2 * side((depth - 1) as nat)
    }
}

/// The two low bits and the high bit of an octant choose the half on x, y and z.
pub open spec fn octant_x(o: int) -> int {
    o % 2
}

pub open spec fn octant_y(o: int) -> int {
    (o / 2) % 2
}

pub open spec fn octant_z(o: int) -> int {
    o / 4
}

/// Octant of a local coordinate in a cube whose halves have length `half`.
pub open spec fn octant_of(x: int, y: int, z: int, half: int) -> int {
    (if x >= half {
        1int
    } else {
        0
    }) + (if y >= half {
        2int
    } else {
        0
    }) + (if z >= half {
        4int
    } else {
        0
    })
}

/// A coordinate relative to the half that holds it.
pub open spec fn fold(v: int, half: int) -> int {
    if v >= half {
        v - half
    } else {
        v
    }
}

pub open spec fn child_at(nodes: Seq<Node>, base: int, o: int) -> Node {
    nodes[base + o]
}

/// Every child index below `node` points into the arena, no chain of children
/// is longer than `depth`, and every mask tells which children are occupied.
pub open spec fn grounded(nodes: Seq<Node>, node: Node, depth: nat) -> bool
    decreases depth,
{
    match node {
        Node::Leaf { .. } => true,
        Node::Internal { base, mask } => {
            &&& depth > 0
            &&& base + 8 <= nodes.len()
            &&& forall|o: int|
                0 <= o < 8 ==> grounded(
                    nodes,
                    #[trigger] child_at(nodes, base as int, o),
                    (depth - 1) as nat,
                )
            &&& forall|o: int|
                0 <= o < 8 ==> mask_bit(mask, o) == occupied(
                    #[trigger] child_at(nodes, base as int, o),
                )
        },
    }
}

/// What the tree below `node` says of a voxel, by local coordinate.
pub open spec fn lookup(nodes: Seq<Node>, node: Node, x: int, y: int, z: int, depth: nat) -> Attrs
    decreases depth,
{
    match node {
        Node::Leaf { attrs } => attrs,
        Node::Internal { base, .. } => {
            if depth == 0 {
                air_attrs()
            } else {
                let half = side((depth - 1) as nat) as int;
                lookup(
                    nodes,
                    child_at(nodes, base as int, octant_of(x, y, z, half)),
                    fold(x, half),
                    fold(y, half),
                    fold(z, half),
                    (depth - 1) as nat,
                )
            }
        },
    }
}

/// The halves an octant names, added back to a folded coordinate.
pub proof fn lemma_octant(x: int, y: int, z: int, half: int)
    requires
        0 <= x < 2 * half,
        0 <= y < 2 * half,
        0 <= z < 2 * half,
    ensures
        ({
            let o = octant_of(x, y, z, half);
            &&& 0 <= o < 8
            &&& octant_x(o) * half + fold(x, half) == x
            &&& octant_y(o) * half + fold(y, half) == y
            &&& octant_z(o) * half + fold(z, half) == z
            &&& 0 <= fold(x, half) < half
            &&& 0 <= fold(y, half) < half
            &&& 0 <= fold(z, half) < half
        }),
{
    let o = octant_of(x, y, z, half);
    assert(octant_x(o) == 0 || octant_x(o) == 1);
    assert(octant_y(o) == 0 || octant_y(o) == 1);
    assert(octant_z(o) == 0 || octant_z(o) == 1);
    assert(0 * half == 0 && 1 * half == half) by (nonlinear_arith);
}

pub proof fn lemma_side_positive(depth: nat)
    ensures
        side(depth) >= 1,
    decreases depth,
{
    if depth > 0 {
        lemma_side_positive((depth - 1) as nat);
    }
}

/// Below depth 32 the side length is a shift of one.
pub proof fn lemma_side_shift(depth: u32)
    requires
        depth < 32,
    ensures
        side(depth as nat) == (1u32 << depth),
        side(depth as nat) >= 1,
    decreases depth,
{
    lemma_side_positive(depth as nat);
    if depth == 0 {
        assert(1u32 << 0u32 == 1u32) by (bit_vector);
    } else {
        let less = (depth - 1) as u32;
        lemma_side_shift(less);
        assert(1u32 << depth == 2 * (1u32 << less)) by (bit_vector)
            requires
                less == depth - 1,
                0 < depth < 32,
        ;
    }
}

/// Where in the cube the voxels of a node lie.
pub struct Place {
    pub x: int,
    pub y: int,
    pub z: int,
    pub level: nat,
}

pub open spec fn child_place(p: Place, o: int) -> Place {
    let level = (p.level - 1) as nat;
    let half = side(level);
    Place {
        x: p.x + octant_x(o) * half,
        y: p.y + octant_y(o) * half,
        z: p.z + octant_z(o) * half,
        level,
    }
}

pub open spec fn place_at(places: Seq<Place>, base: int, o: int) -> Place {
    places[base + o]
}

/// The children of a node lie in its octants.
pub open spec fn placed_at(nodes: Seq<Node>, places: Seq<Place>, i: int) -> bool {
    match nodes[i] {
        Node::Leaf { .. } => true,
        Node::Internal { base, .. } => {
            &&& places[i].level > 0
            &&& base + 8 <= nodes.len()
            &&& forall|o: int|
                0 <= o < 8 ==> #[trigger] place_at(places, base as int, o) == child_place(
                    places[i],
                    o,
                )
        },
    }
}

/// Every node of the arena has one place, and children lie in octants.
pub open spec fn placed(nodes: Seq<Node>, places: Seq<Place>) -> bool {
    &&& places.len() == nodes.len()
    &&& forall|i: int| 0 <= i < nodes.len() ==> #[trigger] placed_at(nodes, places, i)
}

/// No two nodes share a child.
pub open spec fn apart(nodes: Seq<Node>) -> bool {
    forall|i: int, j: int|
        #![trigger nodes[i], nodes[j]]
        0 <= i < nodes.len() && 0 <= j < nodes.len() && i != j ==> (nodes[i] matches Node::Internal {
            base: a,
            ..
        } ==> (nodes[j] matches Node::Internal { base: b, .. } ==> a + 8 <= b || b + 8 <= a))
}

/// Every mask tells which children are occupied, the children in `open` aside.
pub open spec fn masks_exact_but(nodes: Seq<Node>, open: Set<int>) -> bool {
    forall|i: int, o: int|
        0 <= i < nodes.len() && 0 <= o < 8 ==> #[trigger] mask_exact_at(nodes, i, o, open)
}

pub open spec fn mask_exact_at(nodes: Seq<Node>, i: int, o: int, open: Set<int>) -> bool {
    nodes[i] matches Node::Internal { base, mask } ==> !open.contains(base + o) ==> mask_bit(mask, o)
        == occupied(nodes[base + o])
}

/// An arena in which single voxels can be rewritten in place.
pub open spec fn editable_with(
    nodes: Seq<Node>,
    root: int,
    depth: nat,
    places: Seq<Place>,
) -> bool {
    &&& placed(nodes, places)
    &&& apart(nodes)
    &&& masks_exact_but(nodes, Set::empty())
    &&& 0 <= root < nodes.len()
    &&& places[root] == (Place { x: 0, y: 0, z: 0, level: depth })
    &&& forall|i: int| 0 <= i < places.len() ==> (#[trigger] places[i]).level <= depth
}

pub open spec fn editable(nodes: Seq<Node>, root: int, depth: nat) -> bool {
    exists|places: Seq<Place>| editable_with(nodes, root, depth, places)
}

/// A placed node with exact masks below it is grounded.
proof fn lemma_placed_grounded(nodes: Seq<Node>, places: Seq<Place>, i: int)
    requires
        placed(nodes, places),
        masks_exact_but(nodes, Set::empty()),
        0 <= i < nodes.len(),
    ensures
        grounded(nodes, nodes[i], places[i].level),
    decreases places[i].level,
{
    assert(placed_at(nodes, places, i));
    if let Node::Internal { base, mask } = nodes[i] {
        assert forall|o: int| 0 <= o < 8 implies grounded(
            nodes,
            #[trigger] child_at(nodes, base as int, o),
            (places[i].level - 1) as nat,
        ) && mask_bit(mask, o) == occupied(child_at(nodes, base as int, o)) by {
            assert(place_at(places, base as int, o) == child_place(places[i], o));
            lemma_placed_grounded(nodes, places, base + o);
            assert(mask_exact_at(nodes, i, o, Set::empty()));
        }
    }
}

pub proof fn lemma_editable_grounded(nodes: Seq<Node>, root: int, depth: nat)
    requires
        editable(nodes, root, depth),
    ensures
        0 <= root < nodes.len(),
        grounded(nodes, nodes[root], depth),
{
    let places = choose|places: Seq<Place>| editable_with(nodes, root, depth, places);
    lemma_placed_grounded(nodes, places, root);
}

/// Arena octree over a cube of `1 << depth` voxels per side.
#[derive(Debug, Clone)]
pub struct SparseVoxelOctree {
    pub root: usize,
    pub nodes: Vec<SvoNode>,
    pub depth: u32,
    /// World-space side length of the cube, as the bits of a 32-bit float.
    pub world_size_bits: u32,
}

impl SparseVoxelOctree {
    pub open spec fn arena(&self) -> Seq<Node> {
        nodes_of(self.nodes@)
    }

    pub open spec fn wf(&self) -> bool {
        &&& self.depth < 32
        &&& editable(self.arena(), self.root as int, self.depth as nat)
    }

    /// What the octree says of a voxel of its cube.
    pub open spec fn voxel(&self, x: int, y: int, z: int) -> Attrs {
        lookup(self.arena(), self.arena()[self.root as int], x, y, z, self.depth as nat)
    }

    pub open spec fn in_cube(&self, x: int, y: int, z: int) -> bool {
        let s = side(self.depth as nat);
        0 <= x < s && 0 <= y < s && 0 <= z < s
    }

    /// An octree of nothing but air: a single leaf.
    pub fn new(depth: u32, world_size_bits: u32) -> (octree: Self)
        requires
            depth < 32,
        ensures
            octree.wf(),
            octree.depth == depth,
            octree.world_size_bits == world_size_bits,
            octree.root == 0,
            octree.arena() == seq![Node::Leaf { attrs: air_attrs() }],
            forall|x: int, y: int, z: int| #[trigger] octree.voxel(x, y, z) == air_attrs(),
    {
        let mut nodes: Vec<SvoNode> = Vec::new();
        nodes.push(
            SvoNode::Leaf { voxel_type: 0, color: 0, light_rgb: [0, 0, 0], face_occlusion: 0 },
        );
        let octree = SparseVoxelOctree { root: 0, nodes, depth, world_size_bits };
        proof {
            let arena = octree.arena();
            assert(arena =~= seq![Node::Leaf { attrs: air_attrs() }]);
            let places = seq![Place { x: 0, y: 0, z: 0, level: depth as nat }];
            assert(editable_with(arena, 0, depth as nat, places));
        }
        octree
    }

    /// The type, color, light and face mask of a voxel; nothing outside the cube.
    pub fn get(&self, x: u32, y: u32, z: u32) -> (found: Option<(u8, u32, [u8; 3], u8)>)
        requires
            self.wf(),
        ensures
            match found {
                Some(v) => self.in_cube(x as int, y as int, z as int) && self.voxel(
                    x as int,
                    y as int,
                    z as int,
                ) == (Attrs {
                    voxel_type: v.0,
                    color: v.1,
                    rgb: (v.2[0], v.2[1], v.2[2]),
                    occlusion: v.3,
                }),
                None => !self.in_cube(x as int, y as int, z as int),
            },
    {
        proof {
            lemma_side_shift(self.depth);
            lemma_editable_grounded(self.arena(), self.root as int, self.depth as nat);
        }
        let size: u32 = 1u32 << self.depth;
        if x >= size || y >= size || z >= size {
            return None;
        }
        let mut node: SvoNode = self.nodes[self.root];
        let mut level: u32 = self.depth;
        let mut lx: u32 = x;
        let mut ly: u32 = y;
        let mut lz: u32 = z;
        let ghost arena = self.arena();
        loop
            invariant
                level < 32,
                arena == self.arena(),
                grounded(arena, node@, level as nat),
                self.in_cube(x as int, y as int, z as int),
                lookup(arena, node@, lx as int, ly as int, lz as int, level as nat) == self.voxel(
                    x as int,
                    y as int,
                    z as int,
                ),
            decreases level,
        {
            match node {
                SvoNode::Leaf { voxel_type, color, light_rgb, face_occlusion } => {
                    return Some((voxel_type, color, light_rgb, face_occlusion));
                },
                SvoNode::Internal { child_base_index, child_mask: _ } => {
                    level = level - 1;
                    proof {
                        lemma_side_shift(level);
                    }
                    let half: u32 = 1u32 << level;
                    let mut octant: usize = 0;
                    if lx >= half {
                        octant = octant + 1;
                        lx = lx - half;
                    }
                    if ly >= half {
                        octant = octant + 2;
                        ly = ly - half;
                    }
                    if lz >= half {
                        octant = octant + 4;
                        lz = lz - half;
                    }
                    assert(self.nodes.len() == arena.len());
                    assert(arena[child_base_index + octant] == child_at(
                        arena,
                        child_base_index as int,
                        octant as int,
                    ));
                    node = self.nodes[child_base_index as usize + octant];
                },
            }
        }
    }
}

} // verus!
