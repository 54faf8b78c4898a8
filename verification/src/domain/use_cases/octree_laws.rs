//! What a built octree promises: it says of every voxel what the grid says, its
//! masks and child indices are right, and no eight equal leaves are left apart.

use vstd::prelude::*;

use crate::domain::entities::sparse_voxel_octree::{
    apart, child_at, child_place, editable, editable_with, fold, grounded, lemma_octant, lemma_side_positive, lookup, mask_bit, mask_exact_at, mask_of,
    masks_exact_but, occupied, octant_of, octant_x, octant_y, octant_z, place_at, placed, placed_at,
    side, Attrs, Node, Place,
};
use crate::domain::entities::voxel_grid::{
    GridModel, VOXEL_AIR, VOXEL_CEILING, VOXEL_FLOOR, VOXEL_GRASS, VOXEL_LIGHT, VOXEL_RED_LIGHT,
    VOXEL_RED_WALL, VOXEL_TREE, VOXEL_WALL, VOXEL_WATER,
};
use crate::domain::use_cases::build_octree::{
    built, built_children, uniform, voxel_attrs, BuiltChildren,
};

verus! {

/// `longer` starts with all of `nodes`.
pub open spec fn extends(nodes: Seq<Node>, longer: Seq<Node>) -> bool {
    nodes.len() <= longer.len() && forall|i: int|
        0 <= i < nodes.len() ==> #[trigger] longer[i] == nodes[i]
}

pub open spec fn children_of(nodes: Seq<Node>, base: int) -> Seq<Node> {
    nodes.subrange(base, base + 8)
}

/// Nowhere below `node` do eight equal leaves stand in place of one.
pub open spec fn collapsed(nodes: Seq<Node>, node: Node, depth: nat) -> bool
    decreases depth,
{
    match node {
        Node::Leaf { .. } => true,
        Node::Internal { base, .. } => depth > 0 && !uniform(children_of(nodes, base as int))
            && forall|o: int|
            0 <= o < 8 ==> collapsed(
                nodes,
                #[trigger] child_at(nodes, base as int, o),
                (depth - 1) as nat,
            ),
    }
}

/// The materials that are displayed in a color of their own.
pub open spec fn colored(material: u8) -> bool {
    material == VOXEL_WALL || material == VOXEL_FLOOR || material == VOXEL_CEILING || material
        == VOXEL_LIGHT || material == VOXEL_RED_LIGHT || material == VOXEL_RED_WALL || material
        == VOXEL_GRASS || material == VOXEL_WATER || material == VOXEL_TREE
}

/// The tree below `node` says of every voxel of the cube at `x`, `y`, `z` what
/// the grid says.
pub open spec fn agrees(
    g: GridModel,
    nodes: Seq<Node>,
    node: Node,
    x: int,
    y: int,
    z: int,
    depth: nat,
) -> bool {
    forall|lx: int, ly: int, lz: int|
        0 <= lx < side(depth) && 0 <= ly < side(depth) && 0 <= lz < side(depth) ==> #[trigger] lookup(
            nodes,
            node,
            lx,
            ly,
            lz,
            depth,
        ) == voxel_attrs(g, x + lx, y + ly, z + lz)
}

proof fn lemma_extend(nodes: Seq<Node>, longer: Seq<Node>, node: Node, depth: nat)
    requires
        grounded(nodes, node, depth),
        collapsed(nodes, node, depth),
        extends(nodes, longer),
    ensures
        grounded(longer, node, depth),
        collapsed(longer, node, depth),
        forall|x: int, y: int, z: int| #[trigger]
            lookup(longer, node, x, y, z, depth) == lookup(nodes, node, x, y, z, depth),
    decreases depth,
{
    if let Node::Internal { base, mask } = node {
        let less = (depth - 1) as nat;
        assert forall|o: int| 0 <= o < 8 implies grounded(
            longer,
            #[trigger] child_at(longer, base as int, o),
            less,
        ) && collapsed(longer, child_at(longer, base as int, o), less) && child_at(
            longer,
            base as int,
            o,
        ) == child_at(nodes, base as int, o) by {
            lemma_extend(nodes, longer, child_at(nodes, base as int, o), less);
        }
        assert(children_of(longer, base as int) =~= children_of(nodes, base as int));
        assert forall|x: int, y: int, z: int| #[trigger]
            lookup(longer, node, x, y, z, depth) == lookup(nodes, node, x, y, z, depth) by {
            let half = side(less) as int;
            let o = octant_of(x, y, z, half);
            let child = child_at(nodes, base as int, o);
            assert(child_at(longer, base as int, o) == child);
            lemma_extend(nodes, longer, child, less);
            let fx = fold(x, half);
            let fy = fold(y, half);
            let fz = fold(z, half);
            assert(lookup(longer, node, x, y, z, depth) == lookup(longer, child, fx, fy, fz, less));
            assert(lookup(nodes, node, x, y, z, depth) == lookup(nodes, child, fx, fy, fz, less));
        }
    }
}

proof fn lemma_mask(children: Seq<Node>, n: nat, o: int)
    requires
        n <= 8,
        0 <= o < 8,
    ensures
        mask_bit(mask_of(children, n), o) == (o < n && occupied(children[o])),
    decreases n,
{
    let bit = o as u8;
    if n == 0 {
        assert((0u8 >> bit) & 1u8 == 0u8) by (bit_vector);
    } else {
        lemma_mask(children, (n - 1) as nat, o);
        let m = mask_of(children, (n - 1) as nat);
        let i = (n - 1) as u8;
        assert(((m | (1u8 << i)) >> bit) & 1u8 == (if i == bit {
            1u8
        } else {
            (m >> bit) & 1u8
        })) by (bit_vector)
            requires
                i < 8,
                bit < 8,
        ;
    }
}

spec fn child_fits(
    g: GridModel,
    c: BuiltChildren,
    x: int,
    y: int,
    z: int,
    depth: nat,
    o: int,
) -> bool {
    let half = side(depth);
    &&& grounded(c.arena, c.nodes[o], depth)
    &&& collapsed(c.arena, c.nodes[o], depth)
    &&& agrees(
        g,
        c.arena,
        c.nodes[o],
        x + octant_x(o) * half,
        y + octant_y(o) * half,
        z + octant_z(o) * half,
        depth,
    )
}

proof fn lemma_built_children(
    g: GridModel,
    arena: Seq<Node>,
    x: int,
    y: int,
    z: int,
    depth: nat,
    n: nat,
)
    requires
        built_children(g, arena, x, y, z, depth, n).arena.len() <= u32::MAX,
    ensures
        ({
            let c = built_children(g, arena, x, y, z, depth, n);
            &&& extends(arena, c.arena)
            &&& c.nodes.len() == n
            &&& forall|o: int| 0 <= o < n ==> #[trigger] child_fits(g, c, x, y, z, depth, o)
        }),
    decreases depth, 1 + n,
{
    if n > 0 {
        let m = (n - 1) as nat;
        let before = built_children(g, arena, x, y, z, depth, m);
        let c = built_children(g, arena, x, y, z, depth, n);
        let half = side(depth);
        let last = n - 1;
        let bx = x + octant_x(last) * half;
        let by = y + octant_y(last) * half;
        let bz = z + octant_z(last) * half;
        lemma_built(g, before.arena, bx, by, bz, depth);
        lemma_built_children(g, arena, x, y, z, depth, m);
        assert forall|o: int| 0 <= o < n implies #[trigger] child_fits(g, c, x, y, z, depth, o) by {
            if o < m {
                assert(child_fits(g, before, x, y, z, depth, o));
                lemma_extend(before.arena, c.arena, before.nodes[o], depth);
            }
        }
    }
}

/// A built tree extends the arena it was given, is grounded and collapsed, and
/// agrees with the grid.
proof fn lemma_built(g: GridModel, arena: Seq<Node>, x: int, y: int, z: int, depth: nat)
    requires
        built(g, arena, x, y, z, depth).arena.len() <= u32::MAX,
    ensures
        ({
            let b = built(g, arena, x, y, z, depth);
            &&& extends(arena, b.arena)
            &&& grounded(b.arena, b.node, depth)
            &&& collapsed(b.arena, b.node, depth)
            &&& agrees(g, b.arena, b.node, x, y, z, depth)
        }),
    decreases depth, 0int,
{
    let b = built(g, arena, x, y, z, depth);
    if depth > 0 {
        let less = (depth - 1) as nat;
        let half = side(less) as int;
        let c = built_children(g, arena, x, y, z, less, 8);
        lemma_built_children(g, arena, x, y, z, less, 8);
        if uniform(c.nodes) {
            assert forall|lx: int, ly: int, lz: int|
                0 <= lx < side(depth) && 0 <= ly < side(depth) && 0 <= lz < side(
                    depth,
                ) implies #[trigger] lookup(b.arena, b.node, lx, ly, lz, depth) == voxel_attrs(
                g,
                x + lx,
                y + ly,
                z + lz,
            ) by {
                let o = octant_of(lx, ly, lz, half);
                lemma_octant(lx, ly, lz, half);
                assert(child_fits(g, c, x, y, z, less, o));
                assert(c.nodes[o] == c.nodes[0]);
                assert(lookup(
                    c.arena,
                    c.nodes[o],
                    fold(lx, half),
                    fold(ly, half),
                    fold(lz, half),
                    less,
                ) == voxel_attrs(g, x + lx, y + ly, z + lz));
            }
        } else {
            let base = c.arena.len() as int;
            assert(extends(c.arena, b.arena));
            assert forall|o: int| 0 <= o < 8 implies #[trigger] child_at(b.arena, base, o)
                == c.nodes[o] && grounded(b.arena, c.nodes[o], less) && collapsed(
                b.arena,
                c.nodes[o],
                less,
            ) && mask_bit(mask_of(c.nodes, 8), o) == occupied(c.nodes[o]) by {
                assert(child_fits(g, c, x, y, z, less, o));
                lemma_extend(c.arena, b.arena, c.nodes[o], less);
                lemma_mask(c.nodes, 8, o);
            }
            assert(children_of(b.arena, base) =~= c.nodes);
            assert forall|lx: int, ly: int, lz: int|
                0 <= lx < side(depth) && 0 <= ly < side(depth) && 0 <= lz < side(
                    depth,
                ) implies #[trigger] lookup(b.arena, b.node, lx, ly, lz, depth) == voxel_attrs(
                g,
                x + lx,
                y + ly,
                z + lz,
            ) by {
                let o = octant_of(lx, ly, lz, half);
                lemma_octant(lx, ly, lz, half);
                assert(child_fits(g, c, x, y, z, less, o));
                lemma_extend(c.arena, b.arena, c.nodes[o], less);
                assert(child_at(b.arena, base, o) == c.nodes[o]);
                let fx = fold(lx, half);
                let fy = fold(ly, half);
                let fz = fold(lz, half);
                assert(lookup(c.arena, c.nodes[o], fx, fy, fz, less) == voxel_attrs(
                    g,
                    x + lx,
                    y + ly,
                    z + lz,
                ));
                assert(lookup(b.arena, b.node, lx, ly, lz, depth) == lookup(
                    b.arena,
                    c.nodes[o],
                    fx,
                    fy,
                    fz,
                    less,
                ));
            }
        }
    }
}

/// The octree of a grid gives back what the grid holds: looking up any voxel of
/// the cube gives that voxel's attributes, air outside the grid. Child indices
/// stay inside the arena, masks name the occupied children, and no eight equal
/// leaves stay uncollapsed. Child indices are 32-bit, so the arena must be no
/// larger.
pub proof fn law_octree_agrees_with_grid(g: GridModel, depth: nat)
    requires
        built(g, Seq::empty(), 0, 0, 0, depth).arena.len() <= u32::MAX,
    ensures
        ({
            let b = built(g, Seq::empty(), 0, 0, 0, depth);
            let arena = b.arena.push(b.node);
            &&& grounded(arena, b.node, depth)
            &&& collapsed(arena, b.node, depth)
            &&& agrees(g, arena, b.node, 0, 0, 0, depth)
        }),
{
    let b = built(g, Seq::empty(), 0, 0, 0, depth);
    lemma_built(g, Seq::empty(), 0, 0, 0, depth);
    lemma_extend(b.arena, b.arena.push(b.node), b.node, depth);
}

/// A voxel survives the packing: where the grid holds no air, the octree stores
/// the material, the light channels and the face mask that the grid's own cell
/// holds. Where the grid holds air, and everywhere outside of it, the octree
/// stores the material zero and no light. Extents are counted in 32 bits.
pub proof fn law_octree_keeps_every_voxel(g: GridModel, depth: nat, x: int, y: int, z: int)
    requires
        0 <= g.width <= u32::MAX,
        0 <= g.height <= u32::MAX,
        0 <= g.depth <= u32::MAX,
        built(g, Seq::empty(), 0, 0, 0, depth).arena.len() <= u32::MAX,
        0 <= x < side(depth),
        0 <= y < side(depth),
        0 <= z < side(depth),
    ensures
        ({
            let b = built(g, Seq::empty(), 0, 0, 0, depth);
            let stored = lookup(b.arena.push(b.node), b.node, x, y, z, depth);
            let cell = g.at(x, y, z);
            if x < g.width && y < g.height && z < g.depth && cell.material != VOXEL_AIR {
                stored.voxel_type == cell.material && stored.rgb == cell.rgb && stored.occlusion
                    == cell.occlusion
            } else {
                stored.voxel_type == 0 && stored.rgb == (0u8, 0u8, 0u8) && stored.occlusion == 0
            }
        }),
{
    let b = built(g, Seq::empty(), 0, 0, 0, depth);
    let arena = b.arena.push(b.node);
    law_octree_agrees_with_grid(g, depth);
    assert(lookup(arena, b.node, x, y, z, depth) == voxel_attrs(g, 0 + x, 0 + y, 0 + z));
}

/// Stored colors tell the materials apart: two voxels have the same color exactly
/// if they hold the same material, as far as materials have a color at all, and
/// every color keeps to its 24 bits.
pub proof fn law_octree_colors_tell_materials_apart(
    g: GridModel,
    x: int,
    y: int,
    z: int,
    i: int,
    j: int,
    k: int,
)
    requires
        0 <= g.width <= u32::MAX,
        0 <= g.height <= u32::MAX,
        0 <= g.depth <= u32::MAX,
        g.inside(x, y, z),
        g.inside(i, j, k),
        colored(g.material(x, y, z)),
        colored(g.material(i, j, k)),
    ensures
        voxel_attrs(g, x, y, z).color == voxel_attrs(g, i, j, k).color <==> g.material(x, y, z)
            == g.material(i, j, k),
        0 < voxel_attrs(g, x, y, z).color <= 0xff_ffff,
        g.material(x, y, z) == VOXEL_LIGHT ==> voxel_attrs(g, x, y, z).color == 0xff_ffff,
        g.material(x, y, z) == VOXEL_RED_LIGHT ==> voxel_attrs(g, x, y, z).color == 0xff_4444,
        g.material(x, y, z) == VOXEL_WALL ==> voxel_attrs(g, x, y, z).color == 0xdd_cc66,
        g.material(x, y, z) == VOXEL_FLOOR ==> voxel_attrs(g, x, y, z).color == 0x99_8811,
        g.material(x, y, z) == VOXEL_CEILING ==> voxel_attrs(g, x, y, z).color == 0xcc_cccc,
        g.material(x, y, z) == VOXEL_RED_WALL ==> voxel_attrs(g, x, y, z).color == 0x88_0000,
        g.material(x, y, z) == VOXEL_GRASS ==> voxel_attrs(g, x, y, z).color == 0x4f_9a3d,
        g.material(x, y, z) == VOXEL_WATER ==> voxel_attrs(g, x, y, z).color == 0x3a_6fb8,
        g.material(x, y, z) == VOXEL_TREE ==> voxel_attrs(g, x, y, z).color == 0x6b_4a2f,
{
}

/// A cube in which every voxel has the same attributes becomes a single leaf.
pub proof fn law_uniform_cube_is_one_leaf(g: GridModel, arena: Seq<Node>, x: int, y: int, z: int, depth: nat)
    requires
        forall|i: int, j: int, k: int|
            x <= i < x + side(depth) && y <= j < y + side(depth) && z <= k < z + side(depth)
                ==> #[trigger] voxel_attrs(g, i, j, k) == voxel_attrs(g, x, y, z),
    ensures
        built(g, arena, x, y, z, depth).node == (Node::Leaf { attrs: voxel_attrs(g, x, y, z) }),
        built(g, arena, x, y, z, depth).arena == arena,
    decreases depth, 9int,
{
    if depth > 0 {
        lemma_uniform_children(g, arena, x, y, z, (depth - 1) as nat, 8);
    }
}

proof fn lemma_uniform_children(
    g: GridModel,
    arena: Seq<Node>,
    x: int,
    y: int,
    z: int,
    depth: nat,
    n: nat,
)
    requires
        n <= 8,
        forall|i: int, j: int, k: int|
            x <= i < x + 2 * side(depth) && y <= j < y + 2 * side(depth) && z <= k < z + 2 * side(
                depth,
            ) ==> #[trigger] voxel_attrs(g, i, j, k) == voxel_attrs(g, x, y, z),
    ensures
        ({
            let c = built_children(g, arena, x, y, z, depth, n);
            &&& c.arena == arena
            &&& c.nodes.len() == n
            &&& forall|o: int|
                0 <= o < n ==> #[trigger] c.nodes[o] == (Node::Leaf {
                    attrs: voxel_attrs(g, x, y, z),
                })
        }),
    decreases depth, 10 + n,
{
    if n > 0 {
        let m = (n - 1) as nat;
        let half = side(depth);
        let o = n - 1;
        lemma_uniform_children(g, arena, x, y, z, depth, m);
        lemma_side_positive(depth);
        assert(octant_x(o) == 0 || octant_x(o) == 1);
        assert(octant_y(o) == 0 || octant_y(o) == 1);
        assert(octant_z(o) == 0 || octant_z(o) == 1);
        assert(0 * half == 0 && 1 * half == half) by (nonlinear_arith);
        let bx = x + octant_x(o) * half;
        let by = y + octant_y(o) * half;
        let bz = z + octant_z(o) * half;
        assert(voxel_attrs(g, bx, by, bz) == voxel_attrs(g, x, y, z));
        law_uniform_cube_is_one_leaf(g, arena, bx, by, bz, depth);
    }
}

/// Stored nodes have places, share no child and have exact masks.
spec fn stored_well(nodes: Seq<Node>, places: Seq<Place>) -> bool {
    placed(nodes, places) && apart(nodes) && masks_exact_but(nodes, Set::empty())
}

/// Nodes stored at or after `from` keep their children there too.
spec fn fresh(nodes: Seq<Node>, from: int) -> bool {
    forall|i: int|
        from <= i < nodes.len() ==> ((#[trigger] nodes[i]) matches Node::Internal { base, .. }
            ==> from <= base)
}

/// A node of place `p` that may be stored next: its children are stored, at or
/// after `from`, and nobody else's.
spec fn ready(nodes: Seq<Node>, places: Seq<Place>, node: Node, p: Place, from: int) -> bool {
    node matches Node::Internal { base, mask } ==> {
        &&& p.level > 0
        &&& from <= base
        &&& base + 8 <= nodes.len()
        &&& forall|o: int|
            0 <= o < 8 ==> #[trigger] place_at(places, base as int, o) == child_place(p, o)
        &&& forall|o: int|
            0 <= o < 8 ==> mask_bit(mask, o) == occupied(
                #[trigger] child_at(nodes, base as int, o),
            )
        &&& forall|i: int|
            0 <= i < nodes.len() ==> ((#[trigger] nodes[i]) matches Node::Internal { base: b, .. }
                ==> base + 8 <= b || b + 8 <= base)
    }
}

spec fn nodes_apart(a: Node, b: Node) -> bool {
    a matches Node::Internal { base: x, .. } ==> (b matches Node::Internal { base: y, .. } ==> x + 8
        <= y || y + 8 <= x)
}

spec fn widens(places: Seq<Place>, wider: Seq<Place>, level: nat) -> bool {
    &&& places.len() <= wider.len()
    &&& forall|i: int| 0 <= i < places.len() ==> #[trigger] wider[i] == places[i]
    &&& forall|i: int| places.len() <= i < wider.len() ==> (#[trigger] wider[i]).level < level
}

proof fn lemma_children_places(
    g: GridModel,
    arena: Seq<Node>,
    places: Seq<Place>,
    p: Place,
    n: nat,
) -> (wider: Seq<Place>)
    requires
        n <= 8,
        p.level > 0,
        stored_well(arena, places),
        built_children(g, arena, p.x, p.y, p.z, (p.level - 1) as nat, n).arena.len() <= u32::MAX,
    ensures
        ({
            let c = built_children(g, arena, p.x, p.y, p.z, (p.level - 1) as nat, n);
            &&& c.nodes.len() == n
            &&& extends(arena, c.arena)
            &&& stored_well(c.arena, wider)
            &&& fresh(c.arena, arena.len() as int)
            &&& widens(places, wider, p.level)
            &&& forall|o: int|
                0 <= o < n ==> ready(
                    c.arena,
                    wider,
                    #[trigger] c.nodes[o],
                    child_place(p, o),
                    arena.len() as int,
                )
            &&& forall|a: int, b: int|
                #![trigger c.nodes[a], c.nodes[b]]
                0 <= a < b < n ==> nodes_apart(c.nodes[a], c.nodes[b])
        }),
    decreases p.level, n,
{
    if n == 0 {
        places
    } else {
        let less = (p.level - 1) as nat;
        let m = (n - 1) as nat;
        let before = built_children(g, arena, p.x, p.y, p.z, less, m);
        let c = built_children(g, arena, p.x, p.y, p.z, less, n);
        let q = child_place(p, n - 1);
        lemma_built(g, before.arena, q.x, q.y, q.z, less);
        let mid = lemma_children_places(g, arena, places, p, m);
        let wider = lemma_built_places(g, before.arena, mid, q);
        assert forall|o: int| 0 <= o < n implies ready(
            c.arena,
            wider,
            #[trigger] c.nodes[o],
            child_place(p, o),
            arena.len() as int,
        ) by {
            if o < m {
                let node = before.nodes[o];
                assert(c.nodes[o] == node);
                if let Node::Internal { base, mask } = node {
                    assert forall|k: int| 0 <= k < 8 implies #[trigger] place_at(wider, base as int, k)
                        == child_place(child_place(p, o), k) by {
                        assert(place_at(mid, base as int, k) == child_place(child_place(p, o), k));
                    }
                    assert forall|k: int| 0 <= k < 8 implies mask_bit(mask, k) == occupied(
                        #[trigger] child_at(c.arena, base as int, k),
                    ) by {
                        assert(child_at(before.arena, base as int, k) == child_at(
                            c.arena,
                            base as int,
                            k,
                        ));
                    }
                    assert forall|i: int| 0 <= i < c.arena.len() implies ((
                    #[trigger] c.arena[i]) matches Node::Internal { base: b, .. } ==> base + 8 <= b || b
                        + 8 <= base) by {
                        if i < before.arena.len() {
                            assert(c.arena[i] == before.arena[i]);
                        }
                    }
                }
            }
        }
        assert forall|a: int, b: int|
            #![trigger c.nodes[a], c.nodes[b]]
            0 <= a < b < n implies nodes_apart(c.nodes[a], c.nodes[b]) by {
            assert(c.nodes[a] == before.nodes[a]);
            if b < m {
                assert(c.nodes[b] == before.nodes[b]);
            } else {
                assert(ready(
                    before.arena,
                    mid,
                    before.nodes[a],
                    child_place(p, a),
                    arena.len() as int,
                ));
            }
        }
        assert forall|i: int| arena.len() <= i < c.arena.len() implies ((
        #[trigger] c.arena[i]) matches Node::Internal { base, .. } ==> arena.len() <= base) by {
            if i < before.arena.len() {
                assert(c.arena[i] == before.arena[i]);
            }
        }
        assert forall|i: int| 0 <= i < places.len() implies #[trigger] wider[i] == places[i] by {
            assert(mid[i] == places[i]);
        }
        assert forall|i: int| places.len() <= i < wider.len() implies (#[trigger] wider[i]).level
            < p.level by {
            if i < mid.len() {
                assert(wider[i] == mid[i]);
            }
        }
        wider
    }
}

proof fn lemma_built_places(g: GridModel, arena: Seq<Node>, places: Seq<Place>, p: Place) -> (wider:
    Seq<Place>)
    requires
        stored_well(arena, places),
        built(g, arena, p.x, p.y, p.z, p.level).arena.len() <= u32::MAX,
    ensures
        ({
            let b = built(g, arena, p.x, p.y, p.z, p.level);
            &&& stored_well(b.arena, wider)
            &&& fresh(b.arena, arena.len() as int)
            &&& widens(places, wider, p.level)
            &&& ready(b.arena, wider, b.node, p, arena.len() as int)
        }),
    decreases p.level, 10int,
{
    let b = built(g, arena, p.x, p.y, p.z, p.level);
    if p.level == 0 {
        places
    } else {
        let less = (p.level - 1) as nat;
        let c = built_children(g, arena, p.x, p.y, p.z, less, 8);
        let mid = lemma_children_places(g, arena, places, p, 8);
        if uniform(c.nodes) {
            mid
        } else {
            let n = c.arena.len() as int;
            let wider = mid + Seq::new(8, |o: int| child_place(p, o));
            assert forall|i: int| 0 <= i < b.arena.len() implies #[trigger] placed_at(b.arena, wider, i) by {
                if i < n {
                    assert(placed_at(c.arena, mid, i));
                    if let Node::Internal { base, .. } = c.arena[i] {
                        assert forall|k: int| 0 <= k < 8 implies #[trigger] place_at(wider, base as int, k)
                            == child_place(wider[i], k) by {
                            assert(place_at(mid, base as int, k) == child_place(mid[i], k));
                        }
                    }
                } else {
                    let o = i - n;
                    assert(b.arena[i] == c.nodes[o]);
                    assert(ready(c.arena, mid, c.nodes[o], child_place(p, o), arena.len() as int));
                    if let Node::Internal { base, .. } = c.nodes[o] {
                        assert forall|k: int| 0 <= k < 8 implies #[trigger] place_at(wider, base as int, k)
                            == child_place(wider[i], k) by {
                            assert(place_at(mid, base as int, k) == child_place(child_place(p, o), k));
                        }
                    }
                }
            }
            assert forall|i: int, j: int|
                #![trigger b.arena[i], b.arena[j]]
                0 <= i < b.arena.len() && 0 <= j < b.arena.len() && i != j implies nodes_apart(
                b.arena[i],
                b.arena[j],
            ) by {
                if i < n && j < n {
                    assert(b.arena[i] == c.arena[i] && b.arena[j] == c.arena[j]);
                } else if i < n {
                    assert(b.arena[i] == c.arena[i] && b.arena[j] == c.nodes[j - n]);
                } else if j < n {
                    assert(b.arena[i] == c.nodes[i - n] && b.arena[j] == c.arena[j]);
                } else {
                    assert(b.arena[i] == c.nodes[i - n] && b.arena[j] == c.nodes[j - n]);
                    if i < j {
                        assert(nodes_apart(c.nodes[i - n], c.nodes[j - n]));
                    } else {
                        assert(nodes_apart(c.nodes[j - n], c.nodes[i - n]));
                    }
                }
            }
            assert forall|i: int, o: int|
                0 <= i < b.arena.len() && 0 <= o < 8 implies #[trigger] mask_exact_at(
                b.arena,
                i,
                o,
                Set::empty(),
            ) by {
                if i < n {
                    assert(placed_at(c.arena, mid, i));
                    assert(mask_exact_at(c.arena, i, o, Set::empty()));
                } else {
                    let k = i - n;
                    assert(b.arena[i] == c.nodes[k]);
                    if let Node::Internal { base, .. } = c.nodes[k] {
                        assert(child_at(c.arena, base as int, o) == b.arena[base + o]);
                    }
                }
            }
            assert(ready(b.arena, wider, b.node, p, arena.len() as int)) by {
                assert forall|o: int| 0 <= o < 8 implies #[trigger] place_at(wider, n, o) == child_place(
                    p,
                    o,
                ) by {}
                assert forall|o: int| 0 <= o < 8 implies mask_bit(mask_of(c.nodes, 8), o) == occupied(
                    #[trigger] child_at(b.arena, n, o),
                ) by {
                    lemma_mask(c.nodes, 8, o);
                }
                assert forall|i: int| 0 <= i < b.arena.len() implies ((
                #[trigger] b.arena[i]) matches Node::Internal { base, .. } ==> n + 8 <= base || base + 8
                    <= n) by {
                    if i < n {
                        assert(placed_at(c.arena, mid, i));
                    } else {
                        assert(b.arena[i] == c.nodes[i - n]);
                    }
                }
            }
            assert(fresh(b.arena, arena.len() as int)) by {
                assert forall|i: int| arena.len() <= i < b.arena.len() implies ((
                #[trigger] b.arena[i]) matches Node::Internal { base, .. } ==> arena.len() <= base) by {
                    if i < n {
                        assert(b.arena[i] == c.arena[i]);
                    } else {
                        assert(b.arena[i] == c.nodes[i - n]);
                    }
                }
            }
            wider
        }
    }
}

/// A built octree is well formed: its voxels can be read and rewritten.
pub proof fn law_built_octree_is_editable(g: GridModel, depth: nat)
    requires
        built(g, Seq::empty(), 0, 0, 0, depth).arena.len() <= u32::MAX,
    ensures
        ({
            let b = built(g, Seq::empty(), 0, 0, 0, depth);
            editable(b.arena.push(b.node), b.arena.len() as int, depth)
        }),
{
    let b = built(g, Seq::empty(), 0, 0, 0, depth);
    let n = b.arena.len() as int;
    let root = Place { x: 0, y: 0, z: 0, level: depth };
    let none = Seq::<Place>::empty();
    assert(stored_well(Seq::empty(), none));
    let mid = lemma_built_places(g, Seq::empty(), none, root);
    let arena = b.arena.push(b.node);
    let places = mid.push(root);
    assert forall|i: int| 0 <= i < arena.len() implies #[trigger] placed_at(arena, places, i) by {
        if i < n {
            assert(placed_at(b.arena, mid, i));
            if let Node::Internal { base, .. } = b.arena[i] {
                assert forall|k: int| 0 <= k < 8 implies #[trigger] place_at(
                    places,
                    base as int,
                    k,
                ) == child_place(places[i], k) by {
                    assert(place_at(mid, base as int, k) == child_place(mid[i], k));
                }
            }
        } else if let Node::Internal { base, .. } = b.node {
            assert forall|k: int| 0 <= k < 8 implies #[trigger] place_at(places, base as int, k)
                == child_place(places[i], k) by {
                assert(place_at(mid, base as int, k) == child_place(root, k));
            }
        }
    }
    assert forall|i: int, o: int|
        0 <= i < arena.len() && 0 <= o < 8 implies #[trigger] mask_exact_at(
        arena,
        i,
        o,
        Set::empty(),
    ) by {
        if i < n {
            assert(placed_at(b.arena, mid, i));
            assert(mask_exact_at(b.arena, i, o, Set::empty()));
        } else if let Node::Internal { base, .. } = b.node {
            assert(child_at(b.arena, base as int, o) == arena[base + o]);
        }
    }
    assert forall|i: int, j: int|
        #![trigger arena[i], arena[j]]
        0 <= i < arena.len() && 0 <= j < arena.len() && i != j implies nodes_apart(
        arena[i],
        arena[j],
    ) by {
        if i < n {
            assert(arena[i] == b.arena[i]);
        }
        if j < n {
            assert(arena[j] == b.arena[j]);
        }
    }
    assert(editable_with(arena, n, depth, places));
}

/// The eight children of a node stand side by side, x first, then y, then z: a voxel of
/// the high half along x is one child on, along y two, along z four. Inside a child the
/// voxel is found by its distance from the child's own corner.
pub proof fn law_children_stand_in_order(
    nodes: Seq<Node>,
    base: u32,
    mask: u8,
    x: int,
    y: int,
    z: int,
    depth: nat,
)
    requires
        0 <= x < side(depth),
        0 <= y < side(depth),
        0 <= z < side(depth),
    ensures
        ({
            let node = Node::Internal { base, mask };
            let half = side(depth) as int;
            let deep = (depth + 1) as nat;
            let b = base as int;
            &&& side(deep) == 2 * half
            &&& lookup(nodes, node, x, y, z, deep) == lookup(nodes, nodes[b], x, y, z, depth)
            &&& lookup(nodes, node, x + half, y, z, deep) == lookup(
                nodes,
                nodes[b + 1],
                x,
                y,
                z,
                depth,
            )
            &&& lookup(nodes, node, x, y + half, z, deep) == lookup(
                nodes,
                nodes[b + 2],
                x,
                y,
                z,
                depth,
            )
            &&& lookup(nodes, node, x, y, z + half, deep) == lookup(
                nodes,
                nodes[b + 4],
                x,
                y,
                z,
                depth,
            )
            &&& lookup(nodes, node, x + half, y + half, z + half, deep) == lookup(
                nodes,
                nodes[b + 7],
                x,
                y,
                z,
                depth,
            )
        }),
{
}

/// A leaf says the same of every voxel of its cube.
pub proof fn law_leaves_are_uniform(
    nodes: Seq<Node>,
    attrs: Attrs,
    x: int,
    y: int,
    z: int,
    depth: nat,
)
    ensures
        lookup(nodes, Node::Leaf { attrs }, x, y, z, depth) == attrs,
{
}

} // verus!
