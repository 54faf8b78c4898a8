//! Rewriting single voxels of a sparse voxel octree in place.

use vstd::prelude::*;

use crate::domain::entities::sparse_voxel_octree::{
    apart, child_at, child_place, editable_with, fold, lemma_octant,
    lemma_side_shift, lookup, mask_bit, mask_exact_at, masks_exact_but,
    nodes_of, occupied, octant_of, place_at, placed, placed_at, side, Attrs, Node, Place,
    SparseVoxelOctree, SvoNode,
};

verus! {

spec fn in_side(x: int, y: int, z: int, level: nat) -> bool {
    0 <= x < side(level) && 0 <= y < side(level) && 0 <= z < side(level)
}

/// What the tree below node `i` says of a voxel given relative to its place.
spec fn seen(nodes: Seq<Node>, places: Seq<Place>, i: int, x: int, y: int, z: int) -> Attrs {
    lookup(nodes, nodes[i], x, y, z, places[i].level)
}

spec fn sees_voxel(p: Place, x: int, y: int, z: int, c: Place) -> bool {
    p.x + x == c.x && p.y + y == c.y && p.z + z == c.z
}

/// Writing one leaf at its own place changes that voxel alone.
proof fn lemma_write_leaf(
    nodes: Seq<Node>,
    places: Seq<Place>,
    t: int,
    leaf: Node,
    i: int,
    x: int,
    y: int,
    z: int,
)
    requires
        placed(nodes, places),
        0 <= t < nodes.len(),
        0 <= i < nodes.len(),
        places[t].level == 0,
        in_side(x, y, z, places[i].level),
        !sees_voxel(places[i], x, y, z, places[t]),
    ensures
        seen(nodes.update(t, leaf), places, i, x, y, z) == seen(nodes, places, i, x, y, z),
    decreases places[i].level,
{
    let after = nodes.update(t, leaf);
    assert(placed_at(nodes, places, i));
    assert(i != t) by {
        if i == t {
            assert(side(0) == 1);
        }
    }
    if let Node::Internal { base, mask } = nodes[i] {
        let less = (places[i].level - 1) as nat;
        let half = side(less) as int;
        let o = octant_of(x, y, z, half);
        lemma_octant(x, y, z, half);
        assert(place_at(places, base as int, o) == child_place(places[i], o));
        lemma_write_leaf(
            nodes,
            places,
            t,
            leaf,
            base + o,
            fold(x, half),
            fold(y, half),
            fold(z, half),
        );
        assert(after[i] == nodes[i]);
        assert(seen(after, places, i, x, y, z) == seen(
            after,
            places,
            base + o,
            fold(x, half),
            fold(y, half),
            fold(z, half),
        ));
    }
}

/// Swapping a node's mask changes no voxel.
proof fn lemma_write_mask(
    nodes: Seq<Node>,
    places: Seq<Place>,
    t: int,
    base: u32,
    mask: u8,
    new_mask: u8,
    i: int,
    x: int,
    y: int,
    z: int,
)
    requires
        placed(nodes, places),
        0 <= t < nodes.len(),
        0 <= i < nodes.len(),
        nodes[t] == (Node::Internal { base, mask }),
        in_side(x, y, z, places[i].level),
    ensures
        seen(nodes.update(t, Node::Internal { base, mask: new_mask }), places, i, x, y, z) == seen(
            nodes,
            places,
            i,
            x,
            y,
            z,
        ),
    decreases places[i].level,
{
    let after = nodes.update(t, Node::Internal { base, mask: new_mask });
    assert(placed_at(nodes, places, i));
    if let Node::Internal { base: b, .. } = nodes[i] {
        let less = (places[i].level - 1) as nat;
        let half = side(less) as int;
        let o = octant_of(x, y, z, half);
        lemma_octant(x, y, z, half);
        assert(place_at(places, b as int, o) == child_place(places[i], o));
        let fx = fold(x, half);
        let fy = fold(y, half);
        let fz = fold(z, half);
        lemma_write_mask(nodes, places, t, base, mask, new_mask, b + o, fx, fy, fz);
        assert(seen(after, places, i, x, y, z) == seen(after, places, b + o, fx, fy, fz));
        assert(seen(nodes, places, i, x, y, z) == seen(nodes, places, b + o, fx, fy, fz));
    }
}

spec fn eight(node: Node) -> Seq<Node> {
    Seq::new(8, |o: int| node)
}

spec fn eight_places(p: Place) -> Seq<Place> {
    Seq::new(8, |o: int| child_place(p, o))
}

/// The arena after leaf `t` is split into eight copies of itself.
spec fn split(nodes: Seq<Node>, t: int, mask: u8) -> Seq<Node> {
    nodes.update(t, Node::Internal { base: nodes.len() as u32, mask }) + eight(nodes[t])
}

/// Splitting a leaf changes no voxel.
proof fn lemma_split_seen(
    nodes: Seq<Node>,
    places: Seq<Place>,
    t: int,
    mask: u8,
    i: int,
    x: int,
    y: int,
    z: int,
)
    requires
        placed(nodes, places),
        nodes.len() <= u32::MAX,
        0 <= t < nodes.len(),
        0 <= i < nodes.len(),
        nodes[t] is Leaf,
        places[t].level > 0,
        in_side(x, y, z, places[i].level),
    ensures
        seen(split(nodes, t, mask), places + eight_places(places[t]), i, x, y, z) == seen(
            nodes,
            places,
            i,
            x,
            y,
            z,
        ),
    decreases places[i].level,
{
    let after = split(nodes, t, mask);
    let wider = places + eight_places(places[t]);
    assert(placed_at(nodes, places, i));
    assert(wider[i] == places[i]);
    if places[i].level > 0 {
        let less = (places[i].level - 1) as nat;
        let half = side(less) as int;
        let o = octant_of(x, y, z, half);
        lemma_octant(x, y, z, half);
        if i == t {
            assert(child_at(after, nodes.len() as int, o) == nodes[t]);
            reveal_with_fuel(lookup, 2);
        } else if let Node::Internal { base, .. } = nodes[i] {
            assert(after[i] == nodes[i]);
            assert(place_at(places, base as int, o) == child_place(places[i], o));
            let fx = fold(x, half);
            let fy = fold(y, half);
            let fz = fold(z, half);
            lemma_split_seen(nodes, places, t, mask, base + o, fx, fy, fz);
            assert(seen(after, wider, i, x, y, z) == seen(after, wider, base + o, fx, fy, fz));
            assert(seen(nodes, places, i, x, y, z) == seen(nodes, places, base + o, fx, fy, fz));
        }
    }
}

/// A split keeps the arena placed, apart and its masks exact.
proof fn lemma_split_shape(
    nodes: Seq<Node>,
    places: Seq<Place>,
    t: int,
    mask: u8,
    open: Set<int>,
)
    requires
        placed(nodes, places),
        apart(nodes),
        masks_exact_but(nodes, open),
        nodes.len() <= u32::MAX,
        0 <= t < nodes.len(),
        nodes[t] is Leaf,
        places[t].level > 0,
        forall|o: int| 0 <= o < 8 ==> #[trigger] mask_bit(mask, o) == occupied(nodes[t]),
    ensures
        placed(split(nodes, t, mask), places + eight_places(places[t])),
        apart(split(nodes, t, mask)),
        masks_exact_but(split(nodes, t, mask), open.insert(t)),
{
    let after = split(nodes, t, mask);
    let wider = places + eight_places(places[t]);
    let n = nodes.len() as int;
    assert forall|i: int| 0 <= i < after.len() implies #[trigger] placed_at(after, wider, i) by {
        if i < n {
            assert(placed_at(nodes, places, i));
            assert(wider[i] == places[i]);
            if i == t {
                assert forall|o: int| 0 <= o < 8 implies #[trigger] place_at(wider, n, o)
                    == child_place(wider[t], o) by {
                    assert(wider[n + o] == eight_places(places[t])[o]);
                }
            } else if let Node::Internal { base, .. } = nodes[i] {
                assert forall|o: int| 0 <= o < 8 implies #[trigger] place_at(
                    wider,
                    base as int,
                    o,
                ) == child_place(wider[i], o) by {
                    assert(place_at(places, base as int, o) == child_place(places[i], o));
                }
            }
        } else {
            assert(after[i] == nodes[t]);
        }
    }
    assert forall|i: int, j: int|
        #![trigger after[i], after[j]]
        0 <= i < after.len() && 0 <= j < after.len() && i != j implies (after[i] matches Node::Internal {
        base: a,
        ..
    } ==> (after[j] matches Node::Internal { base: b, .. } ==> a + 8 <= b || b + 8 <= a)) by {
        if i < n && j < n {
            assert(placed_at(nodes, places, i));
            assert(placed_at(nodes, places, j));
            if i != t && j != t {
                assert(after[i] == nodes[i] && after[j] == nodes[j]);
            }
        } else {
            assert(i >= n ==> after[i] == nodes[t]);
            assert(j >= n ==> after[j] == nodes[t]);
        }
    }
    assert forall|i: int, o: int| 0 <= i < after.len() && 0 <= o < 8 implies #[trigger] mask_exact_at(
        after,
        i,
        o,
        open.insert(t),
    ) by {
        if i < n {
            assert(placed_at(nodes, places, i));
            assert(mask_exact_at(nodes, i, o, open));
            if i == t {
                assert(after[n + o] == nodes[t]);
                assert(mask_bit(mask, o) == occupied(nodes[t]));
            }
        } else {
            assert(after[i] == nodes[t]);
        }
    }
}

proof fn lemma_mask_fill()
    ensures
        forall|o: int| 0 <= o < 8 ==> #[trigger] mask_bit(0xFFu8, o),
        forall|o: int| 0 <= o < 8 ==> !#[trigger] mask_bit(0u8, o),
{
    assert forall|o: int| 0 <= o < 8 implies #[trigger] mask_bit(0xFFu8, o) by {
        let bit = o as u8;
        assert((0xFFu8 >> bit) & 1u8 == 1u8) by (bit_vector)
            requires
                bit < 8,
        ;
    }
    assert forall|o: int| 0 <= o < 8 implies !#[trigger] mask_bit(0u8, o) by {
        let bit = o as u8;
        assert((0u8 >> bit) & 1u8 == 0u8) by (bit_vector);
    }
}

proof fn lemma_mask_write(mask: u8, i: u8, o: int)
    requires
        i < 8,
        0 <= o < 8,
    ensures
        mask_bit(mask | (1u8 << i), o) == (o == i || mask_bit(mask, o)),
        mask_bit(mask & !(1u8 << i), o) == (o != i && mask_bit(mask, o)),
{
    let bit = o as u8;
    assert(((mask | (1u8 << i)) >> bit) & 1u8 == (if i == bit {
        1u8
    } else {
        (mask >> bit) & 1u8
    })) by (bit_vector)
        requires
            i < 8,
            bit < 8,
    ;
    assert(((mask & !(1u8 << i)) >> bit) & 1u8 == (if i == bit {
        0u8
    } else {
        (mask >> bit) & 1u8
    })) by (bit_vector)
        requires
            i < 8,
            bit < 8,
    ;
}

proof fn lemma_nodes_update(nodes: Seq<SvoNode>, i: int, node: SvoNode)
    requires
        0 <= i < nodes.len(),
    ensures
        nodes_of(nodes.update(i, node)) == nodes_of(nodes).update(i, node@),
{
    assert(nodes_of(nodes.update(i, node)) =~= nodes_of(nodes).update(i, node@));
}

fn split_leaf(nodes: &mut Vec<SvoNode>, idx: usize)
    requires
        idx < old(nodes)@.len(),
        old(nodes)@.len() + 8 <= u32::MAX,
        old(nodes)@[idx as int]@ is Leaf,
    ensures
        ({
            let before = nodes_of(old(nodes)@);
            let mask = if occupied(before[idx as int]) {
                0xFFu8
            } else {
                0u8
            };
            nodes_of(final(nodes)@) == split(before, idx as int, mask)
        }),
{
    let ghost before = nodes_of(nodes@);
    let leaf: SvoNode = nodes[idx];
    let child_base_index: u32 = nodes.len() as u32;
    let child_mask: u8 = match leaf {
        SvoNode::Leaf { voxel_type, .. } => if voxel_type != 0 {
            0xFFu8
        } else {
            0u8
        },
        SvoNode::Internal { .. } => 0xFFu8,
    };
    let ghost node = SvoNode::Internal { child_base_index, child_mask };
    proof {
        lemma_nodes_update(nodes@, idx as int, node);
    }
    nodes[idx] = SvoNode::Internal { child_base_index, child_mask };
    let ghost start = nodes_of(nodes@);
    assert(start == before.update(idx as int, node@));
    let ghost copies = eight(leaf@);
    let mut o: usize = 0;
    assert(start =~= start + copies.take(0));
    while o < 8
        invariant
            o <= 8,
            copies == eight(leaf@),
            nodes_of(nodes@) == start + copies.take(o as int),
        decreases 8 - o,
    {
        proof {
            assert(nodes_of(nodes@.push(leaf)) =~= nodes_of(nodes@).push(leaf@));
            assert(start + copies.take(o + 1) =~= (start + copies.take(o as int)).push(leaf@));
        }
        nodes.push(leaf);
        o = o + 1;
    }
    assert(copies.take(8) =~= copies);
}

/// Writes one voxel below node `idx`, given relative to that node's place.
fn set_below(
    nodes: &mut Vec<SvoNode>,
    idx: usize,
    x: u32,
    y: u32,
    z: u32,
    level: u32,
    leaf: SvoNode,
    Ghost(places): Ghost<Seq<Place>>,
    Ghost(open): Ghost<Set<int>>,
) -> (wider: Ghost<Seq<Place>>)
    requires
        level < 32,
        idx < old(nodes)@.len(),
        old(nodes)@.len() + 8 * level <= u32::MAX,
        leaf@ is Leaf,
        placed(nodes_of(old(nodes)@), places),
        apart(nodes_of(old(nodes)@)),
        masks_exact_but(nodes_of(old(nodes)@), open),
        places[idx as int].level == level,
        in_side(x as int, y as int, z as int, level as nat),
    ensures
        ({
            let before = nodes_of(old(nodes)@);
            let after = nodes_of(final(nodes)@);
            &&& before.len() <= after.len() <= before.len() + 8 * level
            &&& places.len() <= wider@.len()
            &&& forall|i: int| 0 <= i < places.len() ==> #[trigger] wider@[i] == places[i]
            &&& forall|i: int|
                places.len() <= i < wider@.len() ==> (#[trigger] wider@[i]).level < level
            &&& placed(after, wider@)
            &&& apart(after)
            &&& masks_exact_but(after, open.insert(idx as int))
            &&& forall|i: int|
                0 <= i < before.len() && places[i].level > level ==> #[trigger] after[i]
                    == before[i]
            &&& if level == 0 {
                after[idx as int] == leaf@
            } else {
                after[idx as int] is Internal
            }
            &&& seen(after, wider@, idx as int, x as int, y as int, z as int) == leaf@->attrs
            &&& forall|i: int, a: int, b: int, c: int|
                0 <= i < before.len() && in_side(a, b, c, places[i].level) && !sees_voxel(
                    places[i],
                    a,
                    b,
                    c,
                    spot(places[idx as int], x as int, y as int, z as int),
                ) ==> #[trigger] seen(after, wider@, i, a, b, c) == seen(before, places, i, a, b, c)
        }),
    decreases level,
{
    let ghost before = nodes_of(nodes@);
    let ghost t = idx as int;
    let ghost target = spot(places[t], x as int, y as int, z as int);
    assert(placed_at(before, places, t));
    if level == 0 {
        assert(side(0) == 1);
        proof {
            lemma_nodes_update(nodes@, t, leaf);
            lemma_write_leaf_shape(before, places, t, leaf@, open);
            assert forall|i: int, a: int, b: int, c: int|
                0 <= i < before.len() && in_side(a, b, c, places[i].level) && !sees_voxel(
                    places[i],
                    a,
                    b,
                    c,
                    target,
                ) implies #[trigger] seen(before.update(t, leaf@), places, i, a, b, c) == seen(
                before,
                places,
                i,
                a,
                b,
                c,
            ) by {
                lemma_write_leaf(before, places, t, leaf@, i, a, b, c);
            }
        }
        nodes[idx] = leaf;
        return Ghost(places);
    }
    let ghost mut now = places;
    let needs_split: bool = match nodes[idx] {
        SvoNode::Leaf { .. } => true,
        SvoNode::Internal { .. } => false,
    };
    if needs_split {
        split_leaf(nodes, idx);
        proof {
            let mask = if occupied(before[t]) {
                0xFFu8
            } else {
                0u8
            };
            lemma_mask_fill();
            lemma_split_shape(before, places, t, mask, open);
            now = places + eight_places(places[t]);
            assert forall|i: int, a: int, b: int, c: int|
                0 <= i < before.len() && in_side(a, b, c, places[i].level) implies #[trigger] seen(
                nodes_of(nodes@),
                now,
                i,
                a,
                b,
                c,
            ) == seen(before, places, i, a, b, c) by {
                lemma_split_seen(before, places, t, mask, i, a, b, c);
            }
        }
    }
    let ghost mid = nodes_of(nodes@);
    assert(placed_at(mid, now, t));
    assert(mid[t] is Internal);
    assert(now[t] == places[t]);
    let (base, mask): (u32, u8) = match nodes[idx] {
        SvoNode::Internal { child_base_index, child_mask } => (child_base_index, child_mask),
        SvoNode::Leaf { .. } => (0, 0),
    };
    assert(mid[t] == Node::Internal { base, mask });
    proof {
        lemma_side_shift((level - 1) as u32);
        lemma_octant(x as int, y as int, z as int, side((level - 1) as nat) as int);
    }
    let half: u32 = 1u32 << (level - 1);
    let mut octant: u8 = 0;
    let mut lx: u32 = x;
    let mut ly: u32 = y;
    let mut lz: u32 = z;
    if lx >= half {
        octant = octant + 1;
        lx = lx - half;
    }
    if ly >= half {
        octant = octant + 2;
        ly = ly - half;
    }
    if lz >= half {
        octant = octant + 4;
        lz = lz - half;
    }
    let child: usize = base as usize + octant as usize;
    let ghost k = child as int;
    assert(place_at(now, base as int, octant as int) == child_place(now[t], octant as int));
    assert(spot(now[k], lx as int, ly as int, lz as int) == target);
    let ghost wide_open = open.insert(t);
    proof {
        lemma_open_more(mid, open, t);
    }
    let Ghost(wider) = set_below(
        nodes,
        child,
        lx,
        ly,
        lz,
        level - 1,
        leaf,
        Ghost(now),
        Ghost(wide_open),
    );
    let ghost low = nodes_of(nodes@);
    assert(low[t] == mid[t]);
    let taken: bool = match nodes[child] {
        SvoNode::Leaf { voxel_type, .. } => voxel_type != 0,
        SvoNode::Internal { .. } => true,
    };
    assert(taken == occupied(low[k]));
    let new_mask: u8 = if taken {
        mask | (1u8 << octant)
    } else {
        mask & !(1u8 << octant)
    };
    let parent = SvoNode::Internal { child_base_index: base, child_mask: new_mask };
    proof {
        lemma_nodes_update(nodes@, t, parent);
        lemma_write_mask_shape(low, wider, t, base, mask, octant, taken, new_mask, wide_open);
        assert forall|i: int, a: int, b: int, c: int|
            0 <= i < low.len() && in_side(a, b, c, wider[i].level) implies #[trigger] seen(
            low.update(t, parent@),
            wider,
            i,
            a,
            b,
            c,
        ) == seen(low, wider, i, a, b, c) by {
            lemma_write_mask(low, wider, t, base, mask, new_mask, i, a, b, c);
        }
    }
    nodes[idx] = parent;
    proof {
        let after = nodes_of(nodes@);
        assert(wider[t] == places[t]);
        assert(wider[k] == now[k]);
        assert(seen(after, wider, t, x as int, y as int, z as int) == seen(
            after,
            wider,
            k,
            lx as int,
            ly as int,
            lz as int,
        ));
        assert forall|i: int, a: int, b: int, c: int|
            0 <= i < before.len() && in_side(a, b, c, places[i].level) && !sees_voxel(
                places[i],
                a,
                b,
                c,
                target,
            ) implies #[trigger] seen(after, wider, i, a, b, c) == seen(before, places, i, a, b, c) by {
            assert(now[i] == places[i]);
            assert(wider[i] == places[i]);
            assert(seen(low, wider, i, a, b, c) == seen(mid, now, i, a, b, c));
            assert(seen(mid, now, i, a, b, c) == seen(before, places, i, a, b, c));
        }
    }
    Ghost(wider)
}

spec fn spot(p: Place, x: int, y: int, z: int) -> Place {
    Place { x: p.x + x, y: p.y + y, z: p.z + z, level: 0 }
}

proof fn lemma_write_leaf_shape(
    nodes: Seq<Node>,
    places: Seq<Place>,
    t: int,
    leaf: Node,
    open: Set<int>,
)
    requires
        placed(nodes, places),
        apart(nodes),
        masks_exact_but(nodes, open),
        0 <= t < nodes.len(),
        nodes[t] is Leaf,
        leaf is Leaf,
    ensures
        placed(nodes.update(t, leaf), places),
        apart(nodes.update(t, leaf)),
        masks_exact_but(nodes.update(t, leaf), open.insert(t)),
{
    let after = nodes.update(t, leaf);
    assert forall|i: int| 0 <= i < after.len() implies #[trigger] placed_at(after, places, i) by {
        assert(placed_at(nodes, places, i));
    }
    assert forall|i: int, o: int| 0 <= i < after.len() && 0 <= o < 8 implies #[trigger] mask_exact_at(
        after,
        i,
        o,
        open.insert(t),
    ) by {
        assert(placed_at(nodes, places, i));
        assert(mask_exact_at(nodes, i, o, open));
    }
}

proof fn lemma_open_more(nodes: Seq<Node>, open: Set<int>, t: int)
    ensures
        masks_exact_but(nodes, open) ==> masks_exact_but(nodes, open.insert(t)),
{
    if masks_exact_but(nodes, open) {
        assert forall|i: int, o: int|
            0 <= i < nodes.len() && 0 <= o < 8 implies #[trigger] mask_exact_at(
            nodes,
            i,
            o,
            open.insert(t),
        ) by {
            assert(mask_exact_at(nodes, i, o, open));
        }
    }
}

proof fn lemma_write_mask_shape(
    nodes: Seq<Node>,
    places: Seq<Place>,
    t: int,
    base: u32,
    mask: u8,
    octant: u8,
    taken: bool,
    new_mask: u8,
    open: Set<int>,
)
    requires
        placed(nodes, places),
        apart(nodes),
        octant < 8,
        masks_exact_but(nodes, open.insert(base + octant)),
        0 <= t < nodes.len(),
        nodes[t] == (Node::Internal { base, mask }),
        taken == occupied(nodes[base + octant]),
        new_mask == if taken {
            mask | (1u8 << octant)
        } else {
            mask & !(1u8 << octant)
        },
    ensures
        placed(nodes.update(t, Node::Internal { base, mask: new_mask }), places),
        apart(nodes.update(t, Node::Internal { base, mask: new_mask })),
        open.contains(t) ==> masks_exact_but(
            nodes.update(t, Node::Internal { base, mask: new_mask }),
            open,
        ),
{
    let after = nodes.update(t, Node::Internal { base, mask: new_mask });
    assert forall|i: int| 0 <= i < after.len() implies #[trigger] placed_at(after, places, i) by {
        assert(placed_at(nodes, places, i));
    }
    assert forall|i: int, j: int|
        #![trigger after[i], after[j]]
        0 <= i < after.len() && 0 <= j < after.len() && i != j implies (after[i] matches Node::Internal {
        base: a,
        ..
    } ==> (after[j] matches Node::Internal { base: b, .. } ==> a + 8 <= b || b + 8 <= a)) by {
        assert(nodes[i] == nodes[i] && nodes[j] == nodes[j]);
    }
    assert forall|i: int, o: int|
        open.contains(t) && 0 <= i < after.len() && 0 <= o < 8 implies #[trigger] mask_exact_at(
        after,
        i,
        o,
        open,
    ) by {
        assert(placed_at(nodes, places, i));
        assert(placed_at(nodes, places, t));
        assert(mask_exact_at(nodes, i, o, open.insert(base + octant)));
        if i == t {
            lemma_mask_write(mask, octant, o);
        } else {
            assert(nodes[i] == after[i]);
            assert(nodes[t] is Internal);
        }
    }
}

impl SparseVoxelOctree {
    /// Writes one voxel, splitting the leaves on the way to it. Coordinates
    /// outside the cube change nothing.
    pub fn set(
        &mut self,
        x: u32,
        y: u32,
        z: u32,
        voxel_type: u8,
        color: u32,
        light_rgb: [u8; 3],
        face_occlusion: u8,
    )
        requires
            old(self).wf(),
            old(self).nodes@.len() + 8 * old(self).depth <= u32::MAX,
        ensures
            final(self).wf(),
            final(self).root == old(self).root,
            final(self).depth == old(self).depth,
            final(self).world_size_bits == old(self).world_size_bits,
            final(self).nodes@.len() <= old(self).nodes@.len() + 8 * old(self).depth,
            !old(self).in_cube(x as int, y as int, z as int) ==> *final(self) == *old(self),
            forall|i: int, j: int, k: int|
                old(self).in_cube(i, j, k) ==> #[trigger] final(self).voxel(i, j, k) == if i == x && j
                    == y && k == z {
                    Attrs {
                        voxel_type,
                        color,
                        rgb: (light_rgb[0], light_rgb[1], light_rgb[2]),
                        occlusion: face_occlusion,
                    }
                } else {
                    old(self).voxel(i, j, k)
                },
    {
        proof {
            lemma_side_shift(self.depth);
        }
        let size: u32 = 1u32 << self.depth;
        if x >= size || y >= size || z >= size {
            return;
        }
        let ghost before = self.arena();
        let ghost root = self.root as int;
        let ghost depth = self.depth as nat;
        let ghost places = choose|places: Seq<Place>| editable_with(before, root, depth, places);
        let leaf = SvoNode::Leaf { voxel_type, color, light_rgb, face_occlusion };
        let Ghost(wider) = set_below(
            &mut self.nodes,
            self.root,
            x,
            y,
            z,
            self.depth,
            leaf,
            Ghost(places),
            Ghost(Set::empty()),
        );
        proof {
            let after = self.arena();
            assert(wider[root] == places[root]);
            assert forall|i: int| 0 <= i < wider.len() implies (#[trigger] wider[i]).level <= depth by {
                if i < places.len() {
                    assert(wider[i] == places[i]);
                }
            }
            lemma_root_has_no_parent(after, wider, root, depth);
            assert(editable_with(after, root, depth, wider));
            let t = spot(places[root], x as int, y as int, z as int);
            assert forall|i: int, j: int, k: int| self.in_cube(i, j, k) implies #[trigger] self.voxel(
                i,
                j,
                k,
            ) == if i == x && j == y && k == z {
                leaf@->attrs
            } else {
                lookup(before, before[root], i, j, k, depth)
            } by {
                assert(self.voxel(i, j, k) == seen(after, wider, root, i, j, k));
                if !(i == x && j == y && k == z) {
                    assert(!sees_voxel(places[root], i, j, k, t));
                    assert(seen(after, wider, root, i, j, k) == seen(before, places, root, i, j, k));
                }
            }
        }
    }
}

/// The root lies in nobody's octant, so no mask speaks of it.
proof fn lemma_root_has_no_parent(nodes: Seq<Node>, places: Seq<Place>, root: int, depth: nat)
    requires
        placed(nodes, places),
        0 <= root < nodes.len(),
        places[root].level == depth,
        forall|i: int| 0 <= i < places.len() ==> (#[trigger] places[i]).level <= depth,
        masks_exact_but(nodes, Set::empty().insert(root)),
    ensures
        masks_exact_but(nodes, Set::empty()),
{
    assert forall|i: int, o: int| 0 <= i < nodes.len() && 0 <= o < 8 implies #[trigger] mask_exact_at(
        nodes,
        i,
        o,
        Set::empty(),
    ) by {
        assert(mask_exact_at(nodes, i, o, Set::empty().insert(root)));
        assert(placed_at(nodes, places, i));
        if let Node::Internal { base, .. } = nodes[i] {
            assert(place_at(places, base as int, o) == child_place(places[i], o));
        }
    }
}

} // verus!
