//! Flattens the sparse voxel octree into an RGBA32UI texture.
//!
//! Each node is one texel of four 32-bit words:
//!
//! | word | internal node      | leaf                                          |
//! |------|--------------------|-----------------------------------------------|
//! | R    | `0`                | `1`                                           |
//! | G    | first child index  | voxel type                                    |
//! | B    | 8-bit child mask   | 24-bit color `0xRRGGBB`                       |
//! | A    | `0`                | packed light, see [`packed_light`]            |

use vstd::prelude::*;

use crate::domain::entities::sparse_voxel_octree::{Node, SparseVoxelOctree, SvoNode};
use crate::domain::entities::voxel_grid::brightest;

verus! {

/// Texels per texture row.
pub const TEXTURE_WIDTH: usize = 1024;

/// The flattened octree, ready for upload as a texture.
#[derive(Debug, Clone)]
pub struct OctreeGpuData {
    pub texture_width: u32,
    pub texture_height: u32,
    pub texel_data: Vec<u32>,
}

/// GPU adapter that flattens the octree into texture words.
pub struct OctreeGpuSerializer;

/// One texel: its R, G, B and A words.
pub struct Texel {
    pub r: u32,
    pub g: u32,
    pub b: u32,
    pub a: u32,
}

/// Bits 0-7 the scalar level, 8-15 the face mask, then four bits each of red,
/// green and blue light.
pub open spec fn packed_light(rgb: (u8, u8, u8), occlusion: u8) -> u32 {
    (brightest(rgb) as u32) | ((occlusion as u32) << 8u32) | (((rgb.0 as u32) & 0xFu32) << 16u32)
        | (((rgb.1 as u32) & 0xFu32) << 20u32) | (((rgb.2 as u32) & 0xFu32) << 24u32)
}

pub open spec fn texel_of(node: Node) -> Texel {
    match node {
        Node::Leaf { attrs } => Texel {
            r: 1,
            g: attrs.voxel_type as u32,
            b: attrs.color,
            a: packed_light(attrs.rgb, attrs.occlusion),
        },
        Node::Internal { base, mask } => Texel { r: 0, g: base, b: mask as u32, a: 0 },
    }
}

/// Padding: an unlit leaf of air.
pub open spec fn padding_texel() -> Texel {
    Texel { r: 1, g: 0, b: 0, a: 0 }
}

/// Whole texture rows that `count` nodes need.
pub open spec fn rows_for(count: int) -> int {
    (count + TEXTURE_WIDTH - 1) / TEXTURE_WIDTH as int
}

pub open spec fn texel_at(words: Seq<u32>, i: int) -> Texel {
    Texel { r: words[4 * i], g: words[4 * i + 1], b: words[4 * i + 2], a: words[4 * i + 3] }
}

/// The first `n` texels hold the nodes, then padding.
pub open spec fn texels_hold(words: Seq<u32>, arena: Seq<Node>, n: int) -> bool {
    &&& words.len() == 4 * n
    &&& forall|i: int|
        0 <= i < n ==> #[trigger] texel_at(words, i) == if i < arena.len() {
            texel_of(arena[i])
        } else {
            padding_texel()
        }
}

fn push_texel(words: &mut Vec<u32>, r: u32, g: u32, b: u32, a: u32)
    ensures
        final(words)@ == old(words)@.push(r).push(g).push(b).push(a),
{
    words.push(r);
    words.push(g);
    words.push(b);
    words.push(a);
}

fn push_node(words: &mut Vec<u32>, node: SvoNode)
    ensures
        ({
            let t = texel_of(node@);
            final(words)@ == old(words)@.push(t.r).push(t.g).push(t.b).push(t.a)
        }),
{
    match node {
        SvoNode::Leaf { voxel_type, color, light_rgb, face_occlusion } => {
            let r: u8 = light_rgb[0];
            let g: u8 = light_rgb[1];
            let b: u8 = light_rgb[2];
            let rg: u8 = if r >= g {
                r
            } else {
                g
            };
            let scalar: u8 = if rg >= b {
                rg
            } else {
                b
            };
            let light: u32 = (scalar as u32) | ((face_occlusion as u32) << 8u32) | (((r as u32)
                & 0xFu32) << 16u32) | (((g as u32) & 0xFu32) << 20u32) | (((b as u32) & 0xFu32)
                << 24u32);
            push_texel(words, 1, voxel_type as u32, color, light);
        },
        SvoNode::Internal { child_base_index, child_mask } => {
            push_texel(words, 0, child_base_index, child_mask as u32, 0);
        },
    }
}

proof fn lemma_push_texel(words: Seq<u32>, arena: Seq<Node>, n: int, t: Texel)
    requires
        0 <= n,
        texels_hold(words, arena, n),
        t == if n < arena.len() {
            texel_of(arena[n])
        } else {
            padding_texel()
        },
    ensures
        texels_hold(words.push(t.r).push(t.g).push(t.b).push(t.a), arena, n + 1),
{
    let longer = words.push(t.r).push(t.g).push(t.b).push(t.a);
    assert forall|i: int| 0 <= i < n + 1 implies #[trigger] texel_at(longer, i) == if i
        < arena.len() {
        texel_of(arena[i])
    } else {
        padding_texel()
    } by {
        if i < n {
            assert(texel_at(longer, i) == texel_at(words, i));
        }
    }
}

impl OctreeGpuSerializer {
    /// Serializes octree nodes into texture-ready words, one texel per node in
    /// arena order, padding the last row with empty leaves so that no shader
    /// fetch leaves the texture.
    pub fn serialize_to_gpu_data(octree: &SparseVoxelOctree) -> (data: OctreeGpuData)
        requires
            4 * (rows_for(octree.nodes@.len() as int) * TEXTURE_WIDTH) <= usize::MAX,
        ensures
            data.texture_width == TEXTURE_WIDTH,
            data.texture_height == (rows_for(octree.nodes@.len() as int) as u32),
            texels_hold(
                data.texel_data@,
                octree.arena(),
                rows_for(octree.nodes@.len() as int) * TEXTURE_WIDTH,
            ),
    {
        let num_nodes: usize = octree.nodes.len();
        let rows: usize = (num_nodes + TEXTURE_WIDTH - 1) / TEXTURE_WIDTH;
        let total_texels: usize = rows * TEXTURE_WIDTH;
        let mut texel_data: Vec<u32> = Vec::with_capacity(total_texels * 4);
        let ghost arena = octree.arena();
        let mut i: usize = 0;
        while i < num_nodes
            invariant
                i <= num_nodes,
                num_nodes == octree.nodes@.len(),
                arena == octree.arena(),
                texels_hold(texel_data@, arena, i as int),
            decreases num_nodes - i,
        {
            let node = octree.nodes[i];
            proof {
                assert(arena[i as int] == node@);
                lemma_push_texel(texel_data@, arena, i as int, texel_of(node@));
            }
            push_node(&mut texel_data, node);
            i = i + 1;
        }
        while i < total_texels
            invariant
                num_nodes <= i <= total_texels,
                num_nodes == arena.len(),
                texels_hold(texel_data@, arena, i as int),
            decreases total_texels - i,
        {
            proof {
                lemma_push_texel(texel_data@, arena, i as int, padding_texel());
            }
            push_texel(&mut texel_data, 1, 0, 0, 0);
            i = i + 1;
        }
        OctreeGpuData { texture_width: TEXTURE_WIDTH as u32, texture_height: rows as u32, texel_data }
    }
}

/// The fields of a packed light word read back: the level, the face mask and
/// the low four bits of each channel.
pub proof fn law_packed_light_unpacks(rgb: (u8, u8, u8), occlusion: u8)
    ensures
        packed_light(rgb, occlusion) & 0xFFu32 == brightest(rgb) as u32,
        (packed_light(rgb, occlusion) >> 8u32) & 0xFFu32 == occlusion as u32,
        (packed_light(rgb, occlusion) >> 16u32) & 0xFu32 == (rgb.0 as u32) & 0xFu32,
        (packed_light(rgb, occlusion) >> 20u32) & 0xFu32 == (rgb.1 as u32) & 0xFu32,
        (packed_light(rgb, occlusion) >> 24u32) & 0xFu32 == (rgb.2 as u32) & 0xFu32,
{
    let s = brightest(rgb);
    let r = rgb.0;
    let g = rgb.1;
    let b = rgb.2;
    let word = packed_light(rgb, occlusion);
    assert(word == (s as u32) | ((occlusion as u32) << 8u32) | (((r as u32) & 0xFu32) << 16u32) | (((
    g as u32) & 0xFu32) << 20u32) | (((b as u32) & 0xFu32) << 24u32) ==> {
        &&& word & 0xFFu32 == s as u32
        &&& (word >> 8u32) & 0xFFu32 == occlusion as u32
        &&& (word >> 16u32) & 0xFu32 == (r as u32) & 0xFu32
        &&& (word >> 20u32) & 0xFu32 == (g as u32) & 0xFu32
        &&& (word >> 24u32) & 0xFu32 == (b as u32) & 0xFu32
    }) by (bit_vector);
}

/// Distinct node contents give distinct texels, as long as light channels keep
/// to four bits: a texel determines its node.
pub proof fn law_texels_are_faithful(a: Node, b: Node)
    requires
        texel_of(a) == texel_of(b),
        a matches Node::Leaf { attrs } ==> attrs.rgb.0 < 16 && attrs.rgb.1 < 16 && attrs.rgb.2 < 16,
        b matches Node::Leaf { attrs } ==> attrs.rgb.0 < 16 && attrs.rgb.1 < 16 && attrs.rgb.2 < 16,
    ensures
        a == b,
{
    if let Node::Leaf { attrs: x } = a {
        if let Node::Leaf { attrs: y } = b {
            law_packed_light_unpacks(x.rgb, x.occlusion);
            law_packed_light_unpacks(y.rgb, y.occlusion);
            lemma_low_bits(x.rgb.0);
            lemma_low_bits(x.rgb.1);
            lemma_low_bits(x.rgb.2);
            lemma_low_bits(y.rgb.0);
            lemma_low_bits(y.rgb.1);
            lemma_low_bits(y.rgb.2);
        }
    }
}

proof fn lemma_low_bits(v: u8)
    requires
        v < 16,
    ensures
        (v as u32) & 0xFu32 == v,
{
    assert(v < 16 ==> (v as u32) & 0xFu32 == v as u32) by (bit_vector);
}

/// The texture holds every node in arena order, four words each. A leaf's first word
/// is one; then come its material, its color and its light, of which the lowest byte is
/// its brightest channel and the next its face mask. An inner node's first word is
/// zero; then come the index of its first child and its mask. What is left of the last
/// row is leaves of unlit air, and no row is left empty.
pub proof fn law_texture_holds_every_node(words: Seq<u32>, arena: Seq<Node>, i: int)
    requires
        texels_hold(words, arena, rows_for(arena.len() as int) * TEXTURE_WIDTH),
    ensures
        words.len() % 4096 == 0,
        4 * arena.len() <= words.len() < 4 * arena.len() + 4096,
        0 <= i < arena.len() ==> match arena[i] {
            Node::Leaf { attrs } => {
                &&& words[4 * i] == 1
                &&& words[4 * i + 1] == attrs.voxel_type
                &&& words[4 * i + 2] == attrs.color
                &&& words[4 * i + 3] & 0xFFu32 == brightest(attrs.rgb) as u32
                &&& (words[4 * i + 3] >> 8u32) & 0xFFu32 == attrs.occlusion as u32
                &&& (words[4 * i + 3] >> 16u32) & 0xFu32 == (attrs.rgb.0 as u32) & 0xFu32
                &&& (words[4 * i + 3] >> 20u32) & 0xFu32 == (attrs.rgb.1 as u32) & 0xFu32
                &&& (words[4 * i + 3] >> 24u32) & 0xFu32 == (attrs.rgb.2 as u32) & 0xFu32
            },
            Node::Internal { base, mask } => {
                &&& words[4 * i] == 0
                &&& words[4 * i + 1] == base
                &&& words[4 * i + 2] == mask
                &&& words[4 * i + 3] == 0
            },
        },
        arena.len() <= i && 4 * i < words.len() ==> words[4 * i] == 1 && words[4 * i + 1] == 0
            && words[4 * i + 2] == 0 && words[4 * i + 3] == 0,
{
    let n = rows_for(arena.len() as int) * TEXTURE_WIDTH;
    if 0 <= i < arena.len() {
        assert(texel_at(words, i) == texel_of(arena[i]));
        if let Node::Leaf { attrs } = arena[i] {
            law_packed_light_unpacks(attrs.rgb, attrs.occlusion);
        }
    } else if arena.len() <= i && 4 * i < words.len() {
        assert(texel_at(words, i) == padding_texel());
    }
}

} // verus!
