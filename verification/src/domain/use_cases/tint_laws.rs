//! What color of light lighting records: the tint of a voxel is that of a lamp
//! whose light can have come to it.

use vstd::prelude::*;

use crate::domain::entities::voxel_grid::{GridModel, VOXEL_AIR, VOXEL_LIGHT, VOXEL_RED_LIGHT};
use crate::domain::use_cases::calculate_lighting::{
    emits, flooded, lemma_spread_progress, lit_sources, relax, row_sources, settled, slice_sources,
    sources, spread, tinted, total_room, Beam, Flood,
};
use crate::domain::use_cases::lighting_laws::{
    holds, law_levels_are_best_chains, law_lighting_frame, lemma_reached_bound, level_at,
    material_at, relit, touching, Spot,
};

verus! {

/// A path from face to face that starts at a voxel of the given material and
/// passes through air alone.
pub open spec fn is_path(g: GridModel, path: Seq<Spot>, lamp: u8) -> bool {
    &&& path.len() > 0
    &&& material_at(g, path[0]) == lamp
    &&& forall|i: int| 0 <= i < path.len() ==> holds(g, #[trigger] path[i])
    &&& forall|i: int|
        0 < i < path.len() - 1 ==> material_at(g, #[trigger] path[i]) == VOXEL_AIR
    &&& forall|i: int, j: int|
        #![trigger path[i], path[j]]
        0 <= i && j == i + 1 && j < path.len() ==> touching(path[i], path[j])
}

/// Such a path leads to the voxel.
pub open spec fn leads_to(g: GridModel, lamp: u8, s: Spot) -> bool {
    exists|path: Seq<Spot>| #[trigger] is_path(g, path, lamp) && path.last() == s
}

/// Bit 6 of the voxel's face mask.
pub open spec fn is_red(g: GridModel, s: Spot) -> bool {
    g.at(s.x, s.y, s.z).occlusion & 0b0100_0000u8 != 0
}

/// The rest of the voxel's face mask.
pub open spec fn other_bits(g: GridModel, s: Spot) -> u8 {
    g.at(s.x, s.y, s.z).occlusion & 0b1011_1111u8
}

spec fn lamp_of(red: bool) -> u8 {
    if red {
        VOXEL_RED_LIGHT
    } else {
        VOXEL_LIGHT
    }
}

spec fn spot_of(b: Beam) -> Spot {
    Spot { x: b.x, y: b.y, z: b.z }
}

/// The path leads to the beam's voxel, and may be drawn on from there.
spec fn extendable(g: GridModel, path: Seq<Spot>, b: Beam) -> bool {
    &&& is_path(g, path, lamp_of(b.red))
    &&& path.last() == spot_of(b)
    &&& path.len() == 1 || material_at(g, spot_of(b)) == VOXEL_AIR
}

spec fn from_lamp(g: GridModel, b: Beam) -> bool {
    exists|path: Seq<Spot>| #[trigger] extendable(g, path, b)
}

spec fn told_at(g: GridModel, f: Flood, s: Spot) -> bool {
    !emits(material_at(g, s)) && level_at(f.grid, s) > level_at(g, s) ==> leads_to(
        g,
        lamp_of(is_red(f.grid, s)),
        s,
    )
}

/// Every beam comes from a lamp of its tint, and so does the light of every
/// voxel that the flood has raised.
spec fn told(g: GridModel, f: Flood) -> bool {
    &&& f.grid.same_extents(g)
    &&& forall|s: Spot| #[trigger] material_at(f.grid, s) == material_at(g, s)
    &&& forall|i: int| 0 <= i < f.queue.len() ==> from_lamp(g, #[trigger] f.queue[i])
    &&& forall|s: Spot| holds(g, s) ==> #[trigger] told_at(g, f, s)
}

proof fn lemma_tint_bit(mask: u8, red: bool)
    ensures
        tinted(mask, red) & 0b0100_0000u8 != 0 <==> red,
        tinted(mask, red) & 0b1011_1111u8 == mask & 0b1011_1111u8,
{
    assert((mask | 0b0100_0000u8) & 0b0100_0000u8 != 0 && (mask | 0b0100_0000u8) & 0b1011_1111u8
        == mask & 0b1011_1111u8 && (mask & 0b1011_1111u8) & 0b0100_0000u8 == 0 && (mask
        & 0b1011_1111u8) & 0b1011_1111u8 == mask & 0b1011_1111u8) by (bit_vector);
}

proof fn lemma_told_relax(g: GridModel, f: Flood, b: Beam, level: u8, n: Spot)
    requires
        told(g, f),
        from_lamp(g, b),
        touching(spot_of(b), n),
    ensures
        told(g, relax(f, b, level, n.x, n.y, n.z)),
{
    let after = relax(f, b, level, n.x, n.y, n.z);
    if after != f {
        let path = choose|path: Seq<Spot>| #[trigger] extendable(g, path, b);
        let longer = path.push(n);
        let lamp = lamp_of(b.red);
        let next = Beam { x: n.x, y: n.y, z: n.z, red: b.red };
        lemma_tint_bit(f.grid.at(n.x, n.y, n.z).occlusion, b.red);
        assert(is_path(g, longer, lamp)) by {
            assert forall|i: int| 0 <= i < longer.len() implies holds(g, #[trigger] longer[i]) by {
                if i < path.len() {
                    assert(longer[i] == path[i]);
                }
            }
            assert forall|i: int| 0 < i < longer.len() - 1 implies material_at(
                g,
                #[trigger] longer[i],
            ) == VOXEL_AIR by {
                assert(longer[i] == path[i]);
            }
            assert forall|i: int, j: int|
                #![trigger longer[i], longer[j]]
                0 <= i && j == i + 1 && j < longer.len() implies touching(longer[i], longer[j]) by {
                assert(longer[i] == path[i]);
                if j < path.len() {
                    assert(longer[j] == path[j]);
                }
            }
            assert(longer[0] == path[0]);
        }
        assert(longer.last() == n);
        assert forall|s: Spot| #[trigger] material_at(after.grid, s) == material_at(g, s) by {
            assert(material_at(f.grid, s) == material_at(g, s));
        }
        assert forall|i: int| 0 <= i < after.queue.len() implies from_lamp(
            g,
            #[trigger] after.queue[i],
        ) by {
            if i < f.queue.len() {
                assert(after.queue[i] == f.queue[i]);
            } else {
                assert(after.queue[i] == next);
                assert(material_at(f.grid, n) == material_at(g, n));
                assert(extendable(g, longer, next));
            }
        }
        assert forall|s: Spot| holds(g, s) implies #[trigger] told_at(g, after, s) by {
            if s == n {
                assert(is_red(after.grid, n) == b.red);
            } else {
                assert(told_at(g, f, s));
                assert(after.grid.at(s.x, s.y, s.z) == f.grid.at(s.x, s.y, s.z));
            }
        }
    }
}

proof fn lemma_told_settled(g: GridModel, f: Flood)
    requires
        told(g, f),
    ensures
        told(g, Flood { grid: settled(f), queue: Seq::empty() }),
    decreases total_room(f.grid), f.queue.len(),
{
    if f.queue.len() == 0 {
        assert(f.queue =~= Seq::empty());
    } else {
        lemma_spread_progress(f);
        let b = f.queue[0];
        let level = f.grid.level(b.x, b.y, b.z);
        let f0 = Flood { grid: f.grid, queue: f.queue.drop_first() };
        assert forall|i: int| 0 <= i < f0.queue.len() implies from_lamp(
            g,
            #[trigger] f0.queue[i],
        ) by {
            assert(f0.queue[i] == f.queue[i + 1]);
        }
        assert forall|s: Spot| holds(g, s) implies #[trigger] told_at(g, f0, s) by {
            assert(told_at(g, f, s));
        }
        assert(told(g, f0));
        let n1 = Spot { x: b.x + 1, y: b.y, z: b.z };
        let n2 = Spot { x: b.x - 1, y: b.y, z: b.z };
        let n3 = Spot { x: b.x, y: b.y + 1, z: b.z };
        let n4 = Spot { x: b.x, y: b.y - 1, z: b.z };
        let n5 = Spot { x: b.x, y: b.y, z: b.z + 1 };
        let n6 = Spot { x: b.x, y: b.y, z: b.z - 1 };
        let f1 = relax(f0, b, level, n1.x, n1.y, n1.z);
        let f2 = relax(f1, b, level, n2.x, n2.y, n2.z);
        let f3 = relax(f2, b, level, n3.x, n3.y, n3.z);
        let f4 = relax(f3, b, level, n4.x, n4.y, n4.z);
        let f5 = relax(f4, b, level, n5.x, n5.y, n5.z);
        lemma_told_relax(g, f0, b, level, n1);
        lemma_told_relax(g, f1, b, level, n2);
        lemma_told_relax(g, f2, b, level, n3);
        lemma_told_relax(g, f3, b, level, n4);
        lemma_told_relax(g, f4, b, level, n5);
        lemma_told_relax(g, f5, b, level, n6);
        assert(told(g, spread(f)));
        lemma_told_settled(g, spread(f));
    }
}

/// A beam that starts at a lamp has the lamp's tint.
spec fn starts_at_lamp(g: GridModel, b: Beam) -> bool {
    holds(g, spot_of(b)) && material_at(g, spot_of(b)) == lamp_of(b.red)
}

proof fn lemma_row_lamps(g: GridModel, n: nat, y: int, z: int)
    requires
        n <= g.width,
        0 <= y < g.height,
        0 <= z < g.depth,
    ensures
        forall|i: int|
            0 <= i < row_sources(g, n, y, z).len() ==> starts_at_lamp(
                g,
                #[trigger] row_sources(g, n, y, z)[i],
            ),
    decreases n,
{
    if n > 0 {
        lemma_row_lamps(g, (n - 1) as nat, y, z);
        let before = row_sources(g, (n - 1) as nat, y, z);
        let all = row_sources(g, n, y, z);
        assert forall|i: int| 0 <= i < all.len() implies starts_at_lamp(g, #[trigger] all[i]) by {
            if i < before.len() {
                assert(all[i] == before[i]);
            }
        }
    }
}

proof fn lemma_slice_lamps(g: GridModel, n: nat, z: int)
    requires
        g.width >= 0,
        n <= g.height,
        0 <= z < g.depth,
    ensures
        forall|i: int|
            0 <= i < slice_sources(g, n, z).len() ==> starts_at_lamp(
                g,
                #[trigger] slice_sources(g, n, z)[i],
            ),
    decreases n,
{
    if n > 0 {
        lemma_slice_lamps(g, (n - 1) as nat, z);
        lemma_row_lamps(g, g.width as nat, n - 1, z);
        let before = slice_sources(g, (n - 1) as nat, z);
        let more = row_sources(g, g.width as nat, n - 1, z);
        let all = slice_sources(g, n, z);
        assert forall|i: int| 0 <= i < all.len() implies starts_at_lamp(g, #[trigger] all[i]) by {
            if i < before.len() {
                assert(all[i] == before[i]);
            } else {
                assert(all[i] == more[i - before.len()]);
            }
        }
    }
}

proof fn lemma_lamps(g: GridModel, n: nat)
    requires
        g.width >= 0,
        g.height >= 0,
        n <= g.depth,
    ensures
        forall|i: int|
            0 <= i < sources(g, n).len() ==> starts_at_lamp(g, #[trigger] sources(g, n)[i]),
    decreases n,
{
    if n > 0 {
        lemma_lamps(g, (n - 1) as nat);
        lemma_slice_lamps(g, g.height as nat, n - 1);
        let before = sources(g, (n - 1) as nat);
        let more = slice_sources(g, g.height as nat, n - 1);
        let all = sources(g, n);
        assert forall|i: int| 0 <= i < all.len() implies starts_at_lamp(g, #[trigger] all[i]) by {
            if i < before.len() {
                assert(all[i] == before[i]);
            } else {
                assert(all[i] == more[i - before.len()]);
            }
        }
    }
}

/// Tint follows its source. A voxel that is no lamp and whose level lighting
/// raises is marked red only if a path from face to face through air leads to it
/// from a red lamp, and not marked only if such a path leads to it from a white
/// one.
pub proof fn law_tint_follows_its_source(g: GridModel, s: Spot)
    requires
        g.width >= 0,
        g.height >= 0,
        g.depth >= 0,
        holds(g, s),
        material_at(g, s) != VOXEL_LIGHT,
        material_at(g, s) != VOXEL_RED_LIGHT,
        level_at(flooded(g), s) > level_at(g, s),
    ensures
        is_red(flooded(g), s) ==> leads_to(g, VOXEL_RED_LIGHT, s),
        !is_red(flooded(g), s) ==> leads_to(g, VOXEL_LIGHT, s),
{
    let start = Flood { grid: lit_sources(g), queue: sources(g, g.depth as nat) };
    lemma_lamps(g, g.depth as nat);
    assert forall|i: int| 0 <= i < start.queue.len() implies from_lamp(
        g,
        #[trigger] start.queue[i],
    ) by {
        let b = sources(g, g.depth as nat)[i];
        assert(starts_at_lamp(g, b));
        let path = seq![spot_of(b)];
        assert(extendable(g, path, b));
    }
    assert(told(g, start)) by {
        assert forall|t: Spot| #[trigger] material_at(start.grid, t) == material_at(g, t) by {}
        assert forall|t: Spot| holds(g, t) implies #[trigger] told_at(g, start, t) by {}
    }
    lemma_told_settled(g, start);
    assert(told_at(g, Flood { grid: flooded(g), queue: Seq::empty() }, s));
}

/// Where no red lamp stands, nothing that lighting raises is marked red, but a
/// white lamp that was marked before; where no white lamp stands, everything that
/// it raises is.
pub proof fn law_one_kind_of_lamp_gives_one_tint(g: GridModel, s: Spot)
    requires
        g.width >= 0,
        g.height >= 0,
        g.depth >= 0,
        holds(g, s),
        level_at(flooded(g), s) > level_at(g, s),
    ensures
        (forall|t: Spot| holds(g, t) ==> #[trigger] material_at(g, t) != VOXEL_RED_LIGHT) ==> (
        is_red(flooded(g), s) ==> material_at(g, s) == VOXEL_LIGHT && is_red(g, s)),
        (forall|t: Spot| holds(g, t) ==> #[trigger] material_at(g, t) != VOXEL_LIGHT) ==> is_red(
            flooded(g),
            s,
        ),
{
    law_lamps_keep_their_own_light(g, s);
    if material_at(g, s) != VOXEL_LIGHT && material_at(g, s) != VOXEL_RED_LIGHT {
        law_tint_follows_its_source(g, s);
        if is_red(flooded(g), s) {
            let path = choose|path: Seq<Spot>|
                #[trigger] is_path(g, path, VOXEL_RED_LIGHT) && path.last() == s;
            assert(holds(g, path[0]) && material_at(g, path[0]) == VOXEL_RED_LIGHT);
        } else {
            let path = choose|path: Seq<Spot>|
                #[trigger] is_path(g, path, VOXEL_LIGHT) && path.last() == s;
            assert(holds(g, path[0]) && material_at(g, path[0]) == VOXEL_LIGHT);
        }
    }
}

/// Lighting leaves every lamp, white or red, at the level 15 on all channels. A
/// red lamp is marked red; a white one keeps its face mask. The other bits of the
/// mask stay in any voxel, a voxel that is no lamp gets no darker, and one that
/// gets no brighter stays as it was. Light that is brought is neutral, and no
/// brighter than a lamp.
pub proof fn law_lamps_keep_their_own_light(g: GridModel, s: Spot)
    requires
        g.width >= 0,
        g.height >= 0,
        g.depth >= 0,
        holds(g, s),
    ensures
        ({
            let before = g.at(s.x, s.y, s.z);
            let after = flooded(g).at(s.x, s.y, s.z);
            let lamp = before.material == VOXEL_LIGHT || before.material == VOXEL_RED_LIGHT;
            &&& lamp ==> after.level == 15 && after.rgb == (15u8, 15u8, 15u8)
            &&& before.material == VOXEL_RED_LIGHT ==> is_red(flooded(g), s)
            &&& before.material == VOXEL_LIGHT ==> after.occlusion == before.occlusion
            &&& other_bits(flooded(g), s) == other_bits(g, s)
            &&& !lamp ==> after.level >= before.level
            &&& !lamp && after.level == before.level ==> after == before
            &&& !lamp && after.level > before.level ==> after.level <= 15 && after.rgb == (
                after.level,
                after.level,
                after.level,
            )
        }),
{
    law_levels_are_best_chains(g, s);
    law_lighting_frame(g, s);
    let mask = g.at(s.x, s.y, s.z).occlusion;
    let lit = lit_sources(g).at(s.x, s.y, s.z).occlusion;
    lemma_tint_bit(mask, true);
    lemma_tint_bit(lit, true);
    lemma_tint_bit(lit, false);
    assert(relit(lit_sources(g), flooded(g), s));
    if !emits(material_at(g, s)) && level_at(flooded(g), s) > level_at(g, s) {
        lemma_reached_bound(g, s, level_at(flooded(g), s) as int);
    }
}

} // verus!
