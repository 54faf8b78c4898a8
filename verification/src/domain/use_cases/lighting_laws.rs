//! What flood-fill lighting means, voxel by voxel: the level of a voxel is the
//! strength of the best chain of light that reaches it.

use vstd::prelude::*;

use crate::domain::entities::voxel_grid::{GridModel, VOXEL_AIR};
use crate::domain::use_cases::calculate_lighting::{
    arriving, emits, flooded, lemma_spread_progress, lit_sources, relax, row_sources, settled,
    slice_sources, sources, spread, tinted, total_room, white, Beam, Flood, MAX_LIGHT,
};

verus! {

/// A voxel position: x, y, z.
pub struct Spot {
    pub x: int,
    pub y: int,
    pub z: int,
}

/// The two voxels share a face.
pub open spec fn touching(a: Spot, b: Spot) -> bool {
    ||| (a.y == b.y && a.z == b.z && (b.x == a.x + 1 || b.x == a.x - 1))
    ||| (a.x == b.x && a.z == b.z && (b.y == a.y + 1 || b.y == a.y - 1))
    ||| (a.x == b.x && a.y == b.y && (b.z == a.z + 1 || b.z == a.z - 1))
}

pub open spec fn level_at(g: GridModel, s: Spot) -> u8 {
    g.level(s.x, s.y, s.z)
}

pub open spec fn material_at(g: GridModel, s: Spot) -> u8 {
    g.material(s.x, s.y, s.z)
}

pub open spec fn holds(g: GridModel, s: Spot) -> bool {
    g.inside(s.x, s.y, s.z)
}

/// Light left at the end of a chain: full at its source, one less per step,
/// nothing lost straight down.
pub open spec fn strength(chain: Seq<Spot>) -> int
    decreases chain.len(),
{
    if chain.len() <= 1 {
        MAX_LIGHT as int
    } else {
        let rest = chain.drop_last();
        if chain.last().y < rest.last().y {
            strength(rest)
        } else {
            strength(rest) - 1
        }
    }
}

/// A chain starts at an emissive voxel and steps from face to face. Every voxel
/// it passes through is air that it lights up, and has more than one level left.
pub open spec fn is_chain(g: GridModel, chain: Seq<Spot>) -> bool
    decreases chain.len(),
{
    if chain.len() == 0 {
        false
    } else if chain.len() == 1 {
        holds(g, chain[0]) && emits(material_at(g, chain[0]))
    } else {
        let rest = chain.drop_last();
        &&& is_chain(g, rest)
        &&& holds(g, chain.last())
        &&& touching(rest.last(), chain.last())
        &&& strength(rest) > 1
        &&& rest.len() > 1 ==> (material_at(g, rest.last()) == VOXEL_AIR && strength(rest)
            > level_at(g, rest.last()))
    }
}

/// Some chain brings exactly this level to the voxel.
pub open spec fn reached(g: GridModel, s: Spot, level: int) -> bool {
    exists|chain: Seq<Spot>|
        #[trigger] is_chain(g, chain) && chain.last() == s && strength(chain) == level
}

proof fn lemma_strength_bound(chain: Seq<Spot>)
    ensures
        strength(chain) <= MAX_LIGHT,
    decreases chain.len(),
{
    if chain.len() > 1 {
        lemma_strength_bound(chain.drop_last());
    }
}

/// No chain brings more than a lamp gives.
pub proof fn lemma_reached_bound(g: GridModel, s: Spot, level: int)
    requires
        reached(g, s, level),
    ensures
        level <= MAX_LIGHT,
{
    let chain = choose|chain: Seq<Spot>|
        #[trigger] is_chain(g, chain) && chain.last() == s && strength(chain) == level;
    lemma_strength_bound(chain);
}

spec fn spot_of(b: Beam) -> Spot {
    Spot { x: b.x, y: b.y, z: b.z }
}

/// The voxel passes light on: a source, or air that the flood has raised.
spec fn active(g: GridModel, f: Flood, s: Spot) -> bool {
    emits(material_at(g, s)) || (material_at(g, s) == VOXEL_AIR && level_at(f.grid, s) > level_at(
        g,
        s,
    ))
}

spec fn queued(f: Flood, s: Spot) -> bool {
    exists|i: int| 0 <= i < f.queue.len() && spot_of(#[trigger] f.queue[i]) == s
}

spec fn passed_on(f: Flood, s: Spot, n: Spot) -> bool {
    level_at(f.grid, n) >= arriving(level_at(f.grid, s), s.y, n.y)
}

/// Every neighbour has at least what this voxel sends it.
spec fn spread_out(f: Flood, s: Spot) -> bool {
    level_at(f.grid, s) <= 1 || forall|n: Spot|
        holds(f.grid, n) && #[trigger] touching(s, n) ==> passed_on(f, s, n)
}

/// The level of a voxel is its starting level, or a chain brought it.
spec fn sound_at(g: GridModel, f: Flood, s: Spot) -> bool {
    &&& material_at(f.grid, s) == material_at(g, s)
    &&& emits(material_at(g, s)) ==> level_at(f.grid, s) == MAX_LIGHT
    &&& !emits(material_at(g, s)) ==> (level_at(f.grid, s) == level_at(g, s) || (level_at(f.grid, s)
        > level_at(g, s) && reached(g, s, level_at(f.grid, s) as int)))
}

spec fn sound(g: GridModel, f: Flood) -> bool {
    &&& f.grid.same_extents(g)
    &&& forall|s: Spot| holds(g, s) ==> #[trigger] sound_at(g, f, s)
    &&& forall|i: int|
        0 <= i < f.queue.len() ==> holds(g, spot_of(#[trigger] f.queue[i])) && active(
            g,
            f,
            spot_of(f.queue[i]),
        )
}

spec fn handled(g: GridModel, f: Flood, s: Spot) -> bool {
    holds(g, s) && active(g, f, s) ==> queued(f, s) || spread_out(f, s)
}

/// Every voxel that passes light on is pending or done.
spec fn complete(g: GridModel, f: Flood) -> bool {
    forall|s: Spot| #[trigger] handled(g, f, s)
}

spec fn complete_but(g: GridModel, f: Flood, b: Spot) -> bool {
    forall|s: Spot| s != b ==> #[trigger] handled(g, f, s)
}

proof fn lemma_reached_step(g: GridModel, f: Flood, b: Spot, n: Spot)
    requires
        sound(g, f),
        holds(g, b),
        holds(g, n),
        active(g, f, b),
        touching(b, n),
        level_at(f.grid, b) > 1,
    ensures
        level_at(f.grid, b) <= MAX_LIGHT,
        reached(g, n, arriving(level_at(f.grid, b), b.y, n.y)),
{
    assert(sound_at(g, f, b));
    let level = level_at(f.grid, b) as int;
    let chain = if emits(material_at(g, b)) {
        seq![b]
    } else {
        choose|chain: Seq<Spot>|
            #[trigger] is_chain(g, chain) && chain.last() == b && strength(chain) == level
    };
    assert(is_chain(g, chain) && chain.last() == b && strength(chain) == level);
    lemma_strength_bound(chain);
    let longer = chain.push(n);
    assert(longer.drop_last() =~= chain);
    assert(is_chain(g, longer));
    assert(longer.last() == n);
}

proof fn lemma_relax(g: GridModel, f: Flood, b: Beam, level: u8, n: Spot)
    requires
        sound(g, f),
        complete_but(g, f, spot_of(b)),
        holds(g, spot_of(b)),
        active(g, f, spot_of(b)),
        level == level_at(f.grid, spot_of(b)),
        level > 1,
        touching(spot_of(b), n),
    ensures
        ({
            let after = relax(f, b, level, n.x, n.y, n.z);
            &&& sound(g, after)
            &&& complete_but(g, after, spot_of(b))
            &&& active(g, after, spot_of(b))
            &&& level == level_at(after.grid, spot_of(b))
            &&& holds(g, n) ==> level_at(after.grid, n) >= arriving(level, b.y, n.y)
            &&& forall|s: Spot| #[trigger]
                level_at(after.grid, s) >= level_at(f.grid, s)
        }),
{
    let c = spot_of(b);
    let after = relax(f, b, level, n.x, n.y, n.z);
    let next = arriving(level, b.y, n.y);
    if after != f {
        lemma_reached_step(g, f, c, n);
        assert(sound_at(g, f, n));
        assert(sound_at(g, f, c));
        assert(!emits(material_at(g, n)));
        assert forall|s: Spot| holds(g, s) implies #[trigger] sound_at(g, after, s) by {
            assert(sound_at(g, f, s));
        }
        assert forall|i: int| 0 <= i < after.queue.len() implies holds(
            g,
            spot_of(#[trigger] after.queue[i]),
        ) && active(g, after, spot_of(after.queue[i])) by {
            if i < f.queue.len() {
                assert(after.queue[i] == f.queue[i]);
            } else {
                assert(spot_of(after.queue[i]) == n);
            }
        }
        assert forall|s: Spot| s != c implies #[trigger] handled(g, after, s) by {
            if holds(g, s) && active(g, after, s) {
                if s == n {
                    let last = after.queue.len() - 1;
                    assert(spot_of(after.queue[last]) == n);
                } else {
                    assert(level_at(after.grid, s) == level_at(f.grid, s));
                    assert(handled(g, f, s));
                    if queued(f, s) {
                        let i = choose|i: int|
                            0 <= i < f.queue.len() && spot_of(#[trigger] f.queue[i]) == s;
                        assert(spot_of(after.queue[i]) == s);
                    } else {
                        assert forall|m: Spot|
                            level_at(f.grid, s) > 1 && holds(after.grid, m) && #[trigger] touching(
                                s,
                                m,
                            ) implies passed_on(after, s, m) by {
                            assert(passed_on(f, s, m));
                        }
                        assert(spread_out(after, s));
                    }
                }
            }
        }
    }
}

/// One step of the flood keeps it sound and complete.
proof fn lemma_spread(g: GridModel, f: Flood)
    requires
        sound(g, f),
        complete(g, f),
        f.queue.len() > 0,
    ensures
        sound(g, spread(f)),
        complete(g, spread(f)),
{
    let b = f.queue[0];
    let c = spot_of(b);
    let rest = Flood { grid: f.grid, queue: f.queue.drop_first() };
    let level = f.grid.level(b.x, b.y, b.z);
    assert(forall|i: int| 0 <= i < rest.queue.len() ==> #[trigger] rest.queue[i] == f.queue[i + 1]);
    assert forall|s: Spot| holds(g, s) implies #[trigger] sound_at(g, rest, s) by {
        assert(sound_at(g, f, s));
    }
    assert(sound(g, rest));
    assert forall|s: Spot| s != c implies #[trigger] handled(g, rest, s) by {
        assert(handled(g, f, s));
        if queued(f, s) {
            let i = choose|i: int| 0 <= i < f.queue.len() && spot_of(#[trigger] f.queue[i]) == s;
            assert(spot_of(rest.queue[i - 1]) == s);
        } else if spread_out(f, s) && level_at(f.grid, s) > 1 {
            assert forall|m: Spot| holds(rest.grid, m) && #[trigger] touching(s, m) implies passed_on(
                rest,
                s,
                m,
            ) by {
                assert(passed_on(f, s, m));
            }
        }
    }
    if level <= 1 {
        assert(handled(g, rest, c));
    } else {
        let n1 = Spot { x: b.x + 1, y: b.y, z: b.z };
        let n2 = Spot { x: b.x - 1, y: b.y, z: b.z };
        let n3 = Spot { x: b.x, y: b.y + 1, z: b.z };
        let n4 = Spot { x: b.x, y: b.y - 1, z: b.z };
        let n5 = Spot { x: b.x, y: b.y, z: b.z + 1 };
        let n6 = Spot { x: b.x, y: b.y, z: b.z - 1 };
        let f1 = relax(rest, b, level, n1.x, n1.y, n1.z);
        let f2 = relax(f1, b, level, n2.x, n2.y, n2.z);
        let f3 = relax(f2, b, level, n3.x, n3.y, n3.z);
        let f4 = relax(f3, b, level, n4.x, n4.y, n4.z);
        let f5 = relax(f4, b, level, n5.x, n5.y, n5.z);
        let f6 = relax(f5, b, level, n6.x, n6.y, n6.z);
        lemma_relax(g, rest, b, level, n1);
        lemma_relax(g, f1, b, level, n2);
        lemma_relax(g, f2, b, level, n3);
        lemma_relax(g, f3, b, level, n4);
        lemma_relax(g, f4, b, level, n5);
        lemma_relax(g, f5, b, level, n6);
        assert(f6 == spread(f));
        assert forall|n: Spot| holds(f6.grid, n) && #[trigger] touching(c, n) implies passed_on(
            f6,
            c,
            n,
        ) by {
            assert(n == n1 || n == n2 || n == n3 || n == n4 || n == n5 || n == n6);
            assert(level_at(f2.grid, n) >= level_at(f1.grid, n));
            assert(level_at(f3.grid, n) >= level_at(f2.grid, n));
            assert(level_at(f4.grid, n) >= level_at(f3.grid, n));
            assert(level_at(f5.grid, n) >= level_at(f4.grid, n));
            assert(level_at(f6.grid, n) >= level_at(f5.grid, n));
        }
        assert(spread_out(f6, c));
        assert forall|s: Spot| #[trigger] handled(g, f6, s) by {
            if s == c {
                assert(spread_out(f6, s));
            }
        }
    }
}

/// The beams of a row are exactly its emissive voxels.
proof fn lemma_row_sources(g: GridModel, n: nat, y: int, z: int)
    ensures
        forall|i: int|
            0 <= i < row_sources(g, n, y, z).len() ==> ({
                let b = #[trigger] row_sources(g, n, y, z)[i];
                0 <= b.x < n && b.y == y && b.z == z && emits(g.material(b.x, b.y, b.z))
            }),
        forall|x: int|
            0 <= x < n && emits(#[trigger] g.material(x, y, z)) ==> exists|i: int|
                0 <= i < row_sources(g, n, y, z).len() && spot_of(
                    #[trigger] row_sources(g, n, y, z)[i],
                ) == (Spot { x, y, z }),
    decreases n,
{
    if n > 0 {
        let m = (n - 1) as nat;
        lemma_row_sources(g, m, y, z);
        let before = row_sources(g, m, y, z);
        let all = row_sources(g, n, y, z);
        assert forall|x: int| 0 <= x < n && emits(#[trigger] g.material(x, y, z)) implies exists|
            i: int,
        |
            0 <= i < all.len() && spot_of(#[trigger] all[i]) == (Spot { x, y, z }) by {
            if x < m {
                let i = choose|i: int|
                    0 <= i < before.len() && spot_of(#[trigger] before[i]) == (Spot { x, y, z });
                assert(all[i] == before[i]);
            } else {
                assert(spot_of(all[all.len() - 1]) == (Spot { x, y, z }));
            }
        }
    }
}

proof fn lemma_slice_sources(g: GridModel, n: nat, z: int)
    requires
        g.width >= 0,
    ensures
        forall|i: int|
            0 <= i < slice_sources(g, n, z).len() ==> ({
                let b = #[trigger] slice_sources(g, n, z)[i];
                0 <= b.x < g.width && 0 <= b.y < n && b.z == z && emits(g.material(b.x, b.y, b.z))
            }),
        forall|x: int, y: int|
            0 <= x < g.width && 0 <= y < n && emits(#[trigger] g.material(x, y, z)) ==> exists|i: int|
                0 <= i < slice_sources(g, n, z).len() && spot_of(
                    #[trigger] slice_sources(g, n, z)[i],
                ) == (Spot { x, y, z }),
    decreases n,
{
    if n > 0 {
        let m = (n - 1) as nat;
        lemma_slice_sources(g, m, z);
        lemma_row_sources(g, g.width as nat, n - 1, z);
        let before = slice_sources(g, m, z);
        let row = row_sources(g, g.width as nat, n - 1, z);
        let all = slice_sources(g, n, z);
        assert forall|x: int, y: int|
            0 <= x < g.width && 0 <= y < n && emits(#[trigger] g.material(x, y, z)) implies exists|
            i: int,
        |
            0 <= i < all.len() && spot_of(#[trigger] all[i]) == (Spot { x, y, z }) by {
            if y < m {
                let i = choose|i: int|
                    0 <= i < before.len() && spot_of(#[trigger] before[i]) == (Spot { x, y, z });
                assert(all[i] == before[i]);
            } else {
                let i = choose|i: int|
                    0 <= i < row.len() && spot_of(#[trigger] row[i]) == (Spot { x, y, z });
                assert(all[before.len() + i] == row[i]);
            }
        }
    }
}

proof fn lemma_sources(g: GridModel, n: nat)
    requires
        g.width >= 0,
        g.height >= 0,
    ensures
        forall|i: int|
            0 <= i < sources(g, n).len() ==> ({
                let b = #[trigger] sources(g, n)[i];
                0 <= b.x < g.width && 0 <= b.y < g.height && 0 <= b.z < n && emits(
                    g.material(b.x, b.y, b.z),
                )
            }),
        forall|x: int, y: int, z: int|
            0 <= x < g.width && 0 <= y < g.height && 0 <= z < n && emits(
                #[trigger] g.material(x, y, z),
            ) ==> exists|i: int|
                0 <= i < sources(g, n).len() && spot_of(#[trigger] sources(g, n)[i]) == (Spot {
                    x,
                    y,
                    z,
                }),
    decreases n,
{
    if n > 0 {
        let m = (n - 1) as nat;
        lemma_sources(g, m);
        lemma_slice_sources(g, g.height as nat, n - 1);
        let before = sources(g, m);
        let slice = slice_sources(g, g.height as nat, n - 1);
        let all = sources(g, n);
        assert forall|x: int, y: int, z: int|
            0 <= x < g.width && 0 <= y < g.height && 0 <= z < n && emits(
                #[trigger] g.material(x, y, z),
            ) implies exists|i: int|
            0 <= i < all.len() && spot_of(#[trigger] all[i]) == (Spot { x, y, z }) by {
            if z < m {
                let i = choose|i: int|
                    0 <= i < before.len() && spot_of(#[trigger] before[i]) == (Spot { x, y, z });
                assert(all[i] == before[i]);
            } else {
                let i = choose|i: int|
                    0 <= i < slice.len() && spot_of(#[trigger] slice[i]) == (Spot { x, y, z });
                assert(all[before.len() + i] == slice[i]);
            }
        }
    }
}

proof fn lemma_start(g: GridModel)
    requires
        g.width >= 0,
        g.height >= 0,
        g.depth >= 0,
    ensures
        ({
            let f = Flood { grid: lit_sources(g), queue: sources(g, g.depth as nat) };
            sound(g, f) && complete(g, f)
        }),
{
    let f = Flood { grid: lit_sources(g), queue: sources(g, g.depth as nat) };
    lemma_sources(g, g.depth as nat);
    assert forall|i: int| 0 <= i < f.queue.len() implies holds(g, spot_of(#[trigger] f.queue[i]))
        && active(g, f, spot_of(f.queue[i])) by {
        let b = sources(g, g.depth as nat)[i];
    }
    assert forall|s: Spot| holds(g, s) implies #[trigger] sound_at(g, f, s) by {}
    assert forall|s: Spot| #[trigger] handled(g, f, s) by {
        if holds(g, s) && active(g, f, s) {
            assert(emits(g.material(s.x, s.y, s.z)));
            let all = sources(g, g.depth as nat);
            let i = choose|i: int| 0 <= i < all.len() && spot_of(#[trigger] all[i]) == s;
            assert(spot_of(f.queue[i]) == s);
        }
    }
}

proof fn lemma_settled(g: GridModel, f: Flood)
    requires
        sound(g, f),
        complete(g, f),
    ensures
        ({
            let end = Flood { grid: settled(f), queue: Seq::empty() };
            sound(g, end) && complete(g, end)
        }),
    decreases total_room(f.grid), f.queue.len(),
{
    if f.queue.len() == 0 {
        assert(f.queue =~= Seq::empty());
    } else {
        lemma_spread(g, f);
        lemma_spread_progress(f);
        lemma_settled(g, spread(f));
    }
}

proof fn lemma_chain_bound(g: GridModel, end: Flood, chain: Seq<Spot>)
    requires
        sound(g, end),
        complete(g, end),
        end.queue.len() == 0,
        is_chain(g, chain),
    ensures
        holds(g, chain.last()),
        strength(chain) <= level_at(end.grid, chain.last()),
    decreases chain.len(),
{
    let last = chain.last();
    assert(sound_at(g, end, last));
    if chain.len() > 1 {
        let rest = chain.drop_last();
        let from = rest.last();
        lemma_chain_bound(g, end, rest);
        assert(sound_at(g, end, from));
        reveal_with_fuel(is_chain, 2);
        assert(active(g, end, from));
        assert(handled(g, end, from));
        assert(!queued(end, from));
        assert(passed_on(end, from, last));
    }
}

/// The level of a voxel after lighting is the best that any chain of light
/// brings it: never less than a chain brings, and either its starting level or
/// exactly what some chain brings. Emissive voxels hold full level.
pub proof fn law_levels_are_best_chains(g: GridModel, s: Spot)
    requires
        g.width >= 0,
        g.height >= 0,
        g.depth >= 0,
        holds(g, s),
    ensures
        emits(material_at(g, s)) ==> level_at(flooded(g), s) == MAX_LIGHT,
        !emits(material_at(g, s)) ==> level_at(flooded(g), s) >= level_at(g, s),
        !emits(material_at(g, s)) ==> level_at(flooded(g), s) == level_at(g, s) || reached(
            g,
            s,
            level_at(flooded(g), s) as int,
        ),
        forall|chain: Seq<Spot>|
            #[trigger] is_chain(g, chain) && chain.last() == s ==> strength(chain) <= level_at(
                flooded(g),
                s,
            ),
{
    let start = Flood { grid: lit_sources(g), queue: sources(g, g.depth as nat) };
    let end = Flood { grid: flooded(g), queue: Seq::empty() };
    lemma_start(g);
    lemma_settled(g, start);
    assert(sound_at(g, end, s));
    assert forall|chain: Seq<Spot>|
        #[trigger] is_chain(g, chain) && chain.last() == s implies strength(chain) <= level_at(
        flooded(g),
        s,
    ) by {
        lemma_chain_bound(g, end, chain);
    }
}

/// A voxel of `g` after part of the flood: untouched, or of the same material with
/// a raised neutral level and a face mask that differs in the tint bit only.
pub open spec fn relit(before: GridModel, after: GridModel, s: Spot) -> bool {
    let a = before.at(s.x, s.y, s.z);
    let b = after.at(s.x, s.y, s.z);
    b == a || {
        &&& b.material == a.material
        &&& b.level > a.level
        &&& b.rgb == white(b.level)
        &&& b.occlusion == tinted(a.occlusion, true) || b.occlusion == tinted(a.occlusion, false)
    }
}

proof fn lemma_tint(mask: u8, a: bool, b: bool)
    ensures
        tinted(tinted(mask, a), b) == tinted(mask, b),
{
    assert((mask | 0b0100_0000u8) | 0b0100_0000u8 == mask | 0b0100_0000u8) by (bit_vector);
    assert((mask & 0b1011_1111u8) | 0b0100_0000u8 == mask | 0b0100_0000u8) by (bit_vector);
    assert((mask | 0b0100_0000u8) & 0b1011_1111u8 == mask & 0b1011_1111u8) by (bit_vector);
    assert((mask & 0b1011_1111u8) & 0b1011_1111u8 == mask & 0b1011_1111u8) by (bit_vector);
}

spec fn frame(before: GridModel, after: GridModel) -> bool {
    before.same_extents(after) && forall|s: Spot| #[trigger] relit(before, after, s)
}

proof fn lemma_frame_relax(g: GridModel, f: Flood, b: Beam, level: u8, n: Spot)
    requires
        frame(g, f.grid),
    ensures
        frame(g, relax(f, b, level, n.x, n.y, n.z).grid),
{
    let after = relax(f, b, level, n.x, n.y, n.z);
    let mask = g.at(n.x, n.y, n.z).occlusion;
    lemma_tint(mask, true, b.red);
    lemma_tint(mask, false, b.red);
    assert forall|s: Spot| #[trigger] relit(g, after.grid, s) by {
        assert(relit(g, f.grid, s));
    }
}

proof fn lemma_frame_settled(g: GridModel, f: Flood)
    requires
        frame(g, f.grid),
    ensures
        frame(g, settled(f)),
    decreases total_room(f.grid), f.queue.len(),
{
    if f.queue.len() > 0 {
        lemma_spread_progress(f);
        let b = f.queue[0];
        let level = f.grid.level(b.x, b.y, b.z);
        let f0 = Flood { grid: f.grid, queue: f.queue.drop_first() };
        let n1 = Spot { x: b.x + 1, y: b.y, z: b.z };
        let n2 = Spot { x: b.x - 1, y: b.y, z: b.z };
        let n3 = Spot { x: b.x, y: b.y + 1, z: b.z };
        let n4 = Spot { x: b.x, y: b.y - 1, z: b.z };
        let n5 = Spot { x: b.x, y: b.y, z: b.z + 1 };
        let n6 = Spot { x: b.x, y: b.y, z: b.z - 1 };
        let f1 = relax(f0, b, level, n1.x, n1.y, n1.z);
        let f2 = relax(f1, b, level, n2.x, n2.y, n2.z);
        let f3 = relax(f2, b, level, n3.x, n3.y, n3.z);
        let f4 = relax(f3, b, level, n4.x, n4.y, n4.z);
        let f5 = relax(f4, b, level, n5.x, n5.y, n5.z);
        lemma_frame_relax(g, f0, b, level, n1);
        lemma_frame_relax(g, f1, b, level, n2);
        lemma_frame_relax(g, f2, b, level, n3);
        lemma_frame_relax(g, f3, b, level, n4);
        lemma_frame_relax(g, f4, b, level, n5);
        lemma_frame_relax(g, f5, b, level, n6);
        assert(frame(g, spread(f).grid));
        lemma_frame_settled(g, spread(f));
    }
}

/// Lighting changes light alone: extents and materials stay, and a voxel is either
/// untouched or gets a brighter neutral level, with which only the tint bit of its
/// face mask may change. Sources are taken as already ignited.
pub proof fn law_lighting_frame(g: GridModel, s: Spot)
    ensures
        flooded(g).same_extents(g),
        material_at(flooded(g), s) == material_at(g, s),
        relit(lit_sources(g), flooded(g), s),
{
    let start = Flood { grid: lit_sources(g), queue: sources(g, g.depth as nat) };
    assert(frame(lit_sources(g), start.grid)) by {
        assert forall|t: Spot| #[trigger] relit(lit_sources(g), start.grid, t) by {}
    }
    lemma_frame_settled(lit_sources(g), start);
    assert(relit(lit_sources(g), flooded(g), s));
}

/// The beam has nothing to give: every neighbour has at least what it sends.
spec fn idle(g: GridModel, b: Beam) -> bool {
    spread_out(Flood { grid: g, queue: Seq::empty() }, spot_of(b))
}

/// An idle beam changes no neighbour.
proof fn lemma_idle_relax(f: Flood, b: Beam, level: u8, n: Spot)
    requires
        idle(f.grid, b),
        level == level_at(f.grid, spot_of(b)),
        level > 1,
        touching(spot_of(b), n),
    ensures
        relax(f, b, level, n.x, n.y, n.z) == f,
{
    if holds(f.grid, n) {
        assert(passed_on(Flood { grid: f.grid, queue: Seq::empty() }, spot_of(b), n));
    }
}

/// A flood of idle beams runs out and leaves the grid as it is.
proof fn lemma_idle_settled(f: Flood)
    requires
        forall|i: int| 0 <= i < f.queue.len() ==> idle(f.grid, #[trigger] f.queue[i]),
    ensures
        settled(f) == f.grid,
    decreases f.queue.len(),
{
    if f.queue.len() > 0 {
        let b = f.queue[0];
        let rest = Flood { grid: f.grid, queue: f.queue.drop_first() };
        let level = f.grid.level(b.x, b.y, b.z);
        if level > 1 {
            lemma_idle_relax(rest, b, level, Spot { x: b.x + 1, y: b.y, z: b.z });
            lemma_idle_relax(rest, b, level, Spot { x: b.x - 1, y: b.y, z: b.z });
            lemma_idle_relax(rest, b, level, Spot { x: b.x, y: b.y + 1, z: b.z });
            lemma_idle_relax(rest, b, level, Spot { x: b.x, y: b.y - 1, z: b.z });
            lemma_idle_relax(rest, b, level, Spot { x: b.x, y: b.y, z: b.z + 1 });
            lemma_idle_relax(rest, b, level, Spot { x: b.x, y: b.y, z: b.z - 1 });
        }
        assert(spread(f) == rest);
        assert forall|i: int| 0 <= i < rest.queue.len() implies idle(
            rest.grid,
            #[trigger] rest.queue[i],
        ) by {
            assert(rest.queue[i] == f.queue[i + 1]);
        }
        lemma_spread_progress(f);
        lemma_idle_settled(rest);
    }
}

/// Lighting a lit grid again changes nothing.
pub proof fn law_lighting_again_changes_nothing(g: GridModel)
    requires
        g.width >= 0,
        g.height >= 0,
        g.depth >= 0,
    ensures
        flooded(flooded(g)) == flooded(g),
{
    let h = flooded(g);
    let start = Flood { grid: lit_sources(g), queue: sources(g, g.depth as nat) };
    let end = Flood { grid: h, queue: Seq::empty() };
    lemma_start(g);
    lemma_settled(g, start);
    assert forall|x: int, y: int, z: int| #[trigger]
        (lit_sources(h).cells)(x, y, z) == (h.cells)(x, y, z) by {
        let s = Spot { x, y, z };
        law_lighting_frame(g, s);
        if holds(g, s) && emits(material_at(g, s)) {
            assert(sound_at(g, end, s));
            lemma_tint(g.at(x, y, z).occlusion, true, true);
        }
    }
    law_lighting_frame(g, Spot { x: 0, y: 0, z: 0 });
    assert(lit_sources(h).cells =~= h.cells);
    assert(lit_sources(h) == h);
    let again = Flood { grid: h, queue: sources(h, h.depth as nat) };
    lemma_sources(h, h.depth as nat);
    assert forall|i: int| 0 <= i < again.queue.len() implies idle(
        again.grid,
        #[trigger] again.queue[i],
    ) by {
        let s = spot_of(sources(h, h.depth as nat)[i]);
        law_lighting_frame(g, s);
        assert(handled(g, end, s));
        assert(!queued(end, s));
    }
    lemma_idle_settled(again);
}

} // verus!
