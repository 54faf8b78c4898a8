//! Emission classes, and the air cells that they shine into.

use vstd::prelude::*;

use crate::domain::entities::voxel_grid::{
    GridModel, VoxelGrid, VOXEL_AIR, VOXEL_GLIMMER, VOXEL_LIGHT, VOXEL_RED_LIGHT,
};

verus! {

/// One spectral emission class. Channels go from 0 to 15.
#[derive(Clone, Copy, Debug, PartialEq, Eq, Structural)]
pub struct EmissionProfile {
    pub voxel_type: u8,
    pub red: u8,
    pub green: u8,
    pub blue: u8,
}

pub open spec fn profile_of(voxel_type: u8) -> Option<EmissionProfile> {
    if voxel_type == VOXEL_LIGHT {
        Some(EmissionProfile { voxel_type, red: 15, green: 14, blue: 11 })
    } else if voxel_type == VOXEL_RED_LIGHT {
        Some(EmissionProfile { voxel_type, red: 15, green: 3, blue: 2 })
    } else if voxel_type == VOXEL_GLIMMER {
        Some(EmissionProfile { voxel_type, red: 3, green: 5, blue: 7 })
    } else {
        None
    }
}

/// What a material emits, if anything.
pub fn emission_rgb(voxel_type: u8) -> (profile: Option<EmissionProfile>)
    ensures
        profile == profile_of(voxel_type),
{
    if voxel_type == VOXEL_LIGHT {
        Some(EmissionProfile { voxel_type, red: 15, green: 14, blue: 11 })
    } else if voxel_type == VOXEL_RED_LIGHT {
        Some(EmissionProfile { voxel_type, red: 15, green: 3, blue: 2 })
    } else if voxel_type == VOXEL_GLIMMER {
        Some(EmissionProfile { voxel_type, red: 3, green: 5, blue: 7 })
    } else {
        None
    }
}

#[derive(Clone, Copy, Debug, PartialEq, Eq, Structural)]
pub struct VoxelCoord {
    pub x: usize,
    pub y: usize,
    pub z: usize,
}

/// A voxel's neighbour across one of its six faces.
pub open spec fn neighbour(x: int, y: int, z: int, face: int) -> (int, int, int) {
    if face == 0 {
        (x - 1, y, z)
    } else if face == 1 {
        (x + 1, y, z)
    } else if face == 2 {
        (x, y - 1, z)
    } else if face == 3 {
        (x, y + 1, z)
    } else if face == 4 {
        (x, y, z - 1)
    } else {
        (x, y, z + 1)
    }
}

pub open spec fn is_open_face(grid: GridModel, x: int, y: int, z: int, face: int) -> bool {
    let n = neighbour(x, y, z, face);
    grid.inside(n.0, n.1, n.2) && grid.material(n.0, n.1, n.2) == VOXEL_AIR
}

pub open spec fn coord(n: (int, int, int)) -> VoxelCoord {
    VoxelCoord { x: n.0 as usize, y: n.1 as usize, z: n.2 as usize }
}

/// The air cells across the first `n` faces of a voxel.
pub open spec fn air_across(grid: GridModel, x: int, y: int, z: int, n: nat) -> Seq<VoxelCoord>
    decreases n,
{
    if n == 0 {
        Seq::empty()
    } else {
        let before = air_across(grid, x, y, z, (n - 1) as nat);
        if is_open_face(grid, x, y, z, n - 1) {
            before.push(coord(neighbour(x, y, z, n - 1)))
        } else {
            before
        }
    }
}

/// What one voxel exposes.
pub open spec fn exposed_by(grid: GridModel, class: u8, x: int, y: int, z: int) -> Seq<VoxelCoord> {
    if grid.material(x, y, z) == class {
        air_across(grid, x, y, z, 6)
    } else {
        Seq::empty()
    }
}

/// What the first `n` voxels of a row expose.
pub open spec fn exposed_in_row(grid: GridModel, class: u8, y: int, z: int, n: nat) -> Seq<VoxelCoord>
    decreases n,
{
    if n == 0 {
        Seq::empty()
    } else {
        exposed_in_row(grid, class, y, z, (n - 1) as nat) + exposed_by(grid, class, n - 1, y, z)
    }
}

/// What the first `n` rows of a layer expose.
pub open spec fn exposed_in_layer(grid: GridModel, class: u8, y: int, n: nat) -> Seq<VoxelCoord>
    decreases n,
{
    if n == 0 {
        Seq::empty()
    } else {
        exposed_in_layer(grid, class, y, (n - 1) as nat) + exposed_in_row(
            grid,
            class,
            y,
            n - 1,
            grid.width as nat,
        )
    }
}

/// What the first `n` layers of a grid expose.
pub open spec fn exposed_in_grid(grid: GridModel, class: u8, n: nat) -> Seq<VoxelCoord>
    decreases n,
{
    if n == 0 {
        Seq::empty()
    } else {
        exposed_in_grid(grid, class, (n - 1) as nat) + exposed_in_layer(
            grid,
            class,
            n - 1,
            grid.depth as nat,
        )
    }
}

fn push_face(
    grid: &VoxelGrid,
    at: VoxelCoord,
    face: usize,
    exposed: &mut Vec<VoxelCoord>,
)
    requires
        grid.wf(),
        grid@.inside(at.x as int, at.y as int, at.z as int),
        face < 6,
    ensures
        final(exposed)@ == if is_open_face(grid@, at.x as int, at.y as int, at.z as int, face as int) {
            old(exposed)@.push(coord(neighbour(at.x as int, at.y as int, at.z as int, face as int)))
        } else {
            old(exposed)@
        },
{
    proof {
        grid.lemma_model();
    }
    let mut n = at;
    if face == 0 {
        if at.x == 0 {
            return;
        }
        n.x = at.x - 1;
    } else if face == 1 {
        if at.x >= grid.width() - 1 {
            return;
        }
        n.x = at.x + 1;
    } else if face == 2 {
        if at.y == 0 {
            return;
        }
        n.y = at.y - 1;
    } else if face == 3 {
        if at.y >= grid.height() - 1 {
            return;
        }
        n.y = at.y + 1;
    } else if face == 4 {
        if at.z == 0 {
            return;
        }
        n.z = at.z - 1;
    } else {
        if at.z >= grid.depth() - 1 {
            return;
        }
        n.z = at.z + 1;
    }
    if grid.get(n.x, n.y, n.z) == VOXEL_AIR {
        exposed.push(n);
    }
}

fn push_row(grid: &VoxelGrid, class: u8, y: usize, z: usize, exposed: &mut Vec<VoxelCoord>)
    requires
        grid.wf(),
        y < grid@.height,
        z < grid@.depth,
    ensures
        final(exposed)@ == old(exposed)@ + exposed_in_row(
            grid@,
            class,
            y as int,
            z as int,
            grid@.width as nat,
        ),
{
    let ghost start = exposed@;
    let ghost (j, k) = (y as int, z as int);
    proof {
        grid.lemma_model();
    }
    let mut x: usize = 0;
    assert(exposed@ =~= start + exposed_in_row(grid@, class, j, k, 0));
    while x < grid.width()
        invariant
            grid.wf(),
            x <= grid@.width,
            j == y < grid@.height,
            k == z < grid@.depth,
            exposed@ == start + exposed_in_row(grid@, class, j, k, x as nat),
        decreases grid@.width - x,
    {
        let ghost before = exposed@;
        let ghost i = x as int;
        if grid.get(x, y, z) == class {
            let mut face: usize = 0;
            assert(exposed@ =~= before + air_across(grid@, i, j, k, 0));
            while face < 6
                invariant
                    grid.wf(),
                    face <= 6,
                    i == x < grid@.width,
                    j == y < grid@.height,
                    k == z < grid@.depth,
                    exposed@ == before + air_across(grid@, i, j, k, face as nat),
                decreases 6 - face,
            {
                push_face(grid, VoxelCoord { x, y, z }, face, exposed);
                face = face + 1;
                assert(exposed@ =~= before + air_across(grid@, i, j, k, face as nat));
            }
        }
        x = x + 1;
        assert(exposed@ =~= start + exposed_in_row(grid@, class, j, k, x as nat));
    }
}

/// The air cells that touch a face of an emissive class, once for every face they
/// touch. A voxel buried in geometry contributes nothing.
pub fn exposed_air_cells(grid: &VoxelGrid, class: u8) -> (exposed: Vec<VoxelCoord>)
    requires
        grid.wf(),
    ensures
        exposed@ == exposed_in_grid(grid@, class, grid@.height as nat),
{
    proof {
        grid.lemma_model();
    }
    let mut exposed: Vec<VoxelCoord> = Vec::new();
    let mut y: usize = 0;
    while y < grid.height()
        invariant
            grid.wf(),
            0 <= grid@.depth,
            0 <= grid@.height,
            y <= grid@.height,
            exposed@ == exposed_in_grid(grid@, class, y as nat),
        decreases grid@.height - y,
    {
        let ghost start = exposed@;
        let ghost j = y as int;
        let mut z: usize = 0;
        assert(exposed@ =~= start + exposed_in_layer(grid@, class, j, 0));
        while z < grid.depth()
            invariant
                grid.wf(),
                j == y < grid@.height,
                z <= grid@.depth,
                exposed@ == start + exposed_in_layer(grid@, class, j, z as nat),
            decreases grid@.depth - z,
        {
            push_row(grid, class, y, z, &mut exposed);
            z = z + 1;
            assert(exposed@ =~= start + exposed_in_layer(grid@, class, j, z as nat));
        }
        y = y + 1;
    }
    exposed
}

/// An air cell next to a voxel of the class.
pub open spec fn touches_class(grid: GridModel, class: u8, c: VoxelCoord, x: int, y: int, z: int) -> bool {
    &&& grid.material(x, y, z) == class
    &&& exists|face: int|
        0 <= face < 6 && #[trigger] is_open_face(grid, x, y, z, face) && c == coord(
            neighbour(x, y, z, face),
        )
}

proof fn lemma_across(grid: GridModel, x: int, y: int, z: int, n: nat, c: VoxelCoord)
    ensures
        air_across(grid, x, y, z, n).contains(c) <==> exists|face: int|
            0 <= face < n && #[trigger] is_open_face(grid, x, y, z, face) && c == coord(
                neighbour(x, y, z, face),
            ),
    decreases n,
{
    if n > 0 {
        lemma_across(grid, x, y, z, (n - 1) as nat, c);
        let before = air_across(grid, x, y, z, (n - 1) as nat);
        let after = air_across(grid, x, y, z, n);
        if is_open_face(grid, x, y, z, n - 1) {
            let last = coord(neighbour(x, y, z, n - 1));
            assert(after == before.push(last));
            assert(after[before.len() as int] == last);
            if before.contains(c) {
                let i = before.index_of(c);
                assert(after[i] == c);
            }
            if after.contains(c) && !before.contains(c) {
                let i = after.index_of(c);
                if i < before.len() {
                    assert(before[i] == c);
                }
            }
        }
    }
}

proof fn lemma_contains_sum(a: Seq<VoxelCoord>, b: Seq<VoxelCoord>, c: VoxelCoord)
    ensures
        (a + b).contains(c) == (a.contains(c) || b.contains(c)),
{
    let s = a + b;
    if a.contains(c) {
        let i = a.index_of(c);
        assert(s[i] == c);
    }
    if b.contains(c) {
        let i = b.index_of(c);
        assert(s[a.len() + i] == c);
    }
    if s.contains(c) {
        let i = s.index_of(c);
        if i < a.len() {
            assert(a[i] == c);
        } else {
            assert(b[i - a.len()] == c);
        }
    }
}

proof fn lemma_row(grid: GridModel, class: u8, y: int, z: int, n: nat, c: VoxelCoord)
    ensures
        exposed_in_row(grid, class, y, z, n).contains(c) <==> exists|x: int|
            0 <= x < n && #[trigger] touches_class(grid, class, c, x, y, z),
    decreases n,
{
    if n > 0 {
        lemma_row(grid, class, y, z, (n - 1) as nat, c);
        lemma_across(grid, n - 1, y, z, 6, c);
        lemma_contains_sum(
            exposed_in_row(grid, class, y, z, (n - 1) as nat),
            exposed_by(grid, class, n - 1, y, z),
            c,
        );
        assert(exposed_by(grid, class, n - 1, y, z).contains(c) == touches_class(
            grid,
            class,
            c,
            n - 1,
            y,
            z,
        ));
    }
}

/// Some voxel of the row touches the cell.
spec fn row_touches(grid: GridModel, class: u8, c: VoxelCoord, y: int, z: int) -> bool {
    exists|x: int| 0 <= x < grid.width && #[trigger] touches_class(grid, class, c, x, y, z)
}

/// Some row of the layer touches the cell.
spec fn layer_touches(grid: GridModel, class: u8, c: VoxelCoord, y: int) -> bool {
    exists|z: int| 0 <= z < grid.depth && #[trigger] row_touches(grid, class, c, y, z)
}

proof fn lemma_layer(grid: GridModel, class: u8, y: int, n: nat, c: VoxelCoord)
    requires
        0 <= grid.width,
    ensures
        exposed_in_layer(grid, class, y, n).contains(c) <==> exists|z: int|
            0 <= z < n && #[trigger] row_touches(grid, class, c, y, z),
    decreases n,
{
    if n > 0 {
        lemma_layer(grid, class, y, (n - 1) as nat, c);
        lemma_row(grid, class, y, n - 1, grid.width as nat, c);
        lemma_contains_sum(
            exposed_in_layer(grid, class, y, (n - 1) as nat),
            exposed_in_row(grid, class, y, n - 1, grid.width as nat),
            c,
        );
        assert(exposed_in_row(grid, class, y, n - 1, grid.width as nat).contains(c) == row_touches(
            grid,
            class,
            c,
            y,
            n - 1,
        ));
    }
}

proof fn lemma_grid(grid: GridModel, class: u8, n: nat, c: VoxelCoord)
    requires
        0 <= grid.width,
        0 <= grid.depth,
    ensures
        exposed_in_grid(grid, class, n).contains(c) <==> exists|y: int|
            0 <= y < n && #[trigger] layer_touches(grid, class, c, y),
    decreases n,
{
    if n > 0 {
        lemma_grid(grid, class, (n - 1) as nat, c);
        lemma_layer(grid, class, n - 1, grid.depth as nat, c);
        lemma_contains_sum(
            exposed_in_grid(grid, class, (n - 1) as nat),
            exposed_in_layer(grid, class, n - 1, grid.depth as nat),
            c,
        );
        assert(exposed_in_layer(grid, class, n - 1, grid.depth as nat).contains(c) == layer_touches(
            grid,
            class,
            c,
            n - 1,
        ));
    }
}

/// A cell is listed exactly when some voxel of the class has an open face towards
/// it.
pub proof fn law_exposed_cells_touch_the_class(grid: GridModel, class: u8, c: VoxelCoord)
    requires
        0 <= grid.width,
        0 <= grid.height,
        0 <= grid.depth,
    ensures
        exposed_in_grid(grid, class, grid.height as nat).contains(c) <==> exists|x: int, y: int, z: int|
            grid.inside(x, y, z) && #[trigger] touches_class(grid, class, c, x, y, z),
{
    lemma_grid(grid, class, grid.height as nat, c);
    if exposed_in_grid(grid, class, grid.height as nat).contains(c) {
        let y = choose|y: int| 0 <= y < grid.height && #[trigger] layer_touches(grid, class, c, y);
        let z = choose|z: int| 0 <= z < grid.depth && #[trigger] row_touches(grid, class, c, y, z);
        let x = choose|x: int|
            0 <= x < grid.width && #[trigger] touches_class(grid, class, c, x, y, z);
        assert(grid.inside(x, y, z));
    }
    if exists|x: int, y: int, z: int|
        grid.inside(x, y, z) && #[trigger] touches_class(grid, class, c, x, y, z) {
        let (x, y, z) = choose|x: int, y: int, z: int|
            grid.inside(x, y, z) && #[trigger] touches_class(grid, class, c, x, y, z);
        assert(row_touches(grid, class, c, y, z));
        assert(layer_touches(grid, class, c, y));
    }
}

/// The voxel lies in the grid and holds the material.
pub open spec fn holds_at(grid: GridModel, material: u8, x: int, y: int, z: int) -> bool {
    grid.inside(x, y, z) && grid.material(x, y, z) == material
}

/// A cell is listed exactly if it is air of the grid with a voxel of the class on
/// at least one of its six sides. So nothing buried shines, and light enters no
/// solid.
pub proof fn law_exposed_cells_are_air_beside_the_class(
    grid: GridModel,
    class: u8,
    x: usize,
    y: usize,
    z: usize,
)
    requires
        0 <= grid.width <= usize::MAX,
        0 <= grid.height <= usize::MAX,
        0 <= grid.depth <= usize::MAX,
    ensures
        exposed_in_grid(grid, class, grid.height as nat).contains(VoxelCoord { x, y, z }) <==> {
            let (i, j, k) = (x as int, y as int, z as int);
            holds_at(grid, VOXEL_AIR, i, j, k) && {
                ||| holds_at(grid, class, i - 1, j, k)
                ||| holds_at(grid, class, i + 1, j, k)
                ||| holds_at(grid, class, i, j - 1, k)
                ||| holds_at(grid, class, i, j + 1, k)
                ||| holds_at(grid, class, i, j, k - 1)
                ||| holds_at(grid, class, i, j, k + 1)
            }
        },
{
    let c = VoxelCoord { x, y, z };
    let (i, j, k) = (x as int, y as int, z as int);
    law_exposed_cells_touch_the_class(grid, class, c);
    if exists|a: int, b: int, d: int|
        grid.inside(a, b, d) && #[trigger] touches_class(grid, class, c, a, b, d) {
        let (a, b, d) = choose|a: int, b: int, d: int|
            grid.inside(a, b, d) && #[trigger] touches_class(grid, class, c, a, b, d);
        let face = choose|face: int|
            0 <= face < 6 && #[trigger] is_open_face(grid, a, b, d, face) && c == coord(
                neighbour(a, b, d, face),
            );
        assert(neighbour(a, b, d, face) == (i, j, k));
        assert(holds_at(grid, class, a, b, d));
    }
    if holds_at(grid, VOXEL_AIR, i, j, k) {
        if holds_at(grid, class, i - 1, j, k) {
            assert(is_open_face(grid, i - 1, j, k, 1));
            assert(touches_class(grid, class, c, i - 1, j, k));
        }
        if holds_at(grid, class, i + 1, j, k) {
            assert(is_open_face(grid, i + 1, j, k, 0));
            assert(touches_class(grid, class, c, i + 1, j, k));
        }
        if holds_at(grid, class, i, j - 1, k) {
            assert(is_open_face(grid, i, j - 1, k, 3));
            assert(touches_class(grid, class, c, i, j - 1, k));
        }
        if holds_at(grid, class, i, j + 1, k) {
            assert(is_open_face(grid, i, j + 1, k, 2));
            assert(touches_class(grid, class, c, i, j + 1, k));
        }
        if holds_at(grid, class, i, j, k - 1) {
            assert(is_open_face(grid, i, j, k - 1, 5));
            assert(touches_class(grid, class, c, i, j, k - 1));
        }
        if holds_at(grid, class, i, j, k + 1) {
            assert(is_open_face(grid, i, j, k + 1, 4));
            assert(touches_class(grid, class, c, i, j, k + 1));
        }
    }
}

/// Lamps, red lamps and glimmer shine and nothing else does. Lamps reach the full
/// red channel, red light has more red than green and more green than blue, the
/// glimmer is the dimmest and mostly blue.
pub proof fn law_profiles_tell_classes_apart(voxel_type: u8)
    ensures
        profile_of(voxel_type) is Some <==> voxel_type == VOXEL_LIGHT || voxel_type
            == VOXEL_RED_LIGHT || voxel_type == VOXEL_GLIMMER,
        profile_of(voxel_type) matches Some(p) ==> {
            &&& p.voxel_type == voxel_type
            &&& voxel_type == VOXEL_LIGHT ==> (p.red, p.green, p.blue) == (15u8, 14u8, 11u8)
            &&& voxel_type == VOXEL_RED_LIGHT ==> (p.red, p.green, p.blue) == (15u8, 3u8, 2u8)
            &&& voxel_type == VOXEL_GLIMMER ==> (p.red, p.green, p.blue) == (3u8, 5u8, 7u8)
        },
{
}

/// How often a cell is listed.
pub open spec fn times(list: Seq<VoxelCoord>, c: VoxelCoord) -> int
    decreases list.len(),
{
    if list.len() == 0 {
        0
    } else {
        times(list.drop_last(), c) + if list.last() == c {
            1int
        } else {
            0
        }
    }
}

proof fn lemma_times_sum(a: Seq<VoxelCoord>, b: Seq<VoxelCoord>, c: VoxelCoord)
    ensures
        times(a + b, c) == times(a, c) + times(b, c),
    decreases b.len(),
{
    if b.len() == 0 {
        assert(a + b =~= a);
    } else {
        lemma_times_sum(a, b.drop_last(), c);
        assert((a + b).drop_last() =~= a + b.drop_last());
    }
}

/// One where a voxel of the class stands, and nothing where none does.
pub open spec fn one_if(grid: GridModel, class: u8, x: int, y: int, z: int) -> int {
    if holds_at(grid, class, x, y, z) {
        1
    } else {
        0
    }
}

/// The voxel shows a face to the cell.
spec fn faces(grid: GridModel, c: VoxelCoord, x: int, y: int, z: int) -> bool {
    let (i, j, k) = (c.x as int, c.y as int, c.z as int);
    holds_at(grid, VOXEL_AIR, i, j, k) && {
        ||| y == j && z == k && (x == i - 1 || x == i + 1)
        ||| x == i && z == k && (y == j - 1 || y == j + 1)
        ||| x == i && y == j && (z == k - 1 || z == k + 1)
    }
}

spec fn measurable(grid: GridModel) -> bool {
    0 <= grid.width <= usize::MAX && 0 <= grid.height <= usize::MAX && 0 <= grid.depth <= usize::MAX
}

proof fn lemma_times_by(grid: GridModel, class: u8, c: VoxelCoord, x: int, y: int, z: int)
    requires
        measurable(grid),
        grid.inside(x, y, z),
    ensures
        times(exposed_by(grid, class, x, y, z), c) == (if faces(grid, c, x, y, z) {
            one_if(grid, class, x, y, z)
        } else {
            0
        }),
{
    if grid.material(x, y, z) == class {
        lemma_times_across(grid, c, x, y, z, 6);
    }
}

/// Which face of the voxel the cell lies across.
spec fn face_towards(c: VoxelCoord, x: int, y: int, z: int) -> int {
    if c.x == x - 1 {
        0
    } else if c.x == x + 1 {
        1
    } else if c.y == y - 1 {
        2
    } else if c.y == y + 1 {
        3
    } else if c.z == z - 1 {
        4
    } else {
        5
    }
}

proof fn lemma_times_across(grid: GridModel, c: VoxelCoord, x: int, y: int, z: int, n: nat)
    requires
        measurable(grid),
        grid.inside(x, y, z),
        n <= 6,
    ensures
        times(air_across(grid, x, y, z, n), c) == (if faces(grid, c, x, y, z) && face_towards(
            c,
            x,
            y,
            z,
        ) < n {
            1int
        } else {
            0
        }),
    decreases n,
{
    if n > 0 {
        lemma_times_across(grid, c, x, y, z, (n - 1) as nat);
        let before = air_across(grid, x, y, z, (n - 1) as nat);
        let after = air_across(grid, x, y, z, n);
        if is_open_face(grid, x, y, z, n - 1) {
            let last = coord(neighbour(x, y, z, n - 1));
            assert(after.drop_last() =~= before);
            assert(after.last() == last);
        }
    }
}

/// What a row gives the cell.
spec fn row_gives(grid: GridModel, class: u8, c: VoxelCoord, y: int, z: int, n: int) -> int {
    let (i, j, k) = (c.x as int, c.y as int, c.z as int);
    if !holds_at(grid, VOXEL_AIR, i, j, k) {
        0
    } else if y == j && z == k {
        (if i - 1 < n {
            one_if(grid, class, i - 1, y, z)
        } else {
            0
        }) + (if i + 1 < n {
            one_if(grid, class, i + 1, y, z)
        } else {
            0
        })
    } else if (z == k && (y == j - 1 || y == j + 1)) || (y == j && (z == k - 1 || z == k + 1)) {
        if i < n {
            one_if(grid, class, i, y, z)
        } else {
            0
        }
    } else {
        0
    }
}

proof fn lemma_times_row(grid: GridModel, class: u8, c: VoxelCoord, y: int, z: int, n: nat)
    requires
        measurable(grid),
        n <= grid.width,
        0 <= y < grid.height,
        0 <= z < grid.depth,
    ensures
        times(exposed_in_row(grid, class, y, z, n), c) == row_gives(
            grid,
            class,
            c,
            y,
            z,
            n as int,
        ),
    decreases n,
{
    if n > 0 {
        lemma_times_row(grid, class, c, y, z, (n - 1) as nat);
        lemma_times_by(grid, class, c, n - 1, y, z);
        lemma_times_sum(
            exposed_in_row(grid, class, y, z, (n - 1) as nat),
            exposed_by(grid, class, n - 1, y, z),
            c,
        );
    }
}

/// What the first `n` rows of a layer give the cell.
spec fn layer_gives(grid: GridModel, class: u8, c: VoxelCoord, y: int, n: int) -> int {
    let k = c.z as int;
    let w = grid.width;
    (if 0 <= k - 1 < n {
        row_gives(grid, class, c, y, k - 1, w)
    } else {
        0
    }) + (if k < n {
        row_gives(grid, class, c, y, k, w)
    } else {
        0
    }) + (if k + 1 < n {
        row_gives(grid, class, c, y, k + 1, w)
    } else {
        0
    })
}

proof fn lemma_times_layer(grid: GridModel, class: u8, c: VoxelCoord, y: int, n: nat)
    requires
        measurable(grid),
        n <= grid.depth,
        0 <= y < grid.height,
    ensures
        times(exposed_in_layer(grid, class, y, n), c) == layer_gives(grid, class, c, y, n as int),
    decreases n,
{
    if n > 0 {
        lemma_times_layer(grid, class, c, y, (n - 1) as nat);
        lemma_times_row(grid, class, c, y, n - 1, grid.width as nat);
        lemma_times_sum(
            exposed_in_layer(grid, class, y, (n - 1) as nat),
            exposed_in_row(grid, class, y, n - 1, grid.width as nat),
            c,
        );
    }
}

proof fn lemma_times_grid(grid: GridModel, class: u8, c: VoxelCoord, n: nat)
    requires
        measurable(grid),
        n <= grid.height,
    ensures
        ({
            let j = c.y as int;
            let d = grid.depth;
            times(exposed_in_grid(grid, class, n), c) == (if 0 <= j - 1 < n {
                layer_gives(grid, class, c, j - 1, d)
            } else {
                0
            }) + (if j < n {
                layer_gives(grid, class, c, j, d)
            } else {
                0
            }) + (if j + 1 < n {
                layer_gives(grid, class, c, j + 1, d)
            } else {
                0
            })
        }),
    decreases n,
{
    if n > 0 {
        lemma_times_grid(grid, class, c, (n - 1) as nat);
        lemma_times_layer(grid, class, c, n - 1, grid.depth as nat);
        lemma_times_sum(
            exposed_in_grid(grid, class, (n - 1) as nat),
            exposed_in_layer(grid, class, n - 1, grid.depth as nat),
            c,
        );
    }
}

/// Light enters once per face: an air cell of the grid is listed as often as voxels of
/// the class stand on its six sides, and nothing else is listed at all.
pub proof fn law_cells_are_listed_once_per_face(
    grid: GridModel,
    class: u8,
    x: usize,
    y: usize,
    z: usize,
)
    requires
        0 <= grid.width <= usize::MAX,
        0 <= grid.height <= usize::MAX,
        0 <= grid.depth <= usize::MAX,
    ensures
        ({
            let (i, j, k) = (x as int, y as int, z as int);
            let listed = times(
                exposed_in_grid(grid, class, grid.height as nat),
                VoxelCoord { x, y, z },
            );
            listed == if holds_at(grid, VOXEL_AIR, i, j, k) {
                one_if(grid, class, i - 1, j, k) + one_if(grid, class, i + 1, j, k) + one_if(
                    grid,
                    class,
                    i,
                    j - 1,
                    k,
                ) + one_if(grid, class, i, j + 1, k) + one_if(grid, class, i, j, k - 1) + one_if(
                    grid,
                    class,
                    i,
                    j,
                    k + 1,
                )
            } else {
                0
            }
        }),
{
    lemma_times_grid(grid, class, VoxelCoord { x, y, z }, grid.height as nat);
}

} // verus!
