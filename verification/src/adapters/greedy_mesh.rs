//! Greedy merging of equal faces in one slice of the grid.

use vstd::prelude::*;

use crate::domain::plane::{Plane, PlaneModel};

verus! {

#[derive(Debug, Clone, Copy, PartialEq, Eq, Structural)]
pub enum VoxelType {
    Wall,
    Floor,
    Ceiling,
    Light,
    RedWall,
}

/// What must agree for two faces to merge.
#[derive(Debug, Clone, Copy, PartialEq, Eq, Structural)]
pub struct Face {
    pub v_type: VoxelType,
    pub color: u32,
}

/// A merged rectangle of one slice.
#[derive(Debug, Clone, Copy, PartialEq, Eq, Structural)]
pub struct SliceQuad {
    pub u: usize,
    pub v: usize,
    pub w: usize,
    pub h: usize,
    pub face: Face,
}

/// The faces of a slice.
pub type Faces = PlaneModel<Option<Face>>;

pub open spec fn in_quad(q: SliceQuad, u: int, v: int) -> bool {
    q.u <= u < q.u + q.w && q.v <= v < q.v + q.h
}

pub open spec fn covered(quads: Seq<SliceQuad>, u: int, v: int) -> bool {
    exists|i: int| 0 <= i < quads.len() && in_quad(#[trigger] quads[i], u, v)
}

/// The cell shows the face and no quad has it yet.
pub open spec fn mergeable(faces: Faces, quads: Seq<SliceQuad>, face: Face, u: int, v: int) -> bool {
    faces.at(u, v) == Some(face) && !covered(quads, u, v)
}

/// How far a quad that starts at `u` reaches along the row, given that it
/// reaches at least `k` cells.
pub open spec fn run_width(
    faces: Faces,
    quads: Seq<SliceQuad>,
    face: Face,
    u: int,
    v: int,
    k: int,
) -> int
    decreases faces.width - u - k,
{
    if u + k < faces.width && mergeable(faces, quads, face, u + k, v) {
        run_width(faces, quads, face, u, v, k + 1)
    } else {
        k
    }
}

pub open spec fn row_mergeable(
    faces: Faces,
    quads: Seq<SliceQuad>,
    face: Face,
    u: int,
    v: int,
    w: int,
) -> bool {
    forall|i: int| u <= i < u + w ==> #[trigger] mergeable(faces, quads, face, i, v)
}

/// How many rows a quad of width `w` reaches down, given at least `k`.
pub open spec fn run_height(
    faces: Faces,
    quads: Seq<SliceQuad>,
    face: Face,
    u: int,
    v: int,
    w: int,
    k: int,
) -> int
    decreases faces.height - v - k,
{
    if v + k < faces.height && row_mergeable(faces, quads, face, u, v + k, w) {
        run_height(faces, quads, face, u, v, w, k + 1)
    } else {
        k
    }
}

/// The quad that starts at a cell: as wide as it can be, then as high.
pub open spec fn quad_at(faces: Faces, quads: Seq<SliceQuad>, face: Face, u: int, v: int) -> SliceQuad {
    let w = run_width(faces, quads, face, u, v, 1);
    let h = run_height(faces, quads, face, u, v, w, 1);
    SliceQuad { u: u as usize, v: v as usize, w: w as usize, h: h as usize, face }
}

/// The quads after scanning the first `n` cells, row by row: each starts at the
/// first face that no earlier quad has.
pub open spec fn meshed(faces: Faces, n: nat) -> Seq<SliceQuad>
    decreases n,
{
    if n == 0 {
        Seq::empty()
    } else {
        let before = meshed(faces, (n - 1) as nat);
        let u = (n - 1) as int % faces.width;
        let v = (n - 1) as int / faces.width;
        match faces.at(u, v) {
            Some(face) if !covered(before, u, v) => before.push(
                quad_at(faces, before, face, u, v),
            ),
            _ => before,
        }
    }
}

/// The quads of a whole slice.
pub open spec fn mesh(faces: Faces) -> Seq<SliceQuad> {
    meshed(faces, (faces.width * faces.height) as nat)
}

proof fn lemma_run_width(faces: Faces, quads: Seq<SliceQuad>, face: Face, u: int, v: int, k: int)
    requires
        0 <= u,
        0 < k,
        u + k <= faces.width,
        forall|i: int| u <= i < u + k ==> #[trigger] mergeable(faces, quads, face, i, v),
    ensures
        ({
            let w = run_width(faces, quads, face, u, v, k);
            &&& k <= w
            &&& u + w <= faces.width
            &&& row_mergeable(faces, quads, face, u, v, w)
        }),
    decreases faces.width - u - k,
{
    if u + k < faces.width && mergeable(faces, quads, face, u + k, v) {
        lemma_run_width(faces, quads, face, u, v, k + 1);
    }
}

proof fn lemma_run_height(
    faces: Faces,
    quads: Seq<SliceQuad>,
    face: Face,
    u: int,
    v: int,
    w: int,
    k: int,
)
    requires
        0 <= v,
        0 < k,
        v + k <= faces.height,
        forall|j: int| v <= j < v + k ==> #[trigger] row_mergeable(faces, quads, face, u, j, w),
    ensures
        ({
            let h = run_height(faces, quads, face, u, v, w, k);
            &&& k <= h
            &&& v + h <= faces.height
            &&& forall|j: int|
                v <= j < v + h ==> #[trigger] row_mergeable(faces, quads, face, u, j, w)
        }),
    decreases faces.height - v - k,
{
    if v + k < faces.height && row_mergeable(faces, quads, face, u, v + k, w) {
        lemma_run_height(faces, quads, face, u, v, w, k + 1);
    }
}

/// A new quad lies in the slice, and every cell of it was mergeable.
proof fn lemma_quad_at(faces: Faces, quads: Seq<SliceQuad>, face: Face, u: int, v: int)
    requires
        faces.width <= usize::MAX,
        faces.height <= usize::MAX,
        faces.inside(u, v),
        mergeable(faces, quads, face, u, v),
    ensures
        ({
            let q = quad_at(faces, quads, face, u, v);
            &&& q.u == u && q.v == v && q.w >= 1 && q.h >= 1
            &&& q.w == run_width(faces, quads, face, u, v, 1)
            &&& q.h == run_height(faces, quads, face, u, v, q.w as int, 1)
            &&& q.u + q.w <= faces.width
            &&& q.v + q.h <= faces.height
            &&& forall|i: int, j: int|
                in_quad(q, i, j) ==> #[trigger] mergeable(faces, quads, face, i, j)
        }),
{
    let w = run_width(faces, quads, face, u, v, 1);
    lemma_run_width(faces, quads, face, u, v, 1);
    assert(row_mergeable(faces, quads, face, u, v, w));
    lemma_run_height(faces, quads, face, u, v, w, 1);
    let q = quad_at(faces, quads, face, u, v);
    assert forall|i: int, j: int| in_quad(q, i, j) implies #[trigger] mergeable(
        faces,
        quads,
        face,
        i,
        j,
    ) by {
        assert(row_mergeable(faces, quads, face, u, j, w));
    }
}

/// What holds of quads: inside the slice, of one face each, and apart.
pub open spec fn quads_ok(faces: Faces, quads: Seq<SliceQuad>) -> bool {
    &&& forall|i: int|
        0 <= i < quads.len() ==> {
            let q = #[trigger] quads[i];
            q.w >= 1 && q.h >= 1 && q.u + q.w <= faces.width && q.v + q.h <= faces.height
        }
    &&& forall|i: int, u: int, v: int|
        0 <= i < quads.len() && #[trigger] in_quad(quads[i], u, v) ==> faces.at(u, v) == Some(
            quads[i].face,
        )
    &&& forall|i: int, j: int, u: int, v: int|
        0 <= i < quads.len() && 0 <= j < quads.len() && #[trigger] in_quad(quads[i], u, v)
            && #[trigger] in_quad(quads[j], u, v) ==> i == j
}

proof fn lemma_meshed(faces: Faces, n: nat)
    requires
        0 < faces.width <= usize::MAX,
        0 <= faces.height <= usize::MAX,
        n <= faces.width * faces.height,
    ensures
        quads_ok(faces, meshed(faces, n)),
        forall|k: int|
            0 <= k < n && (#[trigger] faces.at(k % faces.width, k / faces.width)) is Some ==> covered(
                meshed(faces, n),
                k % faces.width,
                k / faces.width,
            ),
    decreases n,
{
    if n > 0 {
        let m = (n - 1) as nat;
        lemma_meshed(faces, m);
        let before = meshed(faces, m);
        let after = meshed(faces, n);
        let u = m as int % faces.width;
        let v = m as int / faces.width;
        lemma_scan_inside(faces.width, faces.height, m as int);
        if faces.at(u, v) is Some && !covered(before, u, v) {
            let face = faces.at(u, v)->0;
            let q = quad_at(faces, before, face, u, v);
            lemma_quad_at(faces, before, face, u, v);
            let last = before.len() as int;
            assert(after == before.push(q));
            assert forall|i: int, a: int, b: int|
                0 <= i < after.len() && #[trigger] in_quad(after[i], a, b) implies faces.at(a, b)
                == Some(after[i].face) by {
                if i < last {
                    assert(in_quad(before[i], a, b));
                } else {
                    assert(mergeable(faces, before, face, a, b));
                }
            }
            assert forall|i: int, j: int, a: int, b: int|
                0 <= i < after.len() && 0 <= j < after.len() && #[trigger] in_quad(after[i], a, b)
                    && #[trigger] in_quad(after[j], a, b) implies i == j by {
                if i < last && j < last {
                    assert(in_quad(before[i], a, b) && in_quad(before[j], a, b));
                } else if i < last {
                    assert(mergeable(faces, before, face, a, b));
                    assert(in_quad(before[i], a, b));
                } else if j < last {
                    assert(mergeable(faces, before, face, a, b));
                    assert(in_quad(before[j], a, b));
                }
            }
            assert(in_quad(after[last], u, v));
        }
        assert forall|k: int|
            0 <= k < n && (#[trigger] faces.at(
                k % faces.width,
                k / faces.width,
            )) is Some implies covered(after, k % faces.width, k / faces.width) by {
            if k < m {
                assert(covered(before, k % faces.width, k / faces.width));
                let i = choose|i: int|
                    0 <= i < before.len() && in_quad(
                        #[trigger] before[i],
                        k % faces.width,
                        k / faces.width,
                    );
                assert(after[i] == before[i]);
            }
        }
    }
}

proof fn lemma_scan_inside(w: int, h: int, k: int)
    requires
        0 < w,
        0 <= k < w * h,
    ensures
        0 <= k % w < w,
        0 <= k / w < h,
{
    assert(0 <= k % w < w && 0 <= k / w && k / w < h) by (nonlinear_arith)
        requires
            0 < w,
            0 <= k < w * h,
    ;
}

proof fn lemma_scan_index(w: int, h: int, u: int, v: int)
    requires
        0 <= u < w,
        0 <= v < h,
    ensures
        0 <= v * w + u < w * h,
        (v * w + u) % w == u,
        (v * w + u) / w == v,
{
    assert(0 <= v * w + u < w * h) by (nonlinear_arith)
        requires
            0 <= u < w,
            0 <= v < h,
    ;
    vstd::arithmetic::div_mod::lemma_fundamental_div_mod_converse(v * w + u, w, v, u);
}

/// Greedy merging keeps the picture: a cell shows a face exactly when a quad
/// covers it, that quad has the cell's face, and no two quads overlap.
pub proof fn law_mesh_covers_faces_once(faces: Faces)
    requires
        0 <= faces.width <= usize::MAX,
        0 <= faces.height <= usize::MAX,
    ensures
        quads_ok(faces, mesh(faces)),
        forall|u: int, v: int|
            faces.inside(u, v) ==> (#[trigger] faces.at(u, v) is Some <==> covered(
                mesh(faces),
                u,
                v,
            )),
{
    if faces.width == 0 {
        assert(faces.width * faces.height == 0) by (nonlinear_arith)
            requires
                faces.width == 0,
        ;
    } else {
        lemma_covers_faces(faces);
    }
}

proof fn lemma_covers_faces(faces: Faces)
    requires
        0 < faces.width <= usize::MAX,
        0 <= faces.height <= usize::MAX,
    ensures
        quads_ok(faces, mesh(faces)),
        forall|u: int, v: int|
            faces.inside(u, v) ==> (#[trigger] faces.at(u, v) is Some <==> covered(
                mesh(faces),
                u,
                v,
            )),
{
    let n = (faces.width * faces.height) as nat;
    assert(faces.width * faces.height >= 0) by (nonlinear_arith)
        requires
            0 < faces.width,
            0 <= faces.height,
    ;
    lemma_meshed(faces, n);
    assert forall|u: int, v: int| faces.inside(u, v) implies (#[trigger] faces.at(u, v) is Some
        <==> covered(mesh(faces), u, v)) by {
        let k = v * faces.width + u;
        lemma_scan_index(faces.width, faces.height, u, v);
        assert(faces.at(k % faces.width, k / faces.width) == faces.at(u, v));
        if covered(mesh(faces), u, v) {
            let i = choose|i: int|
                0 <= i < mesh(faces).len() && in_quad(#[trigger] mesh(faces)[i], u, v);
            assert(in_quad(mesh(faces)[i], u, v));
        }
    }
}

/// The mesh depends only on the faces inside the slice.
pub proof fn lemma_mesh_local(a: Faces, b: Faces)
    requires
        a.width == b.width,
        a.height == b.height,
        0 < a.width <= usize::MAX,
        0 <= a.height <= usize::MAX,
        forall|u: int, v: int| a.inside(u, v) ==> #[trigger] a.at(u, v) == b.at(u, v),
    ensures
        mesh(a) == mesh(b),
{
    assert(a.width * a.height >= 0) by (nonlinear_arith)
        requires
            0 < a.width,
            0 <= a.height,
    ;
    lemma_meshed_local(a, b, (a.width * a.height) as nat);
}

proof fn lemma_meshed_local(a: Faces, b: Faces, n: nat)
    requires
        a.width == b.width,
        a.height == b.height,
        0 < a.width <= usize::MAX,
        0 <= a.height <= usize::MAX,
        n <= a.width * a.height,
        forall|u: int, v: int| a.inside(u, v) ==> #[trigger] a.at(u, v) == b.at(u, v),
    ensures
        meshed(a, n) == meshed(b, n),
    decreases n,
{
    if n > 0 {
        let m = (n - 1) as nat;
        lemma_meshed_local(a, b, m);
        let u = m as int % a.width;
        let v = m as int / a.width;
        lemma_scan_inside(a.width, a.height, m as int);
        assert(a.at(u, v) == b.at(u, v));
        if let Some(face) = a.at(u, v) {
            let quads = meshed(a, m);
            lemma_width_local(a, b, quads, face, u, v, 1);
            let w = run_width(a, quads, face, u, v, 1);
            if !covered(quads, u, v) {
                lemma_run_width(a, quads, face, u, v, 1);
                lemma_height_local(a, b, quads, face, u, v, w, 1);
            }
        }
    }
}

proof fn lemma_width_local(
    a: Faces,
    b: Faces,
    quads: Seq<SliceQuad>,
    face: Face,
    u: int,
    v: int,
    k: int,
)
    requires
        a.width == b.width,
        a.height == b.height,
        0 <= u,
        0 <= v < a.height,
        0 < k,
        forall|i: int, j: int| a.inside(i, j) ==> #[trigger] a.at(i, j) == b.at(i, j),
    ensures
        run_width(a, quads, face, u, v, k) == run_width(b, quads, face, u, v, k),
    decreases a.width - u - k,
{
    if u + k < a.width {
        assert(a.at(u + k, v) == b.at(u + k, v));
        lemma_width_local(a, b, quads, face, u, v, k + 1);
    }
}

proof fn lemma_height_local(
    a: Faces,
    b: Faces,
    quads: Seq<SliceQuad>,
    face: Face,
    u: int,
    v: int,
    w: int,
    k: int,
)
    requires
        a.width == b.width,
        a.height == b.height,
        0 <= u,
        u + w <= a.width,
        0 <= v,
        0 < k,
        forall|i: int, j: int| a.inside(i, j) ==> #[trigger] a.at(i, j) == b.at(i, j),
    ensures
        run_height(a, quads, face, u, v, w, k) == run_height(b, quads, face, u, v, w, k),
    decreases a.height - v - k,
{
    if v + k < a.height {
        let row = v + k;
        if row_mergeable(a, quads, face, u, row, w) {
            assert forall|i: int| u <= i < u + w implies #[trigger] mergeable(
                b,
                quads,
                face,
                i,
                row,
            ) by {
                assert(mergeable(a, quads, face, i, row));
                assert(a.at(i, row) == b.at(i, row));
            }
        }
        if row_mergeable(b, quads, face, u, row, w) {
            assert forall|i: int| u <= i < u + w implies #[trigger] mergeable(
                a,
                quads,
                face,
                i,
                row,
            ) by {
                assert(mergeable(b, quads, face, i, row));
                assert(a.at(i, row) == b.at(i, row));
            }
        }
        lemma_height_local(a, b, quads, face, u, v, w, k + 1);
    }
}

spec fn visits(visited: PlaneModel<bool>, quads: Seq<SliceQuad>) -> bool {
    forall|u: int, v: int|
        visited.inside(u, v) ==> #[trigger] visited.at(u, v) == covered(quads, u, v)
}

fn cell_mergeable(
    faces: &Plane<Option<Face>>,
    visited: &Plane<bool>,
    face: Face,
    u: usize,
    v: usize,
    Ghost(quads): Ghost<Seq<SliceQuad>>,
) -> (ok: bool)
    requires
        faces.wf(),
        visited.wf(),
        faces@.width == visited@.width,
        faces@.height == visited@.height,
        faces@.inside(u as int, v as int),
        visits(visited@, quads),
    ensures
        ok == mergeable(faces@, quads, face, u as int, v as int),
{
    assert(visited@.at(u as int, v as int) == covered(quads, u as int, v as int));
    if visited.get(u, v) {
        return false;
    }
    match faces.get(u, v) {
        Some(f) => f == face,
        None => false,
    }
}

fn find_width(
    faces: &Plane<Option<Face>>,
    visited: &Plane<bool>,
    face: Face,
    u: usize,
    v: usize,
    Ghost(quads): Ghost<Seq<SliceQuad>>,
) -> (w: usize)
    requires
        faces.wf(),
        visited.wf(),
        faces@.width == visited@.width,
        faces@.height == visited@.height,
        faces@.inside(u as int, v as int),
        visits(visited@, quads),
    ensures
        w == run_width(faces@, quads, face, u as int, v as int, 1),
{
    let limit: usize = faces.width();
    let mut w: usize = 1;
    while u + w < limit && cell_mergeable(faces, visited, face, u + w, v, Ghost(quads))
        invariant
            faces.wf(),
            visited.wf(),
            faces@.width == visited@.width,
            faces@.height == visited@.height,
            faces@.width == limit,
            faces@.inside(u as int, v as int),
            visits(visited@, quads),
            1 <= w,
            u + w <= limit,
            run_width(faces@, quads, face, u as int, v as int, w as int) == run_width(
                faces@,
                quads,
                face,
                u as int,
                v as int,
                1,
            ),
        decreases limit - w,
    {
        w = w + 1;
    }
    w
}

fn row_is_mergeable(
    faces: &Plane<Option<Face>>,
    visited: &Plane<bool>,
    face: Face,
    u: usize,
    v: usize,
    w: usize,
    Ghost(quads): Ghost<Seq<SliceQuad>>,
) -> (ok: bool)
    requires
        faces.wf(),
        visited.wf(),
        faces@.width == visited@.width,
        faces@.height == visited@.height,
        u + w <= faces@.width <= usize::MAX,
        0 <= v < faces@.height,
        visits(visited@, quads),
    ensures
        ok == row_mergeable(faces@, quads, face, u as int, v as int, w as int),
{
    let mut i: usize = u;
    while i < u + w
        invariant
            faces.wf(),
            visited.wf(),
            faces@.width == visited@.width,
            faces@.height == visited@.height,
            u <= i <= u + w <= faces@.width <= usize::MAX,
            0 <= v < faces@.height,
            visits(visited@, quads),
            forall|k: int|
                u <= k < i ==> #[trigger] mergeable(faces@, quads, face, k, v as int),
        decreases u + w - i,
    {
        if !cell_mergeable(faces, visited, face, i, v, Ghost(quads)) {
            assert(!mergeable(faces@, quads, face, i as int, v as int));
            return false;
        }
        i = i + 1;
    }
    true
}

fn find_height(
    faces: &Plane<Option<Face>>,
    visited: &Plane<bool>,
    face: Face,
    u: usize,
    v: usize,
    w: usize,
    Ghost(quads): Ghost<Seq<SliceQuad>>,
) -> (h: usize)
    requires
        faces.wf(),
        visited.wf(),
        faces@.width == visited@.width,
        faces@.height == visited@.height,
        faces@.inside(u as int, v as int),
        u + w <= faces@.width <= usize::MAX,
        visits(visited@, quads),
    ensures
        h == run_height(faces@, quads, face, u as int, v as int, w as int, 1),
{
    let limit: usize = faces.height();
    let mut h: usize = 1;
    while v + h < limit && row_is_mergeable(faces, visited, face, u, v + h, w, Ghost(quads))
        invariant
            faces.wf(),
            visited.wf(),
            faces@.width == visited@.width,
            faces@.height == visited@.height,
            faces@.height == limit,
            faces@.inside(u as int, v as int),
            u + w <= faces@.width <= usize::MAX,
            visits(visited@, quads),
            1 <= h,
            v + h <= limit,
            run_height(faces@, quads, face, u as int, v as int, w as int, h as int) == run_height(
                faces@,
                quads,
                face,
                u as int,
                v as int,
                w as int,
                1,
            ),
        decreases limit - h,
    {
        h = h + 1;
    }
    h
}

fn mark_visited(visited: &mut Plane<bool>, q: SliceQuad, Ghost(quads): Ghost<Seq<SliceQuad>>)
    requires
        old(visited).wf(),
        visits(old(visited)@, quads),
        q.u + q.w <= old(visited)@.width <= usize::MAX,
        q.v + q.h <= old(visited)@.height <= usize::MAX,
    ensures
        final(visited).wf(),
        final(visited)@.width == old(visited)@.width,
        final(visited)@.height == old(visited)@.height,
        visits(final(visited)@, quads.push(q)),
{
    let ghost start = visited@;
    let mut v: usize = q.v;
    while v < q.v + q.h
        invariant
            visited.wf(),
            visited@.width == start.width,
            visited@.height == start.height,
            q.u + q.w <= start.width <= usize::MAX,
            q.v <= v <= q.v + q.h <= start.height <= usize::MAX,
            forall|i: int, j: int|
                start.inside(i, j) ==> #[trigger] visited@.at(i, j) == (start.at(i, j) || (in_quad(
                    q,
                    i,
                    j,
                ) && j < v)),
        decreases q.v + q.h - v,
    {
        let mut u: usize = q.u;
        while u < q.u + q.w
            invariant
                visited.wf(),
                visited@.width == start.width,
                visited@.height == start.height,
                q.u <= u <= q.u + q.w <= start.width <= usize::MAX,
                q.v <= v < q.v + q.h <= start.height <= usize::MAX,
                forall|i: int, j: int|
                    start.inside(i, j) ==> #[trigger] visited@.at(i, j) == (start.at(i, j) || (
                    in_quad(q, i, j) && (j < v || (j == v && i < u)))),
            decreases q.u + q.w - u,
        {
            visited.set(u, v, true);
            u = u + 1;
        }
        v = v + 1;
    }
    proof {
        let more = quads.push(q);
        assert forall|i: int, j: int| visited@.inside(i, j) implies #[trigger] visited@.at(i, j)
            == covered(more, i, j) by {
            assert(start.at(i, j) == covered(quads, i, j));
            if covered(quads, i, j) {
                let k = choose|k: int| 0 <= k < quads.len() && in_quad(#[trigger] quads[k], i, j);
                assert(more[k] == quads[k]);
            }
            if in_quad(q, i, j) {
                assert(in_quad(more[quads.len() as int], i, j));
            }
            if covered(more, i, j) {
                let k = choose|k: int| 0 <= k < more.len() && in_quad(#[trigger] more[k], i, j);
                if k < quads.len() {
                    assert(in_quad(quads[k], i, j));
                }
            }
        }
    }
}

/// Performs greedy meshing on a slice; an empty slice has no quads.
pub fn greedy_mesh_2d(faces: &Plane<Option<Face>>) -> (quads: Vec<SliceQuad>)
    requires
        faces.wf(),
        faces@.width * faces@.height <= usize::MAX,
    ensures
        quads@ == mesh(faces@),
{
    let w: usize = faces.width();
    let h: usize = faces.height();
    let mut visited: Plane<bool> = Plane::new(w, h, false);
    let mut quads: Vec<SliceQuad> = Vec::new();
    let count: usize = w * h;
    let mut n: usize = 0;
    assert(visits(visited@, quads@));
    assert(w == 0 ==> count == 0) by (nonlinear_arith)
        requires
            count == w * h,
    ;
    while n < count
        invariant
            n <= count,
            count == w * h,
            w > 0 || count == 0,
            faces.wf(),
            visited.wf(),
            faces@.width == w,
            faces@.height == h,
            visited@.width == w,
            visited@.height == h,
            visits(visited@, quads@),
            quads@ == meshed(faces@, n as nat),
        decreases count - n,
    {
        let u: usize = n % w;
        let v: usize = n / w;
        proof {
            lemma_scan_inside(w as int, h as int, n as int);
            assert(visited@.at(u as int, v as int) == covered(quads@, u as int, v as int));
        }
        if !visited.get(u, v) {
            if let Some(face) = faces.get(u, v) {
                proof {
                    lemma_quad_at(faces@, quads@, face, u as int, v as int);
                }
                let qw: usize = find_width(faces, &visited, face, u, v, Ghost(quads@));
                let qh: usize = find_height(faces, &visited, face, u, v, qw, Ghost(quads@));
                let q = SliceQuad { u, v, w: qw, h: qh, face };
                mark_visited(&mut visited, q, Ghost(quads@));
                quads.push(q);
            }
        }
        n = n + 1;
    }
    quads
}

/// The cell is free for the quad at `i`: it shows the quad's face, and no quad before
/// that one covers it.
pub open spec fn free_for(faces: Faces, quads: Seq<SliceQuad>, i: int, u: int, v: int) -> bool {
    faces.inside(u, v) && faces.at(u, v) == Some(quads[i].face) && forall|j: int|
        0 <= j < i ==> !in_quad(#[trigger] quads[j], u, v)
}

/// The quad at `i` is as wide as it can be, and then as high.
pub open spec fn grown_out(faces: Faces, quads: Seq<SliceQuad>, i: int) -> bool {
    let q = quads[i];
    &&& !free_for(faces, quads, i, q.u + q.w, q.v as int)
    &&& exists|u: int| q.u <= u < q.u + q.w && !#[trigger] free_for(faces, quads, i, u, q.v + q.h)
}

proof fn lemma_width_stops(faces: Faces, quads: Seq<SliceQuad>, face: Face, u: int, v: int, k: int)
    ensures
        ({
            let w = run_width(faces, quads, face, u, v, k);
            u + w >= faces.width || !mergeable(faces, quads, face, u + w, v)
        }),
    decreases faces.width - u - k,
{
    if u + k < faces.width && mergeable(faces, quads, face, u + k, v) {
        lemma_width_stops(faces, quads, face, u, v, k + 1);
    }
}

proof fn lemma_height_stops(
    faces: Faces,
    quads: Seq<SliceQuad>,
    face: Face,
    u: int,
    v: int,
    w: int,
    k: int,
)
    ensures
        ({
            let h = run_height(faces, quads, face, u, v, w, k);
            v + h >= faces.height || !row_mergeable(faces, quads, face, u, v + h, w)
        }),
    decreases faces.height - v - k,
{
    if v + k < faces.height && row_mergeable(faces, quads, face, u, v + k, w) {
        lemma_height_stops(faces, quads, face, u, v, w, k + 1);
    }
}

proof fn lemma_grown_out(faces: Faces, n: nat, i: int)
    requires
        0 < faces.width <= usize::MAX,
        0 <= faces.height <= usize::MAX,
        n <= faces.width * faces.height,
        0 <= i < meshed(faces, n).len(),
    ensures
        grown_out(faces, meshed(faces, n), i),
    decreases n,
{
    if n > 0 {
        let m = (n - 1) as nat;
        let before = meshed(faces, m);
        let after = meshed(faces, n);
        let u = m as int % faces.width;
        let v = m as int / faces.width;
        lemma_scan_inside(faces.width, faces.height, m as int);
        if i < before.len() {
            lemma_grown_out(faces, m, i);
            let q = before[i];
            assert(after[i] == q);
            assert forall|a: int, b: int| #[trigger] free_for(faces, after, i, a, b) == free_for(
                faces,
                before,
                i,
                a,
                b,
            ) by {
                assert forall|j: int| 0 <= j < i implies after[j] == before[j] by {}
                if free_for(faces, after, i, a, b) {
                    assert forall|j: int| 0 <= j < i implies !in_quad(#[trigger] before[j], a, b) by {
                        assert(!in_quad(after[j], a, b));
                    }
                }
                if free_for(faces, before, i, a, b) {
                    assert forall|j: int| 0 <= j < i implies !in_quad(#[trigger] after[j], a, b) by {
                        assert(!in_quad(before[j], a, b));
                    }
                }
            }
            let a = choose|a: int|
                q.u <= a < q.u + q.w && !#[trigger] free_for(faces, before, i, a, q.v + q.h);
            assert(!free_for(faces, after, i, a, q.v + q.h));
        } else {
            let face = faces.at(u, v)->0;
            let q = quad_at(faces, before, face, u, v);
            lemma_quad_at(faces, before, face, u, v);
            assert(after == before.push(q));
            assert forall|a: int, b: int|
                faces.inside(a, b) && #[trigger] free_for(faces, after, i, a, b) implies mergeable(
                faces,
                before,
                face,
                a,
                b,
            ) by {
                if covered(before, a, b) {
                    let j = choose|j: int| 0 <= j < before.len() && in_quad(#[trigger] before[j], a, b);
                    assert(in_quad(after[j], a, b));
                }
            }
            lemma_width_stops(faces, before, face, u, v, 1);
            lemma_height_stops(faces, before, face, u, v, q.w as int, 1);
            if v + q.h < faces.height {
                let a = choose|a: int|
                    u <= a < u + q.w && !#[trigger] mergeable(faces, before, face, a, v + q.h);
                assert(!free_for(faces, after, i, a, q.v + q.h));
            } else {
                assert(!free_for(faces, after, i, u, q.v + q.h));
            }
        }
    }
}

/// Merging is greedy: no quad could be one cell wider along its first row, and none one
/// row higher across its whole width, by cells of its own face that no earlier quad
/// has.
pub proof fn law_quads_are_grown_out(faces: Faces, i: int)
    requires
        0 < faces.width <= usize::MAX,
        0 <= faces.height <= usize::MAX,
        0 <= i < mesh(faces).len(),
    ensures
        grown_out(faces, mesh(faces), i),
{
    assert(0 <= faces.width * faces.height) by (nonlinear_arith)
        requires
            0 < faces.width,
            0 <= faces.height,
    ;
    lemma_grown_out(faces, (faces.width * faces.height) as nat, i);
}

} // verus!
