//! A dense rectangle of values.

use vstd::prelude::*;

verus! {

/// The mathematical content of a plane.
#[verifier::ext_equal]
pub struct PlaneModel<T> {
    pub width: int,
    pub height: int,
    pub cells: spec_fn(int, int) -> T,
}

impl<T> PlaneModel<T> {
    pub open spec fn inside(self, u: int, v: int) -> bool {
        0 <= u < self.width && 0 <= v < self.height
    }

    pub open spec fn at(self, u: int, v: int) -> T {
        (self.cells)(u, v)
    }
}

/// Values of one type, `width` by `height`, stored row by row.
pub struct Plane<T> {
    width: usize,
    height: usize,
    values: Vec<T>,
}

impl<T> View for Plane<T> {
    type V = PlaneModel<T>;

    closed spec fn view(&self) -> PlaneModel<T> {
        PlaneModel {
            width: self.width as int,
            height: self.height as int,
            cells: |u: int, v: int| self.values@[v * self.width + u],
        }
    }
}

proof fn lemma_plane_index(width: int, height: int, u: int, v: int)
    requires
        0 <= u < width,
        0 <= v < height,
    ensures
        0 <= v * width,
        v * width + u < width * height,
{
    assert(v * width + u < width * height && 0 <= v * width) by (nonlinear_arith)
        requires
            0 <= u < width,
            0 <= v < height,
    ;
}

proof fn lemma_plane_injective(width: int, u: int, v: int, u2: int, v2: int)
    requires
        0 <= u < width,
        0 <= u2 < width,
        v * width + u == v2 * width + u2,
    ensures
        u == u2,
        v == v2,
{
    assert(v == v2) by (nonlinear_arith)
        requires
            0 <= u < width,
            0 <= u2 < width,
            v * width + u == v2 * width + u2,
    ;
}

impl<T: Copy> Plane<T> {
    /// Every cell has its storage.
    pub closed spec fn wf(&self) -> bool {
        &&& self.width * self.height <= usize::MAX
        &&& self.values@.len() == self.width * self.height
    }

    /// A plane that holds one value everywhere.
    pub fn new(width: usize, height: usize, fill: T) -> (plane: Self)
        requires
            width * height <= usize::MAX,
        ensures
            plane.wf(),
            plane@.width == width,
            plane@.height == height,
            forall|u: int, v: int| plane@.inside(u, v) ==> #[trigger] plane@.at(u, v) == fill,
    {
        let count: usize = width * height;
        let mut values: Vec<T> = Vec::with_capacity(count);
        let mut i: usize = 0;
        while i < count
            invariant
                i <= count,
                values@.len() == i,
                forall|k: int| 0 <= k < i ==> #[trigger] values@[k] == fill,
            decreases count - i,
        {
            values.push(fill);
            i = i + 1;
        }
        let plane = Plane { width, height, values };
        proof {
            assert forall|u: int, v: int| plane@.inside(u, v) implies #[trigger] plane@.at(u, v)
                == fill by {
                lemma_plane_index(width as int, height as int, u, v);
            }
        }
        plane
    }

    pub fn width(&self) -> (width: usize)
        ensures
            width == self@.width,
    {
        self.width
    }

    pub fn height(&self) -> (height: usize)
        ensures
            height == self@.height,
    {
        self.height
    }

    pub fn get(&self, u: usize, v: usize) -> (value: T)
        requires
            self.wf(),
            self@.inside(u as int, v as int),
        ensures
            value == self@.at(u as int, v as int),
    {
        proof {
            lemma_plane_index(self.width as int, self.height as int, u as int, v as int);
        }
        self.values[v * self.width + u]
    }

    pub fn set(&mut self, u: usize, v: usize, value: T)
        requires
            old(self).wf(),
            old(self)@.inside(u as int, v as int),
        ensures
            final(self).wf(),
            final(self)@.width == old(self)@.width,
            final(self)@.height == old(self)@.height,
            forall|i: int, j: int|
                old(self)@.inside(i, j) ==> #[trigger] final(self)@.at(i, j) == if i == u && j == v {
                    value
                } else {
                    old(self)@.at(i, j)
                },
    {
        let ghost before = *self;
        proof {
            lemma_plane_index(self.width as int, self.height as int, u as int, v as int);
        }
        let at: usize = v * self.width + u;
        self.values[at] = value;
        proof {
            assert forall|i: int, j: int| before@.inside(i, j) implies #[trigger] self@.at(i, j) == if i
                == u && j == v {
                value
            } else {
                before@.at(i, j)
            } by {
                lemma_plane_index(self.width as int, self.height as int, i, j);
                if j * self.width + i == at {
                    lemma_plane_injective(self.width as int, i, j, u as int, v as int);
                }
            }
        }
    }
}

} // verus!
