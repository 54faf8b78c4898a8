//! The cell plan of a chunk: walls, zones, corridors and rooms before any voxel
//! is drawn.

use vstd::prelude::*;

verus! {

/// Local character of a cell.
#[derive(Debug, Clone, Copy, PartialEq, Eq, Hash, Structural)]
pub enum MicrobiomeZone {
    Standard,
    Blackout,
    Holes,
    Atrium,
    PillarField,
    Arch,
    RedRoom,
}

/// One cell of the plan.
#[derive(Debug, Clone, Copy, PartialEq, Eq, Structural)]
pub struct PlanCell {
    pub north: bool,
    pub east: bool,
    pub south: bool,
    pub west: bool,
    pub zone: MicrobiomeZone,
    pub is_corridor: bool,
    /// Which room the cell belongs to.
    pub room: Option<usize>,
}

/// A walled cell outside any room.
pub open spec fn blank_cell() -> PlanCell {
    PlanCell {
        north: true,
        east: true,
        south: true,
        west: true,
        zone: MicrobiomeZone::Standard,
        is_corridor: false,
        room: None,
    }
}

/// The mathematical content of a plan.
#[verifier::ext_equal]
pub struct PlanModel {
    pub width: int,
    pub depth: int,
    pub cells: spec_fn(int, int) -> PlanCell,
}

impl PlanModel {
    pub open spec fn inside(self, x: int, z: int) -> bool {
        0 <= x < self.width && 0 <= z < self.depth
    }

    pub open spec fn at(self, x: int, z: int) -> PlanCell {
        (self.cells)(x, z)
    }

    pub open spec fn put(self, x: int, z: int, cell: PlanCell) -> PlanModel {
        if self.inside(x, z) {
            PlanModel {
                width: self.width,
                depth: self.depth,
                cells: |i: int, j: int|
                    if i == x && j == z {
                        cell
                    } else {
                        (self.cells)(i, j)
                    },
            }
        } else {
            self
        }
    }
}

/// Grid of plan cells, `width` by `depth`.
pub struct Blueprint {
    width: usize,
    depth: usize,
    cells: Vec<PlanCell>,
}

impl View for Blueprint {
    type V = PlanModel;

    closed spec fn view(&self) -> PlanModel {
        PlanModel {
            width: self.width as int,
            depth: self.depth as int,
            cells: |x: int, z: int| self.stored(x, z),
        }
    }
}

proof fn lemma_cell_index(width: int, depth: int, x: int, z: int)
    requires
        0 <= x < width,
        0 <= z < depth,
    ensures
        0 <= z * width,
        z * width + x < width * depth,
{
    assert(z * width + x < width * depth && 0 <= z * width) by (nonlinear_arith)
        requires
            0 <= x < width,
            0 <= z < depth,
    ;
}

proof fn lemma_cell_injective(width: int, x: int, z: int, x2: int, z2: int)
    requires
        0 <= x < width,
        0 <= x2 < width,
        z * width + x == z2 * width + x2,
    ensures
        x == x2,
        z == z2,
{
    assert(z == z2) by (nonlinear_arith)
        requires
            0 <= x < width,
            0 <= x2 < width,
            z * width + x == z2 * width + x2,
    ;
}

impl Blueprint {
    spec fn stored(&self, x: int, z: int) -> PlanCell {
        if 0 <= x < self.width && 0 <= z < self.depth {
            self.cells@[z * self.width + x]
        } else {
            blank_cell()
        }
    }

    /// Every cell has its storage.
    pub closed spec fn wf(&self) -> bool {
        &&& self.width * self.depth <= usize::MAX
        &&& self.cells@.len() == self.width * self.depth
    }

    /// What holds of the model of every plan.
    pub proof fn lemma_model(&self)
        requires
            self.wf(),
        ensures
            0 <= self@.width <= usize::MAX,
            0 <= self@.depth <= usize::MAX,
            self@.width * self@.depth <= usize::MAX,
    {
    }

    /// A plan of walled cells.
    pub fn new(width: usize, depth: usize) -> (plan: Self)
        requires
            width * depth <= usize::MAX,
        ensures
            plan.wf(),
            plan@.width == width,
            plan@.depth == depth,
            forall|x: int, z: int| #[trigger] plan@.at(x, z) == blank_cell(),
    {
        let blank = PlanCell {
            north: true,
            east: true,
            south: true,
            west: true,
            zone: MicrobiomeZone::Standard,
            is_corridor: false,
            room: None,
        };
        let mut cells: Vec<PlanCell> = Vec::with_capacity(width * depth);
        let count: usize = width * depth;
        let mut i: usize = 0;
        while i < count
            invariant
                i <= count,
                cells@.len() == i,
                blank == blank_cell(),
                forall|k: int| 0 <= k < i ==> #[trigger] cells@[k] == blank_cell(),
            decreases count - i,
        {
            cells.push(blank);
            i = i + 1;
        }
        let plan = Blueprint { width, depth, cells };
        proof {
            assert forall|x: int, z: int| #[trigger] plan@.at(x, z) == blank_cell() by {
                if plan@.inside(x, z) {
                    lemma_cell_index(width as int, depth as int, x, z);
                }
            }
        }
        plan
    }

    pub fn width(&self) -> (width: usize)
        ensures
            width == self@.width,
    {
        self.width
    }

    pub fn depth(&self) -> (depth: usize)
        ensures
            depth == self@.depth,
    {
        self.depth
    }

    pub fn get(&self, x: usize, z: usize) -> (cell: PlanCell)
        requires
            self.wf(),
            self@.inside(x as int, z as int),
        ensures
            cell == self@.at(x as int, z as int),
    {
        proof {
            lemma_cell_index(self.width as int, self.depth as int, x as int, z as int);
        }
        self.cells[z * self.width + x]
    }

    pub fn set(&mut self, x: usize, z: usize, cell: PlanCell)
        requires
            old(self).wf(),
            old(self)@.inside(x as int, z as int),
        ensures
            final(self).wf(),
            final(self)@ == old(self)@.put(x as int, z as int, cell),
    {
        let ghost before = *self;
        proof {
            lemma_cell_index(self.width as int, self.depth as int, x as int, z as int);
        }
        let at: usize = z * self.width + x;
        self.cells[at] = cell;
        proof {
            let target = before@.put(x as int, z as int, cell);
            assert forall|i: int, j: int| #[trigger]
                (self@.cells)(i, j) == (target.cells)(i, j) by {
                if self@.inside(i, j) {
                    lemma_cell_index(self.width as int, self.depth as int, i, j);
                    if j * self.width + i == at {
                        lemma_cell_injective(self.width as int, i, j, x as int, z as int);
                    }
                }
            }
            assert(self@.cells =~= target.cells);
        }
    }
}

} // verus!
