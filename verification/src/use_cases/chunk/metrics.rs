//! Voxel measurements of a chunk at one level of detail.

use vstd::prelude::*;

use crate::domain::entities::blueprint::MicrobiomeZone;

verus! {

/// Centimetres in the span of a cell; door offsets are drawn below this.
pub const CELL_SPAN_CM: usize = 500;

/// Longest voxel span that a chunk may have in any direction.
pub const MAX_SPAN: usize = 0x1000_0000;

/// Everything the chunk painter needs to know about voxel resolution. World
/// lengths are turned into voxel counts by the caller, so that every level of
/// detail puts its walls on the same world planes.
#[derive(Debug, Clone)]
pub struct ChunkMetrics {
    /// Voxels per side of the chunk.
    pub width: usize,
    pub height: usize,
    /// Cells per side of the chunk.
    pub cells: usize,
    /// First voxel of each cell, and one past the last cell.
    pub borders: Vec<usize>,
    /// Ceiling row of an atrium.
    pub tall_top: usize,
    /// Ceiling row of a blackout cell.
    pub low_top: usize,
    /// Ceiling row of every other cell.
    pub standard_top: usize,
    /// First wall row above a doorway.
    pub door_top: usize,
    pub narrow_hole: usize,
    pub medium_hole: usize,
    pub wide_hole: usize,
    /// Voxels from the start of a cell for each centimetre offset.
    pub offsets: Vec<usize>,
    /// Voxels kept free round furniture.
    pub spacing: usize,
}

impl ChunkMetrics {
    pub open spec fn first(&self, c: int) -> int {
        self.borders@[c] as int
    }

    /// Last voxel of a cell, inside the chunk.
    pub open spec fn last(&self, c: int) -> int {
        if self.borders@[c + 1] <= self.width {
            self.borders@[c + 1] - 1
        } else {
            self.width - 1
        }
    }

    pub open spec fn top_of(&self, zone: MicrobiomeZone) -> int {
        match zone {
            MicrobiomeZone::Atrium => self.tall_top as int,
            MicrobiomeZone::Blackout => self.low_top as int,
            _ => self.standard_top as int,
        }
    }

    pub open spec fn cell_ok(&self, c: int) -> bool {
        &&& self.borders@[c] < self.borders@[c + 1]
        &&& self.borders@[c] < self.width
        &&& self.medium_hole / 2 <= (self.first(c) + self.last(c) + 1) / 2
    }

    /// Cells lie in order inside the chunk, a doorway fits before the middle of
    /// a cell, and every count stays where sums of a few cannot overflow.
    pub open spec fn wf(&self) -> bool {
        &&& self.cells >= 1
        &&& self.cells * self.cells <= usize::MAX
        &&& self.borders@.len() == self.cells + 1
        &&& self.offsets@.len() == CELL_SPAN_CM
        &&& self.height >= 2
        &&& self.width * self.height <= usize::MAX
        &&& self.width * self.height * self.width <= usize::MAX
        &&& self.width <= MAX_SPAN
        &&& self.height <= MAX_SPAN
        &&& self.tall_top <= MAX_SPAN
        &&& self.low_top <= MAX_SPAN
        &&& self.standard_top <= MAX_SPAN
        &&& self.door_top <= MAX_SPAN
        &&& self.narrow_hole <= MAX_SPAN
        &&& self.medium_hole <= MAX_SPAN
        &&& self.wide_hole <= MAX_SPAN
        &&& self.spacing <= MAX_SPAN
        &&& forall|i: int| 0 <= i < self.offsets@.len() ==> #[trigger] self.offsets@[i] <= MAX_SPAN
        &&& forall|i: int| 0 <= i < self.borders@.len() ==> #[trigger] self.borders@[i] <= MAX_SPAN
        &&& forall|c: int| 0 <= c < self.cells ==> #[trigger] self.cell_ok(c)
    }

    pub fn first_voxel(&self, c: usize) -> (v: usize)
        requires
            self.wf(),
            c < self.cells,
        ensures
            v == self.first(c as int),
            v < self.width,
    {
        assert(self.cell_ok(c as int));
        self.borders[c]
    }

    pub fn last_voxel(&self, c: usize) -> (v: usize)
        requires
            self.wf(),
            c < self.cells,
        ensures
            v == self.last(c as int),
            self.first(c as int) <= v < self.width,
    {
        assert(self.cell_ok(c as int));
        let end: usize = self.borders[c + 1];
        if end <= self.width {
            end - 1
        } else {
            self.width - 1
        }
    }

    /// Ceiling row of a cell.
    pub fn wall_top(&self, zone: MicrobiomeZone) -> (top: usize)
        requires
            self.wf(),
        ensures
            top == self.top_of(zone),
            top < usize::MAX,
    {
        match zone {
            MicrobiomeZone::Atrium => self.tall_top,
            MicrobiomeZone::Blackout => self.low_top,
            _ => self.standard_top,
        }
    }

    /// Whether the measurements fit together; a chunk is drawn only when they do.
    pub fn check(&self) -> (ok: bool)
        ensures
            ok == self.wf(),
    {
        if self.cells < 1 || self.height < 2 || self.borders.len() < 1 || self.borders.len() - 1
            != self.cells || self.offsets.len() != CELL_SPAN_CM {
            return false;
        }
        if self.width > MAX_SPAN || self.height > MAX_SPAN || self.tall_top > MAX_SPAN
            || self.low_top > MAX_SPAN || self.standard_top > MAX_SPAN || self.door_top > MAX_SPAN
            || self.narrow_hole > MAX_SPAN || self.medium_hole > MAX_SPAN || self.wide_hole
            > MAX_SPAN || self.spacing > MAX_SPAN {
            return false;
        }
        if self.cells.checked_mul(self.cells).is_none() {
            return false;
        }
        match self.width.checked_mul(self.height) {
            None => {
                return false;
            },
            Some(area) => {
                if area.checked_mul(self.width).is_none() {
                    return false;
                }
            },
        }
        within_span(&self.offsets) && within_span(&self.borders) && self.cells_ok()
    }

    fn cells_ok(&self) -> (ok: bool)
        requires
            self.borders@.len() == self.cells + 1,
            self.width <= MAX_SPAN,
            forall|i: int|
                0 <= i < self.borders@.len() ==> #[trigger] self.borders@[i] <= MAX_SPAN,
        ensures
            ok == (forall|c: int| 0 <= c < self.cells ==> #[trigger] self.cell_ok(c)),
    {
        let mut c: usize = 0;
        while c < self.cells
            invariant
                c <= self.cells,
                self.borders@.len() == self.cells + 1,
                self.width <= MAX_SPAN,
                forall|i: int|
                    0 <= i < self.borders@.len() ==> #[trigger] self.borders@[i] <= MAX_SPAN,
                forall|k: int| 0 <= k < c ==> #[trigger] self.cell_ok(k),
            decreases self.cells - c,
        {
            let start: usize = self.borders[c];
            let end: usize = self.borders[c + 1];
            if start >= end || start >= self.width {
                assert(!self.cell_ok(c as int));
                return false;
            }
            let last: usize = if end <= self.width {
                end - 1
            } else {
                self.width - 1
            };
            if self.medium_hole / 2 > (start + last + 1) / 2 {
                assert(!self.cell_ok(c as int));
                return false;
            }
            assert(self.cell_ok(c as int));
            c = c + 1;
        }
        true
    }
}

fn within_span(values: &Vec<usize>) -> (ok: bool)
    ensures
        ok == (forall|i: int| 0 <= i < values@.len() ==> #[trigger] values@[i] <= MAX_SPAN),
{
    let mut i: usize = 0;
    while i < values.len()
        invariant
            i <= values@.len(),
            forall|k: int| 0 <= k < i ==> #[trigger] values@[k] <= MAX_SPAN,
        decreases values@.len() - i,
    {
        if values[i] > MAX_SPAN {
            return false;
        }
        i = i + 1;
    }
    true
}

} // verus!
