//! The occupancy of the board.

use vstd::prelude::*;
use crate::grid::{lemma_index_bound, Cell, Grid};
use crate::kind::ObjectID;

verus! {

/// The occupancy of the board, row by row: the one record of what is where.
#[derive(Debug)]
pub struct World {
    pub size: (u32, u32),
    pub objects: Vec<Option<(u64, ObjectID)>>,
}

/// Index `i` belongs to one of `cells` on a board `width` cells wide.
pub open spec fn covers(cells: Seq<Cell>, width: int, i: int) -> bool {
    exists|k: int| 0 <= k < cells.len() && (#[trigger] cells[k]).y * width + cells[k].x == i
}

/// `slots` with every slot under `cells` set to `value`.
pub open spec fn stamp(
    slots: Seq<Option<(u64, ObjectID)>>,
    width: int,
    cells: Seq<Cell>,
    value: Option<(u64, ObjectID)>,
) -> Seq<Option<(u64, ObjectID)>> {
    Seq::new(
        slots.len(),
        |i: int|
            if covers(cells, width, i) {
                value
            } else {
                slots[i]
            },
    )
}

impl World {
    /// The store has one slot per cell, and few enough.
    pub open spec fn wf(&self) -> bool {
        &&& self.size.0 * self.size.1 <= i32::MAX
        &&& self.objects@.len() == self.size.0 * self.size.1
    }

    /// The store has one slot for each cell of `grid`.
    pub open spec fn fits(&self, grid: &Grid) -> bool {
        self.wf() && self.size == grid.size
    }

    /// `(x, y)` lies within the extent of the board.
    pub open spec fn contains(&self, x: int, y: int) -> bool {
        0 <= x < self.size.0 && 0 <= y < self.size.1
    }

    /// What stands at `(x, y)`; nothing stands outside the board.
    pub open spec fn at(&self, x: int, y: int) -> Option<(u64, ObjectID)> {
        if self.contains(x, y) {
            self.objects@[y * self.size.0 + x]
        } else {
            None
        }
    }

    /// Every one of `cells` lies within the extent of the board.
    pub open spec fn all_within(&self, cells: Seq<Cell>) -> bool {
        forall|k: int|
            0 <= k < cells.len() ==> self.contains(
                (#[trigger] cells[k]).x as int,
                cells[k].y as int,
            )
    }

    /// An empty store for `grid`.
    pub fn new(grid: &Grid) -> (world: World)
        requires
            grid.wf(),
        ensures
            world.fits(grid),
            forall|i: int| 0 <= i < world.objects@.len() ==> world.objects@[i] is None,
    {
        let total: usize = grid.walkable.len();
        let mut objects: Vec<Option<(u64, ObjectID)>> = Vec::new();
        let mut i: usize = 0;
        while i < total
            invariant
                i <= total,
                objects@.len() == i,
                forall|j: int| 0 <= j < i ==> objects@[j] is None,
            decreases total - i,
        {
            objects.push(None);
            i = i + 1;
        }
        World { size: grid.size, objects }
    }

    /// What stands on `cell`; nothing stands outside the board.
    pub fn occupant_at(&self, cell: Cell) -> (found: Option<(u64, ObjectID)>)
        requires
            self.wf(),
        ensures
            found == self.at(cell.x as int, cell.y as int),
    {
        if cell.x < 0 || cell.x as i64 >= self.size.0 as i64 || cell.y < 0 || cell.y as i64
            >= self.size.1 as i64 {
            return None;
        }
        proof {
            lemma_index_bound(self.size.0 as int, self.size.1 as int, cell.x as int, cell.y as int);
        }
        let index: usize = (cell.y as i64 * self.size.0 as i64 + cell.x as i64) as usize;
        self.objects[index]
    }

    /// Writes `value` into the slot of every cell in `cells`.
    fn write(&mut self, cells: &Vec<Cell>, value: Option<(u64, ObjectID)>)
        requires
            old(self).wf(),
            old(self).all_within(cells@),
        ensures
            final(self).size == old(self).size,
            final(self).wf(),
            final(self).objects@ == stamp(old(self).objects@, old(self).size.0 as int, cells@, value),
    {
        let ghost before = self.objects@;
        let ghost width = self.size.0 as int;
        let mut k: usize = 0;
        while k < cells.len()
            invariant
                k <= cells.len(),
                self.size == old(self).size,
                self.wf(),
                width == self.size.0,
                before == old(self).objects@,
                old(self).all_within(cells@),
                self.objects@ == stamp(before, width, cells@.take(k as int), value),
            decreases cells.len() - k,
        {
            let cell = cells[k];
            proof {
                lemma_index_bound(
                    self.size.0 as int,
                    self.size.1 as int,
                    cell.x as int,
                    cell.y as int,
                );
            }
            let index: usize = (cell.y as i64 * self.size.0 as i64 + cell.x as i64) as usize;
            self.objects.set(index, value);
            proof {
                let shorter = cells@.take(k as int);
                let longer = cells@.take(k as int + 1);
                assert forall|i: int| 0 <= i < before.len() implies #[trigger] self.objects@[i]
                    == stamp(before, width, longer, value)[i] by {
                    if covers(shorter, width, i) {
                        let j = choose|j: int|
                            0 <= j < shorter.len() && (#[trigger] shorter[j]).y * width
                                + shorter[j].x == i;
                        assert(longer[j] == shorter[j]);
                    }
                    if i == index {
                        assert(longer[k as int] == cell);
                    }
                    if covers(longer, width, i) {
                        let j = choose|j: int|
                            0 <= j < longer.len() && (#[trigger] longer[j]).y * width + longer[j].x
                                == i;
                        if j < k {
                            assert(shorter[j] == longer[j]);
                        }
                    }
                }
                assert(self.objects@ =~= stamp(before, width, longer, value));
            }
            k = k + 1;
        }
        proof {
            assert(cells@.take(cells@.len() as int) =~= cells@);
        }
    }

    /// Records `occupant` on every cell in `cells`. Nothing is checked:
    /// whether the cells are free and walkable is for the caller to know.
    pub fn place(&mut self, occupant: u64, kind: ObjectID, cells: &Vec<Cell>)
        requires
            old(self).wf(),
            old(self).all_within(cells@),
        ensures
            final(self).size == old(self).size,
            final(self).wf(),
            final(self).objects@ == stamp(
                old(self).objects@,
                old(self).size.0 as int,
                cells@,
                Some((occupant, kind)),
            ),
    {
        self.write(cells, Some((occupant, kind)));
    }

    /// Empties every cell in `cells`.
    pub fn clear(&mut self, cells: &Vec<Cell>)
        requires
            old(self).wf(),
            old(self).all_within(cells@),
        ensures
            final(self).size == old(self).size,
            final(self).wf(),
            final(self).objects@ == stamp(old(self).objects@, old(self).size.0 as int, cells@, None),
    {
        self.write(cells, None);
    }

    /// Empties the whole board.
    pub fn reset(&mut self)
        requires
            old(self).wf(),
        ensures
            final(self).size == old(self).size,
            final(self).wf(),
            forall|i: int| 0 <= i < final(self).objects@.len() ==> final(self).objects@[i] is None,
    {
        let total: usize = self.objects.len();
        let mut i: usize = 0;
        while i < total
            invariant
                i <= total,
                total == self.objects@.len(),
                self.size == old(self).size,
                self.wf(),
                forall|j: int| 0 <= j < i ==> self.objects@[j] is None,
            decreases total - i,
        {
            self.objects.set(i, None);
            i = i + 1;
        }
    }
}

} // verus!
