//! The staggered board: positions, indices, which cells exist, and where
//! a cell is drawn.

use vstd::prelude::*;

verus! {

/// A position on the board, or the difference between two positions.
#[derive(Debug, Clone, Copy, PartialEq, Eq, Hash, Structural)]
pub struct Cell {
    pub x: i32,
    pub y: i32,
}

impl Cell {
    /// The position in column `x` of row `y`.
    pub fn new(x: i32, y: i32) -> (c: Cell)
        ensures
            c.x == x,
            c.y == y,
    {
        Cell { x, y }
    }
}

/// The remainder of a row number by two, carrying the sign of the row:
/// 0 on even rows, 1 on odd rows at or below the origin row, -1 on odd
/// rows above it. Odd rows of the board are shifted right by half a cell.
pub open spec fn row_parity(y: int) -> int {
    if y >= 0 {
        y % 2
    } else {
        -((-y) % 2)
    }
}

/// The parity of row `y`, with the sign of `y`.
pub fn parity(y: i64) -> (p: i64)
    ensures
        p == row_parity(y as int),
        -1 <= p <= 1,
{
    y % 2
}

/// The staggered board: its extent, which of its cells exist, and the
/// pixel measures that place a cell on the screen.
#[derive(Debug)]
pub struct Grid {
    pub cell_offset: (u32, u32),
    pub size: (u32, u32),
    /// Row by row, `true` where the board has a cell.
    pub walkable: Vec<bool>,
    pub cell_size: (u32, u32),
    pub offset: (i32, i32),
}

/// `y * w + x` stays below `w * h` for a position inside a `w` by `h` board.
pub proof fn lemma_index_bound(w: int, h: int, x: int, y: int)
    requires
        0 <= x < w,
        0 <= y < h,
    ensures
        0 <= y * w + x < w * h,
        y * w + x <= (h - 1) * w + (w - 1),
{
    assert(y * w <= (h - 1) * w) by (nonlinear_arith)
        requires
            0 <= y <= h - 1,
            0 <= w,
    ;
    assert((h - 1) * w + w == w * h) by (nonlinear_arith);
    assert(0 <= y * w) by (nonlinear_arith)
        requires
            0 <= y,
            0 <= w,
    ;
}

/// Column and row recover an index, and an index its column and row.
pub proof fn lemma_index_split(w: int, x: int, y: int)
    requires
        0 <= x < w,
        0 <= y,
    ensures
        (y * w + x) % w == x,
        (y * w + x) / w == y,
{
    vstd::arithmetic::div_mod::lemma_fundamental_div_mod_converse(y * w + x, w, y, x);
}

/// An index below `w * h` splits into a column below `w` and a row below `h`.
pub proof fn lemma_index_join(w: int, h: int, i: int)
    requires
        0 < w,
        0 <= i < w * h,
    ensures
        0 <= i % w < w,
        0 <= i / w < h,
        (i / w) * w + i % w == i,
{
    vstd::arithmetic::div_mod::lemma_fundamental_div_mod(i, w);
    vstd::arithmetic::div_mod::lemma_mod_pos_bound(i, w);
    let q = i / w;
    assert(w * q == q * w) by (nonlinear_arith);
    if q >= h {
        assert(q * w >= h * w) by (nonlinear_arith)
            requires
                q >= h,
                w > 0,
        ;
        assert(h * w == w * h) by (nonlinear_arith);
    }
    if q < 0 {
        assert(q * w <= -w) by (nonlinear_arith)
            requires
                q <= -1,
                w > 0,
        ;
    }
}

impl Grid {
    /// The mask has one entry per cell, and every cell index fits the
    /// signed coordinates that positions are written in.
    pub open spec fn wf(&self) -> bool {
        &&& self.size.0 * self.size.1 <= i32::MAX
        &&& self.walkable@.len() == self.size.0 * self.size.1
    }

    /// The number of cells within the extent of the board.
    pub open spec fn cells(&self) -> int {
        self.size.0 * self.size.1
    }

    /// `(x, y)` lies within the extent of the board.
    pub open spec fn contains(&self, x: int, y: int) -> bool {
        0 <= x < self.size.0 && 0 <= y < self.size.1
    }

    /// The index of `(x, y)`, counting row by row.
    pub open spec fn index_of(&self, x: int, y: int) -> int {
        y * self.size.0 + x
    }

    /// The position of the cell with index `i`, counting row by row.
    pub open spec fn column_of(&self, i: int) -> int {
        i % (self.size.0 as int)
    }

    /// The row of the cell with index `i`.
    pub open spec fn row_of(&self, i: int) -> int {
        i / (self.size.0 as int)
    }

    /// The cell with index `i`.
    pub open spec fn cell_of(&self, i: int) -> Cell {
        Cell { x: self.column_of(i) as i32, y: self.row_of(i) as i32 }
    }

    /// The board has a cell at this position.
    pub open spec fn open_at(&self, x: int, y: int) -> bool {
        self.contains(x, y) && self.walkable@[self.index_of(x, y)]
    }

    /// Positions on the board have coordinates that fit a `Cell`.
    pub proof fn lemma_extent(&self, x: int, y: int)
        requires
            self.wf(),
            self.contains(x, y),
        ensures
            self.size.0 <= i32::MAX,
            self.size.1 <= i32::MAX,
            0 <= x <= i32::MAX,
            0 <= y <= i32::MAX,
    {
        let w = self.size.0 as int;
        let h = self.size.1 as int;
        assert(w <= w * h && h <= w * h) by (nonlinear_arith)
            requires
                w >= 1,
                h >= 1,
        ;
    }

    /// The cell with index `i` lies within the board, and `i` is its index.
    pub proof fn lemma_cell_of(&self, i: int)
        requires
            self.wf(),
            0 <= i < self.cells(),
        ensures
            self.contains(self.column_of(i), self.row_of(i)),
            self.index_of(self.column_of(i), self.row_of(i)) == i,
            self.cell_of(i).x == self.column_of(i),
            self.cell_of(i).y == self.row_of(i),
    {
        let w = self.size.0 as int;
        let h = self.size.1 as int;
        if w == 0 {
            assert(w * h == 0) by (nonlinear_arith)
                requires
                    w == 0,
            ;
        }
        lemma_index_join(w, h, i);
    }

    /// The index of a position within the board is below the number of cells,
    /// and gives the position back.
    pub proof fn lemma_index_of(&self, x: int, y: int)
        requires
            self.wf(),
            self.contains(x, y),
        ensures
            0 <= self.index_of(x, y) < self.cells(),
            self.column_of(self.index_of(x, y)) == x,
            self.row_of(self.index_of(x, y)) == y,
    {
        lemma_index_bound(self.size.0 as int, self.size.1 as int, x, y);
        lemma_index_split(self.size.0 as int, x, y);
    }

    /// A board of the given extent on which every cell exists.
    pub fn new(size: (u32, u32), offset: (i32, i32), cell_size: (u32, u32), cell_offset: (
        u32,
        u32,
    )) -> (g: Grid)
        requires
            size.0 * size.1 <= i32::MAX,
        ensures
            g.wf(),
            g.size == size,
            g.offset == offset,
            g.cell_size == cell_size,
            g.cell_offset == cell_offset,
            forall|i: int| 0 <= i < g.cells() ==> g.walkable@[i],
    {
        let total: u64 = (size.0 as u64) * (size.1 as u64);
        let mut walkable: Vec<bool> = Vec::new();
        let mut i: u64 = 0;
        while i < total
            invariant
                i <= total,
                total == size.0 * size.1,
                walkable@.len() == i,
                forall|j: int| 0 <= j < i ==> walkable@[j],
            decreases total - i,
        {
            walkable.push(true);
            i = i + 1;
        }
        Grid { cell_offset, size, walkable, cell_size, offset }
    }

    /// Whether `cell` lies within the extent of the board.
    pub fn in_bounds(&self, cell: Cell) -> (b: bool)
        ensures
            b == self.contains(cell.x as int, cell.y as int),
    {
        cell.x >= 0 && (cell.x as i64) < (self.size.0 as i64) && cell.y >= 0 && (cell.y as i64) < (
        self.size.1 as i64)
    }

    /// Whether the position with these coordinates is on the board, and
    /// its index if it lies within the board's extent (0 otherwise).
    pub fn locate(&self, x: i64, y: i64) -> (r: (bool, usize))
        requires
            self.wf(),
        ensures
            r.0 == self.open_at(x as int, y as int),
            self.contains(x as int, y as int) ==> r.1 == self.index_of(x as int, y as int),
            !self.contains(x as int, y as int) ==> r.1 == 0,
    {
        if x < 0 || x >= self.size.0 as i64 || y < 0 || y >= self.size.1 as i64 {
            return (false, 0);
        }
        proof {
            lemma_index_bound(self.size.0 as int, self.size.1 as int, x as int, y as int);
        }
        let index: usize = (y * (self.size.0 as i64) + x) as usize;
        (self.walkable[index], index)
    }

    /// Whether `cell` is a cell of the board. No cell outside its extent is.
    pub fn is_walkable(&self, cell: Cell) -> (b: bool)
        requires
            self.wf(),
        ensures
            b == self.open_at(cell.x as int, cell.y as int),
    {
        self.locate(cell.x as i64, cell.y as i64).0
    }

    /// The position of the cell with the given index.
    pub fn cell_at(&self, index: usize) -> (c: Cell)
        requires
            self.wf(),
            index < self.cells(),
        ensures
            c == self.cell_of(index as int),
            c.x == self.column_of(index as int),
            c.y == self.row_of(index as int),
            self.contains(c.x as int, c.y as int),
            self.index_of(c.x as int, c.y as int) == index,
    {
        proof {
            self.lemma_cell_of(index as int);
        }
        let w: usize = self.size.0 as usize;
        Cell { x: (index % w) as i32, y: (index / w) as i32 }
    }

    /// The paint priority of `(x, y)`: the cells that follow it, and itself.
    pub open spec fn order_of(&self, x: int, y: int) -> int {
        self.cells() - self.index_of(x, y)
    }

    /// Paint priority of a cell: the number of cells minus the cell's
    /// index, so the first cell of the first row has the highest value.
    pub fn cell_order(&self, pos: Cell) -> (order: u32)
        requires
            self.wf(),
            self.contains(pos.x as int, pos.y as int),
        ensures
            order == self.order_of(pos.x as int, pos.y as int),
            1 <= order <= self.cells(),
    {
        proof {
            lemma_index_bound(self.size.0 as int, self.size.1 as int, pos.x as int, pos.y as int);
            lemma_index_split(self.size.0 as int, pos.x as int, pos.y as int);
        }
        let index: u32 = (pos.y as u32) * self.size.0 + (pos.x as u32);
        (self.size.0 * self.size.1) - (index % self.size.0 + (index / self.size.0 * self.size.0))
    }

    /// The distance between two cells of a row, in pixels.
    pub open spec fn step_x(&self) -> int {
        self.cell_size.0 - self.cell_offset.0
    }

    /// The distance between two rows, in pixels.
    pub open spec fn step_y(&self) -> int {
        (self.cell_size.1 - self.cell_offset.1) / 2
    }

    /// Where `(x, y)` is drawn, from left to right.
    pub open spec fn world_x(&self, x: int, y: int) -> int {
        x * self.step_x() + (y % 2) * (self.step_x() / 2) + self.offset.0
    }

    /// Where row `y` is drawn, from bottom to top.
    pub open spec fn world_y(&self, y: int) -> int {
        y * self.step_y() + self.offset.1
    }

    /// Where a cell is drawn, in whole pixels: columns are one step apart,
    /// odd rows are shifted by half a step, rows are half a step apart.
    pub fn cell_to_world(&self, pos: Cell) -> (at: (i64, i64))
        requires
            self.contains(pos.x as int, pos.y as int),
            self.cell_offset.0 <= self.cell_size.0,
            self.cell_offset.1 <= self.cell_size.1,
        ensures
            at.0 == self.world_x(pos.x as int, pos.y as int),
            at.1 == self.world_y(pos.y as int),
    {
        let sx: i64 = (self.cell_size.0 - self.cell_offset.0) as i64;
        let sy: i64 = ((self.cell_size.1 - self.cell_offset.1) / 2) as i64;
        let x: i64 = pos.x as i64;
        let y: i64 = pos.y as i64;
        assert(0 <= x * sx <= 0x7fff_ffff * 0xffff_ffff) by (nonlinear_arith)
            requires
                0 <= x <= 0x7fff_ffff,
                0 <= sx <= 0xffff_ffff,
        ;
        assert(0 <= y * sy <= 0x7fff_ffff * 0x7fff_ffff) by (nonlinear_arith)
            requires
                0 <= y <= 0x7fff_ffff,
                0 <= sy <= 0x7fff_ffff,
        ;
        let half: i64 = sx / 2;
        let shift: i64 = if y % 2 == 1 {
            half
        } else {
            0
        };
        assert(shift == (y % 2) * (sx / 2)) by (nonlinear_arith)
            requires
                shift == if y % 2 == 1 {
                    sx / 2
                } else {
                    0
                },
                0 <= y % 2 <= 1,
        ;
        (x * sx + shift + self.offset.0 as i64, y * sy + self.offset.1 as i64)
    }

    /// Both steps of the layout are at least one pixel, so that no two
    /// cells are drawn at the same place.
    pub open spec fn spaced(&self) -> bool {
        &&& self.cell_offset.0 < self.cell_size.0
        &&& self.cell_offset.1 <= self.cell_size.1
        &&& self.step_y() >= 1
    }

    /// No two cells of a spaced board are drawn at the same place.
    pub proof fn lemma_cell_to_world_injective(&self, ax: int, ay: int, bx: int, by: int)
        requires
            self.spaced(),
            self.world_x(ax, ay) == self.world_x(bx, by),
            self.world_y(ay) == self.world_y(by),
        ensures
            ax == bx,
            ay == by,
    {
        let sx = self.step_x();
        let sy = self.step_y();
        assert(ay == by) by (nonlinear_arith)
            requires
                ay * sy == by * sy,
                sy >= 1,
        ;
        assert(ax == bx) by (nonlinear_arith)
            requires
                ax * sx == bx * sx,
                sx >= 1,
        ;
    }

    /// The cell of the board that is drawn at `(wx, wy)`, if there is one:
    /// the row is read off `wy`, then the column off `wx` less the shift of
    /// that row.
    pub open spec fn cell_drawn_at(&self, wx: int, wy: int) -> Option<Cell> {
        let dy = wy - self.offset.1;
        let y = dy / self.step_y();
        let dx = wx - self.offset.0 - (y % 2) * (self.step_x() / 2);
        let x = dx / self.step_x();
        if dy >= 0 && dy % self.step_y() == 0 && y < self.size.1 && dx >= 0 && dx % self.step_x()
            == 0 && x < self.size.0 {
            Some(Cell { x: x as i32, y: y as i32 })
        } else {
            None
        }
    }

    /// Drawing a cell of a spaced board and reading the cell back off the
    /// place where it is drawn gives the cell again.
    pub proof fn lemma_world_round_trip(&self, x: int, y: int)
        requires
            self.wf(),
            self.spaced(),
            self.contains(x, y),
        ensures
            self.cell_drawn_at(self.world_x(x, y), self.world_y(y)) == Some(
                Cell { x: x as i32, y: y as i32 },
            ),
    {
        let sx = self.step_x();
        let sy = self.step_y();
        vstd::arithmetic::div_mod::lemma_fundamental_div_mod_converse(y * sy, sy, y, 0);
        vstd::arithmetic::div_mod::lemma_fundamental_div_mod_converse(x * sx, sx, x, 0);
        assert(y * sy >= 0) by (nonlinear_arith)
            requires
                y >= 0,
                sy >= 1,
        ;
        assert(x * sx >= 0) by (nonlinear_arith)
            requires
                x >= 0,
                sx >= 1,
        ;
    }

    /// The cell of the board that is drawn at `at`, if there is one. On a
    /// spaced board this undoes `cell_to_world`.
    pub fn world_to_cell(&self, at: (i64, i64)) -> (cell: Option<Cell>)
        requires
            self.wf(),
            self.spaced(),
        ensures
            cell == self.cell_drawn_at(at.0 as int, at.1 as int),
            cell matches Some(c) ==> self.contains(c.x as int, c.y as int) && self.world_x(
                c.x as int,
                c.y as int,
            ) == at.0 && self.world_y(c.y as int) == at.1,
            forall|x: int, y: int|
                self.contains(x, y) && #[trigger] self.world_x(x, y) == at.0 && self.world_y(y)
                    == at.1 ==> cell == Some(Cell { x: x as i32, y: y as i32 }),
    {
        let sx: i128 = (self.cell_size.0 - self.cell_offset.0) as i128;
        let sy: i128 = ((self.cell_size.1 - self.cell_offset.1) / 2) as i128;
        let dy: i128 = at.1 as i128 - self.offset.1 as i128;
        proof {
            assert forall|x: int, y: int|
                self.contains(x, y) && #[trigger] self.world_x(x, y) == at.0 && self.world_y(y)
                    == at.1 implies dy == y * sy && dy >= 0 && dy % sy == 0 && dy / sy == y by {
                vstd::arithmetic::div_mod::lemma_fundamental_div_mod_converse(
                    y * sy as int,
                    sy as int,
                    y,
                    0,
                );
                assert(y * sy >= 0) by (nonlinear_arith)
                    requires
                        y >= 0,
                        sy >= 1,
                ;
            }
        }
        if dy < 0 || dy % sy != 0 {
            return None;
        }
        let y: i128 = dy / sy;
        proof {
            vstd::arithmetic::div_mod::lemma_fundamental_div_mod(dy as int, sy as int);
            assert(sy * y == y * sy) by (nonlinear_arith);
            assert(y >= 0) by (nonlinear_arith)
                requires
                    y * sy >= 0,
                    sy >= 1,
            ;
            assert(y <= dy) by (nonlinear_arith)
                requires
                    y * sy == dy,
                    sy >= 1,
                    y >= 0,
            ;
        }
        if y >= self.size.1 as i128 {
            return None;
        }
        let shift: i128 = if y % 2 == 1 {
            sx / 2
        } else {
            0
        };
        assert(shift == (y % 2) * (sx / 2)) by (nonlinear_arith)
            requires
                shift == if y % 2 == 1 {
                    sx / 2
                } else {
                    0
                },
                0 <= y % 2 <= 1,
        ;
        let dx: i128 = at.0 as i128 - self.offset.0 as i128 - shift;
        proof {
            assert forall|x: int, z: int|
                self.contains(x, z) && #[trigger] self.world_x(x, z) == at.0 && self.world_y(z)
                    == at.1 implies z == y && dx == x * sx && dx >= 0 && dx % sx == 0 && dx / sx
                == x by {
                vstd::arithmetic::div_mod::lemma_fundamental_div_mod_converse(
                    x * sx as int,
                    sx as int,
                    x,
                    0,
                );
                assert(x * sx >= 0) by (nonlinear_arith)
                    requires
                        x >= 0,
                        sx >= 1,
                ;
            }
        }
        if dx < 0 || dx % sx != 0 {
            return None;
        }
        let x: i128 = dx / sx;
        proof {
            vstd::arithmetic::div_mod::lemma_fundamental_div_mod(dx as int, sx as int);
            assert(sx * x == x * sx) by (nonlinear_arith);
            assert(x >= 0) by (nonlinear_arith)
                requires
                    x * sx >= 0,
                    sx >= 1,
            ;
        }
        if x >= self.size.0 as i128 {
            return None;
        }
        proof {
            self.lemma_extent(x as int, y as int);
        }
        Some(Cell { x: x as i32, y: y as i32 })
    }

    /// The offset from a cell's drawing position to the middle of its top
    /// face, in whole pixels.
    pub fn cell_center_offset(&self) -> (at: (u64, u64))
        requires
            self.cell_offset.1 <= self.cell_size.0,
            self.cell_offset.1 <= self.cell_size.1,
        ensures
            at.0 == self.cell_offset.0 + (self.cell_size.0 - self.cell_offset.1) / 2,
            at.1 == self.cell_offset.1 + (self.cell_size.1 - self.cell_offset.1) / 2,
    {
        (
            self.cell_offset.0 as u64 + ((self.cell_size.0 - self.cell_offset.1) / 2) as u64,
            self.cell_offset.1 as u64 + ((self.cell_size.1 - self.cell_offset.1) / 2) as u64,
        )
    }
}

/// Whether `position` is a cell of the board, with its index when it lies
/// within the board's extent (0 otherwise).
pub fn validate_position(position: Cell, grid: &Grid) -> (r: (bool, usize))
    requires
        grid.wf(),
    ensures
        r.0 == grid.open_at(position.x as int, position.y as int),
        grid.contains(position.x as int, position.y as int) ==> r.1 == grid.index_of(
            position.x as int,
            position.y as int,
        ),
        !grid.contains(position.x as int, position.y as int) ==> r.1 == 0,
{
    grid.locate(position.x as i64, position.y as i64)
}

/// The extent of the board that the game is played on.
pub const GRID_SIZE: (u32, u32) = (5, 9);

/// Where the first cell of the board is drawn.
pub const GRID_OFFSET: (i32, i32) = (-5, 35);

/// The size of the picture of a cell.
pub const CELL_SIZE: (u32, u32) = (30, 18);

/// By how much the pictures of two cells overlap.
pub const CELL_OFFSET: (u32, u32) = (2, 4);

/// The board that the game is played on: five by nine cells, without the
/// first cell of every even row.
pub fn setup_grid() -> (grid: Grid)
    ensures
        grid.wf(),
        grid.size == GRID_SIZE,
        grid.offset == GRID_OFFSET,
        grid.cell_size == CELL_SIZE,
        grid.cell_offset == CELL_OFFSET,
        forall|i: int|
            0 <= i < grid.cells() ==> #[trigger] grid.walkable@[i] == !(grid.row_of(i) % 2 == 0
                && grid.column_of(i) == 0),
{
    let mut grid = Grid::new(GRID_SIZE, GRID_OFFSET, CELL_SIZE, CELL_OFFSET);
    let width: usize = GRID_SIZE.0 as usize;
    let mut i: usize = 0;
    while i < grid.walkable.len()
        invariant
            i <= grid.walkable@.len(),
            width == 5,
            grid.size.0 == 5,
            grid.size.1 == 9,
            grid.walkable@.len() == 45,
            grid.wf(),
            grid.size == GRID_SIZE,
            grid.offset == GRID_OFFSET,
            grid.cell_size == CELL_SIZE,
            grid.cell_offset == CELL_OFFSET,
            forall|j: int|
                0 <= j < i ==> #[trigger] grid.walkable@[j] == !(grid.row_of(j) % 2 == 0
                    && grid.column_of(j) == 0),
            forall|j: int| i <= j < grid.walkable@.len() ==> #[trigger] grid.walkable@[j],
        decreases grid.walkable@.len() - i,
    {
        let ghost before = grid.walkable@;
        if (i / width) % 2 == 0 && i % width == 0 {
            grid.walkable.set(i, false);
        }
        proof {
            assert(grid.row_of(i as int) == i as int / 5);
            assert(grid.column_of(i as int) == i as int % 5);
            assert forall|j: int| 0 <= j < i implies #[trigger] grid.walkable@[j] == !(grid.row_of(
                j,
            ) % 2 == 0 && grid.column_of(j) == 0) by {
                assert(grid.walkable@[j] == before[j]);
            }
        }
        i = i + 1;
    }
    grid
}

} // verus!
