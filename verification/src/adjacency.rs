//! Which cells touch which on the staggered board: the table of nine
//! neighbours used by the placement rules, and the table of four diagonal
//! steps used by everything that moves.

use vstd::prelude::*;
use crate::grid::{row_parity, Cell};

verus! {

/// The nine offsets from a cell on row `y` to the cells it touches, itself
/// first: the cell, the two cells two rows away, the cells left and right,
/// and the four diagonal cells, which depend on the row's parity.
pub open spec fn adjacent_offsets(y: int) -> Seq<(int, int)> {
    let p = row_parity(y);
    seq![
        (0, 0),
        (0, 2),
        (0, -2),
        (1, 0),
        (-1, 0),
        (p, 1),
        (p, -1),
        (p - 1, 1),
        (p - 1, -1),
    ]
}

/// The four offsets from a cell on row `y` to its diagonal cells: the
/// cells a creature can step to.
pub open spec fn diagonal_offsets(y: int) -> Seq<(int, int)> {
    let p = row_parity(y);
    seq![(p, 1), (p, -1), (p - 1, 1), (p - 1, -1)]
}

/// Cell `(bx, by)` is one of the nine cells that `(ax, ay)` touches.
pub open spec fn touches(ax: int, ay: int, bx: int, by: int) -> bool {
    exists|k: int|
        0 <= k < 9 && bx == ax + (#[trigger] adjacent_offsets(ay)[k]).0 && by == ay
            + adjacent_offsets(ay)[k].1
}

/// Cell `(bx, by)` is one diagonal step from `(ax, ay)`.
pub open spec fn steps_to(ax: int, ay: int, bx: int, by: int) -> bool {
    exists|k: int|
        0 <= k < 4 && bx == ax + (#[trigger] diagonal_offsets(ay)[k]).0 && by == ay
            + diagonal_offsets(ay)[k].1
}

/// The nine offsets from `position` to the cells it touches, itself first.
pub fn get_adjacent(position: Cell) -> (table: [(i32, i32); 9])
    ensures
        table@.len() == 9,
        forall|k: int|
            0 <= k < 9 ==> (#[trigger] table@[k]).0 == adjacent_offsets(position.y as int)[k].0
                && table@[k].1 == adjacent_offsets(position.y as int)[k].1,
{
    let p: i32 = position.y % 2;
    [(0, 0), (0, 2), (0, -2), (1, 0), (-1, 0), (p, 1), (p, -1), (p - 1, 1), (p - 1, -1)]
}

/// The four offsets from `position` to the cells one diagonal step away.
pub fn get_diagonal_adjacent(position: Cell) -> (table: [(i32, i32); 4])
    ensures
        table@.len() == 4,
        forall|k: int|
            0 <= k < 4 ==> (#[trigger] table@[k]).0 == diagonal_offsets(position.y as int)[k].0
                && table@[k].1 == diagonal_offsets(position.y as int)[k].1,
{
    let p: i32 = position.y % 2;
    [(p, 1), (p, -1), (p - 1, 1), (p - 1, -1)]
}

/// `offset` is one of the entries of `table`.
pub open spec fn has_offset(table: Seq<(int, int)>, offset: (int, int)) -> bool {
    exists|k: int| 0 <= k < table.len() && #[trigger] table[k] == offset
}

/// The table of adjacency offsets has nine entries on every row.
pub proof fn lemma_adjacent_offsets_count(y: int)
    ensures
        adjacent_offsets(y).len() == 9,
        diagonal_offsets(y).len() == 4,
{
}

/// The parity of the row changes the table: on an even row the cell up
/// and to the left is touched, on an odd row at or below the origin row the
/// cell up and to the right in its place.
pub proof fn lemma_adjacent_offsets_differ(even: int, odd: int)
    requires
        even % 2 == 0,
        odd % 2 == 1,
        odd >= 0,
    ensures
        adjacent_offsets(even) != adjacent_offsets(odd),
        has_offset(adjacent_offsets(even), (-1, 1)),
        !has_offset(adjacent_offsets(odd), (-1, 1)),
        has_offset(adjacent_offsets(odd), (1, 1)),
        !has_offset(adjacent_offsets(even), (1, 1)),
{
    assert(row_parity(even) == 0);
    assert(row_parity(odd) == 1);
    assert(adjacent_offsets(even)[5] == (0int, 1int));
    assert(adjacent_offsets(odd)[5] == (1int, 1int));
    assert(adjacent_offsets(even)[7] == (-1int, 1int));
}

/// The tables of an even row and of an odd row at or below the origin row
/// mirror each other: an offset is in the one exactly when the offset
/// with the opposite column is in the other.
pub proof fn lemma_adjacent_offsets_mirrored(even: int, odd: int, dx: int, dy: int)
    requires
        even % 2 == 0,
        odd % 2 == 1,
        odd >= 0,
    ensures
        has_offset(adjacent_offsets(even), (dx, dy)) <==> has_offset(
            adjacent_offsets(odd),
            (-dx, dy),
        ),
{
    assert(row_parity(even) == 0);
    assert(row_parity(odd) == 1);
    let a = adjacent_offsets(even);
    let b = adjacent_offsets(odd);
    assert(a[0] == (0int, 0int) && b[0] == (0int, 0int));
    assert(a[1] == (0int, 2int) && b[1] == (0int, 2int));
    assert(a[2] == (0int, -2int) && b[2] == (0int, -2int));
    assert(a[3] == (1int, 0int) && b[3] == (1int, 0int));
    assert(a[4] == (-1int, 0int) && b[4] == (-1int, 0int));
    assert(a[5] == (0int, 1int) && b[5] == (1int, 1int));
    assert(a[6] == (0int, -1int) && b[6] == (1int, -1int));
    assert(a[7] == (-1int, 1int) && b[7] == (0int, 1int));
    assert(a[8] == (-1int, -1int) && b[8] == (0int, -1int));
    if has_offset(a, (dx, dy)) {
        let k = choose|k: int| 0 <= k < a.len() && #[trigger] a[k] == (dx, dy);
        let m: int = if k == 3 {
            4
        } else if k == 4 {
            3
        } else if k == 5 {
            7
        } else if k == 6 {
            8
        } else if k == 7 {
            5
        } else if k == 8 {
            6
        } else {
            k
        };
        assert(b[m] == (-dx, dy));
    }
    if has_offset(b, (-dx, dy)) {
        let k = choose|k: int| 0 <= k < b.len() && #[trigger] b[k] == (-dx, dy);
        let m: int = if k == 3 {
            4
        } else if k == 4 {
            3
        } else if k == 5 {
            7
        } else if k == 6 {
            8
        } else if k == 7 {
            5
        } else if k == 8 {
            6
        } else {
            k
        };
        assert(a[m] == (dx, dy));
    }
}

/// On the rows at or below the origin row, touching goes both ways: a
/// cell that touches another is touched by it.
pub proof fn lemma_touches_symmetric(ax: int, ay: int, bx: int, by: int)
    requires
        ay >= 0,
        by >= 0,
        touches(ax, ay, bx, by),
    ensures
        touches(bx, by, ax, ay),
{
    let k = choose|k: int|
        0 <= k < 9 && bx == ax + (#[trigger] adjacent_offsets(ay)[k]).0 && by == ay
            + adjacent_offsets(ay)[k].1;
    let m: int = if k == 1 {
        2
    } else if k == 2 {
        1
    } else if k == 3 {
        4
    } else if k == 4 {
        3
    } else if k == 5 {
        8
    } else if k == 6 {
        7
    } else if k == 7 {
        6
    } else if k == 8 {
        5
    } else {
        0
    };
    let back = adjacent_offsets(by)[m];
    assert(ax == bx + back.0 && ay == by + back.1);
}

} // verus!
