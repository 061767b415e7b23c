//! The way of the king: the graph it walks, and the search for a
//! shortest way.

use vstd::prelude::*;
use crate::adjacency::{diagonal_offsets, get_diagonal_adjacent, steps_to};
use crate::grid::{Cell, Grid};
use crate::kind::ObjectID;
use crate::world::World;

verus! {

/// A king can stand on `(x, y)`: a cell of the board that is empty or
/// holds a castle or a king.
pub open spec fn passable(world: &World, grid: &Grid, x: int, y: int) -> bool {
    grid.open_at(x, y) && match world.objects@[grid.index_of(x, y)] {
        None => true,
        Some((_, kind)) => kind == ObjectID::Castle || kind == ObjectID::King,
    }
}

/// The cells a king can step to from `(x, y)` through the first `n`
/// diagonal offsets, in order, each at a cost of one.
pub open spec fn successors(world: &World, grid: &Grid, x: int, y: int, n: nat) -> Seq<
    ((i32, i32), usize),
>
    decreases n,
{
    if n == 0 {
        Seq::empty()
    } else {
        let k = (n - 1) as int;
        let rest = successors(world, grid, x, y, k as nat);
        let tx = x + diagonal_offsets(y)[k].0;
        let ty = y + diagonal_offsets(y)[k].1;
        if passable(world, grid, tx, ty) {
            rest.push(((tx as i32, ty as i32), 1usize))
        } else {
            rest
        }
    }
}

/// `next` is among the successors of `node`.
pub open spec fn is_successor(world: &World, grid: &Grid, node: (i32, i32), next: (i32, i32)) -> bool {
    exists|k: int|
        0 <= k < successors(world, grid, node.0 as int, node.1 as int, 4).len() && (
        #[trigger] successors(world, grid, node.0 as int, node.1 as int, 4)[k]).0 == next
}

proof fn lemma_successors_member(
    world: &World,
    grid: &Grid,
    x: int,
    y: int,
    n: nat,
    next: (i32, i32),
)
    requires
        grid.wf(),
        world.fits(grid),
        n <= 4,
    ensures
        (exists|j: int|
            0 <= j < successors(world, grid, x, y, n).len() && (#[trigger] successors(
                world,
                grid,
                x,
                y,
                n,
            )[j]).0 == next) <==> (exists|k: int|
            0 <= k < n && next.0 == x + (#[trigger] diagonal_offsets(y)[k]).0 && next.1 == y
                + diagonal_offsets(y)[k].1 && passable(world, grid, next.0 as int, next.1 as int)),
    decreases n,
{
    let all = successors(world, grid, x, y, n);
    if n > 0 {
        let m = (n - 1) as int;
        let rest = successors(world, grid, x, y, m as nat);
        lemma_successors_member(world, grid, x, y, m as nat, next);
        let tx = x + diagonal_offsets(y)[m].0;
        let ty = y + diagonal_offsets(y)[m].1;
        if passable(world, grid, tx, ty) {
            grid.lemma_extent(tx, ty);
        }
        if exists|j: int| 0 <= j < all.len() && (#[trigger] all[j]).0 == next {
            let j = choose|j: int| 0 <= j < all.len() && (#[trigger] all[j]).0 == next;
            if j < rest.len() {
                assert(rest[j].0 == next);
                let k = choose|k: int|
                    0 <= k < m && next.0 == x + (#[trigger] diagonal_offsets(y)[k]).0 && next.1
                        == y + diagonal_offsets(y)[k].1 && passable(
                        world,
                        grid,
                        next.0 as int,
                        next.1 as int,
                    );
                assert(next.0 == x + diagonal_offsets(y)[k].0);
            } else {
                assert(next.0 == x + diagonal_offsets(y)[m].0);
            }
        }
        if exists|k: int|
            0 <= k < n && next.0 == x + (#[trigger] diagonal_offsets(y)[k]).0 && next.1 == y
                + diagonal_offsets(y)[k].1 && passable(world, grid, next.0 as int, next.1 as int) {
            let k = choose|k: int|
                0 <= k < n && next.0 == x + (#[trigger] diagonal_offsets(y)[k]).0 && next.1 == y
                    + diagonal_offsets(y)[k].1 && passable(
                    world,
                    grid,
                    next.0 as int,
                    next.1 as int,
                );
            if k < m {
                assert(next.0 == x + diagonal_offsets(y)[k].0);
                let j = choose|j: int| 0 <= j < rest.len() && (#[trigger] rest[j]).0 == next;
                assert(all[j].0 == next);
            } else {
                assert(all[all.len() - 1].0 == next);
            }
        }
    }
}

/// The successors of a node are the cells one diagonal step away on
/// which a king can stand.
pub proof fn lemma_successor_is_open_step(
    world: &World,
    grid: &Grid,
    node: (i32, i32),
    next: (i32, i32),
)
    requires
        grid.wf(),
        world.fits(grid),
    ensures
        is_successor(world, grid, node, next) <==> steps_to(
            node.0 as int,
            node.1 as int,
            next.0 as int,
            next.1 as int,
        ) && passable(world, grid, next.0 as int, next.1 as int),
{
    lemma_successors_member(world, grid, node.0 as int, node.1 as int, 4, next);
    let all = successors(world, grid, node.0 as int, node.1 as int, 4);
    if is_successor(world, grid, node, next) {
        let j = choose|j: int| 0 <= j < all.len() && (#[trigger] all[j]).0 == next;
        assert(all[j].0 == next);
        let k = choose|k: int|
            0 <= k < 4 && next.0 == node.0 + (#[trigger] diagonal_offsets(node.1 as int)[k]).0
                && next.1 == node.1 + diagonal_offsets(node.1 as int)[k].1 && passable(
                world,
                grid,
                next.0 as int,
                next.1 as int,
            );
        assert(next.0 == node.0 + diagonal_offsets(node.1 as int)[k].0);
    }
    if steps_to(node.0 as int, node.1 as int, next.0 as int, next.1 as int) && passable(
        world,
        grid,
        next.0 as int,
        next.1 as int,
    ) {
        let k = choose|k: int|
            0 <= k < 4 && next.0 == node.0 + (#[trigger] diagonal_offsets(node.1 as int)[k]).0
                && next.1 == node.1 + diagonal_offsets(node.1 as int)[k].1;
        assert(next.0 == node.0 + diagonal_offsets(node.1 as int)[k].0);
    }
}

/// `nodes` leads from `start` to `goal`, each node a successor of the one
/// before it.
pub open spec fn is_chain(
    world: &World,
    grid: &Grid,
    nodes: Seq<(i32, i32)>,
    start: (i32, i32),
    goal: (i32, i32),
) -> bool {
    &&& nodes.len() >= 1
    &&& nodes[0] == start
    &&& nodes[nodes.len() - 1] == goal
    &&& forall|i: int|
        0 <= i < nodes.len() - 1 ==> is_successor(world, grid, #[trigger] nodes[i], nodes[i + 1])
}

/// The board as a king sees it: for each cell, whether a king can stand
/// on it.
pub open spec fn king_board(world: &World, grid: &Grid) -> Seq<bool> {
    Seq::new(
        grid.cells() as nat,
        |i: int| passable(world, grid, grid.column_of(i), grid.row_of(i)),
    )
}

/// The path that `pathfinding::prelude::dijkstra` finds from
/// `(start_x, start_y)` to `(goal_x, goal_y)` over diagonal steps, each at
/// a cost of one, on a board `width` cells wide and `height` cells high of
/// which `open` says, cell by cell, whether it can be stepped on. The
/// search reads nothing else, and keeps its nodes in the order in which it
/// meets them, so the same board gives the same path wherever it runs.
pub uninterp spec fn dijkstra_path(
    width: int,
    height: int,
    open: Seq<bool>,
    start_x: int,
    start_y: int,
    goal_x: int,
    goal_y: int,
) -> Option<Seq<(i32, i32)>>;

/// The nodes of a path that was found.
pub open spec fn nodes_of(found: Option<(Vec<(i32, i32)>, usize)>) -> Option<Seq<(i32, i32)>> {
    match found {
        Some(pair) => Some(pair.0@),
        None => None,
    }
}

/// No node occurs twice in `nodes`.
pub open spec fn is_simple(nodes: Seq<(i32, i32)>) -> bool {
    forall|i: int, j: int| 0 <= i < j < nodes.len() ==> nodes[i] != nodes[j]
}

/// The successors of `(x, y)` for the search: the diagonal neighbours that
/// a king can stand on, each one step away.
pub fn king_successors(x: i32, y: i32, world: &World, grid: &Grid) -> (next: Vec<
    ((i32, i32), usize),
>)
    requires
        grid.wf(),
        world.fits(grid),
    ensures
        next@ == successors(world, grid, x as int, y as int, 4),
{
    let table = get_diagonal_adjacent(Cell { x, y });
    let mut next: Vec<((i32, i32), usize)> = Vec::new();
    let mut k: usize = 0;
    while k < 4
        invariant
            k <= 4,
            grid.wf(),
            world.fits(grid),
            table@.len() == 4,
            forall|m: int|
                0 <= m < 4 ==> (#[trigger] table@[m]).0 == diagonal_offsets(y as int)[m].0
                    && table@[m].1 == diagonal_offsets(y as int)[m].1,
            next@ == successors(world, grid, x as int, y as int, k as nat),
        decreases 4 - k,
    {
        let tx: i64 = x as i64 + table[k].0 as i64;
        let ty: i64 = y as i64 + table[k].1 as i64;
        let (open, index) = grid.locate(tx, ty);
        if open {
            proof {
                grid.lemma_index_of(tx as int, ty as int);
                grid.lemma_extent(tx as int, ty as int);
            }
            let free = match world.objects[index] {
                Some((_, kind)) => kind == ObjectID::Castle || kind == ObjectID::King,
                None => true,
            };
            if free {
                next.push(((tx as i32, ty as i32), 1));
            }
        }
        k = k + 1;
    }
    next
}

/// Whether the search has arrived: `(x, y)` is the goal.
pub fn is_goal(x: i32, y: i32, goal: (i32, i32)) -> (b: bool)
    ensures
        b == ((x, y) == goal),
{
    x == goal.0 && y == goal.1
}

/// `pathfinding::prelude::dijkstra` from `start`, with `king_successors`
/// as the successors of a node and `is_goal` as the test for success. As
/// documented, it returns a shortest path from `start` to a node that passes
/// the test, start and end included and no node twice, with its total
/// cost, or nothing when there is no path. Every step costs one here, so
/// the cost is the number of steps. The search ends because it only ever
/// reaches cells of the board. Which of several shortest paths it returns
/// goes by the name `dijkstra_path`.
#[verifier::external_body]
pub(crate) fn shortest_chain(start: (i32, i32), goal: (i32, i32), world: &World, grid: &Grid) -> (found:
    Option<(Vec<(i32, i32)>, usize)>)
    requires
        grid.wf(),
        world.fits(grid),
    ensures
        nodes_of(found) == dijkstra_path(
            grid.size.0 as int,
            grid.size.1 as int,
            king_board(world, grid),
            start.0 as int,
            start.1 as int,
            goal.0 as int,
            goal.1 as int,
        ),
        found matches Some(pair) ==> is_chain(world, grid, pair.0@, start, goal) && pair.1
            == pair.0@.len() - 1 && is_simple(pair.0@),
        found matches Some(pair) ==> forall|other: Seq<(i32, i32)>|
            #[trigger] is_chain(world, grid, other, start, goal) ==> pair.0@.len() <= other.len(),
        found is None ==> forall|other: Seq<(i32, i32)>|
            !#[trigger] is_chain(world, grid, other, start, goal),
{
    pathfinding::prelude::dijkstra(
        &start,
        |&(x, y)| king_successors(x, y, world, grid),
        |&(x, y)| is_goal(x, y, goal),
    )
}

} // verus!
