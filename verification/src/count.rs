//! Counting the neighbours of a footprint, each cell of the board once.

use vstd::prelude::*;
use crate::adjacency::{adjacent_offsets, get_adjacent};
use crate::asset::{footprint_point, footprint_x, footprint_y};
use crate::grid::{Cell, Grid};
use crate::kind::ObjectID;
use crate::world::World;

verus! {

/// Nothing but `entity` itself stands in slot `i`.
pub open spec fn free_for(world: &World, entity: u64, i: int) -> bool {
    world.objects@[i] matches Some(occupant) ==> occupant.0 == entity
}

/// `entity` could stand on `(x, y)`: the cell is on the board and holds
/// nothing else.
pub open spec fn cell_free(entity: u64, x: int, y: int, world: &World, grid: &Grid) -> bool {
    grid.open_at(x, y) && free_for(world, entity, grid.index_of(x, y))
}

/// Every cell of the footprint anchored at `(ax, ay)` is on the board and
/// holds nothing but `entity`.
pub open spec fn footprint_free(
    entity: u64,
    ax: int,
    ay: int,
    offsets: Seq<Cell>,
    world: &World,
    grid: &Grid,
) -> bool {
    forall|i: int|
        0 <= i < offsets.len() ==> cell_free(
            entity,
            #[trigger] footprint_x(ax, ay, offsets, i),
            footprint_y(ay, offsets, i),
            world,
            grid,
        )
}

/// Cell `(x, y)` is the `m`-th cell that footprint cell `j` touches.
pub open spec fn hit(ax: int, ay: int, offsets: Seq<Cell>, j: int, m: int, x: int, y: int) -> bool {
    let fx = footprint_x(ax, ay, offsets, j);
    let fy = footprint_y(ay, offsets, j);
    x == fx + adjacent_offsets(fy)[m].0 && y == fy + adjacent_offsets(fy)[m].1
}

/// Cell `(x, y)` touches some cell of the footprint anchored at `(ax, ay)`.
pub open spec fn near_footprint(ax: int, ay: int, offsets: Seq<Cell>, x: int, y: int) -> bool {
    exists|j: int, m: int|
        0 <= j < offsets.len() && 0 <= m < 9 && #[trigger] hit(ax, ay, offsets, j, m, x, y)
}

/// What one neighbouring cell adds to the count. A house counts once and a
/// big house twice when houses are counted; any other kind counts once for
/// each cell of that same kind.
pub open spec fn neighbour_weight(id: ObjectID, slot: Option<(u64, ObjectID)>) -> nat {
    match slot {
        None => 0,
        Some((_, kind)) => if id == ObjectID::House {
            if kind == ObjectID::House {
                1
            } else if kind == ObjectID::BigHouse {
                2
            } else {
                0
            }
        } else if kind == id {
            1
        } else {
            0
        },
    }
}

/// The weights of the first `n` board cells that touch the footprint, each
/// cell taken once.
pub open spec fn neighbour_sum(
    id: ObjectID,
    ax: int,
    ay: int,
    offsets: Seq<Cell>,
    world: &World,
    grid: &Grid,
    n: nat,
) -> nat
    decreases n,
{
    if n == 0 {
        0
    } else {
        let i = (n - 1) as int;
        neighbour_sum(id, ax, ay, offsets, world, grid, i as nat) + if grid.walkable@[i]
            && near_footprint(ax, ay, offsets, grid.column_of(i), grid.row_of(i)) {
            neighbour_weight(id, world.objects@[i])
        } else {
            0
        }
    }
}

/// The neighbour count of `entity` placed at `(ax, ay)`: nothing when the
/// footprint does not fit there, else the summed weight of the distinct
/// board cells that touch the footprint.
pub open spec fn neighbour_count(
    entity: u64,
    id: ObjectID,
    ax: int,
    ay: int,
    offsets: Seq<Cell>,
    world: &World,
    grid: &Grid,
) -> nat {
    if footprint_free(entity, ax, ay, offsets, world, grid) {
        neighbour_sum(id, ax, ay, offsets, world, grid, grid.cells() as nat)
    } else {
        0
    }
}

proof fn lemma_neighbour_sum_single(
    id: ObjectID,
    ax: int,
    ay: int,
    offsets: Seq<Cell>,
    world: &World,
    grid: &Grid,
    c: int,
    n: nat,
)
    requires
        0 <= c,
        grid.walkable@[c],
        near_footprint(ax, ay, offsets, grid.column_of(c), grid.row_of(c)),
        forall|i: int|
            0 <= i < n && i != c && grid.walkable@[i] && near_footprint(
                ax,
                ay,
                offsets,
                grid.column_of(i),
                grid.row_of(i),
            ) ==> neighbour_weight(id, #[trigger] world.objects@[i]) == 0,
    ensures
        neighbour_sum(id, ax, ay, offsets, world, grid, n) == if c < n {
            neighbour_weight(id, world.objects@[c])
        } else {
            0
        },
    decreases n,
{
    if n > 0 {
        lemma_neighbour_sum_single(id, ax, ay, offsets, world, grid, c, (n - 1) as nat);
    }
}

/// A cell of the board is counted once, however many cells of the
/// footprint it touches: where a single cell near a footprint that fits
/// carries any weight, the count is the weight of that cell.
pub proof fn lemma_neighbour_counted_once(
    entity: u64,
    id: ObjectID,
    ax: int,
    ay: int,
    offsets: Seq<Cell>,
    world: &World,
    grid: &Grid,
    c: int,
)
    requires
        footprint_free(entity, ax, ay, offsets, world, grid),
        0 <= c < grid.cells(),
        grid.walkable@[c],
        near_footprint(ax, ay, offsets, grid.column_of(c), grid.row_of(c)),
        forall|i: int|
            0 <= i < grid.cells() && i != c && grid.walkable@[i] && near_footprint(
                ax,
                ay,
                offsets,
                grid.column_of(i),
                grid.row_of(i),
            ) ==> neighbour_weight(id, #[trigger] world.objects@[i]) == 0,
    ensures
        neighbour_count(entity, id, ax, ay, offsets, world, grid) == neighbour_weight(
            id,
            world.objects@[c],
        ),
{
    lemma_neighbour_sum_single(id, ax, ay, offsets, world, grid, c, grid.cells() as nat);
}

/// The weights of the first `n` slots whose index is in `chosen`.
spec fn chosen_sum(id: ObjectID, world: &World, chosen: Set<int>, n: nat) -> nat
    decreases n,
{
    if n == 0 {
        0
    } else {
        let i = (n - 1) as int;
        chosen_sum(id, world, chosen, i as nat) + if chosen.contains(i) {
            neighbour_weight(id, world.objects@[i])
        } else {
            0
        }
    }
}

proof fn lemma_chosen_sum_bound(id: ObjectID, world: &World, chosen: Set<int>, n: nat)
    ensures
        chosen_sum(id, world, chosen, n) <= 2 * n,
    decreases n,
{
    if n > 0 {
        lemma_chosen_sum_bound(id, world, chosen, (n - 1) as nat);
    }
}

proof fn lemma_chosen_sum_empty(id: ObjectID, world: &World, n: nat)
    ensures
        chosen_sum(id, world, Set::empty(), n) == 0,
    decreases n,
{
    if n > 0 {
        lemma_chosen_sum_empty(id, world, (n - 1) as nat);
    }
}

proof fn lemma_chosen_sum_insert(id: ObjectID, world: &World, chosen: Set<int>, i: int, n: nat)
    requires
        !chosen.contains(i),
    ensures
        chosen_sum(id, world, chosen.insert(i), n) == chosen_sum(id, world, chosen, n) + if 0 <= i
            < n {
            neighbour_weight(id, world.objects@[i])
        } else {
            0
        },
    decreases n,
{
    if n > 0 {
        lemma_chosen_sum_insert(id, world, chosen, i, (n - 1) as nat);
    }
}

proof fn lemma_chosen_sum_is_neighbour_sum(
    id: ObjectID,
    ax: int,
    ay: int,
    offsets: Seq<Cell>,
    world: &World,
    grid: &Grid,
    chosen: Set<int>,
    n: nat,
)
    requires
        forall|i: int|
            0 <= i < n ==> (#[trigger] chosen.contains(i) <==> grid.walkable@[i]
                && world.objects@[i] is Some && near_footprint(
                ax,
                ay,
                offsets,
                grid.column_of(i),
                grid.row_of(i),
            )),
    ensures
        chosen_sum(id, world, chosen, n) == neighbour_sum(id, ax, ay, offsets, world, grid, n),
    decreases n,
{
    if n > 0 {
        lemma_chosen_sum_is_neighbour_sum(id, ax, ay, offsets, world, grid, chosen, (n - 1) as nat);
        assert(chosen.contains(n - 1) <==> grid.walkable@[n - 1] && world.objects@[n - 1] is Some
            && near_footprint(ax, ay, offsets, grid.column_of(n - 1), grid.row_of(n - 1)));
    }
}

/// `(x, y)` is touched by a footprint cell before the `i`-th, or by the
/// `i`-th through one of its first `k` offsets.
spec fn reached(ax: int, ay: int, offsets: Seq<Cell>, x: int, y: int, i: int, k: int) -> bool {
    exists|j: int, m: int|
        0 <= j < offsets.len() && 0 <= m < 9 && (j < i || (j == i && m < k)) && #[trigger] hit(
            ax,
            ay,
            offsets,
            j,
            m,
            x,
            y,
        )
}

proof fn lemma_reached_step(ax: int, ay: int, offsets: Seq<Cell>, x: int, y: int, i: int, k: int)
    requires
        0 <= i < offsets.len(),
        0 <= k < 9,
    ensures
        reached(ax, ay, offsets, x, y, i, k + 1) <==> reached(ax, ay, offsets, x, y, i, k) || hit(
            ax,
            ay,
            offsets,
            i,
            k,
            x,
            y,
        ),
{
    if reached(ax, ay, offsets, x, y, i, k + 1) {
        let (j, m) = choose|j: int, m: int|
            0 <= j < offsets.len() && 0 <= m < 9 && (j < i || (j == i && m < k + 1))
                && #[trigger] hit(ax, ay, offsets, j, m, x, y);
        if !(j == i && m == k) {
            assert(hit(ax, ay, offsets, j, m, x, y));
        }
    }
    if reached(ax, ay, offsets, x, y, i, k) {
        let (j, m) = choose|j: int, m: int|
            0 <= j < offsets.len() && 0 <= m < 9 && (j < i || (j == i && m < k)) && #[trigger] hit(
                ax,
                ay,
                offsets,
                j,
                m,
                x,
                y,
            );
        assert(hit(ax, ay, offsets, j, m, x, y));
    }
}

proof fn lemma_reached_next(ax: int, ay: int, offsets: Seq<Cell>, x: int, y: int, i: int)
    requires
        0 <= i < offsets.len(),
    ensures
        reached(ax, ay, offsets, x, y, i, 9) <==> reached(ax, ay, offsets, x, y, i + 1, 0),
{
    if reached(ax, ay, offsets, x, y, i, 9) {
        let (j, m) = choose|j: int, m: int|
            0 <= j < offsets.len() && 0 <= m < 9 && (j < i || (j == i && m < 9)) && #[trigger] hit(
                ax,
                ay,
                offsets,
                j,
                m,
                x,
                y,
            );
        assert(hit(ax, ay, offsets, j, m, x, y));
    }
    if reached(ax, ay, offsets, x, y, i + 1, 0) {
        let (j, m) = choose|j: int, m: int|
            0 <= j < offsets.len() && 0 <= m < 9 && (j < i + 1 || (j == i + 1 && m < 0))
                && #[trigger] hit(ax, ay, offsets, j, m, x, y);
        assert(hit(ax, ay, offsets, j, m, x, y));
    }
}

proof fn lemma_reached_all(ax: int, ay: int, offsets: Seq<Cell>, x: int, y: int)
    ensures
        reached(ax, ay, offsets, x, y, offsets.len() as int, 0) <==> near_footprint(
            ax,
            ay,
            offsets,
            x,
            y,
        ),
{
    if reached(ax, ay, offsets, x, y, offsets.len() as int, 0) {
        let (j, m) = choose|j: int, m: int|
            0 <= j < offsets.len() && 0 <= m < 9 && (j < offsets.len() || (j == offsets.len() && m
                < 0)) && #[trigger] hit(ax, ay, offsets, j, m, x, y);
        assert(hit(ax, ay, offsets, j, m, x, y));
    }
    if near_footprint(ax, ay, offsets, x, y) {
        let (j, m) = choose|j: int, m: int|
            0 <= j < offsets.len() && 0 <= m < 9 && #[trigger] hit(ax, ay, offsets, j, m, x, y);
        assert(hit(ax, ay, offsets, j, m, x, y));
    }
}

/// The occupied board cells reached so far are exactly the chosen ones.
spec fn tally(
    ax: int,
    ay: int,
    offsets: Seq<Cell>,
    world: &World,
    grid: &Grid,
    chosen: Set<int>,
    i: int,
    k: int,
) -> bool {
    forall|c: int|
        0 <= c < grid.cells() ==> (#[trigger] chosen.contains(c) <==> grid.walkable@[c]
            && world.objects@[c] is Some && reached(
            ax,
            ay,
            offsets,
            grid.column_of(c),
            grid.row_of(c),
            i,
            k,
        ))
}

/// `c` is one of the indices in `list`.
pub open spec fn listed(list: Seq<usize>, c: int) -> bool {
    exists|n: int| 0 <= n < list.len() && #[trigger] list[n] == c
}

proof fn lemma_listed_push(list: Seq<usize>, index: usize, c: int)
    ensures
        listed(list.push(index), c) <==> listed(list, c) || c == index,
{
    let longer = list.push(index);
    if listed(longer, c) {
        let n = choose|n: int| 0 <= n < longer.len() && #[trigger] longer[n] == c;
        if n < list.len() {
            assert(list[n] == c);
        }
    }
    if listed(list, c) {
        let n = choose|n: int| 0 <= n < list.len() && #[trigger] list[n] == c;
        assert(longer[n] == c);
    }
    if c == index {
        assert(longer[list.len() as int] == c);
    }
}

/// Whether `index` is one of the indices in `list`.
pub fn contains_index(list: &Vec<usize>, index: usize) -> (b: bool)
    ensures
        b == listed(list@, index as int),
{
    let mut n: usize = 0;
    while n < list.len()
        invariant
            n <= list@.len(),
            forall|j: int| 0 <= j < n ==> list@[j] != index,
        decreases list@.len() - n,
    {
        if list[n] == index {
            return true;
        }
        n = n + 1;
    }
    false
}

/// What a cell holding `kind` adds when neighbours of kind `id` are counted.
pub fn weight_of(id: ObjectID, kind: ObjectID) -> (w: usize)
    ensures
        w == neighbour_weight(id, Some((0u64, kind))),
        w <= 2,
{
    if id == ObjectID::House {
        if kind == ObjectID::House {
            1
        } else if kind == ObjectID::BigHouse {
            2
        } else {
            0
        }
    } else if kind == id {
        1
    } else {
        0
    }
}

/// Counts the neighbours of kind `id` around the footprint `offsets` of
/// `entity` anchored at `position`. Each footprint cell must be on the
/// board and hold nothing but `entity`, or the count is 0. A board cell
/// that touches several footprint cells is counted once.
pub fn count_neighbors(
    entity: u64,
    id: ObjectID,
    position: Cell,
    offsets: &Vec<Cell>,
    world: &World,
    grid: &Grid,
) -> (count: usize)
    requires
        grid.wf(),
        world.fits(grid),
    ensures
        count == neighbour_count(
            entity,
            id,
            position.x as int,
            position.y as int,
            offsets@,
            world,
            grid,
        ),
{
    let ghost ax = position.x as int;
    let ghost ay = position.y as int;
    let mut count: usize = 0;
    let mut counted: Vec<usize> = Vec::new();
    let mut i: usize = 0;
    proof {
        lemma_chosen_sum_empty(id, world, grid.cells() as nat);
    }
    let ghost mut chosen: Set<int> = Set::empty();
    while i < offsets.len()
        invariant
            i <= offsets@.len(),
            grid.wf(),
            world.fits(grid),
            ax == position.x,
            ay == position.y,
            forall|j: int|
                0 <= j < i ==> cell_free(
                    entity,
                    #[trigger] footprint_x(ax, ay, offsets@, j),
                    footprint_y(ay, offsets@, j),
                    world,
                    grid,
                ),
            forall|c: int| chosen.contains(c) <==> listed(counted@, c),
            tally(ax, ay, offsets@, world, grid, chosen, i as int, 0),
            count == chosen_sum(id, world, chosen, grid.cells() as nat),
        decreases offsets@.len() - i,
    {
        let (x, y) = footprint_point(position.x as i64, position.y as i64, offsets, i);
        let (valid, index) = grid.locate(x, y);
        if !valid {
            return 0;
        }
        proof {
            grid.lemma_index_of(x as int, y as int);
            grid.lemma_extent(x as int, y as int);
        }
        match world.objects[index] {
            Some((holder, _)) => {
                if holder != entity {
                    return 0;
                }
            },
            None => {},
        }
        let table = get_adjacent(Cell { x: x as i32, y: y as i32 });
        let mut k: usize = 0;
        while k < 9
            invariant
                k <= 9,
                i < offsets@.len(),
                grid.wf(),
                world.fits(grid),
                ax == position.x,
                ay == position.y,
                x == footprint_x(ax, ay, offsets@, i as int),
                y == footprint_y(ay, offsets@, i as int),
                grid.contains(x as int, y as int),
                table@.len() == 9,
                forall|m: int|
                    0 <= m < 9 ==> (#[trigger] table@[m]).0 == adjacent_offsets(y as int)[m].0
                        && table@[m].1 == adjacent_offsets(y as int)[m].1,
                forall|c: int| chosen.contains(c) <==> listed(counted@, c),
                tally(ax, ay, offsets@, world, grid, chosen, i as int, k as int),
                count == chosen_sum(id, world, chosen, grid.cells() as nat),
            decreases 9 - k,
        {
            let offset = table[k];
            let tx: i64 = x + offset.0 as i64;
            let ty: i64 = y + offset.1 as i64;
            let (open, target) = grid.locate(tx, ty);
            let ghost before = chosen;
            proof {
                assert(hit(ax, ay, offsets@, i as int, k as int, tx as int, ty as int));
                assert forall|c: int| 0 <= c < grid.cells() implies (reached(
                    ax,
                    ay,
                    offsets@,
                    grid.column_of(c),
                    grid.row_of(c),
                    i as int,
                    k as int + 1,
                ) <==> reached(
                    ax,
                    ay,
                    offsets@,
                    grid.column_of(c),
                    grid.row_of(c),
                    i as int,
                    k as int,
                ) || (grid.column_of(c) == tx && grid.row_of(c) == ty)) by {
                    lemma_reached_step(
                        ax,
                        ay,
                        offsets@,
                        grid.column_of(c),
                        grid.row_of(c),
                        i as int,
                        k as int,
                    );
                }
                assert forall|c: int|
                    0 <= c < grid.cells() && grid.column_of(c) == tx && grid.row_of(
                        c,
                    ) == ty implies grid.contains(tx as int, ty as int) && c == grid.index_of(
                    tx as int,
                    ty as int,
                ) by {
                    grid.lemma_cell_of(c);
                }
                if grid.contains(tx as int, ty as int) {
                    grid.lemma_index_of(tx as int, ty as int);
                }
            }
            if open {
                if !contains_index(&counted, target) {
                    match world.objects[target] {
                        Some((_, kind)) => {
                            let weight = weight_of(id, kind);
                            proof {
                                chosen = before.insert(target as int);
                                lemma_chosen_sum_insert(
                                    id,
                                    world,
                                    before,
                                    target as int,
                                    grid.cells() as nat,
                                );
                                lemma_chosen_sum_bound(id, world, chosen, grid.cells() as nat);
                            }
                            let ghost earlier = counted@;
                            count = count + weight;
                            counted.push(target);
                            proof {
                                assert forall|c: int|
                                    chosen.contains(c) <==> listed(counted@, c) by {
                                    lemma_listed_push(earlier, target, c);
                                }
                            }
                        },
                        None => {},
                    }
                }
            }
            k = k + 1;
        }
        proof {
            assert forall|c: int| 0 <= c < grid.cells() implies (reached(
                ax,
                ay,
                offsets@,
                grid.column_of(c),
                grid.row_of(c),
                i as int,
                9,
            ) <==> reached(
                ax,
                ay,
                offsets@,
                grid.column_of(c),
                grid.row_of(c),
                i as int + 1,
                0,
            )) by {
                lemma_reached_next(ax, ay, offsets@, grid.column_of(c), grid.row_of(c), i as int);
            }
        }
        i = i + 1;
    }
    proof {
        assert forall|c: int| 0 <= c < grid.cells() implies (reached(
            ax,
            ay,
            offsets@,
            grid.column_of(c),
            grid.row_of(c),
            offsets@.len() as int,
            0,
        ) <==> near_footprint(ax, ay, offsets@, grid.column_of(c), grid.row_of(c))) by {
            lemma_reached_all(ax, ay, offsets@, grid.column_of(c), grid.row_of(c));
        }
        lemma_chosen_sum_is_neighbour_sum(
            id,
            ax,
            ay,
            offsets@,
            world,
            grid,
            chosen,
            grid.cells() as nat,
        );
    }
    count
}

} // verus!
