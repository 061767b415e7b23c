//! The placement rules: for each kind that the carrier can move, the
//! cells on which an object of that kind may be set down.

use vstd::prelude::*;
use crate::adjacency::{adjacent_offsets, get_adjacent};
use crate::asset::{
    footprint_cells, footprint_within, footprint_x, footprint_y, is_footprint, ObjectAssetServer,
};
use crate::count::{cell_free, count_neighbors, footprint_free, neighbour_count};
use crate::grid::{Cell, Grid};
use crate::kind::ObjectID;
use crate::world::World;

verus! {

/// The kinds that the carrier can move: each has a placement rule.
pub open spec fn has_rule(id: ObjectID) -> bool {
    id == ObjectID::Villager || id == ObjectID::Cow || id == ObjectID::House || id
        == ObjectID::BigHouse || id == ObjectID::Farm || id == ObjectID::Tower || id
        == ObjectID::Church || id == ObjectID::Tavern
}

/// Whether the carrier can move objects of kind `id`.
pub fn has_placement_rule(id: ObjectID) -> (b: bool)
    ensures
        b == has_rule(id),
{
    match id {
        ObjectID::Villager
        | ObjectID::Cow
        | ObjectID::House
        | ObjectID::BigHouse
        | ObjectID::Farm
        | ObjectID::Tower
        | ObjectID::Church
        | ObjectID::Tavern => true,
        _ => false,
    }
}

/// The kinds whose rule reads the kind's footprint.
pub open spec fn rule_reads_footprint(id: ObjectID) -> bool {
    id == ObjectID::Farm || id == ObjectID::Church || id == ObjectID::Tavern
}

/// The position `(x, y)` as a cell.
pub open spec fn as_cell(x: int, y: int) -> Cell {
    Cell { x: x as i32, y: y as i32 }
}

/// The footprint `offsets` anchored at `(ax, ay)`, cell by cell.
pub open spec fn footprint_seq(ax: int, ay: int, offsets: Seq<Cell>) -> Seq<Cell> {
    Seq::new(
        offsets.len(),
        |i: int| as_cell(footprint_x(ax, ay, offsets, i), footprint_y(ay, offsets, i)),
    )
}

/// A villager may enter an empty cell or a house; a cow an empty cell or a
/// farm.
pub open spec fn welcomes(id: ObjectID, slot: Option<(u64, ObjectID)>) -> bool {
    match slot {
        None => true,
        Some((_, kind)) => if id == ObjectID::Villager {
            kind == ObjectID::House || kind == ObjectID::BigHouse
        } else {
            id == ObjectID::Cow && kind == ObjectID::Farm
        },
    }
}

/// Among the first `n` cells of the board, in order, those that a
/// creature of kind `id` may enter.
pub open spec fn roaming_cells(id: ObjectID, world: &World, grid: &Grid, n: nat) -> Seq<Cell>
    decreases n,
{
    if n == 0 {
        Seq::empty()
    } else {
        let i = (n - 1) as int;
        let rest = roaming_cells(id, world, grid, i as nat);
        if grid.walkable@[i] && welcomes(id, world.objects@[i]) {
            rest.push(grid.cell_of(i))
        } else {
            rest
        }
    }
}

/// Among the cells reached from `(px, py)` by the first `n` adjacency
/// offsets, in order, those on the board that are empty; the cell
/// `(px, py)` itself counts as empty.
pub open spec fn adjacent_cells(px: int, py: int, world: &World, grid: &Grid, n: nat) -> Seq<Cell>
    decreases n,
{
    if n == 0 {
        Seq::empty()
    } else {
        let k = (n - 1) as int;
        let rest = adjacent_cells(px, py, world, grid, k as nat);
        let offset = adjacent_offsets(py)[k];
        let x = px + offset.0;
        let y = py + offset.1;
        if grid.open_at(x, y) && (world.objects@[grid.index_of(x, y)] is None || (offset.0 == 0
            && offset.1 == 0)) {
            rest.push(as_cell(x, y))
        } else {
            rest
        }
    }
}

/// The footprints of the anchors among the first `n` cells of the board at
/// which `entity` has at least `required` neighbours of kind `target`, one
/// footprint after the other.
pub open spec fn neighbour_cells(
    entity: u64,
    target: ObjectID,
    required: nat,
    offsets: Seq<Cell>,
    world: &World,
    grid: &Grid,
    n: nat,
) -> Seq<Cell>
    decreases n,
{
    if n == 0 {
        Seq::empty()
    } else {
        let i = (n - 1) as int;
        let rest = neighbour_cells(entity, target, required, offsets, world, grid, i as nat);
        let ax = grid.column_of(i);
        let ay = grid.row_of(i);
        if neighbour_count(entity, target, ax, ay, offsets, world, grid) >= required {
            rest + footprint_seq(ax, ay, offsets)
        } else {
            rest
        }
    }
}

/// `cells` followed by those of the first `k` cells of `extra` that were
/// not there before.
pub open spec fn push_new(cells: Seq<Cell>, extra: Seq<Cell>, k: nat) -> Seq<Cell>
    decreases k,
{
    if k == 0 {
        cells
    } else {
        let rest = push_new(cells, extra, (k - 1) as nat);
        if rest.contains(extra[k - 1]) {
            rest
        } else {
            rest.push(extra[k - 1])
        }
    }
}

/// The footprint cells of the anchors among the first `n` cells of the
/// board at which the whole footprint is free for `entity`, each cell once.
pub open spec fn church_cells(
    entity: u64,
    offsets: Seq<Cell>,
    world: &World,
    grid: &Grid,
    n: nat,
) -> Seq<Cell>
    decreases n,
{
    if n == 0 {
        Seq::empty()
    } else {
        let i = (n - 1) as int;
        let rest = church_cells(entity, offsets, world, grid, i as nat);
        let ax = grid.column_of(i);
        let ay = grid.row_of(i);
        if footprint_free(entity, ax, ay, offsets, world, grid) {
            push_new(rest, footprint_seq(ax, ay, offsets), offsets.len())
        } else {
            rest
        }
    }
}

/// Slot `i` is a cell of the board on which a castle stands.
pub open spec fn is_castle_at(world: &World, grid: &Grid, i: int) -> bool {
    &&& grid.walkable@[i]
    &&& world.objects@[i] matches Some(occupant)
    &&& occupant.1 == ObjectID::Castle
}

/// Index of the first castle cell among the first `n` cells of the board.
pub open spec fn first_castle(world: &World, grid: &Grid, n: nat) -> Option<int>
    decreases n,
{
    if n == 0 {
        None
    } else {
        match first_castle(world, grid, (n - 1) as nat) {
            Some(i) => Some(i),
            None => if is_castle_at(world, grid, n - 1) {
                Some(n - 1)
            } else {
                None
            },
        }
    }
}

/// Column of the castle; 0 on a board without one.
pub open spec fn castle_x(world: &World, grid: &Grid) -> int {
    match first_castle(world, grid, grid.cells() as nat) {
        Some(i) => grid.column_of(i),
        None => 0,
    }
}

/// Row of the castle; 0 on a board without one.
pub open spec fn castle_y(world: &World, grid: &Grid) -> int {
    match first_castle(world, grid, grid.cells() as nat) {
        Some(i) => grid.row_of(i),
        None => 0,
    }
}

/// Column of the cell on row `i` of the line through the castle that
/// gains one column every two rows.
pub open spec fn tower_horizontal_x(cx: int, cy: int, i: int) -> int {
    (cx - cy / 2) + i / 2
}

/// Column at which the second line through the castle starts: half as many
/// columns left of the castle as there are rows below it, kept within the
/// board.
pub open spec fn tower_vertical_start_x(grid: &Grid, cx: int, cy: int) -> int {
    let x = cx - ((grid.size.1 - 1) - cy) / 2;
    let x = if x < 0 {
        0
    } else {
        x
    };
    if x >= grid.size.0 {
        grid.size.0 - 1
    } else {
        x
    }
}

/// Row at which the second line through the castle starts, kept within
/// the board.
pub open spec fn tower_vertical_start_y(grid: &Grid, cx: int, cy: int) -> int {
    let y = cx * 2 + cy + cy % 2;
    if y >= grid.size.1 {
        grid.size.1 - 1
    } else {
        y
    }
}

/// For each of the first `n` steps, the cell of the first line on row
/// `i` and then the cell of the second line `i` rows down from its start,
/// each where it is on the board and free for `entity`.
pub open spec fn tower_cells(entity: u64, world: &World, grid: &Grid, n: nat) -> Seq<Cell>
    decreases n,
{
    if n == 0 {
        Seq::empty()
    } else {
        let i = (n - 1) as int;
        let rest = tower_cells(entity, world, grid, i as nat);
        let cx = castle_x(world, grid);
        let cy = castle_y(world, grid);
        let hx = tower_horizontal_x(cx, cy, i);
        let vx = tower_vertical_start_x(grid, cx, cy) + i / 2;
        let vy = tower_vertical_start_y(grid, cx, cy) - i;
        let first = if cell_free(entity, hx, i, world, grid) {
            rest.push(as_cell(hx, i))
        } else {
            rest
        };
        if cell_free(entity, vx, vy, world, grid) {
            first.push(as_cell(vx, vy))
        } else {
            first
        }
    }
}

/// The cells on which an object of kind `id` may be set down, in the order
/// in which the rule of its kind finds them. `entity` is the object being
/// moved and `(px, py)` the cell it is held by.
pub open spec fn valid_cells(
    entity: u64,
    id: ObjectID,
    px: int,
    py: int,
    oas: &ObjectAssetServer,
    world: &World,
    grid: &Grid,
) -> Seq<Cell> {
    match id {
        ObjectID::Villager | ObjectID::Cow => roaming_cells(id, world, grid, grid.cells() as nat),
        ObjectID::House | ObjectID::BigHouse => adjacent_cells(px, py, world, grid, 9),
        ObjectID::Farm => neighbour_cells(
            entity,
            ObjectID::Field,
            2,
            oas.occupy(ObjectID::Farm),
            world,
            grid,
            grid.cells() as nat,
        ),
        ObjectID::Tavern => neighbour_cells(
            entity,
            ObjectID::House,
            4,
            oas.occupy(ObjectID::Tavern),
            world,
            grid,
            grid.cells() as nat,
        ),
        ObjectID::Church => church_cells(
            entity,
            oas.occupy(ObjectID::Church),
            world,
            grid,
            grid.cells() as nat,
        ),
        ObjectID::Tower => tower_cells(entity, world, grid, grid.size.1 as nat),
        _ => Seq::empty(),
    }
}

/// Whether `cell` is one of `cells`.
pub fn contains_cell(cells: &Vec<Cell>, cell: Cell) -> (b: bool)
    ensures
        b == cells@.contains(cell),
{
    let mut n: usize = 0;
    while n < cells.len()
        invariant
            n <= cells@.len(),
            forall|j: int| 0 <= j < n ==> cells@[j] != cell,
        decreases cells@.len() - n,
    {
        if cells[n] == cell {
            return true;
        }
        n = n + 1;
    }
    false
}

fn is_welcome(id: ObjectID, slot: Option<(u64, ObjectID)>) -> (b: bool)
    ensures
        b == welcomes(id, slot),
{
    match slot {
        None => true,
        Some((_, kind)) => if id == ObjectID::Villager {
            kind == ObjectID::House || kind == ObjectID::BigHouse
        } else {
            id == ObjectID::Cow && kind == ObjectID::Farm
        },
    }
}

fn valid_tiles_for_roaming_rule(id: ObjectID, world: &World, grid: &Grid) -> (valid: Vec<Cell>)
    requires
        grid.wf(),
        world.fits(grid),
    ensures
        valid@ == roaming_cells(id, world, grid, grid.cells() as nat),
{
    let total: usize = grid.walkable.len();
    let mut valid: Vec<Cell> = Vec::new();
    let mut i: usize = 0;
    while i < total
        invariant
            i <= total,
            total == grid.cells(),
            grid.wf(),
            world.fits(grid),
            valid@ == roaming_cells(id, world, grid, i as nat),
        decreases total - i,
    {
        if grid.walkable[i] && is_welcome(id, world.objects[i]) {
            valid.push(grid.cell_at(i));
        }
        i = i + 1;
    }
    valid
}

fn valid_tiles_for_adjacent_rule(position: Cell, world: &World, grid: &Grid) -> (valid: Vec<Cell>)
    requires
        grid.wf(),
        world.fits(grid),
    ensures
        valid@ == adjacent_cells(position.x as int, position.y as int, world, grid, 9),
{
    let table = get_adjacent(position);
    let mut valid: Vec<Cell> = Vec::new();
    let mut k: usize = 0;
    while k < 9
        invariant
            k <= 9,
            grid.wf(),
            world.fits(grid),
            table@.len() == 9,
            forall|m: int|
                0 <= m < 9 ==> (#[trigger] table@[m]).0 == adjacent_offsets(position.y as int)[m].0
                    && table@[m].1 == adjacent_offsets(position.y as int)[m].1,
            valid@ == adjacent_cells(position.x as int, position.y as int, world, grid, k as nat),
        decreases 9 - k,
    {
        let offset = table[k];
        let x: i64 = position.x as i64 + offset.0 as i64;
        let y: i64 = position.y as i64 + offset.1 as i64;
        let (open, index) = grid.locate(x, y);
        if open {
            proof {
                grid.lemma_index_of(x as int, y as int);
                grid.lemma_extent(x as int, y as int);
            }
            if world.objects[index].is_none() || (offset.0 == 0 && offset.1 == 0) {
                valid.push(Cell { x: x as i32, y: y as i32 });
            }
        }
        k = k + 1;
    }
    valid
}

/// The cells of the footprint anchored at `position` when each of them is
/// on the board and holds nothing but `entity`.
pub fn free_footprint(
    entity: u64,
    position: Cell,
    offsets: &Vec<Cell>,
    world: &World,
    grid: &Grid,
) -> (cells: Option<Vec<Cell>>)
    requires
        grid.wf(),
        world.fits(grid),
    ensures
        cells is Some == footprint_free(
            entity,
            position.x as int,
            position.y as int,
            offsets@,
            world,
            grid,
        ),
        cells matches Some(v) ==> v@ == footprint_seq(
            position.x as int,
            position.y as int,
            offsets@,
        ),
{
    let ghost ax = position.x as int;
    let ghost ay = position.y as int;
    match footprint_cells(position.x as i64, position.y as i64, offsets, grid) {
        None => {
            proof {
                if footprint_free(entity, ax, ay, offsets@, world, grid) {
                    assert forall|i: int| 0 <= i < offsets@.len() implies grid.contains(
                        #[trigger] footprint_x(ax, ay, offsets@, i),
                        footprint_y(ay, offsets@, i),
                    ) by {
                        assert(cell_free(
                            entity,
                            footprint_x(ax, ay, offsets@, i),
                            footprint_y(ay, offsets@, i),
                            world,
                            grid,
                        ));
                    }
                }
            }
            None
        },
        Some(cells) => {
            let mut i: usize = 0;
            while i < cells.len()
                invariant
                    i <= cells@.len(),
                    grid.wf(),
                    world.fits(grid),
                    ax == position.x,
                    ay == position.y,
                    is_footprint(cells@, ax, ay, offsets@),
                    footprint_within(grid, ax, ay, offsets@),
                    forall|j: int|
                        0 <= j < i ==> cell_free(
                            entity,
                            #[trigger] footprint_x(ax, ay, offsets@, j),
                            footprint_y(ay, offsets@, j),
                            world,
                            grid,
                        ),
                decreases cells@.len() - i,
            {
                let cell = cells[i];
                proof {
                    assert(grid.contains(
                        footprint_x(ax, ay, offsets@, i as int),
                        footprint_y(ay, offsets@, i as int),
                    ));
                }
                let (open, index) = grid.locate(cell.x as i64, cell.y as i64);
                if !open {
                    return None;
                }
                proof {
                    grid.lemma_index_of(cell.x as int, cell.y as int);
                }
                match world.objects[index] {
                    Some((holder, _)) => {
                        if holder != entity {
                            return None;
                        }
                    },
                    None => {},
                }
                i = i + 1;
            }
            proof {
                assert(cells@ =~= footprint_seq(ax, ay, offsets@));
            }
            Some(cells)
        },
    }
}

fn append_cells(cells: &mut Vec<Cell>, extra: &Vec<Cell>)
    ensures
        final(cells)@ == old(cells)@ + extra@,
{
    let mut k: usize = 0;
    while k < extra.len()
        invariant
            k <= extra@.len(),
            cells@ == old(cells)@ + extra@.take(k as int),
        decreases extra@.len() - k,
    {
        cells.push(extra[k]);
        proof {
            assert(extra@.take(k as int + 1) =~= extra@.take(k as int).push(extra@[k as int]));
            assert(cells@ =~= old(cells)@ + extra@.take(k as int + 1));
        }
        k = k + 1;
    }
    proof {
        assert(extra@.take(extra@.len() as int) =~= extra@);
    }
}

fn append_new_cells(cells: &mut Vec<Cell>, extra: &Vec<Cell>)
    ensures
        final(cells)@ == push_new(old(cells)@, extra@, extra@.len()),
{
    let mut k: usize = 0;
    while k < extra.len()
        invariant
            k <= extra@.len(),
            cells@ == push_new(old(cells)@, extra@, k as nat),
        decreases extra@.len() - k,
    {
        if !contains_cell(cells, extra[k]) {
            cells.push(extra[k]);
        }
        k = k + 1;
    }
}

fn valid_tiles_for_n_number_of_neighbour_rule(
    entity: u64,
    target_id: ObjectID,
    required: usize,
    offsets: &Vec<Cell>,
    world: &World,
    grid: &Grid,
) -> (valid: Vec<Cell>)
    requires
        grid.wf(),
        world.fits(grid),
        required >= 1,
    ensures
        valid@ == neighbour_cells(
            entity,
            target_id,
            required as nat,
            offsets@,
            world,
            grid,
            grid.cells() as nat,
        ),
{
    let total: usize = grid.walkable.len();
    let mut valid: Vec<Cell> = Vec::new();
    let mut i: usize = 0;
    while i < total
        invariant
            i <= total,
            total == grid.cells(),
            grid.wf(),
            world.fits(grid),
            required >= 1,
            valid@ == neighbour_cells(
                entity,
                target_id,
                required as nat,
                offsets@,
                world,
                grid,
                i as nat,
            ),
        decreases total - i,
    {
        let position = grid.cell_at(i);
        let count = count_neighbors(entity, target_id, position, offsets, world, grid);
        if count >= required {
            let cells = free_footprint(entity, position, offsets, world, grid);
            match cells {
                Some(cells) => {
                    append_cells(&mut valid, &cells);
                },
                None => {},
            }
        }
        i = i + 1;
    }
    valid
}

fn valid_tiles_for_free_footprint_rule(
    entity: u64,
    offsets: &Vec<Cell>,
    world: &World,
    grid: &Grid,
) -> (valid: Vec<Cell>)
    requires
        grid.wf(),
        world.fits(grid),
    ensures
        valid@ == church_cells(entity, offsets@, world, grid, grid.cells() as nat),
{
    let total: usize = grid.walkable.len();
    let mut valid: Vec<Cell> = Vec::new();
    let mut i: usize = 0;
    while i < total
        invariant
            i <= total,
            total == grid.cells(),
            grid.wf(),
            world.fits(grid),
            valid@ == church_cells(entity, offsets@, world, grid, i as nat),
        decreases total - i,
    {
        let position = grid.cell_at(i);
        match free_footprint(entity, position, offsets, world, grid) {
            Some(cells) => {
                append_new_cells(&mut valid, &cells);
            },
            None => {},
        }
        i = i + 1;
    }
    valid
}

/// The position of the first castle on the board, or the origin.
pub fn find_castle(world: &World, grid: &Grid) -> (castle: Cell)
    requires
        grid.wf(),
        world.fits(grid),
    ensures
        castle.x == castle_x(world, grid),
        castle.y == castle_y(world, grid),
        castle.x == 0 && castle.y == 0 || grid.contains(castle.x as int, castle.y as int),
{
    let total: usize = grid.walkable.len();
    let mut i: usize = 0;
    while i < total
        invariant
            i <= total,
            total == grid.cells(),
            grid.wf(),
            world.fits(grid),
            first_castle(world, grid, i as nat) is None,
        decreases total - i,
    {
        if grid.walkable[i] {
            match world.objects[i] {
                Some((_, kind)) => {
                    if kind == ObjectID::Castle {
                        proof {
                            assert(is_castle_at(world, grid, i as int));
                            assert(first_castle(world, grid, i as nat + 1) == Some(i as int));
                            lemma_first_castle_stays(world, grid, i as nat + 1, total as nat);
                        }
                        return grid.cell_at(i);
                    }
                },
                None => {},
            }
        }
        i = i + 1;
    }
    Cell { x: 0, y: 0 }
}

proof fn lemma_first_castle_stays(world: &World, grid: &Grid, n: nat, m: nat)
    requires
        n <= m,
        first_castle(world, grid, n) is Some,
    ensures
        first_castle(world, grid, m) == first_castle(world, grid, n),
    decreases m,
{
    if n < m {
        lemma_first_castle_stays(world, grid, n, (m - 1) as nat);
    }
}

fn push_if_free(valid: &mut Vec<Cell>, entity: u64, x: i64, y: i64, world: &World, grid: &Grid)
    requires
        grid.wf(),
        world.fits(grid),
    ensures
        final(valid)@ == if cell_free(entity, x as int, y as int, world, grid) {
            old(valid)@.push(as_cell(x as int, y as int))
        } else {
            old(valid)@
        },
{
    let (open, index) = grid.locate(x, y);
    if !open {
        return ;
    }
    proof {
        grid.lemma_index_of(x as int, y as int);
        grid.lemma_extent(x as int, y as int);
    }
    match world.objects[index] {
        Some((holder, _)) => {
            if holder != entity {
                return ;
            }
        },
        None => {},
    }
    valid.push(Cell { x: x as i32, y: y as i32 });
}

fn valid_tiles_for_castle_lines_rule(entity: u64, world: &World, grid: &Grid) -> (valid: Vec<Cell>)
    requires
        grid.wf(),
        world.fits(grid),
    ensures
        valid@ == tower_cells(entity, world, grid, grid.size.1 as nat),
{
    let castle = find_castle(world, grid);
    let mut valid: Vec<Cell> = Vec::new();
    let width: i64 = grid.size.0 as i64;
    let height: i64 = grid.size.1 as i64;
    let cx: i64 = castle.x as i64;
    let cy: i64 = castle.y as i64;
    let mut i: i64 = 0;
    while i < height
        invariant
            0 <= i <= height,
            height == grid.size.1,
            width == grid.size.0,
            grid.wf(),
            world.fits(grid),
            cx == castle_x(world, grid),
            cy == castle_y(world, grid),
            0 <= cx <= i32::MAX,
            0 <= cy <= i32::MAX,
            cy == 0 || cy < height,
            valid@ == tower_cells(entity, world, grid, i as nat),
        decreases height - i,
    {
        let hx: i64 = (cx - cy / 2) + i / 2;
        push_if_free(&mut valid, entity, hx, i, world, grid);
        let mut x: i64 = cx - ((height - 1) - cy) / 2;
        let mut y: i64 = (cx * 2) + cy + cy % 2;
        if x < 0 {
            x = 0;
        }
        if x >= width {
            x = width - 1;
        }
        if y >= height {
            y = height - 1;
        }
        push_if_free(&mut valid, entity, x + i / 2, y - i, world, grid);
        i = i + 1;
    }
    valid
}

/// The cells on which the object `entity` of kind `id`, held by the cell
/// `position`, may be set down. Kinds without a placement rule never move:
/// asking for their cells is a mistake of the caller.
pub fn find_valid_cells(
    entity: u64,
    id: ObjectID,
    position: Cell,
    oas: &ObjectAssetServer,
    world: &World,
    grid: &Grid,
) -> (valid: Vec<Cell>)
    requires
        grid.wf(),
        world.fits(grid),
        has_rule(id),
        rule_reads_footprint(id) ==> oas.has(id),
    ensures
        valid@ == valid_cells(entity, id, position.x as int, position.y as int, oas, world, grid),
{
    match id {
        ObjectID::Villager => valid_tiles_for_roaming_rule(id, world, grid),
        ObjectID::Cow => valid_tiles_for_roaming_rule(id, world, grid),
        ObjectID::House => valid_tiles_for_adjacent_rule(position, world, grid),
        ObjectID::BigHouse => valid_tiles_for_adjacent_rule(position, world, grid),
        ObjectID::Farm => valid_tiles_for_n_number_of_neighbour_rule(
            entity,
            ObjectID::Field,
            2,
            &oas.get(ObjectID::Farm).occupy,
            world,
            grid,
        ),
        ObjectID::Tower => valid_tiles_for_castle_lines_rule(entity, world, grid),
        ObjectID::Church => valid_tiles_for_free_footprint_rule(
            entity,
            &oas.get(ObjectID::Church).occupy,
            world,
            grid,
        ),
        ObjectID::Tavern => valid_tiles_for_n_number_of_neighbour_rule(
            entity,
            ObjectID::House,
            4,
            &oas.get(ObjectID::Tavern).occupy,
            world,
            grid,
        ),
        _ => Vec::new(),
    }
}

} // verus!
