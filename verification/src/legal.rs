//! What the placement rules guarantee of the cells they offer.

use vstd::prelude::*;
use crate::adjacency::adjacent_offsets;
use crate::asset::{footprint_x, footprint_y, ObjectAssetServer};
use crate::count::{cell_free, footprint_free, free_for, neighbour_count};
use crate::grid::{Cell, Grid};
use crate::kind::ObjectID;
use crate::rules::{
    adjacent_cells, as_cell, castle_x, castle_y, church_cells, footprint_seq, has_rule,
    neighbour_cells, push_new, roaming_cells, tower_cells, tower_horizontal_x,
    tower_vertical_start_x, tower_vertical_start_y, valid_cells, welcomes,
};
use crate::world::World;

verus! {

/// An object of kind `id` may cover the cell `c`: the cell is on the board
/// and what stands there is what the rule of the kind admits. A villager
/// may cover an empty cell or a house, a cow an empty cell or a farm, a
/// house an empty cell or the cell `(px, py)` it is held by, every other
/// kind a cell that holds nothing but `entity` itself.
pub open spec fn occupiable(
    entity: u64,
    id: ObjectID,
    px: int,
    py: int,
    c: Cell,
    world: &World,
    grid: &Grid,
) -> bool {
    let slot = world.objects@[grid.index_of(c.x as int, c.y as int)];
    grid.open_at(c.x as int, c.y as int) && match id {
        ObjectID::Villager | ObjectID::Cow => welcomes(id, slot),
        ObjectID::House | ObjectID::BigHouse => slot is None || (c.x == px && c.y == py),
        _ => free_for(world, entity, grid.index_of(c.x as int, c.y as int)),
    }
}

/// `c` is a cell of the footprint `offsets` anchored at a cell of the
/// board where the whole footprint is on the board and free for `entity`.
pub open spec fn in_free_footprint(
    entity: u64,
    offsets: Seq<Cell>,
    c: Cell,
    world: &World,
    grid: &Grid,
) -> bool {
    exists|a: int, j: int|
        0 <= a < grid.cells() && 0 <= j < offsets.len() && footprint_free(
            entity,
            grid.column_of(a),
            grid.row_of(a),
            offsets,
            world,
            grid,
        ) && c == #[trigger] footprint_seq(grid.column_of(a), grid.row_of(a), offsets)[j]
}

/// `c` is a cell of the footprint `offsets` anchored at a cell of the
/// board where `entity` has at least `required` neighbours of kind `target`.
pub open spec fn in_counted_footprint(
    entity: u64,
    target: ObjectID,
    required: nat,
    offsets: Seq<Cell>,
    c: Cell,
    world: &World,
    grid: &Grid,
) -> bool {
    exists|a: int, j: int|
        0 <= a < grid.cells() && 0 <= j < offsets.len() && neighbour_count(
            entity,
            target,
            grid.column_of(a),
            grid.row_of(a),
            offsets,
            world,
            grid,
        ) >= required && c == #[trigger] footprint_seq(
            grid.column_of(a),
            grid.row_of(a),
            offsets,
        )[j]
}

proof fn lemma_as_cell(grid: &Grid, x: int, y: int)
    requires
        grid.wf(),
        grid.contains(x, y),
    ensures
        as_cell(x, y).x == x,
        as_cell(x, y).y == y,
{
    grid.lemma_extent(x, y);
}

proof fn lemma_roaming(id: ObjectID, world: &World, grid: &Grid, n: nat, k: int)
    requires
        grid.wf(),
        world.fits(grid),
        n <= grid.cells(),
        id == ObjectID::Villager || id == ObjectID::Cow,
        0 <= k < roaming_cells(id, world, grid, n).len(),
    ensures
        occupiable(0, id, 0, 0, roaming_cells(id, world, grid, n)[k], world, grid),
    decreases n,
{
    if n > 0 {
        let i = (n - 1) as int;
        let rest = roaming_cells(id, world, grid, i as nat);
        if k < rest.len() {
            lemma_roaming(id, world, grid, i as nat, k);
        } else {
            grid.lemma_cell_of(i);
        }
    }
}

proof fn lemma_adjacent(px: int, py: int, id: ObjectID, world: &World, grid: &Grid, n: nat, k: int)
    requires
        grid.wf(),
        world.fits(grid),
        n <= 9,
        id == ObjectID::House || id == ObjectID::BigHouse,
        0 <= k < adjacent_cells(px, py, world, grid, n).len(),
    ensures
        occupiable(0, id, px, py, adjacent_cells(px, py, world, grid, n)[k], world, grid),
    decreases n,
{
    if n > 0 {
        let m = (n - 1) as int;
        let rest = adjacent_cells(px, py, world, grid, m as nat);
        if k < rest.len() {
            lemma_adjacent(px, py, id, world, grid, m as nat, k);
        } else {
            let offset = adjacent_offsets(py)[m];
            lemma_as_cell(grid, px + offset.0, py + offset.1);
        }
    }
}

proof fn lemma_footprint_seq_free(
    entity: u64,
    ax: int,
    ay: int,
    offsets: Seq<Cell>,
    world: &World,
    grid: &Grid,
    j: int,
)
    requires
        grid.wf(),
        world.fits(grid),
        footprint_free(entity, ax, ay, offsets, world, grid),
        0 <= j < offsets.len(),
    ensures
        cell_free(
            entity,
            footprint_seq(ax, ay, offsets)[j].x as int,
            footprint_seq(ax, ay, offsets)[j].y as int,
            world,
            grid,
        ),
        footprint_seq(ax, ay, offsets)[j].x == footprint_x(ax, ay, offsets, j),
        footprint_seq(ax, ay, offsets)[j].y == footprint_y(ay, offsets, j),
{
    let x = footprint_x(ax, ay, offsets, j);
    let y = footprint_y(ay, offsets, j);
    assert(cell_free(entity, x, y, world, grid));
    lemma_as_cell(grid, x, y);
}

proof fn lemma_neighbour(
    entity: u64,
    target: ObjectID,
    required: nat,
    offsets: Seq<Cell>,
    world: &World,
    grid: &Grid,
    n: nat,
    k: int,
)
    requires
        grid.wf(),
        world.fits(grid),
        n <= grid.cells(),
        required >= 1,
        0 <= k < neighbour_cells(entity, target, required, offsets, world, grid, n).len(),
    ensures
        in_free_footprint(
            entity,
            offsets,
            neighbour_cells(entity, target, required, offsets, world, grid, n)[k],
            world,
            grid,
        ),
        in_counted_footprint(
            entity,
            target,
            required,
            offsets,
            neighbour_cells(entity, target, required, offsets, world, grid, n)[k],
            world,
            grid,
        ),
    decreases n,
{
    if n > 0 {
        let i = (n - 1) as int;
        let rest = neighbour_cells(entity, target, required, offsets, world, grid, i as nat);
        if k < rest.len() {
            lemma_neighbour(entity, target, required, offsets, world, grid, i as nat, k);
        } else {
            let ax = grid.column_of(i);
            let ay = grid.row_of(i);
            assert(neighbour_count(entity, target, ax, ay, offsets, world, grid) >= required);
            let all = neighbour_cells(entity, target, required, offsets, world, grid, n);
            assert(all[k] == footprint_seq(ax, ay, offsets)[k - rest.len()]);
        }
    }
}

proof fn lemma_push_new(cells: Seq<Cell>, extra: Seq<Cell>, n: nat, k: int)
    requires
        n <= extra.len(),
        0 <= k < push_new(cells, extra, n).len(),
    ensures
        cells.len() <= push_new(cells, extra, n).len(),
        k < cells.len() ==> push_new(cells, extra, n)[k] == cells[k],
        k >= cells.len() ==> exists|j: int|
            0 <= j < n && push_new(cells, extra, n)[k] == #[trigger] extra[j],
    decreases n,
{
    if n > 0 {
        let rest = push_new(cells, extra, (n - 1) as nat);
        if k < rest.len() {
            lemma_push_new(cells, extra, (n - 1) as nat, k);
            if k >= cells.len() {
                let j = choose|j: int| 0 <= j < n - 1 && rest[k] == #[trigger] extra[j];
                assert(push_new(cells, extra, n)[k] == extra[j]);
            }
        } else {
            if rest.len() > 0 {
                lemma_push_new(cells, extra, (n - 1) as nat, 0);
            }
            assert(push_new(cells, extra, n)[k] == extra[n - 1]);
        }
    }
}

proof fn lemma_church(
    entity: u64,
    offsets: Seq<Cell>,
    world: &World,
    grid: &Grid,
    n: nat,
    k: int,
)
    requires
        grid.wf(),
        world.fits(grid),
        n <= grid.cells(),
        0 <= k < church_cells(entity, offsets, world, grid, n).len(),
    ensures
        in_free_footprint(
            entity,
            offsets,
            church_cells(entity, offsets, world, grid, n)[k],
            world,
            grid,
        ),
    decreases n,
{
    if n > 0 {
        let i = (n - 1) as int;
        let rest = church_cells(entity, offsets, world, grid, i as nat);
        let ax = grid.column_of(i);
        let ay = grid.row_of(i);
        if footprint_free(entity, ax, ay, offsets, world, grid) {
            let extra = footprint_seq(ax, ay, offsets);
            lemma_push_new(rest, extra, offsets.len(), k);
            if k < rest.len() {
                lemma_church(entity, offsets, world, grid, i as nat, k);
            } else {
                let all = push_new(rest, extra, offsets.len());
                let j = choose|j: int| 0 <= j < offsets.len() && all[k] == #[trigger] extra[j];
                assert(all[k] == footprint_seq(ax, ay, offsets)[j]);
            }
        } else {
            lemma_church(entity, offsets, world, grid, i as nat, k);
        }
    }
}

proof fn lemma_tower(entity: u64, world: &World, grid: &Grid, n: nat, k: int)
    requires
        grid.wf(),
        world.fits(grid),
        0 <= k < tower_cells(entity, world, grid, n).len(),
    ensures
        occupiable(entity, ObjectID::Tower, 0, 0, tower_cells(entity, world, grid, n)[k], world, grid),
    decreases n,
{
    if n > 0 {
        let i = (n - 1) as int;
        let rest = tower_cells(entity, world, grid, i as nat);
        if k < rest.len() {
            lemma_tower(entity, world, grid, i as nat, k);
        } else {
            let cx = castle_x(world, grid);
            let cy = castle_y(world, grid);
            let hx = tower_horizontal_x(cx, cy, i);
            let vx = tower_vertical_start_x(grid, cx, cy) + i / 2;
            let vy = tower_vertical_start_y(grid, cx, cy) - i;
            if cell_free(entity, hx, i, world, grid) {
                lemma_as_cell(grid, hx, i);
            }
            if cell_free(entity, vx, vy, world, grid) {
                lemma_as_cell(grid, vx, vy);
            }
        }
    }
}

/// Every cell that a placement rule offers can be covered: it is a cell
/// of the board, and what stands on it is what the rule of the kind admits.
pub proof fn lemma_valid_cell_is_occupiable(
    entity: u64,
    id: ObjectID,
    px: int,
    py: int,
    oas: &ObjectAssetServer,
    world: &World,
    grid: &Grid,
    k: int,
)
    requires
        grid.wf(),
        world.fits(grid),
        has_rule(id),
        0 <= k < valid_cells(entity, id, px, py, oas, world, grid).len(),
    ensures
        occupiable(
            entity,
            id,
            px,
            py,
            valid_cells(entity, id, px, py, oas, world, grid)[k],
            world,
            grid,
        ),
{
    let total = grid.cells() as nat;
    match id {
        ObjectID::Villager | ObjectID::Cow => {
            lemma_roaming(id, world, grid, total, k);
        },
        ObjectID::House | ObjectID::BigHouse => {
            lemma_adjacent(px, py, id, world, grid, 9, k);
        },
        ObjectID::Tower => {
            lemma_tower(entity, world, grid, grid.size.1 as nat, k);
        },
        _ => {
            lemma_valid_cell_has_anchor(entity, id, px, py, oas, world, grid, k);
            let offsets = oas.occupy(id);
            let c = valid_cells(entity, id, px, py, oas, world, grid)[k];
            let (a, j) = choose|a: int, j: int|
                0 <= a < grid.cells() && 0 <= j < offsets.len() && footprint_free(
                    entity,
                    grid.column_of(a),
                    grid.row_of(a),
                    offsets,
                    world,
                    grid,
                ) && c == #[trigger] footprint_seq(grid.column_of(a), grid.row_of(a), offsets)[j];
            lemma_footprint_seq_free(
                entity,
                grid.column_of(a),
                grid.row_of(a),
                offsets,
                world,
                grid,
                j,
            );
        },
    }
}

/// Every cell that the rule of a farm or a tavern offers is part of a
/// footprint with neighbours enough: the footprint of the kind, anchored at
/// a cell of the board where the object has two fields, or houses worth
/// four, next to it.
pub proof fn lemma_valid_cell_has_neighbours(
    entity: u64,
    id: ObjectID,
    px: int,
    py: int,
    oas: &ObjectAssetServer,
    world: &World,
    grid: &Grid,
    k: int,
)
    requires
        grid.wf(),
        world.fits(grid),
        id == ObjectID::Farm || id == ObjectID::Tavern,
        0 <= k < valid_cells(entity, id, px, py, oas, world, grid).len(),
    ensures
        id == ObjectID::Farm ==> in_counted_footprint(
            entity,
            ObjectID::Field,
            2,
            oas.occupy(id),
            valid_cells(entity, id, px, py, oas, world, grid)[k],
            world,
            grid,
        ),
        id == ObjectID::Tavern ==> in_counted_footprint(
            entity,
            ObjectID::House,
            4,
            oas.occupy(id),
            valid_cells(entity, id, px, py, oas, world, grid)[k],
            world,
            grid,
        ),
{
    let total = grid.cells() as nat;
    if id == ObjectID::Farm {
        lemma_neighbour(entity, ObjectID::Field, 2, oas.occupy(id), world, grid, total, k);
    } else {
        lemma_neighbour(entity, ObjectID::House, 4, oas.occupy(id), world, grid, total, k);
    }
}

/// Every cell that the rule of a farm, a tavern or a church offers is
/// part of a whole footprint that fits: the footprint of the kind,
/// anchored at a cell of the board, with each of its cells on the board
/// and holding nothing but the object being moved.
pub proof fn lemma_valid_cell_has_anchor(
    entity: u64,
    id: ObjectID,
    px: int,
    py: int,
    oas: &ObjectAssetServer,
    world: &World,
    grid: &Grid,
    k: int,
)
    requires
        grid.wf(),
        world.fits(grid),
        id == ObjectID::Farm || id == ObjectID::Tavern || id == ObjectID::Church,
        0 <= k < valid_cells(entity, id, px, py, oas, world, grid).len(),
    ensures
        in_free_footprint(
            entity,
            oas.occupy(id),
            valid_cells(entity, id, px, py, oas, world, grid)[k],
            world,
            grid,
        ),
{
    let total = grid.cells() as nat;
    match id {
        ObjectID::Farm => {
            lemma_neighbour(entity, ObjectID::Field, 2, oas.occupy(id), world, grid, total, k);
        },
        ObjectID::Tavern => {
            lemma_neighbour(entity, ObjectID::House, 4, oas.occupy(id), world, grid, total, k);
        },
        _ => {
            lemma_church(entity, oas.occupy(id), world, grid, total, k);
        },
    }
}

} // verus!
