//! Setting down what the carrier holds.

use vstd::prelude::*;
use crate::agree::{agrees, creatures_are_single, holds_fairly, lemma_drop_keeps_agreement};
use crate::asset::{anchor_range, footprint_point, footprint_x, footprint_y, ObjectAssetServer};
use crate::grid::{Cell, Grid};
use crate::kind::ObjectID;
use crate::level::TurnCounter;
use crate::object::Object;
use crate::rules::{contains_cell, footprint_seq};
use crate::tile::{push_tile_changes, tile_changes, TileState, TileStateChangeEvent};
use crate::ufo::{
    calculate_object_position, find_known, first_known, held_anchor_x, held_anchor_y, UFO,
};
use crate::world::{stamp, World};

verus! {

/// `(x, y)` is one of the cells in `valid`.
pub open spec fn covered(valid: Seq<Cell>, x: int, y: int) -> bool {
    exists|m: int| 0 <= m < valid.len() && (#[trigger] valid[m]).x == x && valid[m].y == y
}

/// Every cell of the footprint anchored at `(tx, ty)` is one of the cells
/// in `valid`.
pub open spec fn footprint_covered(valid: Seq<Cell>, tx: int, ty: int, offsets: Seq<Cell>) -> bool {
    forall|k: int|
        0 <= k < offsets.len() ==> covered(
            valid,
            #[trigger] footprint_x(tx, ty, offsets, k),
            footprint_y(ty, offsets, k),
        )
}

/// A creature of kind `id` that walks into a building of kind `kind`
/// stays there for good: a cow in a farm, a villager in a house.
pub open spec fn swallows(id: ObjectID, kind: ObjectID) -> bool {
    (id == ObjectID::Cow && kind == ObjectID::Farm) || (id == ObjectID::Villager && (kind
        == ObjectID::House || kind == ObjectID::BigHouse))
}

/// Column of the anchor at which `object`, held by the carrier, would be
/// set down.
pub open spec fn drop_x(ufo: UFO, object: Object, oas: &ObjectAssetServer) -> int {
    held_anchor_x(
        ufo.position.x as int,
        ufo.position.y as int,
        oas.occupy(object.id),
        ufo.selected->0.occupy_index as int,
    )
}

/// Row of that anchor.
pub open spec fn drop_y(ufo: UFO, object: Object, oas: &ObjectAssetServer) -> int {
    held_anchor_y(
        ufo.position.y as int,
        oas.occupy(object.id),
        ufo.selected->0.occupy_index as int,
    )
}

/// The cells that `object` would cover once set down.
pub open spec fn drop_cells(ufo: UFO, object: Object, oas: &ObjectAssetServer) -> Seq<Cell> {
    footprint_seq(drop_x(ufo, object, oas), drop_y(ufo, object, oas), oas.occupy(object.id))
}

/// Every cell that `object` would cover is one on which it may be set down.
pub open spec fn drop_fits(ufo: UFO, object: Object, oas: &ObjectAssetServer) -> bool {
    footprint_covered(
        ufo.selected->0.valid@,
        drop_x(ufo, object, oas),
        drop_y(ufo, object, oas),
        oas.occupy(object.id),
    )
}

/// What stands on the first cell that `object` would cover, when that is
/// not the first cell it covers now.
pub open spec fn drop_meets(
    ufo: UFO,
    object: Object,
    oas: &ObjectAssetServer,
    world: &World,
    grid: &Grid,
) -> Option<(u64, ObjectID)> {
    let first = drop_cells(ufo, object, oas)[0];
    if first == object.occupied@[0] {
        None
    } else {
        world.objects@[grid.index_of(first.x as int, first.y as int)]
    }
}

/// The object is set down into a building that keeps it.
pub open spec fn drop_consumed(
    ufo: UFO,
    object: Object,
    oas: &ObjectAssetServer,
    world: &World,
    grid: &Grid,
) -> bool {
    drop_meets(ufo, object, oas, world, grid) matches Some(occupant) && swallows(
        object.id,
        occupant.1,
    )
}

/// The request to set `object` down is granted: its whole footprint lies
/// on cells on which it may be set down, and on its first cell it meets
/// nothing, or a building that keeps it.
pub open spec fn drop_accepted(
    ufo: UFO,
    object: Object,
    oas: &ObjectAssetServer,
    world: &World,
    grid: &Grid,
) -> bool {
    drop_fits(ufo, object, oas) && (drop_meets(ufo, object, oas, world, grid) is None
        || drop_consumed(ufo, object, oas, world, grid))
}

/// The object that the carrier holds: the first of the objects that can be
/// lifted and is known by the name that the carrier remembers.
pub open spec fn held_object(ufo: UFO, objects: Seq<Object>) -> Object {
    objects[first_known(objects, ufo.selected->0.entity, objects.len())->0]
}

/// Object `i` has left the cells it covered and, unless it was consumed,
/// taken `cells`; a consumed object is gone from the objects. Nothing else
/// has changed.
pub open spec fn set_down(
    before: Seq<Object>,
    before_slots: Seq<Option<(u64, ObjectID)>>,
    width: int,
    i: int,
    cells: Seq<Cell>,
    consumed: bool,
    after: Seq<Object>,
    after_slots: Seq<Option<(u64, ObjectID)>>,
) -> bool {
    let object = before[i];
    let cleared = stamp(before_slots, width, object.occupied@, None);
    if consumed {
        after_slots == cleared && after == before.remove(i)
    } else {
        &&& after_slots == stamp(cleared, width, cells, Some((object.entity, object.id)))
        &&& after.len() == before.len()
        &&& after[i].occupied@ == cells
        &&& after[i].entity == object.entity
        &&& after[i].id == object.id
        &&& after[i].name == object.name
        &&& after[i].offset == object.offset
        &&& after[i].selectable == object.selectable
        &&& forall|j: int| 0 <= j < before.len() && j != i ==> after[j] == before[j]
    }
}

/// What a request to set down comes to.
#[derive(Debug)]
pub enum DropOutcome {
    /// What the carrier holds is not among the objects. Nothing changed.
    Missing,
    /// The object cannot be set down here. Nothing changed, and the player
    /// is to be warned.
    Rejected,
    /// The object `entity` was set down with its anchor at `target`, or
    /// went into the building there for good. The turn is over.
    Dropped { tiles: Vec<TileStateChangeEvent>, entity: u64, target: (i64, i64), consumed: bool },
}

/// The cells of the footprint anchored at `(tx, ty)` when each of them is
/// one of `valid`.
fn covered_footprint(tx: i64, ty: i64, offsets: &Vec<Cell>, valid: &Vec<Cell>) -> (cells: Option<
    Vec<Cell>,
>)
    requires
        anchor_range(tx as int),
        anchor_range(ty as int),
    ensures
        cells is Some == footprint_covered(valid@, tx as int, ty as int, offsets@),
        cells matches Some(v) ==> v@ == footprint_seq(tx as int, ty as int, offsets@),
        cells matches Some(v) ==> forall|k: int| 0 <= k < v@.len() ==> valid@.contains(v@[k]),
{
    let mut cells: Vec<Cell> = Vec::new();
    let mut k: usize = 0;
    while k < offsets.len()
        invariant
            k <= offsets@.len(),
            anchor_range(tx as int),
            anchor_range(ty as int),
            cells@.len() == k,
            forall|j: int|
                0 <= j < k ==> (#[trigger] cells@[j]).x == footprint_x(
                    tx as int,
                    ty as int,
                    offsets@,
                    j,
                ) && cells@[j].y == footprint_y(ty as int, offsets@, j),
            forall|j: int| 0 <= j < k ==> valid@.contains(#[trigger] cells@[j]),
            forall|j: int|
                0 <= j < k ==> covered(
                    valid@,
                    #[trigger] footprint_x(tx as int, ty as int, offsets@, j),
                    footprint_y(ty as int, offsets@, j),
                ),
        decreases offsets@.len() - k,
    {
        let (x, y) = footprint_point(tx, ty, offsets, k);
        if x < -0x8000_0000 || x > 0x7fff_ffff || y < -0x8000_0000 || y > 0x7fff_ffff {
            proof {
                assert(!covered(valid@, x as int, y as int));
            }
            return None;
        }
        let cell = Cell { x: x as i32, y: y as i32 };
        if !contains_cell(valid, cell) {
            proof {
                if covered(valid@, x as int, y as int) {
                    let m = choose|m: int|
                        0 <= m < valid@.len() && (#[trigger] valid@[m]).x == x && valid@[m].y == y;
                    assert(valid@[m] == cell);
                }
            }
            return None;
        }
        proof {
            let m = choose|m: int| 0 <= m < valid@.len() && valid@[m] == cell;
            assert(valid@[m].x == x && valid@[m].y == y);
        }
        cells.push(cell);
        k = k + 1;
    }
    proof {
        assert(cells@ =~= footprint_seq(tx as int, ty as int, offsets@));
    }
    Some(cells)
}

/// Sets down what the carrier holds, with the held cell of its footprint
/// under the carrier. The request is granted when every cell that the
/// object would cover is one on which it may be set down, and its first
/// cell is free, is its first cell already, or holds a building that
/// keeps it: a farm keeps a cow, a house a villager. The object then
/// leaves its old cells and takes the new ones, or leaves the board for
/// good; a turn is counted, the carrier holds nothing, and the cells that
/// were offered are shown as usual again, but for the carrier's own. A
/// request that is not granted changes nothing. Objects and board that
/// agreed before agree afterwards, when the carrier holds the object fairly.
pub fn handle_ufo_drop_event(
    ufo: &mut UFO,
    objects: &mut Vec<Object>,
    world: &mut World,
    turn_counter: &mut TurnCounter,
    oas: &ObjectAssetServer,
    grid: &Grid,
) -> (outcome: DropOutcome)
    requires
        grid.wf(),
        old(world).fits(grid),
        old(ufo).wf(grid),
        old(ufo).selected is Some,
        old(turn_counter).turn < usize::MAX,
        first_known(old(objects)@, old(ufo).selected->0.entity, old(objects)@.len()) matches Some(
            i,
        ) ==> {
            &&& 0 <= i < old(objects)@.len()
            &&& old(objects)@[i].wf(grid)
            &&& oas.has(old(objects)@[i].id)
            &&& oas.occupy(old(objects)@[i].id).len() >= 1
            &&& old(ufo).selected->0.occupy_index < oas.occupy(old(objects)@[i].id).len()
        },
    ensures
        final(world).fits(grid),
        final(ufo).wf(grid),
        final(ufo).position == old(ufo).position,
        final(ufo).offset == old(ufo).offset,
        match first_known(old(objects)@, old(ufo).selected->0.entity, old(objects)@.len()) {
            None => outcome is Missing,
            Some(i) => if drop_accepted(*old(ufo), old(objects)@[i], oas, old(world), grid) {
                let object = old(objects)@[i];
                let cells = drop_cells(*old(ufo), object, oas);
                &&& outcome matches DropOutcome::Dropped { tiles, entity, target, consumed }
                &&& tiles@ == tile_changes(
                    old(ufo).selected->0.valid@,
                    TileState::Default,
                    Some(old(ufo).position),
                    old(ufo).selected->0.valid@.len(),
                )
                &&& entity == object.entity
                &&& target.0 == drop_x(*old(ufo), object, oas)
                &&& target.1 == drop_y(*old(ufo), object, oas)
                &&& consumed == drop_consumed(*old(ufo), object, oas, old(world), grid)
                &&& final(ufo).selected is None
                &&& final(turn_counter).turn == old(turn_counter).turn + 1
                &&& set_down(
                    old(objects)@,
                    old(world).objects@,
                    grid.size.0 as int,
                    i,
                    cells,
                    consumed,
                    final(objects)@,
                    final(world).objects@,
                )
                &&& !consumed ==> final(objects)@[i].wf(grid)
            } else {
                outcome is Rejected
            },
        },
        !(outcome is Dropped) ==> {
            &&& *final(world) == *old(world)
            &&& *final(ufo) == *old(ufo)
            &&& final(objects)@ == old(objects)@
            &&& final(turn_counter).turn == old(turn_counter).turn
        },
        forall|px: int, py: int|
            {
                &&& first_known(
                    old(objects)@,
                    old(ufo).selected->0.entity,
                    old(objects)@.len(),
                ) is Some
                &&& agrees(old(objects)@, old(world).objects@, grid)
                &&& creatures_are_single(old(objects)@)
                &&& #[trigger] holds_fairly(
                    *old(ufo),
                    held_object(*old(ufo), old(objects)@),
                    px,
                    py,
                    oas,
                    old(world),
                    grid,
                )
            } ==> agrees(final(objects)@, final(world).objects@, grid) && creatures_are_single(
                final(objects)@,
            ),
{
    let selection = ufo.selected.take().unwrap();
    let i = match find_known(objects, selection.entity) {
        None => {
            ufo.selected = Some(selection);
            return DropOutcome::Missing;
        },
        Some(i) => i,
    };
    let id = objects[i].id;
    let entity = objects[i].entity;
    let conf = oas.get(id);
    let (tx, ty) = calculate_object_position(ufo, selection.occupy_index, &conf.occupy);
    let cells = match covered_footprint(tx, ty, &conf.occupy, &selection.valid) {
        None => {
            ufo.selected = Some(selection);
            return DropOutcome::Rejected;
        },
        Some(cells) => cells,
    };
    proof {
        assert forall|k: int| 0 <= k < cells@.len() implies grid.contains(
            (#[trigger] cells@[k]).x as int,
            cells@[k].y as int,
        ) by {
            assert(selection.valid@.contains(cells@[k]));
            let m = choose|m: int| 0 <= m < selection.valid@.len() && selection.valid@[m] == cells@[k];
            assert(grid.contains(selection.valid@[m].x as int, selection.valid@[m].y as int));
        }
    }
    let first = cells[0];
    let (_, index) = grid.locate(first.x as i64, first.y as i64);
    proof {
        grid.lemma_index_of(first.x as int, first.y as int);
    }
    let mut consumed = false;
    if first != objects[i].occupied[0] {
        match world.objects[index] {
            Some((_, kind)) => {
                if (id == ObjectID::Cow && kind == ObjectID::Farm) || (id == ObjectID::Villager && (
                kind == ObjectID::House || kind == ObjectID::BigHouse)) {
                    consumed = true;
                } else {
                    ufo.selected = Some(selection);
                    return DropOutcome::Rejected;
                }
            },
            None => {},
        }
    }
    let mut tiles: Vec<TileStateChangeEvent> = Vec::new();
    push_tile_changes(&mut tiles, &selection.valid, TileState::Default, Some(ufo.position));
    world.clear(&objects[i].occupied);
    turn_counter.turn += 1;
    if consumed {
        objects.remove(i);
    } else {
        world.place(entity, id, &cells);
        objects[i].occupied = cells;
    }
    proof {
        assert forall|px: int, py: int|
            agrees(old(objects)@, old(world).objects@, grid) && creatures_are_single(
                old(objects)@,
            ) && #[trigger] holds_fairly(
                *old(ufo),
                old(objects)@[i as int],
                px,
                py,
                oas,
                old(world),
                grid,
            ) implies agrees(objects@, world.objects@, grid) && creatures_are_single(objects@) by {
            lemma_drop_keeps_agreement(
                *old(ufo),
                old(objects)@,
                old(world),
                oas,
                grid,
                i as int,
                px,
                py,
                objects@,
                world.objects@,
            );
        }
    }
    DropOutcome::Dropped { tiles, entity, target: (tx, ty), consumed }
}

} // verus!
