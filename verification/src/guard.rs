//! What a caller outside the verifier's reach can test before it calls:
//! each function here decides one of the conditions that the library's
//! functions require.

use vstd::prelude::*;
use crate::asset::ObjectAssetServer;
use crate::grid::{Cell, Grid};
use crate::kind::ObjectID;
use crate::object::{first_liftable, lemma_first_liftable_stays, Object};
use crate::rules::{contains_cell, has_placement_rule, rule_reads_footprint};
use crate::turn::{actors_wf, takes_turns};
use crate::ufo::{can_lift, find_known, first_known, UFO};
use crate::world::World;

verus! {

/// Whether the mask of `grid` has one entry per cell, and few enough.
pub fn grid_is_wf(grid: &Grid) -> (b: bool)
    ensures
        b == grid.wf(),
{
    assert(grid.size.0 * grid.size.1 <= 0xffff_ffff * 0xffff_ffff) by (nonlinear_arith)
        requires
            grid.size.0 <= 0xffff_ffff,
            grid.size.1 <= 0xffff_ffff,
    ;
    let total: u64 = grid.size.0 as u64 * grid.size.1 as u64;
    total <= 0x7fff_ffff && grid.walkable.len() as u64 == total
}

/// Whether `world` has one slot for each cell of `grid`.
pub fn world_fits(world: &World, grid: &Grid) -> (b: bool)
    ensures
        b == world.fits(grid),
{
    assert(world.size.0 * world.size.1 <= 0xffff_ffff * 0xffff_ffff) by (nonlinear_arith)
        requires
            world.size.0 <= 0xffff_ffff,
            world.size.1 <= 0xffff_ffff,
    ;
    let total: u64 = world.size.0 as u64 * world.size.1 as u64;
    total <= 0x7fff_ffff && world.objects.len() as u64 == total && world.size.0 == grid.size.0
        && world.size.1 == grid.size.1
}

/// Whether every one of `cells` lies within `grid`.
pub fn cells_within(cells: &Vec<Cell>, grid: &Grid) -> (b: bool)
    ensures
        b == forall|k: int|
            0 <= k < cells@.len() ==> grid.contains(
                (#[trigger] cells@[k]).x as int,
                cells@[k].y as int,
            ),
{
    let mut k: usize = 0;
    while k < cells.len()
        invariant
            k <= cells@.len(),
            forall|j: int|
                0 <= j < k ==> grid.contains((#[trigger] cells@[j]).x as int, cells@[j].y as int),
        decreases cells@.len() - k,
    {
        if !grid.in_bounds(cells[k]) {
            return false;
        }
        k = k + 1;
    }
    true
}

/// Whether `object` covers its anchor at least, and only cells of `grid`.
pub fn object_is_wf(object: &Object, grid: &Grid) -> (b: bool)
    ensures
        b == object.wf(grid),
{
    object.occupied.len() >= 1 && cells_within(&object.occupied, grid)
}

/// Whether objects of kind `id` act when the turn is over.
pub fn acts(id: ObjectID) -> (b: bool)
    ensures
        b == takes_turns(id),
{
    id == ObjectID::Villager || id == ObjectID::Cow || id == ObjectID::Assassin || id
        == ObjectID::King
}

/// Whether the creatures among `objects` can take their turn on `grid`.
pub fn actors_are_wf(objects: &Vec<Object>, grid: &Grid) -> (b: bool)
    ensures
        b == actors_wf(objects@, grid),
{
    let mut n: usize = 0;
    while n < objects.len()
        invariant
            n <= objects@.len(),
            forall|i: int| 0 <= i < n && takes_turns((#[trigger] objects@[i]).id) ==> objects@[i].wf(grid),
        decreases objects@.len() - n,
    {
        if acts(objects[n].id) && !object_is_wf(&objects[n], grid) {
            return false;
        }
        n = n + 1;
    }
    true
}

/// Whether what `ufo` holds can be set down only within `grid`.
pub fn ufo_is_wf(ufo: &UFO, grid: &Grid) -> (b: bool)
    ensures
        b == ufo.wf(grid),
{
    match &ufo.selected {
        None => true,
        Some(selection) => cells_within(&selection.valid, grid),
    }
}

/// The place among `objects` of the first one that can be lifted and
/// covers `position`.
pub fn find_liftable(objects: &Vec<Object>, position: Cell) -> (found: Option<usize>)
    ensures
        found is Some == first_liftable(objects@, position, objects@.len()) is Some,
        found matches Some(i) ==> first_liftable(objects@, position, objects@.len()) == Some(
            i as int,
        ) && i < objects@.len(),
{
    let mut n: usize = 0;
    while n < objects.len()
        invariant
            n <= objects@.len(),
            first_liftable(objects@, position, n as nat) is None,
        decreases objects@.len() - n,
    {
        if objects[n].selectable.is_some() && contains_cell(&objects[n].occupied, position) {
            proof {
                assert(first_liftable(objects@, position, n as nat + 1) == Some(n as int));
                lemma_first_liftable_stays(objects@, position, n as nat + 1, objects@.len());
            }
            return Some(n);
        }
        n = n + 1;
    }
    None
}

/// Whether what stands at `position` to be lifted, if anything, is of a
/// kind that can be moved.
pub fn lift_is_ready(position: Cell, objects: &Vec<Object>, oas: &ObjectAssetServer) -> (b: bool)
    ensures
        b == (first_liftable(objects@, position, objects@.len()) matches Some(i) ==> can_lift(
            objects@[i],
            oas,
        )),
{
    match find_liftable(objects, position) {
        None => true,
        Some(i) => {
            let id = objects[i].id;
            has_placement_rule(id) && (!reads_footprint(id) || oas.contains(id))
        },
    }
}

/// Whether the placement rule of `id` reads the footprint of the kind.
pub fn reads_footprint(id: ObjectID) -> (b: bool)
    ensures
        b == rule_reads_footprint(id),
{
    id == ObjectID::Farm || id == ObjectID::Church || id == ObjectID::Tavern
}

/// The object that `ufo` holds is configured, and held by a cell of its
/// footprint.
pub open spec fn held_is_configured(ufo: UFO, objects: Seq<Object>, oas: &ObjectAssetServer) -> bool {
    ufo.selected matches Some(selection) ==> (first_known(
        objects,
        selection.entity,
        objects.len(),
    ) matches Some(i) ==> oas.has(objects[i].id) && selection.occupy_index < oas.occupy(
        objects[i].id,
    ).len())
}

/// Whether the object that `ufo` holds, if it is still there, is
/// configured and held by a cell of its footprint.
pub fn carry_is_ready(ufo: &UFO, objects: &Vec<Object>, oas: &ObjectAssetServer) -> (b: bool)
    ensures
        b == held_is_configured(*ufo, objects@, oas),
{
    match &ufo.selected {
        None => true,
        Some(selection) => match find_known(objects, selection.entity) {
            None => true,
            Some(i) => match oas.find(objects[i].id) {
                None => false,
                Some(conf) => selection.occupy_index < conf.occupy.len(),
            },
        },
    }
}

/// Whether what `ufo` holds can be asked to be set down: the held object,
/// if it is still there, lies within `grid`, is configured, and is held
/// by a cell of its footprint.
pub fn drop_is_ready(ufo: &UFO, objects: &Vec<Object>, oas: &ObjectAssetServer, grid: &Grid) -> (b:
    bool)
    requires
        ufo.selected is Some,
    ensures
        b == (first_known(objects@, ufo.selected->0.entity, objects@.len()) matches Some(i) ==> {
            &&& 0 <= i < objects@.len()
            &&& objects@[i].wf(grid)
            &&& oas.has(objects@[i].id)
            &&& oas.occupy(objects@[i].id).len() >= 1
            &&& ufo.selected->0.occupy_index < oas.occupy(objects@[i].id).len()
        }),
{
    match &ufo.selected {
        None => true,
        Some(selection) => match find_known(objects, selection.entity) {
            None => true,
            Some(i) => match oas.find(objects[i].id) {
                None => false,
                Some(conf) => object_is_wf(&objects[i], grid) && conf.occupy.len() >= 1
                    && selection.occupy_index < conf.occupy.len(),
            },
        },
    }
}

} // verus!
