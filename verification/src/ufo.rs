//! The carrier that the player steers: moving, lifting and putting back.

use vstd::prelude::*;
use crate::agree::holds_fairly;
use crate::asset::{anchor_range, ObjectAssetServer};
use crate::kind::ObjectID;
use crate::grid::{parity, row_parity, Cell, Grid};
use crate::legal::lemma_valid_cell_is_occupiable;
use crate::level::Score;
use crate::object::{first_liftable, Object, ObjectSelectEvent};
use crate::rules::{as_cell, find_valid_cells, has_rule, rule_reads_footprint, valid_cells};
use crate::tile::{push_tile_changes, tile_changes, TileState, TileStateChangeEvent};
use crate::world::World;

verus! {

/// Where the carrier's picture is drawn, relative to its cell.
pub const UFO_SPRITE_OFFSET: (i32, i32) = (5, 30);

/// How far above its cell a carried object is drawn.
pub const UFO_LIFT_MODIFIER: i32 = 8;

/// What the carrier holds: the object, the cell of its footprint by which
/// it is held, and the cells on which it may be set down.
#[derive(Debug)]
pub struct UFOSelection {
    pub entity: u64,
    pub occupy_index: usize,
    pub valid: Vec<Cell>,
}

/// The carrier is asked to lift what stands at `position`.
#[derive(Debug, Clone, Copy, PartialEq, Eq, Structural)]
pub struct UFOLiftEvent {
    pub position: Cell,
}

impl UFOLiftEvent {
    /// The event for `position`.
    pub fn new(position: Cell) -> (event: UFOLiftEvent)
        ensures
            event.position == position,
    {
        UFOLiftEvent { position }
    }
}

/// The carrier is asked to set down what it holds.
#[derive(Debug, Clone, Copy, PartialEq, Eq, Structural)]
pub struct UFODropEvent {}

impl UFODropEvent {
    /// The event.
    pub fn new() -> UFODropEvent {
        UFODropEvent {  }
    }
}

/// The carrier is asked to put back what it holds.
#[derive(Debug, Clone, Copy, PartialEq, Eq, Structural)]
pub struct UFOCancelEvent {}

impl UFOCancelEvent {
    /// The event.
    pub fn new() -> UFOCancelEvent {
        UFOCancelEvent {  }
    }
}

/// The carrier that the player steers over the board.
#[derive(Debug)]
pub struct UFO {
    pub position: Cell,
    pub offset: Cell,
    pub selected: Option<UFOSelection>,
}

/// The keys pressed since the last look.
#[derive(Debug, Clone, Copy, PartialEq, Eq, Structural)]
pub struct UfoKeys {
    /// One row up, to the right.
    pub d: bool,
    /// One row down, to the left.
    pub a: bool,
    /// One row down, to the right.
    pub w: bool,
    /// One row up, to the left.
    pub s: bool,
    /// Lift, or set down.
    pub h: bool,
    /// Put back.
    pub j: bool,
    /// Start the level again.
    pub enter: bool,
}

/// What the carrier asks of the rest of the game.
#[derive(Debug, Clone, Copy, PartialEq, Eq, Structural)]
pub enum UfoSignal {
    Select(ObjectSelectEvent),
    Lift(UFOLiftEvent),
    Drop(UFODropEvent),
    Cancel(UFOCancelEvent),
    /// Start the level again.
    Restart,
    Tile(TileStateChangeEvent),
}

/// One of the steering keys is pressed.
pub open spec fn any_move(keys: UfoKeys) -> bool {
    keys.d || keys.a || keys.w || keys.s
}

/// Column that the pressed keys point to from `(x, y)`. Each key adds
/// its own diagonal step.
pub open spec fn aimed_x(x: int, y: int, keys: UfoKeys) -> int {
    let p = row_parity(y);
    x + (if keys.d {
        p
    } else {
        0
    }) + (if keys.a {
        p - 1
    } else {
        0
    }) + (if keys.w {
        p
    } else {
        0
    }) + (if keys.s {
        p - 1
    } else {
        0
    })
}

/// Row that the pressed keys point to from row `y`.
pub open spec fn aimed_y(y: int, keys: UfoKeys) -> int {
    y + (if keys.d {
        -1int
    } else {
        0
    }) + (if keys.a {
        1int
    } else {
        0
    }) + (if keys.w {
        1int
    } else {
        0
    }) + (if keys.s {
        -1int
    } else {
        0
    })
}

/// The carrier moves: a steering key is pressed, the level is not started
/// again, and the cell pointed to is a cell of the board.
pub open spec fn carrier_moves(ufo: UFO, keys: UfoKeys, grid: &Grid) -> bool {
    &&& !keys.enter
    &&& any_move(keys)
    &&& grid.open_at(
        aimed_x(ufo.position.x as int, ufo.position.y as int, keys),
        aimed_y(ufo.position.y as int, keys),
    )
}

/// What the lift key and the put-back key ask for.
pub open spec fn button_signals(ufo: UFO, keys: UfoKeys) -> Seq<UfoSignal> {
    (if keys.h {
        if ufo.selected is None {
            seq![
                UfoSignal::Select(ObjectSelectEvent { position: ufo.position }),
                UfoSignal::Lift(UFOLiftEvent { position: ufo.position }),
            ]
        } else {
            seq![UfoSignal::Drop(UFODropEvent {  })]
        }
    } else {
        Seq::empty()
    }) + (if keys.j && ufo.selected is Some {
        seq![UfoSignal::Cancel(UFOCancelEvent {  })]
    } else {
        Seq::empty()
    })
}

/// Everything one look at the keys asks for, in order.
pub open spec fn control_signals(ufo: UFO, keys: UfoKeys, grid: &Grid) -> Seq<UfoSignal> {
    let aim = as_cell(
        aimed_x(ufo.position.x as int, ufo.position.y as int, keys),
        aimed_y(ufo.position.y as int, keys),
    );
    button_signals(ufo, keys) + (if keys.enter {
        seq![UfoSignal::Restart]
    } else if carrier_moves(ufo, keys, grid) && ufo.selected is None {
        seq![
            UfoSignal::Tile(
                TileStateChangeEvent { position: ufo.position, state: TileState::Default },
            ),
            UfoSignal::Tile(TileStateChangeEvent { position: aim, state: TileState::Selected }),
            UfoSignal::Select(ObjectSelectEvent { position: aim }),
        ]
    } else {
        Seq::empty()
    })
}

/// Column of the anchor of the held object when the carrier is at
/// `(x, y)` and holds the object by cell `index` of its footprint.
pub open spec fn held_anchor_x(x: int, y: int, offsets: Seq<Cell>, index: int) -> int {
    x - (offsets[index].x + if index == 0 {
        0
    } else {
        row_parity(y + 1)
    })
}

/// Row of the anchor of the held object.
pub open spec fn held_anchor_y(y: int, offsets: Seq<Cell>, index: int) -> int {
    y - offsets[index].y
}

/// Index of the first of the first `n` objects that can be lifted and is
/// known as `entity`.
pub open spec fn first_known(objects: Seq<Object>, entity: u64, n: nat) -> Option<int>
    decreases n,
{
    if n == 0 {
        None
    } else {
        match first_known(objects, entity, (n - 1) as nat) {
            Some(i) => Some(i),
            None => if objects[n - 1].selectable is Some && objects[n - 1].entity == entity {
                Some(n - 1)
            } else {
                None
            },
        }
    }
}

proof fn lemma_first_known_stays(objects: Seq<Object>, entity: u64, n: nat, m: nat)
    requires
        n <= m,
        first_known(objects, entity, n) is Some,
    ensures
        first_known(objects, entity, m) == first_known(objects, entity, n),
    decreases m,
{
    if n < m {
        lemma_first_known_stays(objects, entity, n, (m - 1) as nat);
    }
}

/// The place among `objects` of the one that can be lifted and is known as
/// `entity`.
pub fn find_known(objects: &Vec<Object>, entity: u64) -> (found: Option<usize>)
    ensures
        found is Some == first_known(objects@, entity, objects@.len()) is Some,
        found matches Some(i) ==> first_known(objects@, entity, objects@.len()) == Some(i as int)
            && i < objects@.len(),
{
    let mut n: usize = 0;
    while n < objects.len()
        invariant
            n <= objects@.len(),
            first_known(objects@, entity, n as nat) is None,
        decreases objects@.len() - n,
    {
        if objects[n].selectable.is_some() && objects[n].entity == entity {
            proof {
                assert(first_known(objects@, entity, n as nat + 1) == Some(n as int));
                lemma_first_known_stays(objects@, entity, n as nat + 1, objects@.len());
            }
            return Some(n);
        }
        n = n + 1;
    }
    None
}

impl UFO {
    /// What the carrier holds can be set down only on cells within `grid`.
    pub open spec fn wf(&self, grid: &Grid) -> bool {
        self.selected matches Some(selection) ==> forall|k: int|
            0 <= k < selection.valid@.len() ==> grid.contains(
                (#[trigger] selection.valid@[k]).x as int,
                selection.valid@[k].y as int,
            )
    }

    /// A carrier over `position` that holds nothing, with the change that
    /// shows its cell as selected.
    pub fn new(position: Cell) -> (made: (UFO, TileStateChangeEvent))
        ensures
            made.0.position == position,
            made.0.offset == (Cell { x: 5, y: 30 }),
            made.0.selected is None,
            made.1 == (TileStateChangeEvent { position, state: TileState::Selected }),
    {
        (
            UFO {
                position,
                offset: Cell { x: UFO_SPRITE_OFFSET.0, y: UFO_SPRITE_OFFSET.1 },
                selected: None,
            },
            TileStateChangeEvent::new(position, TileState::Selected),
        )
    }
}

/// Moves the carrier to `(x, y)` if that is a cell of the board.
pub fn ufo_move(x: i64, y: i64, ufo: &mut UFO, grid: &Grid) -> (moved: bool)
    requires
        grid.wf(),
    ensures
        moved == grid.open_at(x as int, y as int),
        final(ufo).offset == old(ufo).offset,
        final(ufo).selected == old(ufo).selected,
        moved ==> final(ufo).position.x == x && final(ufo).position.y == y,
        !moved ==> final(ufo).position == old(ufo).position,
{
    let (open, _) = grid.locate(x, y);
    if !open {
        return false;
    }
    proof {
        grid.lemma_extent(x as int, y as int);
    }
    ufo.position.x = x as i32;
    ufo.position.y = y as i32;
    true
}

/// Reads the keys. The lift key asks to lift what is under the carrier,
/// or to set down what it holds; the put-back key asks to put that back.
/// Starting the level again takes the score back to what it was when the
/// level began, and the carrier then stays where it is. Else the steering
/// keys move the carrier, each by its own diagonal step, if the cell they
/// point to is on the board; a carrier that holds nothing then shows its
/// new cell as selected in place of the old one.
pub fn control_ufo(ufo: &mut UFO, keys: &UfoKeys, score: &mut Score, grid: &Grid) -> (signals: Vec<
    UfoSignal,
>)
    requires
        grid.wf(),
    ensures
        signals@ == control_signals(*old(ufo), *keys, grid),
        final(ufo).offset == old(ufo).offset,
        final(ufo).selected == old(ufo).selected,
        final(ufo).position == if carrier_moves(*old(ufo), *keys, grid) {
            as_cell(
                aimed_x(old(ufo).position.x as int, old(ufo).position.y as int, *keys),
                aimed_y(old(ufo).position.y as int, *keys),
            )
        } else {
            old(ufo).position
        },
        final(score).previous == old(score).previous,
        final(score).current == if keys.enter {
            old(score).previous
        } else {
            old(score).current
        },
{
    let y_mod: i64 = parity(ufo.position.y as i64);
    let mut moved = false;
    let mut x: i64 = ufo.position.x as i64;
    let mut y: i64 = ufo.position.y as i64;
    let mut signals: Vec<UfoSignal> = Vec::new();
    if keys.d {
        x = x + y_mod;
        y = y - 1;
        moved = true;
    }
    if keys.a {
        x = x + y_mod - 1;
        y = y + 1;
        moved = true;
    }
    if keys.w {
        x = x + y_mod;
        y = y + 1;
        moved = true;
    }
    if keys.s {
        x = x + y_mod - 1;
        y = y - 1;
        moved = true;
    }
    if keys.h {
        if ufo.selected.is_none() {
            signals.push(UfoSignal::Select(ObjectSelectEvent::new(ufo.position)));
            signals.push(UfoSignal::Lift(UFOLiftEvent::new(ufo.position)));
        } else {
            signals.push(UfoSignal::Drop(UFODropEvent::new()));
        }
    }
    if keys.j {
        if ufo.selected.is_some() {
            signals.push(UfoSignal::Cancel(UFOCancelEvent::new()));
        }
    }
    proof {
        assert(signals@ =~= button_signals(*old(ufo), *keys));
    }
    if keys.enter {
        signals.push(UfoSignal::Restart);
        score.current = score.previous;
        proof {
            assert(signals@ =~= control_signals(*old(ufo), *keys, grid));
        }
        return signals;
    }
    if moved {
        let from = ufo.position;
        let moved = ufo_move(x, y, ufo, grid);
        if moved && ufo.selected.is_none() {
            signals.push(UfoSignal::Tile(TileStateChangeEvent::new(from, TileState::Default)));
            signals.push(
                UfoSignal::Tile(TileStateChangeEvent::new(ufo.position, TileState::Selected)),
            );
            signals.push(UfoSignal::Select(ObjectSelectEvent::new(ufo.position)));
        }
    }
    proof {
        assert(signals@ =~= control_signals(*old(ufo), *keys, grid));
    }
    signals
}

/// The anchor at which the held object would be set down.
pub fn calculate_object_position(ufo: &UFO, occupy_index: usize, offsets: &Vec<Cell>) -> (anchor: (
    i64,
    i64,
))
    requires
        occupy_index < offsets@.len(),
    ensures
        anchor.0 == held_anchor_x(
            ufo.position.x as int,
            ufo.position.y as int,
            offsets@,
            occupy_index as int,
        ),
        anchor.1 == held_anchor_y(ufo.position.y as int, offsets@, occupy_index as int),
        anchor_range(anchor.0 as int),
        anchor_range(anchor.1 as int),
{
    let y_mod: i64 = parity(ufo.position.y as i64 + 1);
    let offset = offsets[occupy_index];
    let shift: i64 = if occupy_index == 0 {
        0
    } else {
        y_mod
    };
    (ufo.position.x as i64 - (offset.x as i64 + shift), ufo.position.y as i64 - offset.y as i64)
}

/// The object that the carrier holds, and the cell over which to draw it:
/// the anchor at which it would be set down, if that lies within the board.
pub fn ufo_carry_object(ufo: &UFO, objects: &Vec<Object>, oas: &ObjectAssetServer, grid: &Grid) -> (carried:
    Option<(u64, Cell)>)
    requires
        grid.wf(),
        ufo.selected matches Some(selection) ==> (first_known(
            objects@,
            selection.entity,
            objects@.len(),
        ) matches Some(i) ==> oas.has(objects@[i].id) && selection.occupy_index < oas.occupy(
            objects@[i].id,
        ).len()),
    ensures
        match carried {
            Some((entity, cell)) => {
                &&& ufo.selected matches Some(selection)
                &&& first_known(objects@, selection.entity, objects@.len()) matches Some(i)
                &&& entity == selection.entity
                &&& cell.x == held_anchor_x(
                    ufo.position.x as int,
                    ufo.position.y as int,
                    oas.occupy(objects@[i].id),
                    selection.occupy_index as int,
                )
                &&& cell.y == held_anchor_y(
                    ufo.position.y as int,
                    oas.occupy(objects@[i].id),
                    selection.occupy_index as int,
                )
                &&& grid.contains(cell.x as int, cell.y as int)
            },
            None => ufo.selected matches Some(selection) ==> (first_known(
                objects@,
                selection.entity,
                objects@.len(),
            ) matches Some(i) ==> !grid.contains(
                held_anchor_x(
                    ufo.position.x as int,
                    ufo.position.y as int,
                    oas.occupy(objects@[i].id),
                    selection.occupy_index as int,
                ),
                held_anchor_y(
                    ufo.position.y as int,
                    oas.occupy(objects@[i].id),
                    selection.occupy_index as int,
                ),
            )),
        },
{
    match &ufo.selected {
        None => None,
        Some(selection) => {
            match find_known(objects, selection.entity) {
                None => None,
                Some(i) => {
                    let conf = oas.get(objects[i].id);
                    let (x, y) = calculate_object_position(ufo, selection.occupy_index, &conf.occupy);
                    if x < 0 || x >= grid.size.0 as i64 || y < 0 || y >= grid.size.1 as i64 {
                        return None;
                    }
                    proof {
                        grid.lemma_extent(x as int, y as int);
                    }
                    Some((selection.entity, Cell { x: x as i32, y: y as i32 }))
                },
            }
        },
    }
}

/// The first place of `cell` among `cells`.
pub fn find_cell(cells: &Vec<Cell>, cell: Cell) -> (place: Option<usize>)
    ensures
        place is Some == cells@.contains(cell),
        place matches Some(k) ==> k < cells@.len() && cells@[k as int] == cell && forall|m: int|
            0 <= m < k ==> cells@[m] != cell,
{
    let mut k: usize = 0;
    while k < cells.len()
        invariant
            k <= cells@.len(),
            forall|m: int| 0 <= m < k ==> cells@[m] != cell,
        decreases cells@.len() - k,
    {
        if cells[k] == cell {
            return Some(k);
        }
        k = k + 1;
    }
    None
}

/// What a request to lift comes to.
#[derive(Debug)]
pub struct LiftOutcome {
    pub tiles: Vec<TileStateChangeEvent>,
    /// Nothing is held after the request: the player is to be warned.
    pub warning: bool,
}

/// The object at place `i` may be lifted: its kind has a placement rule,
/// and a footprint where the rule reads one.
pub open spec fn can_lift(object: Object, oas: &ObjectAssetServer) -> bool {
    has_rule(object.id) && (rule_reads_footprint(object.id) ==> oas.has(object.id))
}

/// Lifts the first object that can be lifted and covers the cell of the
/// request. The carrier then holds it by that cell and remembers the cells
/// on which it may be set down; its own cell is shown as usual again and
/// those cells as selected. Where nothing can be lifted, nothing changes.
pub fn handle_ufo_lift_event(
    ufo: &mut UFO,
    event: &UFOLiftEvent,
    objects: &Vec<Object>,
    oas: &ObjectAssetServer,
    world: &World,
    grid: &Grid,
) -> (outcome: LiftOutcome)
    requires
        grid.wf(),
        world.fits(grid),
        old(ufo).wf(grid),
        first_liftable(objects@, event.position, objects@.len()) matches Some(i) ==> can_lift(
            objects@[i],
            oas,
        ),
    ensures
        final(ufo).wf(grid),
        final(ufo).position == old(ufo).position,
        final(ufo).offset == old(ufo).offset,
        match first_liftable(objects@, event.position, objects@.len()) {
            Some(i) => {
                &&& final(ufo).selected matches Some(selection)
                &&& selection.entity == objects@[i].entity
                &&& selection.occupy_index < objects@[i].occupied@.len()
                &&& objects@[i].occupied@[selection.occupy_index as int] == event.position
                &&& forall|k: int|
                    0 <= k < selection.occupy_index ==> objects@[i].occupied@[k] != event.position
                &&& selection.valid@ == valid_cells(
                    objects@[i].entity,
                    objects@[i].id,
                    event.position.x as int,
                    event.position.y as int,
                    oas,
                    world,
                    grid,
                )
                &&& outcome.tiles@ == seq![
                    TileStateChangeEvent {
                        position: old(ufo).position,
                        state: TileState::Default,
                    },
                ] + tile_changes(
                    selection.valid@,
                    TileState::Selected,
                    None,
                    selection.valid@.len(),
                )
                &&& !outcome.warning
            },
            None => {
                &&& final(ufo).selected == old(ufo).selected
                &&& outcome.tiles@.len() == 0
                &&& outcome.warning == old(ufo).selected is None
            },
        },
        first_liftable(objects@, event.position, objects@.len()) matches Some(i) ==> (((
        objects@[i].id == ObjectID::Villager || objects@[i].id == ObjectID::Cow) ==> oas.occupy(
            objects@[i].id,
        ).len() == 1) ==> holds_fairly(
            *final(ufo),
            objects@[i],
            event.position.x as int,
            event.position.y as int,
            oas,
            world,
            grid,
        )),
{
    let mut tiles: Vec<TileStateChangeEvent> = Vec::new();
    let mut n: usize = 0;
    while n < objects.len()
        invariant
            n <= objects@.len(),
            first_liftable(objects@, event.position, n as nat) is None,
            tiles@.len() == 0,
            *ufo == *old(ufo),
            grid.wf(),
            world.fits(grid),
            first_liftable(objects@, event.position, objects@.len()) matches Some(i) ==> can_lift(
                objects@[i],
                oas,
            ),
        decreases objects@.len() - n,
    {
        let object = &objects[n];
        if object.selectable.is_some() {
            let place = find_cell(&object.occupied, event.position);
            if let Some(k) = place {
                proof {
                    assert(first_liftable(objects@, event.position, n as nat + 1) == Some(
                        n as int,
                    ));
                    crate::object::lemma_first_liftable_stays(
                        objects@,
                        event.position,
                        n as nat + 1,
                        objects@.len(),
                    );
                }
                tiles.push(TileStateChangeEvent::new(ufo.position, TileState::Default));
                let valid = find_valid_cells(
                    object.entity,
                    object.id,
                    event.position,
                    oas,
                    world,
                    grid,
                );
                push_tile_changes(&mut tiles, &valid, TileState::Selected, None);
                proof {
                    assert forall|m: int| 0 <= m < valid@.len() implies grid.contains(
                        (#[trigger] valid@[m]).x as int,
                        valid@[m].y as int,
                    ) by {
                        lemma_valid_cell_is_occupiable(
                            object.entity,
                            object.id,
                            event.position.x as int,
                            event.position.y as int,
                            oas,
                            world,
                            grid,
                            m,
                        );
                    }
                }
                ufo.selected = Some(
                    UFOSelection { entity: object.entity, occupy_index: k, valid },
                );
                return LiftOutcome { tiles, warning: false };
            }
        }
        n = n + 1;
    }
    LiftOutcome { tiles, warning: ufo.selected.is_none() }
}

/// What a request to put back comes to.
#[derive(Debug)]
pub struct CancelOutcome {
    pub tiles: Vec<TileStateChangeEvent>,
    /// The object that was held, and the anchor over which it stands.
    pub restored: Option<(u64, Cell)>,
}

/// Puts back what the carrier holds. The object stays where it stood and
/// the board is not touched; the cells on which it could have been set
/// down are shown as usual again, but for the carrier's own.
pub fn handle_ufo_cancel_event(ufo: &mut UFO, objects: &Vec<Object>) -> (outcome: CancelOutcome)
    requires
        old(ufo).selected is Some,
        first_known(objects@, old(ufo).selected->0.entity, objects@.len()) matches Some(i)
            ==> objects@[i].occupied@.len() >= 1,
    ensures
        final(ufo).position == old(ufo).position,
        final(ufo).offset == old(ufo).offset,
        match first_known(objects@, old(ufo).selected->0.entity, objects@.len()) {
            Some(i) => {
                &&& final(ufo).selected is None
                &&& outcome.tiles@ == tile_changes(
                    old(ufo).selected->0.valid@,
                    TileState::Default,
                    Some(old(ufo).position),
                    old(ufo).selected->0.valid@.len(),
                )
                &&& outcome.restored == Some((objects@[i].entity, objects@[i].occupied@[0]))
            },
            None => {
                &&& final(ufo).selected == old(ufo).selected
                &&& outcome.tiles@.len() == 0
                &&& outcome.restored is None
            },
        },
{
    let mut tiles: Vec<TileStateChangeEvent> = Vec::new();
    let selection = ufo.selected.take().unwrap();
    match find_known(objects, selection.entity) {
        None => {
            ufo.selected = Some(selection);
            CancelOutcome { tiles, restored: None }
        },
        Some(i) => {
            push_tile_changes(&mut tiles, &selection.valid, TileState::Default, Some(ufo.position));
            CancelOutcome { tiles, restored: Some((objects[i].entity, objects[i].occupied[0])) }
        },
    }
}

} // verus!
