//! The creatures' turn: roaming villagers and cows, assassins, and the
//! king's search for the castle.

use vstd::prelude::*;
use crate::adjacency::{diagonal_offsets, get_diagonal_adjacent};
use crate::agree::{agrees, creatures_are_single, lemma_turn_keeps_agreement};
use crate::grid::{Cell, Grid};
use crate::kind::ObjectID;
use crate::object::Object;
use crate::path::{dijkstra_path, is_chain, is_simple, king_board, shortest_chain};
use crate::random::{random_index, random_ratio};
use crate::rules::as_cell;
use crate::world::World;

verus! {

/// Out of how many turns a villager or a cow tries to move: three in five.
pub const OBJECT_RANDOM_MOVE_CHANCE: (u32, u32) = (3, 5);

/// How many cells a villager or a cow tries at most before it stays.
pub const OBJECT_RANDOM_MOVE_MAXIMUM_ITER: usize = 250;

/// The kinds that an assassin kills.
pub open spec fn is_prey(kind: ObjectID) -> bool {
    kind == ObjectID::King || kind == ObjectID::Villager || kind == ObjectID::Cow
}

/// The assassin at `(ax, ay)` finds prey through its diagonal offset `k`.
pub open spec fn strikes(
    slots: Seq<Option<(u64, ObjectID)>>,
    grid: &Grid,
    ax: int,
    ay: int,
    k: int,
) -> bool {
    let tx = ax + diagonal_offsets(ay)[k].0;
    let ty = ay + diagonal_offsets(ay)[k].1;
    &&& grid.open_at(tx, ty)
    &&& slots[grid.index_of(tx, ty)] matches Some(occupant)
    &&& is_prey(occupant.1)
}

/// The board after the assassin at `(ax, ay)` has struck through its
/// first `n` diagonal offsets: the cells of its prey are empty.
pub open spec fn struck_slots(
    slots: Seq<Option<(u64, ObjectID)>>,
    grid: &Grid,
    ax: int,
    ay: int,
    n: nat,
) -> Seq<Option<(u64, ObjectID)>>
    decreases n,
{
    if n == 0 {
        slots
    } else {
        let k = (n - 1) as int;
        let rest = struck_slots(slots, grid, ax, ay, k as nat);
        if strikes(rest, grid, ax, ay, k) {
            rest.update(
                grid.index_of(ax + diagonal_offsets(ay)[k].0, ay + diagonal_offsets(ay)[k].1),
                None,
            )
        } else {
            rest
        }
    }
}

/// Whom the assassin at `(ax, ay)` kills through its first `n` diagonal
/// offsets, in order.
pub open spec fn struck_targets(
    slots: Seq<Option<(u64, ObjectID)>>,
    grid: &Grid,
    ax: int,
    ay: int,
    n: nat,
) -> Seq<u64>
    decreases n,
{
    if n == 0 {
        Seq::empty()
    } else {
        let k = (n - 1) as int;
        let rest = struck_slots(slots, grid, ax, ay, k as nat);
        let targets = struck_targets(slots, grid, ax, ay, k as nat);
        if strikes(rest, grid, ax, ay, k) {
            let prey = rest[grid.index_of(
                ax + diagonal_offsets(ay)[k].0,
                ay + diagonal_offsets(ay)[k].1,
            )].unwrap();
            targets.push(prey.0)
        } else {
            targets
        }
    }
}

/// The assassin `object` kills every king, villager and cow on the four
/// cells one diagonal step away: they leave the board at once and are
/// named in the result, to be done away with when the turn is over.
pub fn get_entities_to_kill(world: &mut World, object: &Object, grid: &Grid) -> (targets: Vec<u64>)
    requires
        grid.wf(),
        old(world).fits(grid),
        object.occupied@.len() >= 1,
    ensures
        final(world).fits(grid),
        final(world).objects@ == struck_slots(
            old(world).objects@,
            grid,
            object.occupied@[0].x as int,
            object.occupied@[0].y as int,
            4,
        ),
        targets@ == struck_targets(
            old(world).objects@,
            grid,
            object.occupied@[0].x as int,
            object.occupied@[0].y as int,
            4,
        ),
{
    let at = object.occupied[0];
    let table = get_diagonal_adjacent(at);
    let mut targets: Vec<u64> = Vec::new();
    let mut k: usize = 0;
    while k < 4
        invariant
            k <= 4,
            grid.wf(),
            world.fits(grid),
            table@.len() == 4,
            forall|m: int|
                0 <= m < 4 ==> (#[trigger] table@[m]).0 == diagonal_offsets(at.y as int)[m].0
                    && table@[m].1 == diagonal_offsets(at.y as int)[m].1,
            world.objects@ == struck_slots(
                old(world).objects@,
                grid,
                at.x as int,
                at.y as int,
                k as nat,
            ),
            targets@ == struck_targets(
                old(world).objects@,
                grid,
                at.x as int,
                at.y as int,
                k as nat,
            ),
        decreases 4 - k,
    {
        let tx: i64 = at.x as i64 + table[k].0 as i64;
        let ty: i64 = at.y as i64 + table[k].1 as i64;
        let (open, index) = grid.locate(tx, ty);
        if open {
            proof {
                grid.lemma_index_of(tx as int, ty as int);
            }
            match world.objects[index] {
                Some((entity, kind)) => {
                    if kind == ObjectID::King || kind == ObjectID::Villager || kind
                        == ObjectID::Cow {
                        targets.push(entity);
                        world.objects.set(index, None);
                    }
                },
                None => {},
            }
        }
        k = k + 1;
    }
    targets
}

/// Column of the cell one diagonal step `choice` from `(ax, ay)`.
pub open spec fn step_x(ax: int, ay: int, choice: int) -> int {
    ax + diagonal_offsets(ay)[choice].0
}

/// Row of the cell one diagonal step `choice` from row `ay`.
pub open spec fn step_y(ay: int, choice: int) -> int {
    ay + diagonal_offsets(ay)[choice].1
}

/// The diagonal step `choice` from `(ax, ay)` leads to an empty cell of
/// the board.
pub open spec fn can_step(
    slots: Seq<Option<(u64, ObjectID)>>,
    grid: &Grid,
    ax: int,
    ay: int,
    choice: int,
) -> bool {
    let tx = step_x(ax, ay, choice);
    let ty = step_y(ay, choice);
    grid.open_at(tx, ty) && slots[grid.index_of(tx, ty)] is None
}

/// The board after `object` has taken the diagonal step `choice`: it
/// stands on the new cell, and the first cell it covered is empty.
pub open spec fn stepped_slots(
    slots: Seq<Option<(u64, ObjectID)>>,
    grid: &Grid,
    entity: u64,
    object: Object,
    choice: int,
) -> Seq<Option<(u64, ObjectID)>> {
    let ax = object.occupied@[0].x as int;
    let ay = object.occupied@[0].y as int;
    slots.update(
        grid.index_of(step_x(ax, ay, choice), step_y(ay, choice)),
        Some((entity, object.id)),
    ).update(grid.index_of(ax, ay), None)
}

/// `after` is `before` moved by the diagonal step `choice`: it covers the
/// one cell it stepped to and is the same object otherwise.
pub open spec fn is_stepped(before: Object, after: Object, choice: int) -> bool {
    let ax = before.occupied@[0].x as int;
    let ay = before.occupied@[0].y as int;
    &&& after.occupied@ == seq![as_cell(step_x(ax, ay, choice), step_y(ay, choice))]
    &&& after.entity == before.entity
    &&& after.id == before.id
    &&& after.name == before.name
    &&& after.offset == before.offset
    &&& after.selectable == before.selectable
}

/// Moves `object` by the diagonal step `choice` if it leads to an empty
/// cell of the board.
pub fn try_step(
    entity: u64,
    object: &mut Object,
    world: &mut World,
    grid: &Grid,
    choice: usize,
) -> (moved: bool)
    requires
        grid.wf(),
        old(world).fits(grid),
        old(object).wf(grid),
        choice < 4,
    ensures
        final(world).fits(grid),
        final(object).wf(grid),
        moved == can_step(
            old(world).objects@,
            grid,
            old(object).occupied@[0].x as int,
            old(object).occupied@[0].y as int,
            choice as int,
        ),
        moved ==> is_stepped(*old(object), *final(object), choice as int),
        moved ==> final(world).objects@ == stepped_slots(
            old(world).objects@,
            grid,
            entity,
            *old(object),
            choice as int,
        ),
        !moved ==> *final(object) == *old(object) && *final(world) == *old(world),
{
    let at = object.occupied[0];
    let table = get_diagonal_adjacent(at);
    let tx: i64 = at.x as i64 + table[choice].0 as i64;
    let ty: i64 = at.y as i64 + table[choice].1 as i64;
    let (open, index) = grid.locate(tx, ty);
    if !open {
        return false;
    }
    proof {
        grid.lemma_index_of(tx as int, ty as int);
        grid.lemma_extent(tx as int, ty as int);
        grid.lemma_index_of(at.x as int, at.y as int);
    }
    if world.objects[index].is_some() {
        return false;
    }
    world.objects.set(index, Some((entity, object.id)));
    let (_, from) = grid.locate(at.x as i64, at.y as i64);
    world.objects.set(from, None);
    let mut occupied: Vec<Cell> = Vec::new();
    occupied.push(Cell { x: tx as i32, y: ty as i32 });
    object.occupied = occupied;
    proof {
        assert(object.occupied@ =~= seq![as_cell(tx as int, ty as int)]);
    }
    true
}

/// A villager or a cow takes its turn. Three times out of five it tries
/// to move: it picks one of its four diagonal steps at random and takes
/// it if the cell is an empty cell of the board, and picks again if not,
/// up to 250 times. It stays where it is otherwise.
pub fn move_to_random_adjacent_tile(
    entity: u64,
    object: &mut Object,
    world: &mut World,
    grid: &Grid,
) -> (moved: bool)
    requires
        grid.wf(),
        old(world).fits(grid),
        old(object).wf(grid),
    ensures
        final(world).fits(grid),
        final(object).wf(grid),
        moved ==> exists|choice: int|
            0 <= choice < 4 && can_step(
                old(world).objects@,
                grid,
                old(object).occupied@[0].x as int,
                old(object).occupied@[0].y as int,
                choice,
            ) && #[trigger] is_stepped(*old(object), *final(object), choice)
                && final(world).objects@ == stepped_slots(
                old(world).objects@,
                grid,
                entity,
                *old(object),
                choice,
            ),
        !moved ==> *final(object) == *old(object) && *final(world) == *old(world),
{
    let mut rng = rand::thread_rng();
    if !random_ratio(&mut rng, OBJECT_RANDOM_MOVE_CHANCE.0, OBJECT_RANDOM_MOVE_CHANCE.1) {
        return false;
    }
    let mut iter: usize = 0;
    while iter < OBJECT_RANDOM_MOVE_MAXIMUM_ITER
        invariant
            grid.wf(),
            world.fits(grid),
            object.wf(grid),
            *object == *old(object),
            *world == *old(world),
        decreases OBJECT_RANDOM_MOVE_MAXIMUM_ITER - iter,
    {
        let choice = random_index(&mut rng, 4);
        if try_step(entity, object, world, grid, choice) {
            proof {
                assert(is_stepped(*old(object), *object, choice as int));
            }
            return true;
        }
        iter = iter + 1;
    }
    false
}

/// Index of the first castle among the first `n` slots of the board.
pub open spec fn first_castle_slot(slots: Seq<Option<(u64, ObjectID)>>, n: nat) -> Option<int>
    decreases n,
{
    if n == 0 {
        None
    } else {
        match first_castle_slot(slots, (n - 1) as nat) {
            Some(i) => Some(i),
            None => if slots[n - 1] matches Some(occupant) && occupant.1 == ObjectID::Castle {
                Some(n - 1)
            } else {
                None
            },
        }
    }
}

proof fn lemma_first_castle_slot_stays(slots: Seq<Option<(u64, ObjectID)>>, n: nat, m: nat)
    requires
        n <= m,
        first_castle_slot(slots, n) is Some,
    ensures
        first_castle_slot(slots, m) == first_castle_slot(slots, n),
    decreases m,
{
    if n < m {
        lemma_first_castle_slot_stays(slots, n, (m - 1) as nat);
    }
}

/// The cell that the king is to reach: that of the first castle on the
/// board, or the first cell of a board without one.
pub open spec fn castle_cell(world: &World, grid: &Grid) -> Cell {
    match first_castle_slot(world.objects@, world.objects@.len()) {
        Some(i) => grid.cell_of(i),
        None => Cell { x: 0, y: 0 },
    }
}

/// The position of the first castle on the board, or the origin.
pub fn find_castle_slot(world: &World, grid: &Grid) -> (castle: Cell)
    requires
        grid.wf(),
        world.fits(grid),
    ensures
        castle == castle_cell(world, grid),
{
    let total: usize = world.objects.len();
    let mut i: usize = 0;
    while i < total
        invariant
            i <= total,
            total == world.objects@.len(),
            grid.wf(),
            world.fits(grid),
            first_castle_slot(world.objects@, i as nat) is None,
        decreases total - i,
    {
        match world.objects[i] {
            Some((_, kind)) => {
                if kind == ObjectID::Castle {
                    proof {
                        assert(first_castle_slot(world.objects@, i as nat + 1) == Some(i as int));
                        lemma_first_castle_slot_stays(
                            world.objects@,
                            i as nat + 1,
                            total as nat,
                        );
                    }
                    return grid.cell_at(i);
                }
            },
            None => {},
        }
        i = i + 1;
    }
    Cell { x: 0, y: 0 }
}

/// The cells of `nodes`.
pub open spec fn as_nodes(route: Seq<Cell>) -> Seq<(i32, i32)> {
    route.map_values(|c: Cell| (c.x, c.y))
}

/// The cells of `nodes`.
pub open spec fn as_cells(nodes: Seq<(i32, i32)>) -> Seq<Cell> {
    nodes.map_values(|n: (i32, i32)| Cell { x: n.0, y: n.1 })
}

/// The way that the search finds for a king at `start` to the castle, if
/// there is one.
pub open spec fn king_route(start: Cell, world: &World, grid: &Grid) -> Option<Seq<Cell>> {
    match dijkstra_path(
        grid.size.0 as int,
        grid.size.1 as int,
        king_board(world, grid),
        start.x as int,
        start.y as int,
        castle_cell(world, grid).x as int,
        castle_cell(world, grid).y as int,
    ) {
        Some(nodes) => Some(as_cells(nodes)),
        None => None,
    }
}

/// The cells of a way that was found.
pub open spec fn way_of(found: Option<(Vec<Cell>, usize)>) -> Option<Seq<Cell>> {
    match found {
        Some(pair) => Some(pair.0@),
        None => None,
    }
}

/// `route` leads the king from `start` to `goal`: it begins at `start`,
/// ends at `goal`, and every cell after the first is one diagonal step
/// from the cell before it and a cell of the board that is empty or holds
/// a castle or a king.
pub open spec fn is_route(world: &World, grid: &Grid, route: Seq<Cell>, start: Cell, goal: Cell) -> bool {
    is_chain(world, grid, as_nodes(route), (start.x, start.y), (goal.x, goal.y))
}

/// Looks for a way for the king `object` to the castle. A way is found
/// whenever there is one, it is as short as any and passes no cell twice,
/// and its cost is the number of its steps. The same board gives the same
/// way every time.
pub fn find_path(object: &Object, world: &World, grid: &Grid) -> (found: Option<(Vec<Cell>, usize)>)
    requires
        grid.wf(),
        world.fits(grid),
        object.occupied@.len() >= 1,
    ensures
        way_of(found) == king_route(object.occupied@[0], world, grid),
        found matches Some(pair) ==> is_route(
            world,
            grid,
            pair.0@,
            object.occupied@[0],
            castle_cell(world, grid),
        ) && pair.1 == pair.0@.len() - 1 && is_simple(as_nodes(pair.0@)),
        found matches Some(pair) ==> forall|other: Seq<Cell>|
            #[trigger] is_route(world, grid, other, object.occupied@[0], castle_cell(world, grid))
                ==> pair.0@.len() <= other.len(),
        found is None ==> forall|other: Seq<Cell>|
            !#[trigger] is_route(world, grid, other, object.occupied@[0], castle_cell(world, grid)),
{
    let target = find_castle_slot(world, grid);
    let start = object.occupied[0];
    let found = shortest_chain((start.x, start.y), (target.x, target.y), world, grid);
    proof {
        if found is Some {
            let nodes = found.unwrap().0@;
            assert(as_nodes(as_cells(nodes)) =~= nodes);
            assert forall|other: Seq<Cell>| #[trigger]
                is_route(world, grid, other, start, target) implies as_cells(nodes).len()
                <= other.len() by {
                assert(is_chain(
                    world,
                    grid,
                    as_nodes(other),
                    (start.x, start.y),
                    (target.x, target.y),
                ));
            }
        }
    }
    route_found(found)
}

/// The cells of `nodes`, in order.
pub fn cells_of_nodes(nodes: &Vec<(i32, i32)>) -> (cells: Vec<Cell>)
    ensures
        cells@ == as_cells(nodes@),
{
    let mut cells: Vec<Cell> = Vec::new();
    let mut k: usize = 0;
    while k < nodes.len()
        invariant
            k <= nodes@.len(),
            cells@.len() == k,
            forall|j: int|
                0 <= j < k ==> (#[trigger] cells@[j]).x == nodes@[j].0 && cells@[j].y
                    == nodes@[j].1,
        decreases nodes@.len() - k,
    {
        cells.push(Cell { x: nodes[k].0, y: nodes[k].1 });
        k = k + 1;
    }
    proof {
        assert(cells@ =~= as_cells(nodes@));
    }
    cells
}

/// What the search has found, as a way over cells: the same nodes at the
/// same cost, or nothing.
pub fn route_found(found: Option<(Vec<(i32, i32)>, usize)>) -> (way: Option<(Vec<Cell>, usize)>)
    ensures
        match found {
            Some(pair) => way matches Some(route) && route.0@ == as_cells(pair.0@) && route.1
                == pair.1,
            None => way is None,
        },
{
    match found {
        None => None,
        Some((nodes, cost)) => Some((cells_of_nodes(&nodes), cost)),
    }
}

/// Notes the win of a king that has found a way; a king that has found
/// none leaves the list as it is.
pub fn note_win(wins: &mut Vec<PlayerWinEvent>, found: Option<(Vec<Cell>, usize)>)
    ensures
        match found {
            Some(pair) => final(wins)@.len() == old(wins)@.len() + 1 && final(wins)@.last().path
                == pair.0 && final(wins)@.drop_last() == old(wins)@,
            None => final(wins)@ == old(wins)@,
        },
{
    match found {
        Some((path, _)) => {
            wins.push(PlayerWinEvent::new(path));
            proof {
                assert(wins@.drop_last() =~= old(wins)@);
            }
        },
        None => {},
    }
}

/// The turn is over for the player: the creatures are to act.
#[derive(Debug, Clone, Copy, PartialEq, Eq, Structural)]
pub struct ObjectsActTurnsEvent {}

impl ObjectsActTurnsEvent {
    /// The event.
    pub fn new() -> ObjectsActTurnsEvent {
        ObjectsActTurnsEvent {  }
    }
}

/// The king has a way to the castle: the level is won.
#[derive(Debug)]
pub struct PlayerWinEvent {
    pub path: Vec<Cell>,
}

impl PlayerWinEvent {
    /// The event for a king that has found `path`.
    pub fn new(path: Vec<Cell>) -> (event: PlayerWinEvent)
        ensures
            event.path == path,
    {
        PlayerWinEvent { path }
    }
}

/// What the creatures' turn comes to.
#[derive(Debug)]
pub struct TurnOutcome {
    /// One entry for each king that has a way to the castle.
    pub wins: Vec<PlayerWinEvent>,
    /// Whom the assassins killed. They are gone from the objects.
    pub killed: Vec<u64>,
    /// A king is among the killed.
    pub king_killed: bool,
}

/// The kinds that act when the turn is over.
pub open spec fn takes_turns(id: ObjectID) -> bool {
    id == ObjectID::Villager || id == ObjectID::Cow || id == ObjectID::Assassin || id
        == ObjectID::King
}

/// Every object that acts covers cells within `grid`, its anchor at least.
pub open spec fn actors_wf(objects: Seq<Object>, grid: &Grid) -> bool {
    forall|i: int|
        0 <= i < objects.len() && takes_turns((#[trigger] objects[i]).id) ==> objects[i].wf(grid)
}

/// One creature's turn: it stays, or it takes one diagonal step to an
/// empty cell of the board.
pub open spec fn roams_once(
    before: Object,
    before_slots: Seq<Option<(u64, ObjectID)>>,
    grid: &Grid,
    after: Object,
    after_slots: Seq<Option<(u64, ObjectID)>>,
) -> bool {
    ||| after == before && after_slots == before_slots
    ||| exists|choice: int|
        0 <= choice < 4 && can_step(
            before_slots,
            grid,
            before.occupied@[0].x as int,
            before.occupied@[0].y as int,
            choice,
        ) && #[trigger] is_stepped(before, after, choice) && after_slots == stepped_slots(
            before_slots,
            grid,
            before.entity,
            before,
            choice,
        )
}

/// Object `i` of `mid` has had its turn if it is of kind `id`, and
/// nothing else has changed.
pub open spec fn roam_link(
    id: ObjectID,
    mid: Seq<Object>,
    mid_slots: Seq<Option<(u64, ObjectID)>>,
    grid: &Grid,
    i: int,
    after: Seq<Object>,
    after_slots: Seq<Option<(u64, ObjectID)>>,
) -> bool {
    &&& after.len() == mid.len()
    &&& forall|j: int| 0 <= j < mid.len() && j != i ==> after[j] == mid[j]
    &&& if mid[i].id == id {
        roams_once(mid[i], mid_slots, grid, after[i], after_slots)
    } else {
        after[i] == mid[i] && after_slots == mid_slots
    }
}

/// The creatures of kind `id` among the first `n` objects have had their
/// turn, one after the other in the order of the list, and nothing else
/// has changed.
pub open spec fn roamed(
    id: ObjectID,
    before: Seq<Object>,
    before_slots: Seq<Option<(u64, ObjectID)>>,
    grid: &Grid,
    n: nat,
    after: Seq<Object>,
    after_slots: Seq<Option<(u64, ObjectID)>>,
) -> bool
    decreases n,
{
    if n == 0 {
        after == before && after_slots == before_slots
    } else {
        exists|mid: Seq<Object>, mid_slots: Seq<Option<(u64, ObjectID)>>|
            roamed(id, before, before_slots, grid, (n - 1) as nat, mid, mid_slots)
                && #[trigger] roam_link(id, mid, mid_slots, grid, n - 1, after, after_slots)
    }
}

proof fn lemma_roamed_next(
    id: ObjectID,
    before: Seq<Object>,
    before_slots: Seq<Option<(u64, ObjectID)>>,
    grid: &Grid,
    n: nat,
    mid: Seq<Object>,
    mid_slots: Seq<Option<(u64, ObjectID)>>,
    after: Seq<Object>,
    after_slots: Seq<Option<(u64, ObjectID)>>,
)
    requires
        n >= 1,
        roamed(id, before, before_slots, grid, (n - 1) as nat, mid, mid_slots),
        roam_link(id, mid, mid_slots, grid, n - 1, after, after_slots),
    ensures
        roamed(id, before, before_slots, grid, n, after, after_slots),
{
}

/// Lets every creature of kind `id` take its turn, in the order of the list.
pub fn roam(id: ObjectID, objects: &mut Vec<Object>, world: &mut World, grid: &Grid)
    requires
        grid.wf(),
        old(world).fits(grid),
        actors_wf(old(objects)@, grid),
        takes_turns(id),
    ensures
        final(world).fits(grid),
        actors_wf(final(objects)@, grid),
        final(objects)@.len() == old(objects)@.len(),
        forall|i: int|
            0 <= i < old(objects)@.len() ==> (#[trigger] final(objects)@[i]).id == old(
                objects,
            )@[i].id && final(objects)@[i].entity == old(objects)@[i].entity,
        roamed(
            id,
            old(objects)@,
            old(world).objects@,
            grid,
            old(objects)@.len(),
            final(objects)@,
            final(world).objects@,
        ),
{
    let mut n: usize = 0;
    while n < objects.len()
        invariant
            n <= objects@.len(),
            objects@.len() == old(objects)@.len(),
            grid.wf(),
            world.fits(grid),
            takes_turns(id),
            actors_wf(objects@, grid),
            forall|i: int|
                0 <= i < old(objects)@.len() ==> (#[trigger] objects@[i]).id == old(objects)@[i].id
                    && objects@[i].entity == old(objects)@[i].entity,
            roamed(
                id,
                old(objects)@,
                old(world).objects@,
                grid,
                n as nat,
                objects@,
                world.objects@,
            ),
        decreases objects@.len() - n,
    {
        let ghost mid = objects@;
        let ghost mid_slots = world.objects@;
        if objects[n].id == id {
            let entity = objects[n].entity;
            let moved = move_to_random_adjacent_tile(entity, &mut objects[n], world, grid);
            proof {
                assert(roams_once(mid[n as int], mid_slots, grid, objects@[n as int], world.objects@));
            }
        }
        proof {
            assert(roamed(
                id,
                old(objects)@,
                old(world).objects@,
                grid,
                n as nat,
                mid,
                mid_slots,
            ));
            assert forall|i: int|
                0 <= i < objects@.len() && takes_turns((#[trigger] objects@[i]).id) implies objects@[i].wf(
                grid,
            ) by {
                if i != n {
                    assert(objects@[i] == mid[i]);
                }
            }
            assert(roam_link(id, mid, mid_slots, grid, n as int, objects@, world.objects@));
            lemma_roamed_next(
                id,
                old(objects)@,
                old(world).objects@,
                grid,
                (n + 1) as nat,
                mid,
                mid_slots,
                objects@,
                world.objects@,
            );
        }
        n = n + 1;
    }
}

/// The board after the assassins among the first `n` objects have struck,
/// one after the other in the order of the list.
pub open spec fn assassin_slots(
    objects: Seq<Object>,
    slots: Seq<Option<(u64, ObjectID)>>,
    grid: &Grid,
    n: nat,
) -> Seq<Option<(u64, ObjectID)>>
    decreases n,
{
    if n == 0 {
        slots
    } else {
        let rest = assassin_slots(objects, slots, grid, (n - 1) as nat);
        if objects[n - 1].id == ObjectID::Assassin {
            struck_slots(
                rest,
                grid,
                objects[n - 1].occupied@[0].x as int,
                objects[n - 1].occupied@[0].y as int,
                4,
            )
        } else {
            rest
        }
    }
}

/// Whom the assassins among the first `n` objects kill, in order.
pub open spec fn assassin_targets(
    objects: Seq<Object>,
    slots: Seq<Option<(u64, ObjectID)>>,
    grid: &Grid,
    n: nat,
) -> Seq<u64>
    decreases n,
{
    if n == 0 {
        Seq::empty()
    } else {
        let rest = assassin_slots(objects, slots, grid, (n - 1) as nat);
        let targets = assassin_targets(objects, slots, grid, (n - 1) as nat);
        if objects[n - 1].id == ObjectID::Assassin {
            targets + struck_targets(
                rest,
                grid,
                objects[n - 1].occupied@[0].x as int,
                objects[n - 1].occupied@[0].y as int,
                4,
            )
        } else {
            targets
        }
    }
}

/// Lets every assassin strike, in the order of the list.
pub fn strike(objects: &Vec<Object>, world: &mut World, grid: &Grid) -> (killed: Vec<u64>)
    requires
        grid.wf(),
        old(world).fits(grid),
        actors_wf(objects@, grid),
    ensures
        final(world).fits(grid),
        final(world).objects@ == assassin_slots(
            objects@,
            old(world).objects@,
            grid,
            objects@.len(),
        ),
        killed@ == assassin_targets(objects@, old(world).objects@, grid, objects@.len()),
{
    let mut killed: Vec<u64> = Vec::new();
    let mut n: usize = 0;
    while n < objects.len()
        invariant
            n <= objects@.len(),
            grid.wf(),
            world.fits(grid),
            actors_wf(objects@, grid),
            world.objects@ == assassin_slots(objects@, old(world).objects@, grid, n as nat),
            killed@ == assassin_targets(objects@, old(world).objects@, grid, n as nat),
        decreases objects@.len() - n,
    {
        if objects[n].id == ObjectID::Assassin {
            proof {
                assert(objects@[n as int].wf(grid));
            }
            let targets = get_entities_to_kill(world, &objects[n], grid);
            let ghost earlier = killed@;
            let mut k: usize = 0;
            while k < targets.len()
                invariant
                    k <= targets@.len(),
                    killed@ == earlier + targets@.take(k as int),
                decreases targets@.len() - k,
            {
                killed.push(targets[k]);
                proof {
                    assert(targets@.take(k as int + 1) =~= targets@.take(k as int).push(
                        targets@[k as int],
                    ));
                    assert(killed@ =~= earlier + targets@.take(k as int + 1));
                }
                k = k + 1;
            }
            proof {
                assert(targets@.take(targets@.len() as int) =~= targets@);
            }
        }
        n = n + 1;
    }
    killed
}

/// The king `object` has a way to the castle.
pub open spec fn has_route(object: Object, world: &World, grid: &Grid) -> bool {
    exists|route: Seq<Cell>| #[trigger]
        is_route(world, grid, route, object.occupied@[0], castle_cell(world, grid))
}

/// The places among the first `n` objects of the kings that have a way
/// to the castle, in order.
pub open spec fn winners(objects: Seq<Object>, world: &World, grid: &Grid, n: nat) -> Seq<int>
    decreases n,
{
    if n == 0 {
        Seq::empty()
    } else {
        let rest = winners(objects, world, grid, (n - 1) as nat);
        if objects[n - 1].id == ObjectID::King && has_route(objects[n - 1], world, grid) {
            rest.push(n - 1)
        } else {
            rest
        }
    }
}

/// `path` is the way that the search finds for the king `object` to the
/// castle, and as short as any.
pub open spec fn is_shortest_route(
    path: Seq<Cell>,
    object: Object,
    world: &World,
    grid: &Grid,
) -> bool {
    &&& king_route(object.occupied@[0], world, grid) == Some(path)
    &&& is_route(world, grid, path, object.occupied@[0], castle_cell(world, grid))
    &&& forall|other: Seq<Cell>| #[trigger]
        is_route(world, grid, other, object.occupied@[0], castle_cell(world, grid))
            ==> path.len() <= other.len()
}

/// `wins` holds one shortest way for each king that has a way to the
/// castle, in the order of the list.
pub open spec fn wins_of(
    wins: Seq<PlayerWinEvent>,
    objects: Seq<Object>,
    world: &World,
    grid: &Grid,
    n: nat,
) -> bool {
    &&& wins.len() == winners(objects, world, grid, n).len()
    &&& forall|k: int|
        0 <= k < wins.len() ==> is_shortest_route(
            (#[trigger] wins[k]).path@,
            objects[winners(objects, world, grid, n)[k]],
            world,
            grid,
        )
}

/// Lets every king look for a way to the castle, in the order of the list.
pub fn seek(objects: &Vec<Object>, world: &World, grid: &Grid) -> (wins: Vec<PlayerWinEvent>)
    requires
        grid.wf(),
        world.fits(grid),
        actors_wf(objects@, grid),
    ensures
        wins_of(wins@, objects@, world, grid, objects@.len()),
{
    let mut wins: Vec<PlayerWinEvent> = Vec::new();
    let mut n: usize = 0;
    while n < objects.len()
        invariant
            n <= objects@.len(),
            grid.wf(),
            world.fits(grid),
            actors_wf(objects@, grid),
            wins_of(wins@, objects@, world, grid, n as nat),
        decreases objects@.len() - n,
    {
        if objects[n].id == ObjectID::King {
            proof {
                assert(objects@[n as int].wf(grid));
            }
            let found = find_path(&objects[n], world, grid);
            proof {
                if found is Some {
                    assert(is_route(
                        world,
                        grid,
                        found.unwrap().0@,
                        objects@[n as int].occupied@[0],
                        castle_cell(world, grid),
                    ));
                }
            }
            let ghost earlier = wins@;
            let ghost hit = found is Some;
            note_win(&mut wins, found);
            proof {
                assert forall|k: int| 0 <= k < wins@.len() implies is_shortest_route(
                    (#[trigger] wins@[k]).path@,
                    objects@[winners(objects@, world, grid, n as nat + 1)[k]],
                    world,
                    grid,
                ) by {
                    if k < earlier.len() {
                        if hit {
                            assert(wins@.drop_last()[k] == earlier[k]);
                        }
                        assert(wins@[k] == earlier[k]);
                    }
                }
            }
        }
        n = n + 1;
    }
    wins
}

/// `entity` is one of `killed`.
pub open spec fn is_killed(killed: Seq<u64>, entity: u64) -> bool {
    killed.contains(entity)
}

/// Those of the first `n` objects that are not among `killed`, in order.
pub open spec fn survivors(objects: Seq<Object>, killed: Seq<u64>, n: nat) -> Seq<Object>
    decreases n,
{
    if n == 0 {
        Seq::empty()
    } else {
        let rest = survivors(objects, killed, (n - 1) as nat);
        if is_killed(killed, objects[n - 1].entity) {
            rest
        } else {
            rest.push(objects[n - 1])
        }
    }
}

fn contains_entity(killed: &Vec<u64>, entity: u64) -> (b: bool)
    ensures
        b == is_killed(killed@, entity),
{
    let mut k: usize = 0;
    while k < killed.len()
        invariant
            k <= killed@.len(),
            forall|j: int| 0 <= j < k ==> killed@[j] != entity,
        decreases killed@.len() - k,
    {
        if killed[k] == entity {
            return true;
        }
        k = k + 1;
    }
    false
}

/// One of the first `n` objects is a king that is among `killed`.
pub open spec fn king_among(objects: Seq<Object>, killed: Seq<u64>, n: int) -> bool {
    exists|i: int|
        0 <= i < n && (#[trigger] objects[i]).id == ObjectID::King && is_killed(
            killed,
            objects[i].entity,
        )
}

/// Whether a king is among the killed.
pub fn king_is_killed(objects: &Vec<Object>, killed: &Vec<u64>) -> (b: bool)
    ensures
        b == king_among(objects@, killed@, objects@.len() as int),
{
    let mut n: usize = 0;
    while n < objects.len()
        invariant
            n <= objects@.len(),
            !king_among(objects@, killed@, n as int),
        decreases objects@.len() - n,
    {
        if objects[n].id == ObjectID::King && contains_entity(killed, objects[n].entity) {
            return true;
        }
        proof {
            if king_among(objects@, killed@, n as int + 1) {
                let i = choose|i: int|
                    0 <= i < n + 1 && (#[trigger] objects@[i]).id == ObjectID::King && is_killed(
                        killed@,
                        objects@[i].entity,
                    );
                if i < n {
                    assert(king_among(objects@, killed@, n as int));
                }
            }
        }
        n = n + 1;
    }
    false
}

/// Takes the killed out of the objects.
pub fn bury(objects: &mut Vec<Object>, killed: &Vec<u64>)
    ensures
        final(objects)@ == survivors(old(objects)@, killed@, old(objects)@.len()),
{
    let ghost all = objects@;
    let mut n: usize = 0;
    let ghost mut seen: nat = 0;
    while n < objects.len()
        invariant
            n <= objects@.len(),
            all == old(objects)@,
            seen <= all.len(),
            n == survivors(all, killed@, seen).len(),
            objects@ == survivors(all, killed@, seen) + all.skip(seen as int),
        decreases objects@.len() - n,
    {
        proof {
            assert(objects@[n as int] == all.skip(seen as int)[0]);
        }
        if contains_entity(killed, objects[n].entity) {
            objects.remove(n);
            proof {
                assert(objects@ =~= survivors(all, killed@, seen + 1) + all.skip(seen as int + 1));
                seen = seen + 1;
            }
        } else {
            proof {
                assert(objects@ =~= survivors(all, killed@, seen + 1) + all.skip(seen as int + 1));
                seen = seen + 1;
            }
            n = n + 1;
        }
    }
    proof {
        assert(seen == all.len());
        assert(objects@ =~= survivors(all, killed@, all.len()));
    }
}

/// The assassins and the kings have acted on the objects `before` and the
/// board `before_slots`: every assassin has struck, every king has then
/// looked for its way over the board as the assassins left it, the death
/// of a king is made known, and the killed are gone from the objects.
pub open spec fn resolved(
    before: Seq<Object>,
    before_slots: Seq<Option<(u64, ObjectID)>>,
    grid: &Grid,
    after: Seq<Object>,
    world: &World,
    outcome: TurnOutcome,
) -> bool {
    &&& world.objects@ == assassin_slots(before, before_slots, grid, before.len())
    &&& outcome.killed@ == assassin_targets(before, before_slots, grid, before.len())
    &&& wins_of(outcome.wins@, before, world, grid, before.len())
    &&& outcome.king_killed == king_among(before, outcome.killed@, before.len() as int)
    &&& after == survivors(before, outcome.killed@, before.len())
}

/// The part of the turn that chance has no hand in: the assassins strike,
/// the kings look for their way, the killed are taken away.
pub fn resolve_turn(objects: &mut Vec<Object>, world: &mut World, grid: &Grid) -> (outcome:
    TurnOutcome)
    requires
        grid.wf(),
        old(world).fits(grid),
        actors_wf(old(objects)@, grid),
    ensures
        final(world).fits(grid),
        resolved(
            old(objects)@,
            old(world).objects@,
            grid,
            final(objects)@,
            final(world),
            outcome,
        ),
{
    let killed = strike(objects, world, grid);
    let wins = seek(objects, world, grid);
    let king_killed = king_is_killed(objects, &killed);
    bury(objects, &killed);
    TurnOutcome { wins, killed, king_killed }
}

/// The creatures' turn, taken once after each move of the player: first
/// the villagers, then the cows, then the assassins, then the kings, each
/// kind in the order of the list. Villagers and cows roam; assassins kill
/// the kings, villagers and cows next to them; kings look for a way to the
/// castle over the board as it then is. When all have acted, the killed
/// are taken out of the objects. Objects and board that agreed before the
/// turn agree after it, as long as every villager, cow and king covers one
/// cell.
pub fn handle_objects_act_turns_event(
    objects: &mut Vec<Object>,
    world: &mut World,
    grid: &Grid,
) -> (outcome: TurnOutcome)
    requires
        grid.wf(),
        old(world).fits(grid),
        actors_wf(old(objects)@, grid),
    ensures
        final(world).fits(grid),
        exists|
            first: Seq<Object>,
            first_slots: Seq<Option<(u64, ObjectID)>>,
            second: Seq<Object>,
            second_slots: Seq<Option<(u64, ObjectID)>>,
        |
            {
                &&& #[trigger] roamed(
                    ObjectID::Villager,
                    old(objects)@,
                    old(world).objects@,
                    grid,
                    old(objects)@.len(),
                    first,
                    first_slots,
                )
                &&& #[trigger] roamed(
                    ObjectID::Cow,
                    first,
                    first_slots,
                    grid,
                    first.len(),
                    second,
                    second_slots,
                )
                &&& resolved(second, second_slots, grid, final(objects)@, final(world), outcome)
            },
        agrees(old(objects)@, old(world).objects@, grid) && creatures_are_single(old(objects)@)
            ==> agrees(final(objects)@, final(world).objects@, grid) && creatures_are_single(
            final(objects)@,
        ),
{
    roam(ObjectID::Villager, objects, world, grid);
    let ghost first = objects@;
    let ghost first_slots = world.objects@;
    roam(ObjectID::Cow, objects, world, grid);
    let ghost second = objects@;
    let ghost second_slots = world.objects@;
    let outcome = resolve_turn(objects, world, grid);
    proof {
        assert(roamed(
            ObjectID::Villager,
            old(objects)@,
            old(world).objects@,
            grid,
            old(objects)@.len(),
            first,
            first_slots,
        ));
        assert(roamed(ObjectID::Cow, first, first_slots, grid, first.len(), second, second_slots));
        if agrees(old(objects)@, old(world).objects@, grid) && creatures_are_single(
            old(objects)@,
        ) {
            lemma_turn_keeps_agreement(
                old(objects)@,
                old(world).objects@,
                grid,
                first,
                first_slots,
                second,
                second_slots,
                objects@,
                world,
                outcome,
            );
        }
    }
    outcome
}

} // verus!
